//! The optional `[id]` placed immediately after the opening delimiter.
use crate::text::{
    chars_of, find_char_exec, find_char_from, is_ascii_alnum, lemma_find_char_from, skip_ws_exec,
    string_of, trim_start, lemma_trim_start_skip,
};
use vstd::prelude::*;
use vstd::string::StrSliceExecFns;

verus! {

pub open spec fn is_id_char(c: char) -> bool {
    is_ascii_alnum(c) || c == '-' || c == '_' || c == '.'
}

/// Valid IDs: letters, digits, `-`, `_`, `.`, starting alphanumeric.
pub open spec fn valid_id(t: Seq<char>) -> bool {
    &&& t.len() > 0
    &&& is_ascii_alnum(t[0])
    &&& forall|k: int| 1 <= k < t.len() ==> is_id_char(#[trigger] t[k])
}

/// The ID at the start of `s` and the index just past its `]`, if `s`
/// starts with a valid, terminated `[id]` that is not a markdown link.
pub open spec fn id_prefix(s: Seq<char>) -> Option<(Seq<char>, int)> {
    if s.len() > 0 && s[0] == '[' {
        match find_char_from(s, ']', 1) {
            Some(c) => {
                let cand = s.subrange(1, c);
                let after = s.skip(c + 1);
                if valid_id(cand) && !(after.len() > 0 && (after[0] == '(' || after[0] == '[')) {
                    Some((cand, c + 1))
                } else {
                    None
                }
            },
            None => None,
        }
    } else {
        None
    }
}

/// The ID (if any) and the text left for parsing.
pub open spec fn split_id(s: Seq<char>) -> (Option<Seq<char>>, Seq<char>) {
    match id_prefix(s) {
        Some((id, k)) => (Some(id), trim_start(s.skip(k))),
        None => (None, s),
    }
}

fn is_id_char_exec(c: char, first: bool) -> (b: bool)
    ensures
        b == (if first {
            is_ascii_alnum(c)
        } else {
            is_id_char(c)
        }),
{
    let alnum = ('a' <= c && c <= 'z') || ('A' <= c && c <= 'Z') || ('0' <= c && c <= '9');
    if first {
        alnum
    } else {
        alnum || c == '-' || c == '_' || c == '.'
    }
}

/// Position of the `]` that ends a valid ID at the start of `v`.
pub fn id_prefix_exec(v: &Vec<char>) -> (r: Option<usize>)
    ensures
        match r {
            Some(c) => 1 <= c < v.len() && id_prefix(v@) == Some((v@.subrange(1, c as int), c + 1)),
            None => id_prefix(v@) is None,
        },
{
    if v.len() == 0 || v[0] != '[' {
        return None;
    }
    proof {
        lemma_find_char_from(v@, ']', 1);
    }
    let close = match find_char_exec(v, ']', 1) {
        Some(c) => c,
        None => return None,
    };
    let ghost cand = v@.subrange(1, close as int);
    if close == 1 || !is_id_char_exec(v[1], true) {
        return None;
    }
    let mut k: usize = 2;
    while k < close
        invariant
            2 <= k <= close,
            close < v.len(),
            v@.len() > 0 && v@[0] == '[',
            find_char_from(v@, ']', 1) == Some(close as int),
            cand == v@.subrange(1, close as int),
            forall|m: int| 1 <= m < k - 1 ==> is_id_char(#[trigger] cand[m]),
        decreases close - k,
    {
        if !is_id_char_exec(v[k], false) {
            assert(cand[k - 1] == v@[k as int]);
            assert(!is_id_char(cand[k - 1]));
            assert(!valid_id(cand));
            return None;
        }
        k += 1;
    }
    assert(valid_id(cand));
    if close + 1 < v.len() && (v[close + 1] == '(' || v[close + 1] == '[') {
        assert(v@.skip(close + 1)[0] == v@[close + 1]);
        return None;
    }
    Some(close)
}

/// Extract an optional annotation ID from the start of a comment's inner text.
///
/// An ID is `[...]` placed immediately after the opening delimiter. Valid ID
/// characters: letters, digits, `-`, `_`, `.`; the first character must be
/// alphanumeric. An invalid or unterminated ID is not an error: the text
/// (brackets included) is left for normal parsing, and markdown links such
/// as `[text](url)` or `[text][ref]` are never IDs.
///
/// Returns the ID (if valid) and the remaining inner text with leading
/// whitespace trimmed.
pub fn extract_id(inner: &str) -> (r: (Option<String>, &str))
    ensures
        opt_str_view(r.0) == split_id(inner@).0,
        r.1@ == split_id(inner@).1,
{
    let v = chars_of(inner);
    match id_prefix_exec(&v) {
        Some(close) => {
            let id = string_of(&v, 1, close);
            let start = skip_ws_exec(&v, close + 1);
            proof {
                lemma_trim_start_skip(v@, close + 1);
            }
            let rest = inner.substring_char(start, v.len());
            (Some(id), rest)
        },
        None => (None, inner),
    }
}

pub open spec fn opt_str_view(o: Option<String>) -> Option<Seq<char>> {
    match o {
        Some(s) => Some(s@),
        None => None,
    }
}

/// A markdown link is never an ID: a comment that starts with `[text](`
/// keeps all of its text for parsing.
pub proof fn law_markdown_link_is_not_an_id(x: Seq<char>, rest: Seq<char>)
    requires
        !x.contains(']'),
    ensures
        split_id(seq!['['] + x + seq![']', '('] + rest) == (
            None::<Seq<char>>,
            seq!['['] + x + seq![']', '('] + rest,
        ),
{
    let s = seq!['['] + x + seq![']', '('] + rest;
    let c: int = x.len() as int + 1;
    assert(s[c] == ']');
    assert forall|m: int| 1 <= m < c implies s[m] != ']' by {
        assert(s[m] == x[m - 1]);
    }
    lemma_find_char_from(s, ']', 1);
    assert(find_char_from(s, ']', 1) == Some(c)) by {
        match find_char_from(s, ']', 1) {
            Some(k) => {
                if k > c {
                    assert(s[c] == ']');
                }
            },
            None => {
                assert(s[c] == ']');
            },
        }
    }
    assert(s.skip(c + 1)[0] == '(');
}

/// Every well-formed ID is recognised: a bracketed run that starts with an
/// ASCII letter or digit and goes on with ASCII letters of either case,
/// digits, `-`, `_` or `.`, and is not followed by `(` or `[`, is taken as the
/// ID, and the text after it (left-trimmed) is what is parsed.
pub proof fn law_valid_ids_are_recognised(x: Seq<char>, s: Seq<char>)
    requires
        x.len() > 0,
        ('a' <= x[0] <= 'z') || ('A' <= x[0] <= 'Z') || ('0' <= x[0] <= '9'),
        forall|k: int|
            1 <= k < x.len() ==> ('a' <= #[trigger] x[k] <= 'z') || ('A' <= x[k] <= 'Z') || ('0'
                <= x[k] <= '9') || x[k] == '-' || x[k] == '_' || x[k] == '.',
        !(s.len() > 0 && (s[0] == '(' || s[0] == '[')),
    ensures
        split_id(seq!['['] + x + seq![']'] + s) == (Some(x), trim_start(s)),
{
    let full = seq!['['] + x + seq![']'] + s;
    let c: int = x.len() as int + 1;
    assert(full[c] == ']');
    assert forall|m: int| 1 <= m < c implies full[m] != ']' by {
        assert(full[m] == x[m - 1]);
    }
    lemma_find_char_from(full, ']', 1);
    assert(find_char_from(full, ']', 1) == Some(c)) by {
        match find_char_from(full, ']', 1) {
            Some(k) => {
                if k > c {
                    assert(full[c] == ']');
                }
            },
            None => {
                assert(full[c] == ']');
            },
        }
    }
    assert(full.subrange(1, c) =~= x);
    assert(valid_id(x));
    assert(full.skip(c + 1) =~= s);
}

} // verus!
