//! Migration from legacy standard-comment annotations (`<!-- -->`) to
//! triple-dash annotation comments (`<!--- --->`).
//!
//! Only comments with detectable annotation structure are converted; plain
//! prose comments (and `raw:` comments) stay standard comments.
use crate::compact::is_structured_annotation;
use crate::parser::classify_spec;
use crate::scanner::{fenced_ranges, find_fenced_ranges, in_fenced, is_in_fenced_range, ranges_view};
use crate::insertion::{
    ins_rel, lemma_fences_bounds, lemma_fences_insert, lemma_in_fenced_map, lemma_ins_concat,
    lemma_ins_copy, lemma_ins_dash_after, lemma_ins_dash_before, lemma_ins_transfer, map_ranges,
};
use crate::text::{
    chars_of, find_from, find_from_exec, lemma_find_from, lemma_find_from_none,
    lemma_find_from_unique, matches_at, string_of, trim, trim_range,
};
use vstd::prelude::*;

verus! {

/// Result of migrating one document.
pub struct MigrationResult {
    /// The migrated document text.
    pub output: String,
    /// Number of comments converted to triple-dash form.
    pub conversions: usize,
}

pub open spec fn open_std() -> Seq<char> {
    seq!['<', '!', '-', '-']
}

pub open spec fn close_std() -> Seq<char> {
    seq!['-', '-', '>']
}

/// Inner text that a legacy comment must have to be converted: once
/// trimmed, it has detectable annotation structure.
#[verifier::opaque]
pub open spec fn convertible(inner: Seq<char>) -> bool {
    classify_spec(trim(inner), Seq::empty()).2
}

proof fn lemma_convertible(inner: Seq<char>)
    ensures
        convertible(inner) == classify_spec(trim(inner), Seq::empty()).2,
{
    reveal(convertible);
}

/// The migrated text from `pos` on, and how many comments it converts.
pub open spec fn migrate_from(s: Seq<char>, f: Seq<(int, int)>, pos: int) -> (Seq<char>, nat)
    decreases s.len() + 1 - pos,
{
    match find_from(s, open_std(), pos) {
        None => (s.skip(pos), 0),
        Some(o) => if o < pos || o + 4 > s.len() {
            (s.skip(pos), 0)
        } else if in_fenced(f, o) || (o + 4 < s.len() && s[o + 4] == '-') {
            let (r, n) = migrate_from(s, f, o + 4);
            (s.subrange(pos, o + 4) + r, n)
        } else {
            match find_from(s, close_std(), o + 4) {
                None => (s.skip(pos), 0),
                Some(c) => if c < o + 4 || c + 3 > s.len() {
                    (s.skip(pos), 0)
                } else {
                    let inner = s.subrange(o + 4, c);
                    let (r, n) = migrate_from(s, f, c + 3);
                    if convertible(inner) {
                        (
                            s.subrange(pos, o) + seq!['<', '!', '-', '-', '-'] + inner + seq![
                                '-',
                                '-',
                                '-',
                                '>',
                            ] + r,
                            n + 1,
                        )
                    } else {
                        (s.subrange(pos, c + 3) + r, n)
                    }
                },
            }
        },
    }
}

/// The migration of a whole document.
pub open spec fn migration(s: Seq<char>) -> (Seq<char>, nat) {
    migrate_from(s, fenced_ranges(s), 0)
}

fn push_range(out: &mut Vec<char>, v: &Vec<char>, lo: usize, hi: usize)
    requires
        lo <= hi <= v.len(),
    ensures
        final(out)@ == old(out)@ + v@.subrange(lo as int, hi as int),
{
    let ghost start = out@;
    let mut i = lo;
    while i < hi
        invariant
            lo <= i <= hi <= v.len(),
            out@ == start + v@.subrange(lo as int, i as int),
        decreases hi - i,
    {
        out.push(v[i]);
        i += 1;
        assert(out@ =~= start + v@.subrange(lo as int, i as int));
    }
}

/// Convert legacy structured `<!-- -->` annotations in `content` to
/// `<!--- --->` form. Already-migrated comments, plain prose comments,
/// fenced comments, and unclosed comments are left untouched.
pub fn migrate_content(content: &str) -> (r: MigrationResult)
    ensures
        (r.output@, r.conversions as nat) == migration(content@),
{
    let v = chars_of(content);
    let fences = find_fenced_ranges(&v);
    let ghost s = v@;
    let ghost f = ranges_view(fences@);
    let open = vec!['<', '!', '-', '-'];
    let close = vec!['-', '-', '>'];
    assert(open@ == open_std());
    assert(close@ == close_std());
    let mut out: Vec<char> = Vec::new();
    let mut conversions: usize = 0;
    let mut pos: usize = 0;
    loop
        invariant
            s == v@,
            f == fenced_ranges(s),
            f == ranges_view(fences@),
            open@ == open_std(),
            close@ == close_std(),
            pos <= v.len(),
            conversions <= pos,
            out@ + migrate_from(s, f, pos as int).0 == migration(s).0,
            conversions + migrate_from(s, f, pos as int).1 == migration(s).1,
        ensures
            pos <= v.len(),
            out@ + s.skip(pos as int) == migration(s).0,
            conversions == migration(s).1,
        decreases v.len() + 1 - pos,
    {
        let ghost old_pos = pos as int;
        let ghost old_out = out@;
        proof {
            lemma_find_from(s, open_std(), pos as int);
        }
        let o = match find_from_exec(&v, &open, pos) {
            Some(o) => o,
            None => {
                assert(migrate_from(s, f, pos as int) == (s.skip(pos as int), 0nat));
                break;
            },
        };
        let after = o + 4;
        if is_in_fenced_range(o, &fences) || (after < v.len() && v[after] == '-') {
            push_range(&mut out, &v, pos, after);
            assert(old_out + migrate_from(s, f, old_pos).0 =~= out@ + migrate_from(
                s,
                f,
                after as int,
            ).0);
            pos = after;
            continue;
        }
        proof {
            lemma_find_from(s, close_std(), after as int);
        }
        let c = match find_from_exec(&v, &close, after) {
            Some(c) => c,
            None => {
                assert(migrate_from(s, f, pos as int) == (s.skip(pos as int), 0nat));
                break;
            },
        };
        let end = c + 3;
        let (a, b) = trim_range(&v, after, c);
        let trimmed = string_of(&v, a, b);
        let ghost inner = s.subrange(after as int, c as int);
        assert(trimmed@ == trim(inner));
        proof {
            lemma_convertible(inner);
        }
        if !is_structured_annotation(trimmed.as_str()) {
            push_range(&mut out, &v, pos, end);
            assert(old_out + migrate_from(s, f, old_pos).0 =~= out@ + migrate_from(
                s,
                f,
                end as int,
            ).0);
            pos = end;
            continue;
        }
        push_range(&mut out, &v, pos, o);
        out.push('<');
        out.push('!');
        out.push('-');
        out.push('-');
        out.push('-');
        push_range(&mut out, &v, after, c);
        out.push('-');
        out.push('-');
        out.push('-');
        out.push('>');
        assert(old_out + migrate_from(s, f, old_pos).0 =~= out@ + migrate_from(
            s,
            f,
            end as int,
        ).0);
        conversions = conversions + 1;
        pos = end;
    }
    let ghost before = out@;
    push_range(&mut out, &v, pos, v.len());
    assert(out@ =~= before + s.skip(pos as int));
    MigrationResult { output: string_of(&out, 0, out.len()), conversions }
}

proof fn lemma_migrate_len(s: Seq<char>, f: Seq<(int, int)>, pos: int)
    requires
        0 <= pos <= s.len(),
    ensures
        migrate_from(s, f, pos).0.len() == (s.len() - pos) + 2 * migrate_from(s, f, pos).1,
    decreases s.len() + 1 - pos,
{
    lemma_find_from(s, open_std(), pos);
    match find_from(s, open_std(), pos) {
        None => {},
        Some(o) => {
            if o < pos || o + 4 > s.len() {
            } else if in_fenced(f, o) || (o + 4 < s.len() && s[o + 4] == '-') {
                lemma_migrate_len(s, f, o + 4);
            } else {
                lemma_find_from(s, close_std(), o + 4);
                match find_from(s, close_std(), o + 4) {
                    None => {},
                    Some(c) => {
                        if c < o + 4 || c + 3 > s.len() {
                        } else {
                            lemma_migrate_len(s, f, c + 3);
                        }
                    },
                }
            }
        },
    }
}

/// Migration only inserts text: each converted comment gains exactly one
/// dash after its opening and one before its closing delimiter, and nothing
/// else changes length.
pub proof fn law_migration_adds_two_dashes_per_conversion(s: Seq<char>)
    ensures
        migration(s).0.len() == s.len() + 2 * migration(s).1,
{
    lemma_migrate_len(s, fenced_ranges(s), 0);
}

// ------------------------------------------------------------ idempotence

/// No comment that migration converts holds a whole comment opening
/// (`<!--`) inside it.
pub open spec fn nested_free_from(s: Seq<char>, f: Seq<(int, int)>, pos: int) -> bool
    decreases s.len() + 1 - pos,
{
    match find_from(s, open_std(), pos) {
        None => true,
        Some(o) => if o < pos || o + 4 > s.len() {
            true
        } else if in_fenced(f, o) || (o + 4 < s.len() && s[o + 4] == '-') {
            nested_free_from(s, f, o + 4)
        } else {
            match find_from(s, close_std(), o + 4) {
                None => true,
                Some(c) => if c < o + 4 || c + 3 > s.len() {
                    true
                } else {
                    &&& convertible(s.subrange(o + 4, c)) ==> forall|x: int|
                        o + 4 <= x && x + 4 <= c ==> !#[trigger] matches_at(s, open_std(), x)
                    &&& nested_free_from(s, f, c + 3)
                },
            }
        },
    }
}


/// Two texts agree on `n` characters from `a` and `b`: a pattern that fits
/// there occurs at the same place in both.
proof fn lemma_match_same(
    t: Seq<char>,
    a: int,
    s: Seq<char>,
    b: int,
    n: int,
    p: Seq<char>,
    j: int,
)
    requires
        0 <= a,
        a + n <= t.len(),
        0 <= b,
        b + n <= s.len(),
        t.subrange(a, a + n) == s.subrange(b, b + n),
        0 <= j,
        j + p.len() <= n,
    ensures
        matches_at(t, p, a + j) == matches_at(s, p, b + j),
{
    let x = t.subrange(a + j, a + j + p.len());
    let y = s.subrange(b + j, b + j + p.len());
    assert forall|i: int| 0 <= i < p.len() implies #[trigger] x[i] == y[i] by {
        assert(t.subrange(a, a + n)[j + i] == s.subrange(b, b + n)[j + i]);
        assert(t.subrange(a, a + n)[j + i] == t[a + j + i]);
        assert(s.subrange(b, b + n)[j + i] == s[b + j + i]);
        assert(x[i] == t[a + j + i]);
        assert(y[i] == s[b + j + i]);
    }
    assert(x =~= y);
}

/// With no occurrence of `p` in `[a, b)`, searching from `a` finds what
/// searching from `b` finds.
proof fn lemma_find_skip(t: Seq<char>, p: Seq<char>, a: int, b: int)
    requires
        0 <= a <= b,
        forall|m: int| a <= m < b ==> !#[trigger] matches_at(t, p, m),
    ensures
        find_from(t, p, a) == find_from(t, p, b),
    decreases b - a,
{
    if a < b && a + p.len() <= t.len() {
        lemma_find_skip(t, p, a + 1, b);
    } else if a < b {
        lemma_find_from_none(t, p, b);
    }
}

/// How many comments a migration converts from `p` depends only on where
/// the next comment opening is.
proof fn lemma_same_next(t: Seq<char>, g: Seq<(int, int)>, p1: int, p2: int)
    requires
        0 <= p1 <= p2,
        find_from(t, open_std(), p1) == find_from(t, open_std(), p2),
    ensures
        migrate_from(t, g, p1).1 == migrate_from(t, g, p2).1,
{
    lemma_find_from(t, open_std(), p2);
}

/// Migrated text from `p` starts with the character at `p` when that
/// character cannot open a comment.
proof fn lemma_first_char(s: Seq<char>, f: Seq<(int, int)>, p: int)
    requires
        0 <= p < s.len(),
        s[p] != '<',
    ensures
        migrate_from(s, f, p).0.len() > 0,
        migrate_from(s, f, p).0[0] == s[p],
{
    lemma_find_from(s, open_std(), p);
    match find_from(s, open_std(), p) {
        None => {},
        Some(o) => {
            assert(s.subrange(o, o + 4)[0] == s[o]);
            assert(o != p);
            lemma_find_from(s, close_std(), o + 4);
        },
    }
}

/// A migration that converts nothing leaves the text as it is.
proof fn lemma_unchanged_when_none(t: Seq<char>, g: Seq<(int, int)>, q: int)
    requires
        0 <= q <= t.len(),
        migrate_from(t, g, q).1 == 0,
    ensures
        migrate_from(t, g, q).0 == t.skip(q),
    decreases t.len() + 1 - q,
{
    lemma_find_from(t, open_std(), q);
    match find_from(t, open_std(), q) {
        None => {},
        Some(o) => {
            if o < q || o + 4 > t.len() {
            } else if in_fenced(g, o) || (o + 4 < t.len() && t[o + 4] == '-') {
                lemma_unchanged_when_none(t, g, o + 4);
                assert(t.subrange(q, o + 4) + t.skip(o + 4) =~= t.skip(q));
            } else {
                lemma_find_from(t, close_std(), o + 4);
                match find_from(t, close_std(), o + 4) {
                    None => {},
                    Some(c) => {
                        if c < o + 4 || c + 3 > t.len() {
                        } else if convertible(t.subrange(o + 4, c)) {
                        } else {
                            lemma_unchanged_when_none(t, g, c + 3);
                            assert(t.subrange(q, c + 3) + t.skip(c + 3) =~= t.skip(q));
                        }
                    },
                }
            }
        },
    }
}



/// Where `t` repeats `s` from `a` up to the end of the first occurrence of
/// `p`, the first occurrence in `t` is at the same place.
proof fn lemma_first_same(s: Seq<char>, p: Seq<char>, a: int, k: int, t: Seq<char>, a2: int)
    requires
        0 <= a <= k,
        k + p.len() <= s.len(),
        find_from(s, p, a) == Some(k),
        0 <= a2,
        a2 + (k + p.len() - a) <= t.len(),
        t.subrange(a2, a2 + (k + p.len() - a)) == s.subrange(a, k + p.len()),
    ensures
        find_from(t, p, a2) == Some(a2 + k - a),
{
    lemma_find_from(s, p, a);
    let n = k + p.len() - a;
    lemma_match_same(t, a2, s, a, n, p, k - a);
    assert forall|m: int| a2 <= m < a2 + k - a implies !#[trigger] matches_at(t, p, m) by {
        lemma_match_same(t, a2, s, a, n, p, m - a2);
    }
    lemma_find_from_unique(t, p, a2, a2 + k - a);
}

proof fn lemma_skip_concat(t: Seq<char>, q: int, a: Seq<char>, b: Seq<char>)
    requires
        0 <= q <= t.len(),
        t.skip(q) == a + b,
    ensures
        q + a.len() <= t.len(),
        t.subrange(q, q + a.len()) == a,
        t.skip(q + a.len()) == b,
{
    assert(t.skip(q).len() == t.len() - q);
    assert forall|i: int| 0 <= i < a.len() implies #[trigger] t.subrange(q, q + a.len())[i]
        == a[i] by {
        assert(t.skip(q)[i] == t[q + i]);
        assert((a + b)[i] == a[i]);
    }
    assert forall|i: int| 0 <= i < b.len() implies #[trigger] t.skip(q + a.len())[i] == b[i] by {
        assert(t.skip(q)[a.len() + i] == t[q + a.len() + i]);
        assert((a + b)[a.len() + i] == b[i]);
    }
    assert(t.subrange(q, q + a.len()) =~= a);
    assert(t.skip(q + a.len()) =~= b);
}

proof fn lemma_sub_of_equal(t: Seq<char>, a: int, s: Seq<char>, b: int, n: int, i: int, j: int)
    requires
        0 <= a,
        a + n <= t.len(),
        0 <= b,
        b + n <= s.len(),
        t.subrange(a, a + n) == s.subrange(b, b + n),
        0 <= i <= j <= n,
    ensures
        t.subrange(a + i, a + j) == s.subrange(b + i, b + j),
{
    assert forall|k: int| 0 <= k < j - i implies #[trigger] t.subrange(a + i, a + j)[k]
        == s.subrange(b + i, b + j)[k] by {
        assert(t.subrange(a, a + n)[i + k] == s.subrange(b, b + n)[i + k]);
        assert(t.subrange(a, a + n)[i + k] == t[a + i + k]);
        assert(s.subrange(b, b + n)[i + k] == s[b + i + k]);
        assert(t.subrange(a + i, a + j)[k] == t[a + i + k]);
        assert(s.subrange(b + i, b + j)[k] == s[b + i + k]);
    }
    assert(t.subrange(a + i, a + j) =~= s.subrange(b + i, b + j));
}

proof fn lemma_open_chars(t: Seq<char>, m: int)
    requires
        matches_at(t, open_std(), m),
    ensures
        t[m] == '<',
        t[m + 1] == '!',
{
    assert(t.subrange(m, m + 4)[0] == t[m]);
    assert(t.subrange(m, m + 4)[1] == t[m + 1]);
}

/// The second migration pass over a converted comment `<!---inner--->`:
/// whatever comment openings it meets inside are triple-dash ones, so it
/// converts nothing there and goes on after the comment.
proof fn lemma_second_pass_converted(
    t: Seq<char>,
    g: Seq<(int, int)>,
    s: Seq<char>,
    o: int,
    c: int,
    o2: int,
)
    requires
        0 <= o,
        o + 4 <= c,
        c + 3 <= s.len(),
        0 <= o2,
        o2 + c - o + 5 <= t.len(),
        t[o2 + 4] == '-',
        t.subrange(o2 + 5, o2 + c - o + 1) == s.subrange(o + 4, c),
        t.subrange(o2 + c - o + 1, o2 + c - o + 5) == seq!['-', '-', '-', '>'],
        forall|x: int| o + 4 <= x && x + 4 <= c ==> !#[trigger] matches_at(s, open_std(), x),
    ensures
        migrate_from(t, g, o2 + 4).1 == migrate_from(t, g, o2 + c - o + 5).1,
{
    let op = open_std();
    let ic = o2 + c - o + 1;
    let e2 = ic + 4;
    let cc = seq!['-', '-', '-', '>'];
    assert forall|i: int| 0 <= i < 4 implies t[ic + i] == #[trigger] cc[i] by {
        assert(t.subrange(ic, e2)[i] == t[ic + i]);
    }
    assert forall|m: int| ic - 1 <= m < e2 implies !#[trigger] matches_at(t, op, m) by {
        if matches_at(t, op, m) {
            lemma_open_chars(t, m);
        }
    }
    assert forall|m: int| o2 + 4 <= m < ic - 3 implies !#[trigger] matches_at(t, op, m) by {
        if m == o2 + 4 {
            if matches_at(t, op, m) {
                lemma_open_chars(t, m);
            }
        } else {
            lemma_match_same(t, o2 + 5, s, o + 4, c - o - 4, op, m - o2 - 5);
        }
    }
    if ic - 3 >= o2 + 4 && matches_at(t, op, ic - 3) {
        lemma_find_from_unique(t, op, o2 + 4, ic - 3);
        lemma_find_skip(t, op, ic + 1, e2);
        lemma_same_next(t, g, ic + 1, e2);
    } else if ic - 2 >= o2 + 4 && matches_at(t, op, ic - 2) {
        lemma_find_from_unique(t, op, o2 + 4, ic - 2);
        lemma_find_skip(t, op, ic + 2, e2);
        lemma_same_next(t, g, ic + 2, e2);
    } else {
        lemma_find_skip(t, op, o2 + 4, e2);
        lemma_same_next(t, g, o2 + 4, e2);
    }
}

/// The second migration pass over text that, from `q` on, is what the first
/// pass made of `s` from `pos` on: it converts nothing.
proof fn lemma_second_pass(
    s: Seq<char>,
    f: Seq<(int, int)>,
    pos: int,
    t: Seq<char>,
    g: Seq<(int, int)>,
    q: int,
)
    requires
        0 <= pos <= s.len(),
        0 <= q <= t.len(),
        t.skip(q) == migrate_from(s, f, pos).0,
        nested_free_from(s, f, pos),
        forall|k: int|
            pos <= k < s.len() ==> #[trigger] in_fenced(f, k) == in_fenced(
                g,
                q + img_from(s, f, pos, k),
            ),
    ensures
        migrate_from(t, g, q).1 == 0,
    decreases s.len() + 1 - pos,
{
    let op = open_std();
    let cl = close_std();
    let u = migrate_from(s, f, pos).0;
    lemma_find_from(s, op, pos);
    match find_from(s, op, pos) {
        None => {
            let n = s.len() - pos;
            assert(u == s.skip(pos));
            assert(s.skip(pos) + Seq::<char>::empty() =~= s.skip(pos));
            lemma_skip_concat(t, q, s.skip(pos), Seq::<char>::empty());
            assert(s.skip(pos) =~= s.subrange(pos, pos + n));
            assert forall|m: int| q <= m implies !#[trigger] matches_at(t, op, m) by {
                if m + 4 <= t.len() {
                    lemma_match_same(t, q, s, pos, n, op, m - q);
                }
            }
            lemma_find_from_none(t, op, q);
        },
        Some(o) => {
            let o2 = q + o - pos;
            let n0 = o + 4 - pos;
            assert(img_from(s, f, pos, o) == o - pos);
            assert(in_fenced(f, o) == in_fenced(g, o2));
            if in_fenced(f, o) || (o + 4 < s.len() && s[o + 4] == '-') {
                let r1 = migrate_from(s, f, o + 4).0;
                assert(u == s.subrange(pos, o + 4) + r1);
                lemma_skip_concat(t, q, s.subrange(pos, o + 4), r1);
                lemma_first_same(s, op, pos, o, t, q);
                assert(t.skip(o2 + 4) =~= r1);
                if !in_fenced(f, o) {
                    lemma_first_char(s, f, o + 4);
                    assert(t[o2 + 4] == t.skip(o2 + 4)[0]);
                }
                assert forall|k: int| o + 4 <= k < s.len() implies #[trigger] in_fenced(f, k)
                    == in_fenced(g, o2 + 4 + img_from(s, f, o + 4, k)) by {
                    assert(img_from(s, f, pos, k) == (o + 4 - pos) + img_from(s, f, o + 4, k));
                }
                lemma_second_pass(s, f, o + 4, t, g, o2 + 4);
            } else {
                lemma_find_from(s, cl, o + 4);
                match find_from(s, cl, o + 4) {
                    None => {
                        let n = s.len() - pos;
                        assert(u == s.skip(pos));
                        assert(s.skip(pos) + Seq::<char>::empty() =~= s.skip(pos));
                        lemma_skip_concat(t, q, s.skip(pos), Seq::<char>::empty());
                        assert(s.skip(pos) =~= s.subrange(pos, pos + n));
                        assert(t.subrange(q, q + n0) =~= s.subrange(pos, o + 4));
                        lemma_first_same(s, op, pos, o, t, q);
                        if o + 4 < s.len() {
                            assert(t.subrange(q, q + n)[o + 4 - pos] == s.subrange(pos, pos + n)[o
                                + 4 - pos]);
                            assert(t[o2 + 4] == s[o + 4]);
                        }
                        assert forall|m: int| o2 + 4 <= m implies !#[trigger] matches_at(
                            t,
                            cl,
                            m,
                        ) by {
                            if m + 3 <= t.len() {
                                lemma_match_same(t, q, s, pos, n, cl, m - q);
                            }
                        }
                        lemma_find_from_none(t, cl, o2 + 4);
                    },
                    Some(c) => {
                        let inner = s.subrange(o + 4, c);
                        let r3 = migrate_from(s, f, c + 3).0;
                        let c2 = q + c - pos;
                        if !convertible(inner) {
                            let n3 = c + 3 - pos;
                            assert(u == s.subrange(pos, c + 3) + r3);
                            lemma_skip_concat(t, q, s.subrange(pos, c + 3), r3);
                            assert(t.subrange(q, q + n0) =~= s.subrange(pos, o + 4));
                            lemma_first_same(s, op, pos, o, t, q);
                            assert(t.subrange(q, q + n3)[o + 4 - pos] == s.subrange(pos, c + 3)[o
                                + 4 - pos]);
                            assert(t[o2 + 4] == s[o + 4]);
                            lemma_sub_of_equal(t, q, s, pos, n3, o + 4 - pos, n3);
                            lemma_first_same(s, cl, o + 4, c, t, o2 + 4);
                            assert(t.subrange(o2 + 4, c2) =~= inner);
                            assert(t.skip(c2 + 3) =~= r3);
                            assert forall|k: int| c + 3 <= k < s.len() implies #[trigger] in_fenced(
                                f,
                                k,
                            ) == in_fenced(g, c2 + 3 + img_from(s, f, c + 3, k)) by {
                                assert(img_from(s, f, pos, k) == (c + 3 - pos) + img_from(
                                    s,
                                    f,
                                    c + 3,
                                    k,
                                ));
                            }
                            lemma_second_pass(s, f, c + 3, t, g, c2 + 3);
                        } else {
                            let a = s.subrange(pos, o);
                            let b = seq!['<', '!', '-', '-', '-'];
                            let cc = seq!['-', '-', '-', '>'];
                            let w = a + b + inner + cc;
                            let e2 = q + w.len();
                            assert(u == w + r3);
                            lemma_skip_concat(t, q, w, r3);
                            assert(s.subrange(o, o + 4) == op);
                            assert forall|i: int| 0 <= i < n0 implies #[trigger] t.subrange(
                                q,
                                q + n0,
                            )[i] == s.subrange(pos, o + 4)[i] by {
                                assert(t.subrange(q, q + n0)[i] == w[i]);
                                if i >= o - pos {
                                    assert(s.subrange(pos, o + 4)[i] == s.subrange(o, o + 4)[i
                                        - (o - pos)]);
                                }
                            }
                            assert(t.subrange(q, q + n0) =~= s.subrange(pos, o + 4));
                            lemma_first_same(s, op, pos, o, t, q);
                            assert(t[o2 + 4] == w[o - pos + 4]);
                            assert(w.subrange(0, w.len() as int) =~= w);
                            assert(w.subrange(o - pos + 5, c - pos + 1) =~= inner);
                            assert(w.subrange(c - pos + 1, c - pos + 5) =~= cc);
                            lemma_sub_of_equal(t, q, w, 0, w.len() as int, o - pos + 5, c - pos + 1);
                            lemma_sub_of_equal(t, q, w, 0, w.len() as int, c - pos + 1, c - pos + 5);
                            lemma_second_pass_converted(t, g, s, o, c, o2);
                            assert(e2 == o2 + c - o + 5);
                            assert forall|k: int| c + 3 <= k < s.len() implies #[trigger] in_fenced(
                                f,
                                k,
                            ) == in_fenced(g, e2 + img_from(s, f, c + 3, k)) by {
                                assert(img_from(s, f, pos, k) == (c + 5 - pos) + img_from(
                                    s,
                                    f,
                                    c + 3,
                                    k,
                                ));
                            }
                            lemma_second_pass(s, f, c + 3, t, g, e2);
                        }
                    },
                }
            }
        },
    }
}

/// Where the migration from `pos` puts the character `s[k]` (`k >= pos`),
/// counted from the start of what it outputs.
pub open spec fn img_from(s: Seq<char>, f: Seq<(int, int)>, pos: int, k: int) -> int
    decreases s.len() + 1 - pos,
{
    match find_from(s, open_std(), pos) {
        None => k - pos,
        Some(o) => if o < pos || o + 4 > s.len() {
            k - pos
        } else if in_fenced(f, o) || (o + 4 < s.len() && s[o + 4] == '-') {
            if k < o + 4 {
                k - pos
            } else {
                (o + 4 - pos) + img_from(s, f, o + 4, k)
            }
        } else {
            match find_from(s, close_std(), o + 4) {
                None => k - pos,
                Some(c) => if c < o + 4 || c + 3 > s.len() {
                    k - pos
                } else if convertible(s.subrange(o + 4, c)) {
                    if k < o + 4 {
                        k - pos
                    } else if k < c {
                        k - pos + 1
                    } else if k < c + 3 {
                        k - pos + 2
                    } else {
                        (c + 5 - pos) + img_from(s, f, c + 3, k)
                    }
                } else {
                    if k < c + 3 {
                        k - pos
                    } else {
                        (c + 3 - pos) + img_from(s, f, c + 3, k)
                    }
                },
            }
        },
    }
}

/// Migration only inserts dashes, each beside a dash of the document.
proof fn lemma_migration_inserts(s: Seq<char>, f: Seq<(int, int)>, pos: int)
    requires
        0 <= pos <= s.len(),
    ensures
        ins_rel(s, pos, s.len() as int, migrate_from(s, f, pos).0, |k: int| img_from(s, f, pos, k)),
    decreases s.len() + 1 - pos,
{
    let n = s.len() as int;
    let u = migrate_from(s, f, pos).0;
    let hh = |k: int| img_from(s, f, pos, k);
    lemma_find_from(s, open_std(), pos);
    match find_from(s, open_std(), pos) {
        None => {
            lemma_ins_copy(s, pos, n);
            lemma_ins_transfer(s, pos, n, u, |k: int| k - pos, hh);
        },
        Some(o) => {
            assert(s.subrange(o, o + 4) == open_std());
            assert(s[o + 3] == s.subrange(o, o + 4)[3]);
            if in_fenced(f, o) || (o + 4 < s.len() && s[o + 4] == '-') {
                let r1 = migrate_from(s, f, o + 4).0;
                let h1 = |k: int| img_from(s, f, o + 4, k);
                let ha = |k: int| k - pos;
                lemma_ins_copy(s, pos, o + 4);
                lemma_migration_inserts(s, f, o + 4);
                lemma_ins_concat(s, pos, o + 4, n, s.subrange(pos, o + 4), ha, r1, h1);
                lemma_ins_transfer(
                    s,
                    pos,
                    n,
                    s.subrange(pos, o + 4) + r1,
                    |k: int|
                        if k < o + 4 {
                            ha(k)
                        } else {
                            s.subrange(pos, o + 4).len() + h1(k)
                        },
                    hh,
                );
            } else {
                lemma_find_from(s, close_std(), o + 4);
                match find_from(s, close_std(), o + 4) {
                    None => {
                        lemma_ins_copy(s, pos, n);
                        lemma_ins_transfer(s, pos, n, u, |k: int| k - pos, hh);
                    },
                    Some(c) => {
                        let r3 = migrate_from(s, f, c + 3).0;
                        let h3 = |k: int| img_from(s, f, c + 3, k);
                        lemma_migration_inserts(s, f, c + 3);
                        if convertible(s.subrange(o + 4, c)) {
                            assert(s.subrange(c, c + 3) == close_std());
                            assert(s[c] == s.subrange(c, c + 3)[0]);
                            let p1 = s.subrange(pos, o + 4) + seq!['-'];
                            let p2 = s.subrange(o + 4, c);
                            let p3 = seq!['-'] + s.subrange(c, c + 3);
                            let g1 = |k: int|
                                if k < o + 4 {
                                    k - pos
                                } else {
                                    o + 4 - pos + 1
                                };
                            let g2 = |k: int| k - (o + 4);
                            let g3 = |k: int| k - c + 1;
                            lemma_ins_dash_after(s, pos, o + 4);
                            lemma_ins_copy(s, o + 4, c);
                            lemma_ins_dash_before(s, c, c + 3);
                            lemma_ins_concat(s, pos, o + 4, c, p1, g1, p2, g2);
                            let g12 = |k: int|
                                if k < o + 4 {
                                    g1(k)
                                } else {
                                    p1.len() + g2(k)
                                };
                            lemma_ins_concat(s, pos, c, c + 3, p1 + p2, g12, p3, g3);
                            let g123 = |k: int|
                                if k < c {
                                    g12(k)
                                } else {
                                    (p1 + p2).len() + g3(k)
                                };
                            lemma_ins_concat(s, pos, c + 3, n, p1 + p2 + p3, g123, r3, h3);
                            assert(u =~= p1 + p2 + p3 + r3);
                            lemma_ins_transfer(
                                s,
                                pos,
                                n,
                                p1 + p2 + p3 + r3,
                                |k: int|
                                    if k < c + 3 {
                                        g123(k)
                                    } else {
                                        (p1 + p2 + p3).len() + h3(k)
                                    },
                                hh,
                            );
                        } else {
                            let ha = |k: int| k - pos;
                            lemma_ins_copy(s, pos, c + 3);
                            lemma_ins_concat(s, pos, c + 3, n, s.subrange(pos, c + 3), ha, r3, h3);
                            lemma_ins_transfer(
                                s,
                                pos,
                                n,
                                s.subrange(pos, c + 3) + r3,
                                |k: int|
                                    if k < c + 3 {
                                        ha(k)
                                    } else {
                                        s.subrange(pos, c + 3).len() + h3(k)
                                    },
                                hh,
                            );
                        }
                    },
                }
            }
        },
    }
}

/// Migration is idempotent: running it on its own output converts nothing
/// and changes nothing, for every document in which no comment that it
/// converts holds a whole comment opening (`<!--`) inside it.
pub proof fn law_migration_idempotent(s: Seq<char>)
    requires
        nested_free_from(s, fenced_ranges(s), 0),
    ensures
        migration(migration(s).0) == (migration(s).0, 0nat),
{
    let f = fenced_ranges(s);
    let t = migration(s).0;
    let h = |k: int| img_from(s, f, 0, k);
    lemma_migration_inserts(s, f, 0);
    lemma_fences_insert(s, t, h, 0, None);
    lemma_fences_bounds(s, 0, None);
    let g = fenced_ranges(t);
    assert(g == map_ranges(h, f));
    assert forall|k: int| 0 <= k < s.len() implies #[trigger] in_fenced(f, k) == in_fenced(
        g,
        0 + img_from(s, f, 0, k),
    ) by {
        lemma_in_fenced_map(s, t, h, f, k);
    }
    assert(t.skip(0) =~= t);
    lemma_second_pass(s, f, 0, t, g, 0);
    lemma_unchanged_when_none(t, g, 0);
}

} // verus!
