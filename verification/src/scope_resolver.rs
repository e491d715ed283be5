//! Resolving the text range that an annotation's scope refers to.
//!
//! Positions given and returned are UTF-16 offsets (what JavaScript
//! strings use); internally the document is a sequence of characters and
//! positions are character indices.
use crate::compact::{first_ws, first_ws_exec};
use crate::types::{Scope, ScopeView};
use crate::scanner::{
    fenced_ranges, find_fenced_ranges, in_fenced, is_in_fenced_range, line_end, ranges_view,
    run_len, run_len_exec,
};
use crate::text::{
    find_char_exec, lemma_find_char_from, matches_at, matches_at_exec, rfind, rfind_upto,
    find_from, find_from_exec, lemma_find_from, string_of, sub_vec, trim, trim_range, back_ws,
    back_ws_exec, chars_of, fits, is_ws, lemma_back_ws, lemma_skip_ws, lemma_utf16_bound,
    lemma_utf16_mono, lemma_utf16_take, skip_ws, skip_ws_exec, utf16_count, utf16_len, ws_char,
    lemma_trim_start, lemma_trim_end, trim_start,
};
use vstd::prelude::*;

verus! {

/// How a symmetric scope extends from the annotation position.
#[derive(Debug, Clone, Copy, PartialEq, Eq, Structural)]
pub enum ResolutionMode {
    /// Scope extends only backward from the annotation (spec default).
    Backward,
    /// Scope extends both backward and forward by the same count.
    Bidirectional,
}

impl ResolutionMode {
    /// Parse a mode string from the FFI boundary. Unknown values are an
    /// error (None) rather than a silent backward fallback.
    pub fn from_str(s: &str) -> (r: Option<ResolutionMode>)
        ensures
            r == (if s@ == seq!['b', 'a', 'c', 'k', 'w', 'a', 'r', 'd'] {
                Some(ResolutionMode::Backward)
            } else if s@ == seq![
                'b',
                'i',
                'd',
                'i',
                'r',
                'e',
                'c',
                't',
                'i',
                'o',
                'n',
                'a',
                'l',
            ] {
                Some(ResolutionMode::Bidirectional)
            } else {
                None
            }),
    {
        let v = chars_of(s);
        let bw: &[char] = &['b', 'a', 'c', 'k', 'w', 'a', 'r', 'd'];
        let bi: &[char] = &['b', 'i', 'd', 'i', 'r', 'e', 'c', 't', 'i', 'o', 'n', 'a', 'l'];
        assert(bw@ == seq!['b', 'a', 'c', 'k', 'w', 'a', 'r', 'd']);
        assert(bi@ == seq!['b', 'i', 'd', 'i', 'r', 'e', 'c', 't', 'i', 'o', 'n', 'a', 'l']);
        assert(v@.subrange(0, v@.len() as int) =~= v@);
        if crate::text::range_is(&v, 0, v.len(), bw) {
            Some(ResolutionMode::Backward)
        } else if crate::text::range_is(&v, 0, v.len(), bi) {
            Some(ResolutionMode::Bidirectional)
        } else {
            None
        }
    }
}

impl Default for ResolutionMode {
    /// Backward, the mode the annotation format specifies.
    fn default() -> (r: ResolutionMode)
        ensures
            r == ResolutionMode::Backward,
    {
        ResolutionMode::Backward
    }
}

// ------------------------------------------------------------ offsets

/// The character index where UTF-16 offset `off` falls: the first index
/// whose UTF-16 prefix reaches `off` (searching from `k`), or the end.
pub open spec fn idx_of_utf16(s: Seq<char>, off: int, k: int) -> int
    decreases s.len() - k,
{
    if k >= s.len() {
        s.len() as int
    } else if utf16_len(s.take(k)) >= off {
        k
    } else {
        idx_of_utf16(s, off, k + 1)
    }
}

pub open spec fn char_index(s: Seq<char>, off: int) -> int {
    idx_of_utf16(s, off, 0)
}

/// UTF-16 offset of character index `k`.
pub open spec fn u16_at(s: Seq<char>, k: int) -> nat {
    utf16_len(s.take(k))
}

proof fn lemma_idx_of_utf16(s: Seq<char>, off: int, k: int)
    requires
        0 <= k <= s.len(),
    ensures
        k <= idx_of_utf16(s, off, k) <= s.len(),
    decreases s.len() - k,
{
    if k < s.len() && utf16_len(s.take(k)) < off {
        lemma_idx_of_utf16(s, off, k + 1);
    }
}

/// The character index of a UTF-16 offset.
fn utf16_to_index(v: &Vec<char>, off: usize) -> (k: usize)
    requires
        fits(v@),
    ensures
        k == char_index(v@, off as int),
        k <= v.len(),
{
    proof {
        lemma_idx_of_utf16(v@, off as int, 0);
    }
    let mut acc: usize = 0;
    let mut k: usize = 0;
    assert(v@.take(0) =~= Seq::<char>::empty());
    while k < v.len()
        invariant
            k <= v.len(),
            fits(v@),
            acc == utf16_len(v@.take(k as int)),
            idx_of_utf16(v@, off as int, k as int) == char_index(v@, off as int),
        decreases v.len() - k,
    {
        if acc >= off {
            return k;
        }
        proof {
            lemma_utf16_take(v@, k as int);
            lemma_utf16_bound(v@.take(k + 1));
        }
        if (v[k] as u32) >= 0x10000 {
            acc = acc + 2;
        } else {
            acc = acc + 1;
        }
        k += 1;
    }
    v.len()
}

/// UTF-16 offset of character index `k` in `v`.
fn utf16_at(v: &Vec<char>, k: usize) -> (n: usize)
    requires
        k <= v.len(),
        fits(v@),
    ensures
        n == u16_at(v@, k as int),
{
    assert(v@.subrange(0, k as int) =~= v@.take(k as int));
    utf16_count(v, 0, k)
}

// ------------------------------------------------------------ words

/// Start of the `n`-th word back, scanning the characters before `i`
/// (having found `found` words and being inside a word or not).
pub open spec fn words_back_scan(s: Seq<char>, i: int, n: int, found: int, in_word: bool) -> int
    decreases i,
{
    if i <= 0 {
        0
    } else if is_ws(s[i - 1]) {
        if in_word {
            if found + 1 >= n {
                i
            } else {
                words_back_scan(s, i - 1, n, found + 1, false)
            }
        } else {
            words_back_scan(s, i - 1, n, found, false)
        }
    } else {
        words_back_scan(s, i - 1, n, found, true)
    }
}

/// The `n` words preceding `b` (clamped to the document start), or nothing
/// when only whitespace precedes.
pub open spec fn words_before(s: Seq<char>, b: int, n: int) -> Option<(int, int)> {
    let end = back_ws(s, b);
    if end == 0 {
        None
    } else {
        Some((words_back_scan(s, end, n, 0, false), end))
    }
}

/// End of the `m`-th word forward from `k`, or `dflt`.
pub open spec fn words_fwd_scan(
    s: Seq<char>,
    k: int,
    m: int,
    found: int,
    in_word: bool,
    dflt: int,
) -> int
    decreases s.len() - k,
{
    if k < 0 || k >= s.len() {
        dflt
    } else if is_ws(s[k]) {
        if in_word {
            if found + 1 >= m {
                k
            } else {
                words_fwd_scan(s, k + 1, m, found + 1, false, dflt)
            }
        } else {
            words_fwd_scan(s, k + 1, m, found, false, dflt)
        }
    } else {
        words_fwd_scan(s, k + 1, m, found, true, dflt)
    }
}

/// The `m` words following `e` (clamped to the document end), or nothing
/// when only whitespace follows.
pub open spec fn words_after(s: Seq<char>, e: int, m: int) -> Option<(int, int)> {
    let start = skip_ws(s, e);
    if start >= s.len() {
        None
    } else {
        Some((start, words_fwd_scan(s, start, m, 0, false, back_ws(s, s.len() as int))))
    }
}

proof fn lemma_words_back_scan(s: Seq<char>, i: int, n: int, found: int, in_word: bool)
    requires
        0 <= i <= s.len(),
    ensures
        0 <= words_back_scan(s, i, n, found, in_word) <= i,
    decreases i,
{
    if i > 0 {
        if is_ws(s[i - 1]) {
            if in_word {
                if found + 1 < n {
                    lemma_words_back_scan(s, i - 1, n, found + 1, false);
                }
            } else {
                lemma_words_back_scan(s, i - 1, n, found, false);
            }
        } else {
            lemma_words_back_scan(s, i - 1, n, found, true);
        }
    }
}

proof fn lemma_words_fwd_scan(s: Seq<char>, k: int, m: int, found: int, in_word: bool, dflt: int)
    requires
        0 <= k <= s.len(),
        0 <= dflt <= s.len(),
    ensures
        words_fwd_scan(s, k, m, found, in_word, dflt) == dflt || k <= words_fwd_scan(
            s,
            k,
            m,
            found,
            in_word,
            dflt,
        ) < s.len(),
    decreases s.len() - k,
{
    if k < s.len() {
        if is_ws(s[k]) {
            if in_word {
                if found + 1 < m {
                    lemma_words_fwd_scan(s, k + 1, m, found + 1, false, dflt);
                }
            } else {
                lemma_words_fwd_scan(s, k + 1, m, found, false, dflt);
            }
        } else {
            lemma_words_fwd_scan(s, k + 1, m, found, true, dflt);
        }
    }
}

fn words_before_exec(v: &Vec<char>, b: usize, n: usize) -> (r: Option<(usize, usize)>)
    requires
        b <= v.len(),
    ensures
        match r {
            Some((x, y)) => words_before(v@, b as int, n as int) == Some((x as int, y as int))
                && x <= y <= b,
            None => words_before(v@, b as int, n as int) is None,
        },
{
    proof {
        lemma_back_ws(v@, b as int);
    }
    let end = back_ws_exec(v, b);
    if end == 0 {
        return None;
    }
    let mut i = end;
    let mut found: usize = 0;
    let mut in_word = false;
    while i > 0
        invariant
            i <= end <= b <= v.len(),
            end == back_ws(v@, b as int),
            end > 0,
            found <= end - i,
            words_back_scan(v@, i as int, n as int, found as int, in_word) == words_back_scan(
                v@,
                end as int,
                n as int,
                0,
                false,
            ),
        decreases i,
    {
        if ws_char(v[i - 1]) {
            if in_word {
                if found + 1 >= n {
                    proof {
                        lemma_words_back_scan(v@, end as int, n as int, 0, false);
                        assert(words_back_scan(v@, i as int, n as int, found as int, in_word) == i);
                    }
                    return Some((i, end));
                }
                found += 1;
            }
            in_word = false;
        } else {
            in_word = true;
        }
        i -= 1;
    }
    Some((0, end))
}

fn words_after_exec(v: &Vec<char>, e: usize, m: usize) -> (r: Option<(usize, usize)>)
    requires
        e <= v.len(),
    ensures
        match r {
            Some((x, y)) => words_after(v@, e as int, m as int) == Some((x as int, y as int))
                && e <= x <= y <= v.len(),
            None => words_after(v@, e as int, m as int) is None,
        },
{
    let start = skip_ws_exec(v, e);
    if start >= v.len() {
        return None;
    }
    proof {
        lemma_skip_ws(v@, e as int);
        lemma_back_ws(v@, v.len() as int);
    }
    let dflt = back_ws_exec(v, v.len());
    assert(dflt > start);
    proof {
        lemma_words_fwd_scan(v@, start as int, m as int, 0, false, dflt as int);
    }
    let mut k = start;
    let mut found: usize = 0;
    let mut in_word = false;
    while k < v.len()
        invariant
            start <= k <= v.len(),
            start < dflt <= v.len(),
            start == skip_ws(v@, e as int),
            e <= start,
            dflt == back_ws(v@, v.len() as int),
            found <= k - start,
            words_fwd_scan(v@, k as int, m as int, found as int, in_word, dflt as int)
                == words_fwd_scan(v@, start as int, m as int, 0, false, dflt as int),
            start <= words_fwd_scan(v@, start as int, m as int, 0, false, dflt as int) <= v.len(),
        decreases v.len() - k,
    {
        if ws_char(v[k]) {
            if in_word {
                if found + 1 >= m {
                    assert(words_fwd_scan(v@, k as int, m as int, found as int, in_word, dflt as int)
                        == k);
                    return Some((start, k));
                }
                found += 1;
            }
            in_word = false;
        } else {
            in_word = true;
        }
        k += 1;
    }
    Some((start, dflt))
}

// ------------------------------------------------------------ paragraphs

/// End of the run of newlines starting at `e` (below `lim`).
pub open spec fn nl_run_end(s: Seq<char>, lim: int, e: int) -> int
    decreases lim - e,
{
    if 0 <= e < lim && e < s.len() && s[e] == '\n' {
        nl_run_end(s, lim, e + 1)
    } else {
        e
    }
}

/// Starts of the paragraphs that follow each blank line (a run of two or
/// more newlines) in `s[i..lim]`.
pub open spec fn para_starts(s: Seq<char>, lim: int, i: int) -> Seq<int>
    decreases lim - i,
{
    if i < 0 || i + 1 >= lim || i + 1 >= s.len() {
        Seq::empty()
    } else if s[i] == '\n' && s[i + 1] == '\n' {
        let e = nl_run_end(s, lim, i + 2);
        if e <= i || e > lim {
            Seq::empty()
        } else {
            seq![e] + para_starts(s, lim, e)
        }
    } else {
        para_starts(s, lim, i + 1)
    }
}

/// The boundary `n` units back in a list of unit starts (the first one
/// when there are fewer).
pub open spec fn pick_back(bs: Seq<int>, n: int) -> int {
    if bs.len() >= n {
        bs[bs.len() - n]
    } else {
        bs[0]
    }
}

/// The current paragraph and the `n - 1` before it, up to `b` (trailing
/// whitespace excluded).
pub open spec fn paragraphs_before(s: Seq<char>, b: int, n: int) -> Option<(int, int)> {
    let end = back_ws(s, b);
    if end == 0 {
        None
    } else {
        Some((pick_back(seq![0int] + para_starts(s, end, 0), n), end))
    }
}

/// End of the `m`-th paragraph forward, scanning from `i`, or `dflt`.
pub open spec fn para_fwd_scan(s: Seq<char>, i: int, m: int, found: int, dflt: int) -> int
    decreases s.len() - i,
{
    if i < 0 || i + 1 >= s.len() {
        dflt
    } else if s[i] == '\n' && s[i + 1] == '\n' {
        if found + 1 >= m {
            back_ws(s, i)
        } else {
            let e = nl_run_end(s, s.len() as int, i + 2);
            if e <= i || e > s.len() {
                dflt
            } else {
                para_fwd_scan(s, e, m, found + 1, dflt)
            }
        }
    } else {
        para_fwd_scan(s, i + 1, m, found, dflt)
    }
}

/// The rest of the current paragraph and the `m - 1` after it, from `e`.
pub open spec fn paragraphs_after(s: Seq<char>, e: int, m: int) -> Option<(int, int)> {
    let start = skip_ws(s, e);
    if start >= s.len() {
        None
    } else {
        Some((start, para_fwd_scan(s, start, m, 0, back_ws(s, s.len() as int))))
    }
}

// ------------------------------------------------------------ pages

/// Starts of the pages that follow each form feed in `s[i..lim]`.
pub open spec fn page_starts(s: Seq<char>, lim: int, i: int) -> Seq<int>
    decreases lim - i,
{
    if i < 0 || i >= lim || i >= s.len() {
        Seq::empty()
    } else if s[i] == '\x0C' {
        seq![i + 1] + page_starts(s, lim, i + 1)
    } else {
        page_starts(s, lim, i + 1)
    }
}

/// The current page and the `n - 1` before it, up to `b`.
pub open spec fn pages_before(s: Seq<char>, b: int, n: int) -> Option<(int, int)> {
    let end = back_ws(s, b);
    if end == 0 {
        None
    } else {
        Some((pick_back(seq![0int] + page_starts(s, end, 0), n), end))
    }
}

/// End of the `m`-th page forward, scanning from `i`, or `dflt`.
pub open spec fn page_fwd_scan(s: Seq<char>, i: int, m: int, found: int, dflt: int) -> int
    decreases s.len() - i,
{
    if i < 0 || i >= s.len() {
        dflt
    } else if s[i] == '\x0C' {
        if found + 1 >= m {
            back_ws(s, i)
        } else {
            page_fwd_scan(s, i + 1, m, found + 1, dflt)
        }
    } else {
        page_fwd_scan(s, i + 1, m, found, dflt)
    }
}

/// The rest of the current page and the `m - 1` after it, from `e`.
pub open spec fn pages_after(s: Seq<char>, e: int, m: int) -> Option<(int, int)> {
    let start = skip_ws(s, e);
    if start >= s.len() {
        None
    } else {
        Some((start, page_fwd_scan(s, start, m, 0, back_ws(s, s.len() as int))))
    }
}

proof fn lemma_nl_run_end(s: Seq<char>, lim: int, e: int)
    requires
        0 <= e,
    ensures
        e <= nl_run_end(s, lim, e),
        e <= lim && lim <= s.len() ==> nl_run_end(s, lim, e) <= lim,
    decreases lim - e,
{
    if 0 <= e < lim && e < s.len() && s[e] == '\n' {
        lemma_nl_run_end(s, lim, e + 1);
    }
}

proof fn lemma_para_starts(s: Seq<char>, lim: int, i: int)
    requires
        0 <= i,
        lim <= s.len(),
    ensures
        forall|k: int|
            0 <= k < para_starts(s, lim, i).len() ==> 0 <= #[trigger] para_starts(s, lim, i)[k]
                <= lim,
    decreases lim - i,
{
    if i + 1 >= lim || i + 1 >= s.len() {
        assert(para_starts(s, lim, i) =~= Seq::<int>::empty());
    } else if s[i] == '\n' && s[i + 1] == '\n' {
        let e = nl_run_end(s, lim, i + 2);
        lemma_nl_run_end(s, lim, i + 2);
        if e > i && e <= lim {
            lemma_para_starts(s, lim, e);
            let r = para_starts(s, lim, e);
            assert(para_starts(s, lim, i) == seq![e] + r);
            assert forall|k: int|
                0 <= k < para_starts(s, lim, i).len() implies 0
                <= #[trigger] para_starts(s, lim, i)[k] <= lim by {
                if k > 0 {
                    assert(para_starts(s, lim, i)[k] == r[k - 1]);
                }
            }
        } else {
            assert(para_starts(s, lim, i) =~= Seq::<int>::empty());
        }
    } else {
        lemma_para_starts(s, lim, i + 1);
        assert(para_starts(s, lim, i) == para_starts(s, lim, i + 1));
    }
}

proof fn lemma_page_starts(s: Seq<char>, lim: int, i: int)
    requires
        0 <= i,
        lim <= s.len(),
    ensures
        forall|k: int|
            0 <= k < page_starts(s, lim, i).len() ==> 0 <= #[trigger] page_starts(s, lim, i)[k]
                <= lim,
    decreases lim - i,
{
    if i >= lim || i >= s.len() {
    } else {
        lemma_page_starts(s, lim, i + 1);
        let r = page_starts(s, lim, i + 1);
        if s[i] == '\x0C' {
            assert forall|k: int|
                0 <= k < page_starts(s, lim, i).len() implies 0
                <= #[trigger] page_starts(s, lim, i)[k] <= lim by {
                if k > 0 {
                    assert(page_starts(s, lim, i)[k] == r[k - 1]);
                }
            }
        }
    }
}

/// End of the newline run of `v` starting at `e`, below `lim`.
fn nl_run_end_exec(v: &Vec<char>, lim: usize, e: usize) -> (r: usize)
    requires
        lim <= v.len(),
        e <= lim,
    ensures
        r == nl_run_end(v@, lim as int, e as int),
        e <= r <= lim,
{
    let mut k = e;
    while k < lim && v[k] == '\n'
        invariant
            e <= k <= lim <= v.len(),
            nl_run_end(v@, lim as int, k as int) == nl_run_end(v@, lim as int, e as int),
        decreases lim - k,
    {
        k += 1;
    }
    k
}

/// The paragraph-start list `[0] + para_starts(v, lim, 0)`.
fn para_starts_exec(v: &Vec<char>, lim: usize) -> (r: Vec<usize>)
    requires
        lim <= v.len(),
    ensures
        r@.map_values(|x: usize| x as int) == seq![0int] + para_starts(v@, lim as int, 0),
{
    let mut out: Vec<usize> = Vec::new();
    out.push(0);
    let mut i: usize = 0;
    assert(out@.map_values(|x: usize| x as int) =~= seq![0int]);
    while lim > 0 && i < lim - 1
        invariant
            lim <= v.len(),
            i <= lim,
            out@.map_values(|x: usize| x as int) + para_starts(v@, lim as int, i as int) == seq![
                0int,
            ] + para_starts(v@, lim as int, 0),
        decreases lim - i,
    {
        let ghost before = out@;
        if v[i] == '\n' && v[i + 1] == '\n' {
            let e = nl_run_end_exec(v, lim, i + 2);
            out.push(e);
            assert(out@.map_values(|x: usize| x as int) =~= before.map_values(|x: usize| x as int)
                + seq![e as int]);
            i = e;
        } else {
            i += 1;
        }
    }
    assert(para_starts(v@, lim as int, i as int) =~= Seq::<int>::empty());
    assert(out@.map_values(|x: usize| x as int) =~= seq![0int] + para_starts(v@, lim as int, 0));
    out
}

/// The page-start list `[0] + page_starts(v, lim, 0)`.
fn page_starts_exec(v: &Vec<char>, lim: usize) -> (r: Vec<usize>)
    requires
        lim <= v.len(),
    ensures
        r@.map_values(|x: usize| x as int) == seq![0int] + page_starts(v@, lim as int, 0),
{
    let mut out: Vec<usize> = Vec::new();
    out.push(0);
    let mut i: usize = 0;
    assert(out@.map_values(|x: usize| x as int) =~= seq![0int]);
    while i < lim
        invariant
            lim <= v.len(),
            i <= lim,
            out@.map_values(|x: usize| x as int) + page_starts(v@, lim as int, i as int) == seq![
                0int,
            ] + page_starts(v@, lim as int, 0),
        decreases lim - i,
    {
        let ghost before = out@;
        if v[i] == '\x0C' {
            out.push(i + 1);
            assert(out@.map_values(|x: usize| x as int) =~= before.map_values(|x: usize| x as int)
                + seq![i + 1]);
        }
        i += 1;
    }
    assert(out@.map_values(|x: usize| x as int) =~= seq![0int] + page_starts(v@, lim as int, 0));
    out
}

fn pick_back_exec(bs: &Vec<usize>, n: usize) -> (r: usize)
    requires
        bs.len() > 0,
        n >= 1,
    ensures
        r == pick_back(bs@.map_values(|x: usize| x as int), n as int),
        exists|k: int| 0 <= k < bs.len() && r == bs@[k],
{
    if bs.len() >= n {
        bs[bs.len() - n]
    } else {
        bs[0]
    }
}

fn paragraphs_before_exec(v: &Vec<char>, b: usize, n: usize) -> (r: Option<(usize, usize)>)
    requires
        b <= v.len(),
        n >= 1,
    ensures
        match r {
            Some((x, y)) => paragraphs_before(v@, b as int, n as int) == Some((x as int, y as int))
                && x <= y <= b,
            None => paragraphs_before(v@, b as int, n as int) is None,
        },
{
    proof {
        lemma_back_ws(v@, b as int);
    }
    let end = back_ws_exec(v, b);
    if end == 0 {
        return None;
    }
    let bs = para_starts_exec(v, end);
    proof {
        lemma_para_starts(v@, end as int, 0);
    }
    let x = pick_back_exec(&bs, n);
    proof {
        let k = choose|k: int| 0 <= k < bs.len() && x == bs@[k];
        assert(bs@.map_values(|x: usize| x as int)[k] == x);
        if k > 0 {
            assert((seq![0int] + para_starts(v@, end as int, 0))[k] == para_starts(v@, end as int, 0)[k - 1]);
        }
    }
    Some((x, end))
}

fn pages_before_exec(v: &Vec<char>, b: usize, n: usize) -> (r: Option<(usize, usize)>)
    requires
        b <= v.len(),
        n >= 1,
    ensures
        match r {
            Some((x, y)) => pages_before(v@, b as int, n as int) == Some((x as int, y as int))
                && x <= y <= b,
            None => pages_before(v@, b as int, n as int) is None,
        },
{
    proof {
        lemma_back_ws(v@, b as int);
    }
    let end = back_ws_exec(v, b);
    if end == 0 {
        return None;
    }
    let bs = page_starts_exec(v, end);
    proof {
        lemma_page_starts(v@, end as int, 0);
    }
    let x = pick_back_exec(&bs, n);
    proof {
        let k = choose|k: int| 0 <= k < bs.len() && x == bs@[k];
        assert(bs@.map_values(|x: usize| x as int)[k] == x);
        if k > 0 {
            assert((seq![0int] + page_starts(v@, end as int, 0))[k] == page_starts(v@, end as int, 0)[k - 1]);
        }
    }
    Some((x, end))
}

fn paragraphs_after_exec(v: &Vec<char>, e: usize, m: usize) -> (r: Option<(usize, usize)>)
    requires
        e <= v.len(),
    ensures
        match r {
            Some((x, y)) => paragraphs_after(v@, e as int, m as int) == Some((x as int, y as int))
                && e <= x <= y <= v.len(),
            None => paragraphs_after(v@, e as int, m as int) is None,
        },
{
    let start = skip_ws_exec(v, e);
    if start >= v.len() {
        return None;
    }
    proof {
        lemma_skip_ws(v@, e as int);
        lemma_back_ws(v@, v.len() as int);
    }
    let dflt = back_ws_exec(v, v.len());
    let mut i = start;
    let mut found: usize = 0;
    while i < v.len() - 1
        invariant
            e <= start <= i <= v.len(),
            start < dflt <= v.len(),
            start == skip_ws(v@, e as int),
            dflt == back_ws(v@, v.len() as int),
            found <= i,
            !is_ws(v@[start as int]),
            para_fwd_scan(v@, i as int, m as int, found as int, dflt as int) == para_fwd_scan(
                v@,
                start as int,
                m as int,
                0,
                dflt as int,
            ),
        decreases v.len() - i,
    {
        if v[i] == '\n' && v[i + 1] == '\n' {
            if found + 1 >= m {
                proof {
                    lemma_back_ws(v@, i as int);
                    if back_ws(v@, i as int) <= start {
                        assert(is_ws(v@[start as int]));
                    }
                }
                let end = back_ws_exec(v, i);
                return Some((start, end));
            }
            let n2 = nl_run_end_exec(v, v.len(), i + 2);
            found += 1;
            i = n2;
        } else {
            i += 1;
        }
    }
    Some((start, dflt))
}

fn pages_after_exec(v: &Vec<char>, e: usize, m: usize) -> (r: Option<(usize, usize)>)
    requires
        e <= v.len(),
    ensures
        match r {
            Some((x, y)) => pages_after(v@, e as int, m as int) == Some((x as int, y as int))
                && e <= x <= y <= v.len(),
            None => pages_after(v@, e as int, m as int) is None,
        },
{
    let start = skip_ws_exec(v, e);
    if start >= v.len() {
        return None;
    }
    proof {
        lemma_skip_ws(v@, e as int);
        lemma_back_ws(v@, v.len() as int);
    }
    let dflt = back_ws_exec(v, v.len());
    let mut i = start;
    let mut found: usize = 0;
    while i < v.len()
        invariant
            e <= start <= i <= v.len(),
            start < dflt <= v.len(),
            start == skip_ws(v@, e as int),
            dflt == back_ws(v@, v.len() as int),
            found <= i,
            !is_ws(v@[start as int]),
            page_fwd_scan(v@, i as int, m as int, found as int, dflt as int) == page_fwd_scan(
                v@,
                start as int,
                m as int,
                0,
                dflt as int,
            ),
        decreases v.len() - i,
    {
        if v[i] == '\x0C' {
            if found + 1 >= m {
                proof {
                    lemma_back_ws(v@, i as int);
                    if back_ws(v@, i as int) <= start {
                        assert(is_ws(v@[start as int]));
                    }
                }
                let end = back_ws_exec(v, i);
                return Some((start, end));
            }
            found += 1;
        }
        i += 1;
    }
    Some((start, dflt))
}

// ------------------------------------------------------------ sections

/// The ATX heading level of a markdown line (1-6): at most three leading
/// spaces, then one to six `#` followed by a space, a tab, or the end.
pub open spec fn atx_level(l: Seq<char>) -> Option<u8> {
    let indent = run_len(l, ' ', 0);
    let t = l.skip(indent);
    let h = run_len(t, '#', 0);
    let rest = t.skip(h);
    if indent > 3 || (t.len() > 0 && t[0] == '\t') {
        None
    } else if 1 <= h <= 6 && (rest.len() == 0 || rest[0] == ' ' || rest[0] == '\t') {
        Some(h as u8)
    } else {
        None
    }
}

/// Headings outside code fences, as (line start, level), from line `o` on.
pub open spec fn headings_from(s: Seq<char>, f: Seq<(int, int)>, o: int) -> Seq<(int, u8)>
    decreases s.len() - o,
{
    let e = line_end(s, o);
    let here = if !in_fenced(f, o) && atx_level(s.subrange(o, e)) is Some {
        seq![(o, atx_level(s.subrange(o, e)).unwrap())]
    } else {
        Seq::empty()
    };
    if e < o || e >= s.len() {
        here
    } else {
        here + headings_from(s, f, e + 1)
    }
}

/// The last heading (among the first `k`) at or before `b`; level 7 at the
/// document start when there is none.
pub open spec fn heading_at_or_before(hs: Seq<(int, u8)>, b: int, k: int) -> (int, u8)
    decreases k,
{
    if k <= 0 || k > hs.len() {
        (0, 7)
    } else if hs[k - 1].0 <= b {
        hs[k - 1]
    } else {
        heading_at_or_before(hs, b, k - 1)
    }
}

/// The first heading (from the `k`-th) after `start` with a level at most
/// `level`, or `dflt`.
pub open spec fn next_heading(hs: Seq<(int, u8)>, start: int, level: u8, k: int, dflt: int) -> int
    decreases hs.len() - k,
{
    if k < 0 || k >= hs.len() {
        dflt
    } else if hs[k].0 > start && hs[k].1 <= level {
        hs[k].0
    } else {
        next_heading(hs, start, level, k + 1, dflt)
    }
}

/// The current section around `b`: from the nearest heading at or before
/// it to just before the next heading of equal or higher level (trailing
/// whitespace excluded), as character indices.
pub open spec fn section_range(s: Seq<char>, b: int) -> Option<(int, int)> {
    let hs = headings_from(s, fenced_ranges(s), 0);
    let (start, level) = heading_at_or_before(hs, b, hs.len() as int);
    let end = back_ws(s, next_heading(hs, start, level, 0, s.len() as int));
    if end <= start {
        None
    } else {
        Some((start, end))
    }
}

/// The last occurrence of `a` that ends at or before `b`.
pub open spec fn anchor_range(s: Seq<char>, b: int, a: Seq<char>) -> Option<(int, int)> {
    match rfind(s.take(b), a) {
        Some(p) => Some((p, p + a.len())),
        None => None,
    }
}

fn heading_level_exec(v: &Vec<char>, o: usize, e: usize) -> (r: Option<u8>)
    requires
        o <= e <= v.len(),
    ensures
        r == atx_level(v@.subrange(o as int, e as int)),
{
    let l = sub_vec(v, o, e);
    let indent = run_len_exec(&l, 0, l.len(), ' ');
    proof {
        assert(l@.subrange(0, l@.len() as int) =~= l@);
    }
    let t = sub_vec(&l, indent, l.len());
    assert(t@ =~= l@.skip(indent as int));
    if indent > 3 || (t.len() > 0 && t[0] == '\t') {
        return None;
    }
    let h = run_len_exec(&t, 0, t.len(), '#');
    proof {
        assert(t@.subrange(0, t@.len() as int) =~= t@);
    }
    let rest = sub_vec(&t, h, t.len());
    assert(rest@ =~= t@.skip(h as int));
    if 1 <= h && h <= 6 && (rest.len() == 0 || rest[0] == ' ' || rest[0] == '\t') {
        Some(h as u8)
    } else {
        None
    }
}

/// The headings of `v` outside the fenced ranges.
fn headings_exec(v: &Vec<char>, fences: &Vec<(usize, usize)>) -> (r: Vec<(usize, u8)>)
    ensures
        r@.map_values(|h: (usize, u8)| (h.0 as int, h.1)) == headings_from(
            v@,
            ranges_view(fences@),
            0,
        ),
        forall|k: int| 0 <= k < r.len() ==> (#[trigger] r@[k]).0 <= v.len(),
{
    let ghost f = ranges_view(fences@);
    let mut out: Vec<(usize, u8)> = Vec::new();
    let mut o: usize = 0;
    assert(out@.map_values(|h: (usize, u8)| (h.0 as int, h.1)) =~= Seq::<(int, u8)>::empty());
    loop
        invariant
            o <= v.len(),
            f == ranges_view(fences@),
            out@.map_values(|h: (usize, u8)| (h.0 as int, h.1)) + headings_from(v@, f, o as int)
                == headings_from(v@, f, 0),
            forall|k: int| 0 <= k < out.len() ==> (#[trigger] out@[k]).0 <= v.len(),
        decreases v.len() - o,
    {
        let e = match find_char_exec(v, '\n', o) {
            Some(e) => e,
            None => v.len(),
        };
        proof {
            lemma_find_char_from(v@, '\n', o as int);
        }
        assert(e as int == line_end(v@, o as int));
        let ghost before = out@.map_values(|h: (usize, u8)| (h.0 as int, h.1));
        if !is_in_fenced_range(o, fences) {
            match heading_level_exec(v, o, e) {
                Some(level) => {
                    out.push((o, level));
                    assert(out@.map_values(|h: (usize, u8)| (h.0 as int, h.1)) =~= before
                        + seq![(o as int, level)]);
                },
                None => {},
            }
        }
        if e >= v.len() {
            assert(out@.map_values(|h: (usize, u8)| (h.0 as int, h.1)) =~= headings_from(
                v@,
                f,
                0,
            ));
            return out;
        }
        o = e + 1;
        assert(out@.map_values(|h: (usize, u8)| (h.0 as int, h.1)) + headings_from(
            v@,
            f,
            o as int,
        ) =~= headings_from(v@, f, 0));
    }
}

fn section_exec(v: &Vec<char>, b: usize) -> (r: Option<(usize, usize)>)
    requires
        b <= v.len(),
    ensures
        match r {
            Some((x, y)) => section_range(v@, b as int) == Some((x as int, y as int)) && x <= y
                <= v.len(),
            None => section_range(v@, b as int) is None,
        },
{
    let fences = find_fenced_ranges(v);
    let hs = headings_exec(v, &fences);
    let ghost hv = hs@.map_values(|h: (usize, u8)| (h.0 as int, h.1));
    // nearest heading at or before b
    let mut k = hs.len();
    let mut start: usize = 0;
    let mut level: u8 = 7;
    while k > 0
        invariant_except_break
            start == 0 && level == 7,
        invariant
            k <= hs.len(),
            hv == hs@.map_values(|h: (usize, u8)| (h.0 as int, h.1)),
            heading_at_or_before(hv, b as int, k as int) == heading_at_or_before(
                hv,
                b as int,
                hs.len() as int,
            ),
        ensures
            (start as int, level) == heading_at_or_before(hv, b as int, hs.len() as int),
        decreases k,
    {
        assert(hv[k - 1] == (hs@[k - 1].0 as int, hs@[k - 1].1));
        if hs[k - 1].0 <= b {
            start = hs[k - 1].0;
            level = hs[k - 1].1;
            break;
        }
        k -= 1;
    }
    assert((start as int, level) == heading_at_or_before(hv, b as int, hs.len() as int));
    let mut j: usize = 0;
    let mut sec_end = v.len();
    while j < hs.len()
        invariant_except_break
            sec_end == v.len(),
        invariant
            j <= hs.len(),
            hv == hs@.map_values(|h: (usize, u8)| (h.0 as int, h.1)),
            forall|k: int| 0 <= k < hs.len() ==> (#[trigger] hs@[k]).0 <= v.len(),
            next_heading(hv, start as int, level, j as int, v.len() as int) == next_heading(
                hv,
                start as int,
                level,
                0,
                v.len() as int,
            ),
        ensures
            sec_end as int == next_heading(hv, start as int, level, 0, v.len() as int),
            sec_end <= v.len(),
        decreases hs.len() - j,
    {
        assert(hv[j as int] == (hs@[j as int].0 as int, hs@[j as int].1));
        if hs[j].0 > start && hs[j].1 <= level {
            sec_end = hs[j].0;
            break;
        }
        j += 1;
    }
    assert(sec_end as int == next_heading(hv, start as int, level, 0, v.len() as int));
    let end_trimmed = back_ws_exec(v, sec_end);
    if end_trimmed <= start {
        None
    } else {
        Some((start, end_trimmed))
    }
}

/// Last occurrence of `p` in `v[..lim]`.
fn rfind_exec(v: &Vec<char>, lim: usize, p: &Vec<char>) -> (r: Option<usize>)
    requires
        lim <= v.len(),
    ensures
        match r {
            Some(k) => rfind(v@.take(lim as int), p@) == Some(k as int) && k + p.len() <= lim,
            None => rfind(v@.take(lim as int), p@) is None,
        },
{
    let ghost t = v@.take(lim as int);
    if p.len() > lim {
        assert(rfind(t, p@) is None);
        return None;
    }
    let mut k = lim - p.len();
    loop
        invariant
            k + p.len() <= lim <= v.len(),
            t == v@.take(lim as int),
            rfind_upto(t, p@, k as int) == rfind(t, p@),
        decreases k,
    {
        let m = matches_at_exec(v, p, k);
        assert(m == matches_at(t, p@, k as int)) by {
            assert(t.subrange(k as int, k + p.len()) =~= v@.subrange(k as int, k + p.len()));
        }
        if m {
            return Some(k);
        }
        if k == 0 {
            assert(rfind_upto(t, p@, -1) is None);
            return None;
        }
        k -= 1;
    }
}

// ------------------------------------------------------------ comment blanking

pub open spec fn ann_open() -> Seq<char> {
    seq!['<', '!', '-', '-', '-']
}

pub open spec fn ann_close() -> Seq<char> {
    seq!['-', '-', '-', '>']
}

/// The next annotation-comment span at or after `from`: from its `<!---`
/// to just past the following `--->` (or to the end when unclosed).
pub open spec fn next_span(t: Seq<char>, from: int) -> Option<(int, int)> {
    match find_from(t, ann_open(), from) {
        None => None,
        Some(st) => if st < from || st + 5 > t.len() {
            None
        } else {
            let end = match find_from(t, ann_close(), st) {
                Some(e) => if e < st || e + 4 > t.len() {
                    t.len() as int
                } else {
                    e + 4
                },
                None => t.len() as int,
            };
            if end <= st {
                None
            } else {
                Some((st, end))
            }
        },
    }
}

/// Number of UTF-8 bytes that encode `c`.
pub open spec fn char_utf8(c: char) -> nat {
    if (c as u32) < 0x80 {
        1
    } else if (c as u32) < 0x800 {
        2
    } else if (c as u32) < 0x10000 {
        3
    } else {
        4
    }
}

/// Number of UTF-8 bytes that encode `s`.
pub open spec fn utf8_len(s: Seq<char>) -> nat
    decreases s.len(),
{
    if s.len() == 0 {
        0
    } else {
        utf8_len(s.drop_last()) + char_utf8(s.last())
    }
}

pub open spec fn spaces(n: nat) -> Seq<char> {
    Seq::new(n, |i: int| ' ')
}

/// `t` from `from` on with every annotation comment replaced by spaces:
/// one space per byte when `per_byte`, else one per character.
pub open spec fn blank_from(t: Seq<char>, from: int, per_byte: bool) -> Seq<char>
    decreases t.len() + 1 - from,
{
    if from < 0 || from > t.len() {
        Seq::empty()
    } else {
        match next_span(t, from) {
            None => t.skip(from),
            Some((st, end)) => if end <= from || end > t.len() {
                t.skip(from)
            } else {
                t.subrange(from, st) + spaces(
                    if per_byte {
                        utf8_len(t.subrange(st, end))
                    } else {
                        (end - st) as nat
                    },
                ) + blank_from(t, end, per_byte)
            },
        }
    }
}

fn span_exec(v: &Vec<char>, from: usize, open: &Vec<char>, close: &Vec<char>) -> (r: Option<
    (usize, usize),
>)
    requires
        open@ == ann_open(),
        close@ == ann_close(),
        from <= v.len(),
    ensures
        match r {
            Some((a, b)) => next_span(v@, from as int) == Some((a as int, b as int)) && from <= a
                < b <= v.len(),
            None => next_span(v@, from as int) is None,
        },
{
    proof {
        lemma_find_from(v@, ann_open(), from as int);
    }
    let st = match find_from_exec(v, open, from) {
        Some(st) => st,
        None => return None,
    };
    proof {
        lemma_find_from(v@, ann_close(), st as int);
    }
    let end = match find_from_exec(v, close, st) {
        Some(e) => e + 4,
        None => v.len(),
    };
    if end <= st {
        return None;
    }
    Some((st, end))
}

fn utf8_count(v: &Vec<char>, lo: usize, hi: usize) -> (n: usize)
    requires
        lo <= hi <= v.len(),
        fits(v@),
    ensures
        n == utf8_len(v@.subrange(lo as int, hi as int)),
        n <= 4 * (hi - lo),
{
    let ghost s = v@.subrange(lo as int, hi as int);
    let mut n: usize = 0;
    let mut i = lo;
    assert(s.take(0) =~= Seq::<char>::empty());
    while i < hi
        invariant
            lo <= i <= hi <= v.len(),
            fits(v@),
            s == v@.subrange(lo as int, hi as int),
            n == utf8_len(s.take(i - lo)),
            n <= 4 * (i - lo),
        decreases hi - i,
    {
        assert(s.take(i - lo + 1).drop_last() =~= s.take(i - lo));
        let c = v[i] as u32;
        if c < 0x80 {
            n += 1;
        } else if c < 0x800 {
            n += 2;
        } else if c < 0x10000 {
            n += 3;
        } else {
            n += 4;
        }
        i += 1;
    }
    assert(s.take(hi - lo) =~= s);
    n
}

fn push_spaces(out: &mut Vec<char>, k: usize)
    ensures
        final(out)@ == old(out)@ + spaces(k as nat),
{
    let ghost start = out@;
    let mut i: usize = 0;
    while i < k
        invariant
            i <= k,
            out@ == start + spaces(i as nat),
        decreases k - i,
    {
        out.push(' ');
        i += 1;
        assert(out@ =~= start + spaces(i as nat));
    }
}

/// `v` with its annotation comments blanked (see [`blank_from`]).
fn blank_exec(v: &Vec<char>, per_byte: bool) -> (r: Vec<char>)
    requires
        fits(v@),
    ensures
        r@ == blank_from(v@, 0, per_byte),
{
    let open = vec!['<', '!', '-', '-', '-'];
    let close = vec!['-', '-', '-', '>'];
    assert(open@ == ann_open());
    assert(close@ == ann_close());
    let mut out: Vec<char> = Vec::new();
    let mut from: usize = 0;
    loop
        invariant
            from <= v.len(),
            fits(v@),
            open@ == ann_open(),
            close@ == ann_close(),
            out@ + blank_from(v@, from as int, per_byte) == blank_from(v@, 0, per_byte),
        decreases v.len() - from,
    {
        let ghost before = out@;
        match span_exec(v, from, &open, &close) {
            None => {
                let rest = sub_vec(v, from, v.len());
                assert(rest@ =~= v@.skip(from as int));
                let mut o2 = out;
                let mut j: usize = 0;
                while j < rest.len()
                    invariant
                        j <= rest.len(),
                        o2@ == before + rest@.take(j as int),
                    decreases rest.len() - j,
                {
                    o2.push(rest[j]);
                    j += 1;
                    assert(o2@ =~= before + rest@.take(j as int));
                }
                assert(rest@.take(j as int) =~= rest@);
                return o2;
            },
            Some((st, end)) => {
                let mut j = from;
                while j < st
                    invariant
                        from <= j <= st <= v.len(),
                        out@ == before + v@.subrange(from as int, j as int),
                    decreases st - j,
                {
                    out.push(v[j]);
                    j += 1;
                    assert(out@ =~= before + v@.subrange(from as int, j as int));
                }
                let k = if per_byte {
                    utf8_count(v, st, end)
                } else {
                    end - st
                };
                push_spaces(&mut out, k);
                from = end;
            },
        }
    }
}

/// Blank every `<!---` ... `--->` annotation comment in `text`, replacing
/// each span with one space per byte, so byte offsets are preserved. An
/// unterminated `<!---` blanks to the end of the string. Standard
/// `<!-- -->` comments are left untouched.
pub fn blank_comments(text: &str) -> (r: String)
    requires
        fits(text@),
    ensures
        r@ == blank_from(text@, 0, true),
{
    let v = chars_of(text);
    let b = blank_exec(&v, true);
    string_of(&b, 0, b.len())
}

// ------------------------------------------------------------ sentence location

/// The whitespace-separated words of `s` from `i` on.
pub open spec fn ws_words(s: Seq<char>, i: int) -> Seq<Seq<char>>
    decreases s.len() - i,
{
    let j = skip_ws(s, i);
    if i < 0 || j < i || j >= s.len() {
        Seq::empty()
    } else {
        let k = match first_ws(s, j) {
            Some(w) => w,
            None => s.len() as int,
        };
        if k <= j || k > s.len() {
            Seq::empty()
        } else {
            seq![s.subrange(j, k)] + ws_words(s, k)
        }
    }
}

/// Matches the words `parts[k..]` at `cur`, each after a non-empty run of
/// whitespace: the end of the match.
pub open spec fn ws_rest(h: Seq<char>, parts: Seq<Seq<char>>, k: int, cur: int) -> Option<int>
    decreases parts.len() - k,
{
    if k < 0 || k >= parts.len() {
        Some(cur)
    } else {
        let c2 = skip_ws(h, cur);
        if c2 == cur || !matches_at(h, parts[k], c2) {
            None
        } else {
            ws_rest(h, parts, k + 1, c2 + parts[k].len())
        }
    }
}

/// The first place at or after `off` where `parts` occur separated by
/// whitespace runs of any length.
pub open spec fn ws_find_from(h: Seq<char>, parts: Seq<Seq<char>>, off: int) -> Option<(int, int)>
    decreases h.len() + 1 - off,
{
    if parts.len() == 0 || off < 0 || off > h.len() {
        None
    } else {
        match find_from(h, parts[0], off) {
            None => None,
            Some(ms) => if ms < off {
                None
            } else {
                match ws_rest(h, parts, 1, ms + parts[0].len()) {
                    Some(c) => Some((ms, c)),
                    None => if ms + 1 < h.len() {
                        ws_find_from(h, parts, ms + 1)
                    } else {
                        None
                    },
                }
            },
        }
    }
}

/// Find `needle` in `h` from `from`, any run of whitespace in the needle
/// matching any non-empty run of whitespace in `h`.
pub open spec fn ws_flex(h: Seq<char>, needle: Seq<char>, from: int) -> Option<(int, int)> {
    ws_find_from(h, ws_words(needle, 0), from)
}

/// Each sentence located after the previous one's end.
pub open spec fn locate_from(p: Seq<char>, sents: Seq<Seq<char>>, i: int, cur: int) -> Option<
    Seq<(int, int)>,
>
    decreases sents.len() - i,
{
    if i < 0 || i >= sents.len() {
        Some(Seq::empty())
    } else {
        match ws_flex(p, sents[i], cur) {
            None => None,
            Some((a, b)) => match locate_from(p, sents, i + 1, b) {
                Some(r) => Some(seq![(a, b)] + r),
                None => None,
            },
        }
    }
}

proof fn lemma_ws_rest(h: Seq<char>, parts: Seq<Seq<char>>, k: int, cur: int)
    requires
        0 <= cur <= h.len(),
    ensures
        ws_rest(h, parts, k, cur) matches Some(c) ==> cur <= c <= h.len(),
    decreases parts.len() - k,
{
    if 0 <= k < parts.len() {
        lemma_skip_ws(h, cur);
        let c2 = skip_ws(h, cur);
        if c2 != cur && matches_at(h, parts[k], c2) {
            lemma_ws_rest(h, parts, k + 1, c2 + parts[k].len());
        }
    }
}

proof fn lemma_ws_find_from(h: Seq<char>, parts: Seq<Seq<char>>, off: int)
    requires
        0 <= off,
    ensures
        ws_find_from(h, parts, off) matches Some((a, b)) ==> off <= a <= b <= h.len(),
    decreases h.len() + 1 - off,
{
    if parts.len() > 0 && off <= h.len() {
        lemma_find_from(h, parts[0], off);
        match find_from(h, parts[0], off) {
            None => {},
            Some(ms) => {
                lemma_ws_rest(h, parts, 1, ms + parts[0].len());
                if ws_rest(h, parts, 1, ms + parts[0].len()) is None && ms + 1 < h.len() {
                    lemma_ws_find_from(h, parts, ms + 1);
                }
            },
        }
    }
}

/// `locate_from` yields ordered ranges inside `p`, starting at or after `cur`.
proof fn lemma_locate_from(p: Seq<char>, sents: Seq<Seq<char>>, i: int, cur: int)
    requires
        0 <= i <= sents.len(),
        0 <= cur <= p.len(),
    ensures
        locate_from(p, sents, i, cur) matches Some(r) ==> {
            &&& r.len() == sents.len() - i
            &&& forall|k: int| 0 <= k < r.len() ==> cur <= (#[trigger] r[k]).0 <= r[k].1 <= p.len()
            &&& forall|j: int, k: int| 0 <= j < k < r.len() ==> (#[trigger] r[j]).1 <= (
            #[trigger] r[k]).0
        },
    decreases sents.len() - i,
{
    if i < sents.len() {
        lemma_ws_find_from(p, ws_words(sents[i], 0), cur);
        match ws_flex(p, sents[i], cur) {
            None => {},
            Some((a, b)) => {
                lemma_locate_from(p, sents, i + 1, b);
                match locate_from(p, sents, i + 1, b) {
                    None => {},
                    Some(rest) => {
                        let r = seq![(a, b)] + rest;
                        assert forall|k: int| 0 <= k < r.len() implies cur <= (#[trigger] r[k]).0
                            <= r[k].1 <= p.len() by {
                            if k > 0 {
                                assert(r[k] == rest[k - 1]);
                            }
                        }
                        assert forall|j: int, k: int| 0 <= j < k < r.len() implies (
                        #[trigger] r[j]).1 <= (#[trigger] r[k]).0 by {
                            assert(r[k] == rest[k - 1]);
                            if j > 0 {
                                assert(r[j] == rest[j - 1]);
                            }
                        }
                    },
                }
            },
        }
    }
}

pub open spec fn words_view(w: Seq<Vec<char>>) -> Seq<Seq<char>> {
    w.map_values(|x: Vec<char>| x@)
}

/// The whitespace-separated words of `v`.
fn ws_words_exec(v: &Vec<char>) -> (r: Vec<Vec<char>>)
    ensures
        words_view(r@) == ws_words(v@, 0),
{
    let mut out: Vec<Vec<char>> = Vec::new();
    let mut i: usize = 0;
    assert(words_view(out@) =~= Seq::<Seq<char>>::empty());
    loop
        invariant
            i <= v.len(),
            words_view(out@) + ws_words(v@, i as int) == ws_words(v@, 0),
        decreases v.len() - i,
    {
        proof {
            lemma_skip_ws(v@, i as int);
        }
        let j = skip_ws_exec(v, i);
        if j >= v.len() {
            assert(words_view(out@) =~= ws_words(v@, 0));
            return out;
        }
        let k = match first_ws_exec(v, j) {
            Some(w) => w,
            None => v.len(),
        };
        if k <= j {
            assert(ws_words(v@, i as int) =~= Seq::<Seq<char>>::empty());
            assert(words_view(out@) =~= ws_words(v@, 0));
            return out;
        }
        let ghost before = words_view(out@);
        let w = sub_vec(v, j, k);
        out.push(w);
        assert(words_view(out@) =~= before + seq![v@.subrange(j as int, k as int)]);
        i = k;
    }
}

fn ws_rest_exec(h: &Vec<char>, parts: &Vec<Vec<char>>, k0: usize, cur0: usize) -> (r: Option<usize>)
    requires
        cur0 <= h.len(),
    ensures
        match r {
            Some(c) => ws_rest(h@, words_view(parts@), k0 as int, cur0 as int) == Some(c as int),
            None => ws_rest(h@, words_view(parts@), k0 as int, cur0 as int) is None,
        },
{
    let ghost pv = words_view(parts@);
    let mut k = k0;
    let mut cur = cur0;
    while k < parts.len()
        invariant
            cur <= h.len(),
            pv == words_view(parts@),
            k0 <= k,
            ws_rest(h@, pv, k as int, cur as int) == ws_rest(h@, pv, k0 as int, cur0 as int),
        decreases parts.len() - k,
    {
        proof {
            lemma_skip_ws(h@, cur as int);
        }
        let c2 = skip_ws_exec(h, cur);
        assert(pv[k as int] == parts@[k as int]@);
        if c2 == cur || !matches_at_exec(h, &parts[k], c2) {
            return None;
        }
        cur = c2 + parts[k].len();
        k += 1;
    }
    Some(cur)
}

/// Character-index version of the whitespace-flexible search.
fn ws_flex_exec(h: &Vec<char>, needle: &Vec<char>, from: usize) -> (r: Option<(usize, usize)>)
    requires
        from <= h.len(),
    ensures
        match r {
            Some((a, b)) => ws_flex(h@, needle@, from as int) == Some((a as int, b as int)) && from
                <= a <= b <= h.len(),
            None => ws_flex(h@, needle@, from as int) is None,
        },
{
    let parts = ws_words_exec(needle);
    let ghost pv = words_view(parts@);
    proof {
        lemma_ws_find_from(h@, pv, from as int);
    }
    if parts.len() == 0 {
        return None;
    }
    assert(pv[0] == parts@[0]@);
    let mut off = from;
    loop
        invariant
            from <= off <= h.len(),
            pv == words_view(parts@),
            pv == ws_words(needle@, 0),
            parts.len() > 0,
            pv[0] == parts@[0]@,
            ws_find_from(h@, pv, off as int) == ws_find_from(h@, pv, from as int),
            ws_find_from(h@, pv, from as int) matches Some((a, b)) ==> from <= a <= b <= h.len(),
        decreases h.len() + 1 - off,
    {
        proof {
            lemma_find_from(h@, pv[0], off as int);
        }
        let ms = match find_from_exec(h, &parts[0], off) {
            Some(ms) => ms,
            None => return None,
        };
        match ws_rest_exec(h, &parts, 1, ms + parts[0].len()) {
            Some(c) => return Some((ms, c)),
            None => {},
        }
        if h.len() > 0 && ms < h.len() - 1 {
            off = ms + 1;
        } else {
            return None;
        }
    }
}

/// Locate every sentence in `p` in turn, each search starting where the
/// previous sentence ended.
fn locate_exec(p: &Vec<char>, sents: &Vec<Vec<char>>) -> (r: Option<Vec<(usize, usize)>>)
    ensures
        match r {
            Some(pos) => locate_from(p@, words_view(sents@), 0, 0) == Some(
                pos@.map_values(|x: (usize, usize)| (x.0 as int, x.1 as int)),
            ),
            None => locate_from(p@, words_view(sents@), 0, 0) is None,
        },
{
    let ghost sv = words_view(sents@);
    let mut out: Vec<(usize, usize)> = Vec::new();
    let mut cur: usize = 0;
    let mut i: usize = 0;
    assert(out@.map_values(|x: (usize, usize)| (x.0 as int, x.1 as int)) =~= Seq::<
        (int, int),
    >::empty());
    while i < sents.len()
        invariant
            i <= sents.len(),
            cur <= p.len(),
            sv == words_view(sents@),
            ({
                let done = out@.map_values(|x: (usize, usize)| (x.0 as int, x.1 as int));
                match locate_from(p@, sv, i as int, cur as int) {
                    Some(r) => locate_from(p@, sv, 0, 0) == Some(done + r),
                    None => locate_from(p@, sv, 0, 0) is None,
                }
            }),
        decreases sents.len() - i,
    {
        assert(sv[i as int] == sents@[i as int]@);
        let ghost before = out@.map_values(|x: (usize, usize)| (x.0 as int, x.1 as int));
        match ws_flex_exec(p, &sents[i], cur) {
            None => return None,
            Some((a, b)) => {
                out.push((a, b));
                assert(out@.map_values(|x: (usize, usize)| (x.0 as int, x.1 as int)) =~= before
                    + seq![(a as int, b as int)]);
                proof {
                    match locate_from(p@, sv, i + 1, b as int) {
                        Some(r) => {
                            assert(before + (seq![(a as int, b as int)] + r) =~= (before + seq![
                                (a as int, b as int),
                            ]) + r);
                        },
                        None => {},
                    }
                }
                cur = b;
            },
        }
        i += 1;
    }
    proof {
        assert(out@.map_values(|x: (usize, usize)| (x.0 as int, x.1 as int)) + Seq::<
            (int, int),
        >::empty() =~= out@.map_values(|x: (usize, usize)| (x.0 as int, x.1 as int)));
    }
    Some(out)
}

/// The ATX heading level of a markdown line (1-6), or None. At most 3
/// leading spaces are allowed; 4+ spaces or a tab make the line indented
/// code, not a heading.
pub fn heading_level(line: &str) -> (r: Option<u8>)
    ensures
        r == atx_level(line@),
{
    let v = chars_of(line);
    assert(v@.subrange(0, v@.len() as int) =~= v@);
    heading_level_exec(&v, 0, v.len())
}

/// UTF-8 byte offset of character index `k`.
pub open spec fn byte_at(s: Seq<char>, k: int) -> nat {
    utf8_len(s.take(k))
}

proof fn lemma_utf8_mono(s: Seq<char>, i: int, j: int)
    requires
        0 <= i <= j <= s.len(),
    ensures
        utf8_len(s.take(i)) + (j - i) <= utf8_len(s.take(j)),
    decreases j - i,
{
    if i < j {
        lemma_utf8_mono(s, i, j - 1);
        assert(s.take(j).drop_last() =~= s.take(j - 1));
    }
}

/// The character index at byte offset `off`, which must fall on a
/// character boundary.
fn byte_to_index(v: &Vec<char>, off: usize) -> (k: usize)
    requires
        fits(v@),
        exists|k0: int| 0 <= k0 <= v.len() && byte_at(v@, k0) == off,
    ensures
        k <= v.len(),
        byte_at(v@, k as int) == off,
{
    let mut acc: usize = 0;
    let mut k: usize = 0;
    assert(v@.take(0) =~= Seq::<char>::empty());
    while k < v.len() && acc < off
        invariant
            k <= v.len(),
            fits(v@),
            acc == byte_at(v@, k as int),
            acc <= 4 * k,
            k > 0 ==> byte_at(v@, k - 1) < off,
        decreases v.len() - k,
    {
        assert(v@.take(k + 1).drop_last() =~= v@.take(k as int));
        let c = v[k] as u32;
        if c < 0x80 {
            acc += 1;
        } else if c < 0x800 {
            acc += 2;
        } else if c < 0x10000 {
            acc += 3;
        } else {
            acc += 4;
        }
        k += 1;
    }
    proof {
        let k0 = choose|k0: int| 0 <= k0 <= v.len() && byte_at(v@, k0) == off;
        if k0 < k {
            lemma_utf8_mono(v@, k0, k - 1);
        } else if k0 > k {
            lemma_utf8_mono(v@, k as int, k0);
        }
    }
    k
}

/// Find `needle` in `haystack` starting at byte offset `start_from`,
/// treating any run of whitespace in the needle as matching any non-empty
/// run of whitespace in the haystack. Returns the match as byte offsets.
pub fn ws_flexible_find(haystack: &str, needle: &str, start_from: usize) -> (r: Option<
    (usize, usize),
>)
    requires
        fits(haystack@),
        exists|k: int| 0 <= k <= haystack@.len() && byte_at(haystack@, k) == start_from,
    ensures
        ({
            let k = choose|k: int| 0 <= k <= haystack@.len() && byte_at(haystack@, k) == start_from;
            match ws_flex(haystack@, needle@, k) {
                Some((a, b)) => r == Some((byte_at(haystack@, a) as usize, byte_at(haystack@, b) as usize)),
                None => r is None,
            }
        }),
{
    let h = chars_of(haystack);
    let n = chars_of(needle);
    let k = byte_to_index(&h, start_from);
    proof {
        let k0 = choose|k: int| 0 <= k <= haystack@.len() && byte_at(haystack@, k) == start_from;
        if k0 < k {
            lemma_utf8_mono(h@, k0, k as int);
        } else if k0 > k {
            lemma_utf8_mono(h@, k as int, k0);
        }
    }
    match ws_flex_exec(&h, &n, k) {
        Some((a, b)) => {
            assert(h@.subrange(0, a as int) =~= h@.take(a as int));
            assert(h@.subrange(0, b as int) =~= h@.take(b as int));
            let ba = utf8_count(&h, 0, a);
            let bb = utf8_count(&h, 0, b);
            Some((ba, bb))
        },
        None => None,
    }
}

// ------------------------------------------------------------ sentences

pub open spec fn blank_line() -> Seq<char> {
    seq!['\n', '\n']
}

/// The paragraph before `b` that sentence scopes look at: from just after
/// the last blank line before the text's end (trailing whitespace excluded)
/// to that end; nothing when it holds only whitespace.
pub open spec fn paragraph_before(s: Seq<char>, b: int) -> Option<(int, int)> {
    let end = back_ws(s, b);
    let ps = match rfind(s.take(end), blank_line()) {
        Some(i) => i + 2,
        None => 0,
    };
    if end == 0 || trim(s.subrange(ps, end)).len() == 0 {
        None
    } else {
        Some((ps, end))
    }
}

/// The text to split into sentences for the backward side: the paragraph
/// before `b`, its annotation comments blanked character for character.
pub open spec fn split_text_before(s: Seq<char>, b: int) -> Option<Seq<char>> {
    match paragraph_before(s, b) {
        Some((ps, end)) => Some(blank_from(s.subrange(ps, end), 0, false)),
        None => None,
    }
}

/// The last `n` sentences before `b`, given the sentences of
/// `split_text_before(s, b)` (all of them when fewer).
pub open spec fn sentences_before(s: Seq<char>, b: int, n: int, sents: Seq<Seq<char>>) -> Option<
    (int, int),
> {
    match paragraph_before(s, b) {
        None => None,
        Some((ps, end)) => if sents.len() == 0 {
            None
        } else {
            let take = if n < sents.len() {
                n
            } else {
                sents.len() as int
            };
            match locate_from(blank_from(s.subrange(ps, end), 0, false), sents, 0, 0) {
                None => None,
                Some(pos) => {
                    let last = ps + pos[sents.len() - 1].1;
                    Some(
                        (
                            ps + pos[sents.len() - take].0,
                            if last < end {
                                last
                            } else {
                                end
                            },
                        ),
                    )
                },
            }
        },
    }
}

/// End of the current paragraph from `e` (its next blank line, or the end).
pub open spec fn paragraph_end_from(s: Seq<char>, e: int) -> int {
    match find_from(s, blank_line(), e) {
        Some(i) => i,
        None => s.len() as int,
    }
}

/// Where the forward paragraph's text starts, and that text (trimmed);
/// nothing when the rest of the paragraph is whitespace.
pub open spec fn paragraph_after(s: Seq<char>, e: int) -> Option<(int, Seq<char>)> {
    let slice = s.subrange(e, paragraph_end_from(s, e));
    if trim(slice).len() == 0 {
        None
    } else {
        Some((e + skip_ws(slice, 0), trim(slice)))
    }
}

/// The text to split into sentences for the forward side.
pub open spec fn split_text_after(s: Seq<char>, e: int) -> Option<Seq<char>> {
    match paragraph_after(s, e) {
        Some((_, p)) => Some(p),
        None => None,
    }
}

/// The first `m` sentences after `e` within the current paragraph, given
/// the sentences of `split_text_after(s, e)`.
pub open spec fn sentences_after(s: Seq<char>, e: int, m: int, sents: Seq<Seq<char>>) -> Option<
    (int, int),
> {
    match paragraph_after(s, e) {
        None => None,
        Some((start, p)) => if sents.len() == 0 {
            None
        } else {
            let take = if m < sents.len() {
                m
            } else {
                sents.len() as int
            };
            match locate_from(p, sents, 0, 0) {
                None => None,
                Some(pos) => Some((start + pos[0].0, start + pos[take - 1].1)),
            }
        },
    }
}

fn paragraph_before_exec(v: &Vec<char>, b: usize) -> (r: Option<(usize, usize)>)
    requires
        b <= v.len(),
    ensures
        match r {
            Some((ps, end)) => paragraph_before(v@, b as int) == Some((ps as int, end as int))
                && ps <= end <= b,
            None => paragraph_before(v@, b as int) is None,
        },
{
    proof {
        lemma_back_ws(v@, b as int);
    }
    let end = back_ws_exec(v, b);
    let nn = vec!['\n', '\n'];
    assert(nn@ == blank_line());
    let ps = match rfind_exec(v, end, &nn) {
        Some(i) => i + 2,
        None => 0,
    };
    if end == 0 {
        return None;
    }
    let (x, y) = trim_range(v, ps, end);
    if x == y {
        None
    } else {
        Some((ps, end))
    }
}

fn paragraph_after_exec(v: &Vec<char>, e: usize) -> (r: Option<(usize, usize, usize)>)
    requires
        e <= v.len(),
    ensures
        match r {
            Some((start, x, y)) => x <= y <= v.len() && paragraph_after(v@, e as int) == Some(
                (start as int, v@.subrange(x as int, y as int)),
            ) && start == x && e <= x,
            None => paragraph_after(v@, e as int) is None,
        },
{
    let nn = vec!['\n', '\n'];
    assert(nn@ == blank_line());
    proof {
        lemma_find_from(v@, blank_line(), e as int);
    }
    let pend = match find_from_exec(v, &nn, e) {
        Some(i) => i,
        None => v.len(),
    };
    let (x, y) = trim_range(v, e, pend);
    if x == y {
        return None;
    }
    proof {
        let slice = v@.subrange(e as int, pend as int);
        lemma_skip_ws(slice, 0);
        crate::text::lemma_trim_start_skip(slice, 0);
        assert(slice.subrange(0, slice.len() as int) =~= slice);
        assert(v@.subrange(x as int, pend as int) =~= slice.subrange(x - e, slice.len() as int));
        assert(x - e == skip_ws(slice, 0));
    }
    Some((x, x, y))
}

/// The sentences as character vectors.
fn sentence_chars(list: &Vec<String>) -> (r: Vec<Vec<char>>)
    ensures
        words_view(r@) == list@.map_values(|x: String| x@),
{
    let mut r: Vec<Vec<char>> = Vec::new();
    let mut i: usize = 0;
    while i < list.len()
        invariant
            i <= list.len(),
            words_view(r@) == list@.take(i as int).map_values(|x: String| x@),
        decreases list.len() - i,
    {
        let w = chars_of(list[i].as_str());
        let ghost before = r@;
        r.push(w);
        assert(words_view(r@) =~= words_view(before).push(list@[i as int]@));
        assert(list@.take(i + 1) =~= list@.take(i as int).push(list@[i as int]));
        i += 1;
    }
    assert(list@.take(i as int) =~= list@);
    r
}

fn sentences_before_exec(v: &Vec<char>, b: usize, n: usize, sents: &Vec<Vec<char>>) -> (r: Option<
    (usize, usize),
>)
    requires
        b <= v.len(),
        fits(v@),
        n >= 1,
    ensures
        match r {
            Some((x, y)) => sentences_before(v@, b as int, n as int, words_view(sents@)) == Some(
                (x as int, y as int),
            ) && x <= v.len() && y <= b,
            None => sentences_before(v@, b as int, n as int, words_view(sents@)) is None,
        },
{
    let (ps, end) = match paragraph_before_exec(v, b) {
        Some(p) => p,
        None => return None,
    };
    if sents.len() == 0 {
        return None;
    }
    let para = sub_vec(v, ps, end);
    let blanked = blank_exec(&para, false);
    let take = if n < sents.len() {
        n
    } else {
        sents.len()
    };
    proof {
        lemma_blank_len(para@, 0);
        lemma_locate_from(blanked@, words_view(sents@), 0, 0);
    }
    let pos = match locate_exec(&blanked, sents) {
        Some(p) => p,
        None => return None,
    };
    let ghost pv = pos@.map_values(|x: (usize, usize)| (x.0 as int, x.1 as int));
    assert(pv[sents.len() - take] == (pos@[sents.len() - take].0 as int, pos@[sents.len() - take].1 as int));
    assert(pv[sents.len() - 1] == (pos@[sents.len() - 1].0 as int, pos@[sents.len() - 1].1 as int));
    let first = ps + pos[sents.len() - take].0;
    let last = ps + pos[sents.len() - 1].1;
    Some((first, if last < end { last } else { end }))
}

fn sentences_after_exec(v: &Vec<char>, e: usize, m: usize, sents: &Vec<Vec<char>>) -> (r: Option<
    (usize, usize),
>)
    requires
        e <= v.len(),
        m >= 1,
    ensures
        match r {
            Some((x, y)) => sentences_after(v@, e as int, m as int, words_view(sents@)) == Some(
                (x as int, y as int),
            ) && e <= x <= y <= v.len(),
            None => sentences_after(v@, e as int, m as int, words_view(sents@)) is None,
        },
{
    let (start, x, y) = match paragraph_after_exec(v, e) {
        Some(p) => p,
        None => return None,
    };
    if sents.len() == 0 {
        return None;
    }
    let para = sub_vec(v, x, y);
    let take = if m < sents.len() {
        m
    } else {
        sents.len()
    };
    proof {
        lemma_locate_from(para@, words_view(sents@), 0, 0);
    }
    let pos = match locate_exec(&para, sents) {
        Some(p) => p,
        None => return None,
    };
    let ghost pv = pos@.map_values(|x: (usize, usize)| (x.0 as int, x.1 as int));
    assert(pv[0] == (pos@[0].0 as int, pos@[0].1 as int));
    assert(pv[take - 1] == (pos@[take - 1].0 as int, pos@[take - 1].1 as int));
    if take > 1 {
        assert(pv[0].1 <= pv[take - 1].0);
    }
    Some((start + pos[0].0, start + pos[take - 1].1))
}

proof fn lemma_spaces_len(n: nat)
    ensures
        spaces(n).len() == n,
{
}

/// Blanking character for character keeps the length.
proof fn lemma_blank_len(t: Seq<char>, from: int)
    requires
        0 <= from <= t.len(),
    ensures
        blank_from(t, from, false).len() == t.len() - from,
    decreases t.len() + 1 - from,
{
    match next_span(t, from) {
        None => {},
        Some((st, end)) => {
            if end <= from || end > t.len() {
            } else {
                lemma_find_from(t, ann_open(), from);
                lemma_blank_len(t, end);
            }
        },
    }
}

// ------------------------------------------------------------ resolution

/// Sentence splits that sentence scopes need: the sentences of
/// `split_text_before` (for the backward side) and of `split_text_after`
/// (for the forward side), in order.
pub struct SentenceSplits {
    pub before: Vec<String>,
    pub after: Vec<String>,
}

pub struct SplitsView {
    pub before: Seq<Seq<char>>,
    pub after: Seq<Seq<char>>,
}

impl View for SentenceSplits {
    type V = SplitsView;

    open spec fn view(&self) -> SplitsView {
        SplitsView {
            before: self.before@.map_values(|x: String| x@),
            after: self.after@.map_values(|x: String| x@),
        }
    }
}

impl SentenceSplits {
    /// No sentences on either side (for scopes that are not sentences).
    pub fn empty() -> (r: SentenceSplits)
        ensures
            r@.before.len() == 0,
            r@.after.len() == 0,
    {
        SentenceSplits { before: Vec::new(), after: Vec::new() }
    }
}

/// The text units a scope counts.
#[derive(Clone, Copy, PartialEq, Eq, Structural)]
pub enum Unit {
    Word,
    Sentence,
    Paragraph,
    Page,
}

pub open spec fn unit_before(s: Seq<char>, b: int, n: int, u: Unit, sp: SplitsView) -> Option<
    (int, int),
> {
    match u {
        Unit::Word => words_before(s, b, n),
        Unit::Sentence => sentences_before(s, b, n, sp.before),
        Unit::Paragraph => paragraphs_before(s, b, n),
        Unit::Page => pages_before(s, b, n),
    }
}

pub open spec fn unit_after(s: Seq<char>, e: int, m: int, u: Unit, sp: SplitsView) -> Option<
    (int, int),
> {
    match u {
        Unit::Word => words_after(s, e, m),
        Unit::Sentence => sentences_after(s, e, m, sp.after),
        Unit::Paragraph => paragraphs_after(s, e, m),
        Unit::Page => pages_after(s, e, m),
    }
}

/// The backward range's start and the forward range's end (either one
/// alone when the other is missing), as UTF-16 offsets.
pub open spec fn combine(s: Seq<char>, back: Option<(int, int)>, fwd: Option<(int, int)>) -> Option<
    (nat, nat),
> {
    match (back, fwd) {
        (Some((a, _)), Some((_, d))) => Some((u16_at(s, a), u16_at(s, d))),
        (Some((a, b)), None) => Some((u16_at(s, a), u16_at(s, b))),
        (None, Some((c, d))) => Some((u16_at(s, c), u16_at(s, d))),
        (None, None) => None,
    }
}

/// `n` units backward from the annotation start and `m` forward from its
/// end.
pub open spec fn resolve_units(
    s: Seq<char>,
    cs: int,
    ce: int,
    n: int,
    m: int,
    u: Unit,
    sp: SplitsView,
) -> Option<(nat, nat)> {
    if n == 0 && m == 0 {
        None
    } else {
        let back = if n > 0 {
            unit_before(s, char_index(s, cs), n, u, sp)
        } else {
            None
        };
        let fwd = if m > 0 {
            unit_after(s, char_index(s, ce), m, u, sp)
        } else {
            None
        };
        combine(s, back, fwd)
    }
}

pub open spec fn to_u16(s: Seq<char>, r: Option<(int, int)>) -> Option<(nat, nat)> {
    match r {
        Some((a, b)) => Some((u16_at(s, a), u16_at(s, b))),
        None => None,
    }
}

/// The UTF-16 range a scope refers to, for an annotation spanning
/// `[cs, ce)` (UTF-16 offsets). Bidirectional mode extends the symmetric
/// scopes forward by the same count.
pub open spec fn scope_range(
    s: Seq<char>,
    cs: int,
    ce: int,
    sc: ScopeView,
    sp: SplitsView,
    mode: ResolutionMode,
) -> Option<(nat, nat)> {
    let fwd = |n: u8|
        if mode == ResolutionMode::Bidirectional {
            n as int
        } else {
            0
        };
    match sc {
        ScopeView::Words(n) => resolve_units(s, cs, ce, n as int, fwd(n), Unit::Word, sp),
        ScopeView::Sentence(n) => resolve_units(
            s,
            cs,
            ce,
            n as int,
            fwd(n),
            Unit::Sentence,
            sp,
        ),
        ScopeView::Paragraph(n) => resolve_units(
            s,
            cs,
            ce,
            n as int,
            fwd(n),
            Unit::Paragraph,
            sp,
        ),
        ScopeView::Page(n) => resolve_units(s, cs, ce, n as int, fwd(n), Unit::Page, sp),
        ScopeView::Anchor(a) => to_u16(s, anchor_range(s, char_index(s, cs), a)),
        ScopeView::Section => to_u16(s, section_range(s, char_index(s, cs))),
        ScopeView::Document => if s.len() == 0 {
            None
        } else {
            Some((0, utf16_len(s)))
        },
        ScopeView::AsymWords(n, m) => resolve_units(
            s,
            cs,
            ce,
            n as int,
            m as int,
            Unit::Word,
            sp,
        ),
        ScopeView::AsymSentence(n, m) => resolve_units(
            s,
            cs,
            ce,
            n as int,
            m as int,
            Unit::Sentence,
            sp,
        ),
        ScopeView::AsymParagraph(n, m) => resolve_units(
            s,
            cs,
            ce,
            n as int,
            m as int,
            Unit::Paragraph,
            sp,
        ),
        ScopeView::AsymPage(n, m) => resolve_units(
            s,
            cs,
            ce,
            n as int,
            m as int,
            Unit::Page,
            sp,
        ),
    }
}

fn unit_before_exec(
    v: &Vec<char>,
    b: usize,
    n: usize,
    u: Unit,
    before: &Vec<Vec<char>>,
) -> (r: Option<(usize, usize)>)
    requires
        b <= v.len(),
        fits(v@),
        n >= 1,
    ensures
        match r {
            Some((x, y)) => ({
                let sp = SplitsView { before: words_view(before@), after: Seq::empty() };
                unit_before(v@, b as int, n as int, u, sp) == Some((x as int, y as int))
            }) && x <= v.len() && y <= v.len(),
            None => unit_before(
                v@,
                b as int,
                n as int,
                u,
                SplitsView { before: words_view(before@), after: Seq::empty() },
            ) is None,
        },
{
    match u {
        Unit::Word => words_before_exec(v, b, n),
        Unit::Sentence => sentences_before_exec(v, b, n, before),
        Unit::Paragraph => paragraphs_before_exec(v, b, n),
        Unit::Page => pages_before_exec(v, b, n),
    }
}

fn unit_after_exec(v: &Vec<char>, e: usize, m: usize, u: Unit, after: &Vec<Vec<char>>) -> (r: Option<
    (usize, usize),
>)
    requires
        e <= v.len(),
        m >= 1,
    ensures
        match r {
            Some((x, y)) => ({
                let sp = SplitsView { before: Seq::empty(), after: words_view(after@) };
                unit_after(v@, e as int, m as int, u, sp) == Some((x as int, y as int))
            }) && x <= v.len() && y <= v.len(),
            None => unit_after(
                v@,
                e as int,
                m as int,
                u,
                SplitsView { before: Seq::empty(), after: words_view(after@) },
            ) is None,
        },
{
    match u {
        Unit::Word => words_after_exec(v, e, m),
        Unit::Sentence => sentences_after_exec(v, e, m, after),
        Unit::Paragraph => paragraphs_after_exec(v, e, m),
        Unit::Page => pages_after_exec(v, e, m),
    }
}

fn resolve_units_exec(
    v: &Vec<char>,
    cs: usize,
    ce: usize,
    n: usize,
    m: usize,
    u: Unit,
    before: &Vec<Vec<char>>,
    after: &Vec<Vec<char>>,
) -> (r: Option<(usize, usize)>)
    requires
        fits(v@),
    ensures
        ({
            let sp = SplitsView { before: words_view(before@), after: words_view(after@) };
            match r {
                Some((x, y)) => resolve_units(v@, cs as int, ce as int, n as int, m as int, u, sp)
                    == Some((x as nat, y as nat)),
                None => resolve_units(v@, cs as int, ce as int, n as int, m as int, u, sp) is None,
            }
        }),
{
    if n == 0 && m == 0 {
        return None;
    }
    let b = utf16_to_index(v, cs);
    let e = utf16_to_index(v, ce);
    let back = if n > 0 {
        unit_before_exec(v, b, n, u, before)
    } else {
        None
    };
    let fwd = if m > 0 {
        unit_after_exec(v, e, m, u, after)
    } else {
        None
    };
    match (back, fwd) {
        (Some((a, _)), Some((_, d))) => Some((utf16_at(v, a), utf16_at(v, d))),
        (Some((a, bb)), None) => Some((utf16_at(v, a), utf16_at(v, bb))),
        (None, Some((c, d))) => Some((utf16_at(v, c), utf16_at(v, d))),
        (None, None) => None,
    }
}

/// Resolve the text range that an annotation's scope refers to.
///
/// Given the full document content, the annotation's UTF-16 start and end
/// offsets, its scope, the sentence splits that sentence scopes need, and
/// the resolution mode, returns `Some((scope_start, scope_end))` in UTF-16
/// offsets, or `None` if the scope cannot be resolved. `char_end` is only
/// consulted by scopes that walk forward past the annotation's own text
/// (asymmetric scopes and bidirectional mode).
pub fn resolve_scope_range(
    content: &str,
    char_start: usize,
    char_end: usize,
    scope: &crate::types::Scope,
    sentences: &SentenceSplits,
    mode: ResolutionMode,
) -> (r: Option<(usize, usize)>)
    requires
        fits(content@),
    ensures
        match r {
            Some((x, y)) => scope_range(
                content@,
                char_start as int,
                char_end as int,
                scope@,
                sentences@,
                mode,
            ) == Some((x as nat, y as nat)),
            None => scope_range(
                content@,
                char_start as int,
                char_end as int,
                scope@,
                sentences@,
                mode,
            ) is None,
        },
{
    let v = chars_of(content);
    let before = sentence_chars(&sentences.before);
    let after = sentence_chars(&sentences.after);
    let bidi = mode == ResolutionMode::Bidirectional;
    match scope {
        Scope::Words(n) => resolve_units_exec(
            &v,
            char_start,
            char_end,
            *n as usize,
            if bidi {
                *n as usize
            } else {
                0
            },
            Unit::Word,
            &before,
            &after,
        ),
        Scope::Sentence(n) => resolve_units_exec(
            &v,
            char_start,
            char_end,
            *n as usize,
            if bidi {
                *n as usize
            } else {
                0
            },
            Unit::Sentence,
            &before,
            &after,
        ),
        Scope::Paragraph(n) => resolve_units_exec(
            &v,
            char_start,
            char_end,
            *n as usize,
            if bidi {
                *n as usize
            } else {
                0
            },
            Unit::Paragraph,
            &before,
            &after,
        ),
        Scope::Page(n) => resolve_units_exec(
            &v,
            char_start,
            char_end,
            *n as usize,
            if bidi {
                *n as usize
            } else {
                0
            },
            Unit::Page,
            &before,
            &after,
        ),
        Scope::Anchor(text) => {
            let a = chars_of(text.as_str());
            let b = utf16_to_index(&v, char_start);
            match rfind_exec(&v, b, &a) {
                Some(p) => Some((utf16_at(&v, p), utf16_at(&v, p + a.len()))),
                None => None,
            }
        },
        Scope::Section => {
            let b = utf16_to_index(&v, char_start);
            match section_exec(&v, b) {
                Some((x, y)) => Some((utf16_at(&v, x), utf16_at(&v, y))),
                None => None,
            }
        },
        Scope::Document => {
            if v.len() == 0 {
                None
            } else {
                assert(v@.take(v.len() as int) =~= v@);
                Some((0, utf16_at(&v, v.len())))
            }
        },
        Scope::AsymWords(n, m) => resolve_units_exec(
            &v,
            char_start,
            char_end,
            *n as usize,
            *m as usize,
            Unit::Word,
            &before,
            &after,
        ),
        Scope::AsymSentence(n, m) => resolve_units_exec(
            &v,
            char_start,
            char_end,
            *n as usize,
            *m as usize,
            Unit::Sentence,
            &before,
            &after,
        ),
        Scope::AsymParagraph(n, m) => resolve_units_exec(
            &v,
            char_start,
            char_end,
            *n as usize,
            *m as usize,
            Unit::Paragraph,
            &before,
            &after,
        ),
        Scope::AsymPage(n, m) => resolve_units_exec(
            &v,
            char_start,
            char_end,
            *n as usize,
            *m as usize,
            Unit::Page,
            &before,
            &after,
        ),
    }
}

/// The text whose sentences a backward sentence scope needs (to be split
/// into sentences and handed back in [`SentenceSplits::before`]): the
/// paragraph before the annotation start, annotation comments blanked.
pub fn sentence_text_before(content: &str, char_start: usize) -> (r: Option<String>)
    requires
        fits(content@),
    ensures
        opt_string_view(r) == split_text_before(content@, char_index(content@, char_start as int)),
{
    let v = chars_of(content);
    let b = utf16_to_index(&v, char_start);
    match paragraph_before_exec(&v, b) {
        Some((ps, end)) => {
            let para = sub_vec(&v, ps, end);
            let blanked = blank_exec(&para, false);
            Some(string_of(&blanked, 0, blanked.len()))
        },
        None => None,
    }
}

/// The text whose sentences a forward sentence scope needs (for
/// [`SentenceSplits::after`]): the rest of the current paragraph after the
/// annotation end, trimmed.
pub fn sentence_text_after(content: &str, char_end: usize) -> (r: Option<String>)
    requires
        fits(content@),
    ensures
        opt_string_view(r) == split_text_after(content@, char_index(content@, char_end as int)),
{
    let v = chars_of(content);
    let e = utf16_to_index(&v, char_end);
    match paragraph_after_exec(&v, e) {
        Some((_, x, y)) => Some(string_of(&v, x, y)),
        None => None,
    }
}

pub open spec fn opt_string_view(o: Option<String>) -> Option<Seq<char>> {
    match o {
        Some(x) => Some(x@),
        None => None,
    }
}

// ------------------------------------------------------------ laws

/// Bidirectional mode resolves a symmetric scope of `n` units exactly as
/// the asymmetric scope `n` before and `n` after resolves backward.
pub proof fn law_bidirectional_is_symmetric_asym(
    s: Seq<char>,
    cs: int,
    ce: int,
    n: u8,
    sp: SplitsView,
)
    ensures
        scope_range(s, cs, ce, ScopeView::Words(n), sp, ResolutionMode::Bidirectional)
            == scope_range(s, cs, ce, ScopeView::AsymWords(n, n), sp, ResolutionMode::Backward),
        scope_range(s, cs, ce, ScopeView::Sentence(n), sp, ResolutionMode::Bidirectional)
            == scope_range(s, cs, ce, ScopeView::AsymSentence(n, n), sp, ResolutionMode::Backward),
        scope_range(s, cs, ce, ScopeView::Paragraph(n), sp, ResolutionMode::Bidirectional)
            == scope_range(s, cs, ce, ScopeView::AsymParagraph(n, n), sp, ResolutionMode::Backward),
        scope_range(s, cs, ce, ScopeView::Page(n), sp, ResolutionMode::Bidirectional)
            == scope_range(s, cs, ce, ScopeView::AsymPage(n, n), sp, ResolutionMode::Backward),
{
}

/// Backward mode resolves a symmetric scope as the asymmetric scope with
/// nothing after.
pub proof fn law_backward_is_asym_before_only(
    s: Seq<char>,
    cs: int,
    ce: int,
    n: u8,
    sp: SplitsView,
)
    ensures
        scope_range(s, cs, ce, ScopeView::Words(n), sp, ResolutionMode::Backward) == scope_range(
            s,
            cs,
            ce,
            ScopeView::AsymWords(n, 0),
            sp,
            ResolutionMode::Backward,
        ),
        scope_range(s, cs, ce, ScopeView::Paragraph(n), sp, ResolutionMode::Backward)
            == scope_range(s, cs, ce, ScopeView::AsymParagraph(n, 0), sp, ResolutionMode::Backward),
        scope_range(s, cs, ce, ScopeView::Page(n), sp, ResolutionMode::Backward) == scope_range(
            s,
            cs,
            ce,
            ScopeView::AsymPage(n, 0),
            sp,
            ResolutionMode::Backward,
        ),
{
}

/// The mode only affects the symmetric counted scopes: anchors, sections
/// and the whole document resolve the same either way.
pub proof fn law_mode_ignored_for_other_scopes(
    s: Seq<char>,
    cs: int,
    ce: int,
    sc: ScopeView,
    sp: SplitsView,
)
    requires
        sc is Anchor || sc is Section || sc is Document,
    ensures
        scope_range(s, cs, ce, sc, sp, ResolutionMode::Bidirectional) == scope_range(
            s,
            cs,
            ce,
            sc,
            sp,
            ResolutionMode::Backward,
        ),
{
}

proof fn lemma_rfind_upto(s: Seq<char>, p: Seq<char>, k: int)
    ensures
        match rfind_upto(s, p, k) {
            Some(i) => 0 <= i <= k && matches_at(s, p, i) && forall|m: int|
                i < m <= k ==> !matches_at(s, p, m),
            None => forall|m: int| 0 <= m <= k ==> !matches_at(s, p, m),
        },
    decreases k + 1,
{
    if k >= 0 && !matches_at(s, p, k) {
        lemma_rfind_upto(s, p, k - 1);
    }
}

/// An anchor resolves to the last occurrence of its text that ends at or
/// before the annotation; with no such occurrence it does not resolve.
pub proof fn law_anchor_is_last_occurrence_before(s: Seq<char>, b: int, a: Seq<char>)
    requires
        0 <= b <= s.len(),
    ensures
        match anchor_range(s, b, a) {
            Some((x, y)) => {
                &&& y == x + a.len() && y <= b
                &&& matches_at(s, a, x)
                &&& forall|k: int| x < k && k + a.len() <= b ==> !#[trigger] matches_at(s, a, k)
            },
            None => forall|k: int| k + a.len() <= b ==> !#[trigger] matches_at(s, a, k),
        },
{
    let t = s.take(b);
    lemma_rfind_upto(t, a, t.len() - a.len());
    assert forall|k: int| 0 <= k && k + a.len() <= b implies #[trigger] matches_at(s, a, k)
        == matches_at(t, a, k) by {
        assert(t.subrange(k, k + a.len()) =~= s.subrange(k, k + a.len()));
    }
}

proof fn lemma_utf8_concat(a: Seq<char>, b: Seq<char>)
    ensures
        utf8_len(a + b) == utf8_len(a) + utf8_len(b),
    decreases b.len(),
{
    if b.len() > 0 {
        assert((a + b).drop_last() =~= a + b.drop_last());
        lemma_utf8_concat(a, b.drop_last());
    } else {
        assert(a + b =~= a);
    }
}

proof fn lemma_utf8_spaces(n: nat)
    ensures
        utf8_len(spaces(n)) == n,
    decreases n,
{
    if n > 0 {
        assert(spaces(n).drop_last() =~= spaces((n - 1) as nat));
        lemma_utf8_spaces((n - 1) as nat);
    }
}

proof fn lemma_blank_bytes(t: Seq<char>, from: int)
    requires
        0 <= from <= t.len(),
    ensures
        utf8_len(blank_from(t, from, true)) == utf8_len(t.skip(from)),
    decreases t.len() + 1 - from,
{
    match next_span(t, from) {
        None => {},
        Some((st, end)) => {
            if end <= from || end > t.len() {
            } else {
                lemma_find_from(t, ann_open(), from);
                lemma_blank_bytes(t, end);
                let sp = spaces(utf8_len(t.subrange(st, end)));
                lemma_utf8_spaces(utf8_len(t.subrange(st, end)));
                lemma_utf8_concat(t.subrange(from, st), sp);
                lemma_utf8_concat(t.subrange(from, st) + sp, blank_from(t, end, true));
                lemma_utf8_concat(t.subrange(from, st), t.subrange(st, end));
                lemma_utf8_concat(t.subrange(from, end), t.skip(end));
                assert(t.subrange(from, st) + t.subrange(st, end) =~= t.subrange(from, end));
                assert(t.subrange(from, end) + t.skip(end) =~= t.skip(from));
            }
        },
    }
}

/// Blanking annotation comments keeps every offset: per byte, the UTF-8
/// length is unchanged; per character, the number of characters is.
pub proof fn law_blanking_preserves_length(t: Seq<char>)
    ensures
        utf8_len(blank_from(t, 0, true)) == utf8_len(t),
        blank_from(t, 0, false).len() == t.len(),
{
    lemma_blank_bytes(t, 0);
    assert(t.skip(0) =~= t);
    lemma_blank_len(t, 0);
}

// ------------------------------------------------------------ bounds

proof fn lemma_idx_mono(s: Seq<char>, o1: int, o2: int, k: int)
    requires
        0 <= k <= s.len(),
        o1 <= o2,
    ensures
        idx_of_utf16(s, o1, k) <= idx_of_utf16(s, o2, k),
    decreases s.len() - k,
{
    lemma_idx_of_utf16(s, o2, k);
    if k < s.len() && utf16_len(s.take(k)) < o1 {
        lemma_idx_mono(s, o1, o2, k + 1);
    }
}

proof fn lemma_words_bounds(s: Seq<char>, b: int, e: int, n: int)
    requires
        0 <= b <= s.len(),
        0 <= e <= s.len(),
    ensures
        words_before(s, b, n) matches Some((x, y)) ==> 0 <= x <= y <= b,
        words_after(s, e, n) matches Some((x, y)) ==> e <= x <= y <= s.len(),
{
    lemma_back_ws(s, b);
    lemma_words_back_scan(s, back_ws(s, b), n, 0, false);
    lemma_skip_ws(s, e);
    let start = skip_ws(s, e);
    if start < s.len() {
        lemma_back_ws(s, s.len() as int);
        assert(!is_ws(s[start]));
        lemma_words_fwd_scan(s, start, n, 0, false, back_ws(s, s.len() as int));
    }
}

proof fn lemma_para_fwd_scan(s: Seq<char>, st: int, i: int, m: int, found: int, dflt: int)
    requires
        0 <= st < i <= s.len() || (0 <= st == i < s.len()),
        st < s.len(),
        !is_ws(s[st]),
        st < dflt <= s.len(),
    ensures
        st < para_fwd_scan(s, i, m, found, dflt) <= s.len(),
    decreases s.len() - i,
{
    if i + 1 >= s.len() {
    } else if s[i] == '\n' && s[i + 1] == '\n' {
        if found + 1 >= m {
            lemma_back_ws(s, i);
            assert(i != st);
            assert(back_ws(s, i) > st);
        } else {
            let e = nl_run_end(s, s.len() as int, i + 2);
            lemma_nl_run_end(s, s.len() as int, i + 2);
            if e > i && e <= s.len() {
                lemma_para_fwd_scan(s, st, e, m, found + 1, dflt);
            }
        }
    } else {
        lemma_para_fwd_scan(s, st, i + 1, m, found, dflt);
    }
}

proof fn lemma_page_fwd_scan(s: Seq<char>, st: int, i: int, m: int, found: int, dflt: int)
    requires
        0 <= st < i <= s.len() || (0 <= st == i < s.len()),
        st < s.len(),
        !is_ws(s[st]),
        st < dflt <= s.len(),
    ensures
        st < page_fwd_scan(s, i, m, found, dflt) <= s.len(),
    decreases s.len() - i,
{
    if i >= s.len() {
    } else if s[i] == '\x0C' {
        if found + 1 >= m {
            lemma_back_ws(s, i);
            assert(i != st);
            assert(back_ws(s, i) > st);
        } else {
            lemma_page_fwd_scan(s, st, i + 1, m, found + 1, dflt);
        }
    } else {
        lemma_page_fwd_scan(s, st, i + 1, m, found, dflt);
    }
}

proof fn lemma_blocks_bounds(s: Seq<char>, b: int, e: int, n: int)
    requires
        0 <= b <= s.len(),
        0 <= e <= s.len(),
        n >= 1,
    ensures
        paragraphs_before(s, b, n) matches Some((x, y)) ==> 0 <= x <= y <= b,
        paragraphs_after(s, e, n) matches Some((x, y)) ==> e <= x <= y <= s.len(),
        pages_before(s, b, n) matches Some((x, y)) ==> 0 <= x <= y <= b,
        pages_after(s, e, n) matches Some((x, y)) ==> e <= x <= y <= s.len(),
{
    lemma_back_ws(s, b);
    let end = back_ws(s, b);
    lemma_para_starts(s, end, 0);
    lemma_page_starts(s, end, 0);
    let ps = seq![0int] + para_starts(s, end, 0);
    let gs = seq![0int] + page_starts(s, end, 0);
    assert forall|k: int| 0 <= k < ps.len() implies 0 <= #[trigger] ps[k] <= end by {
        if k > 0 {
            assert(ps[k] == para_starts(s, end, 0)[k - 1]);
        }
    }
    assert forall|k: int| 0 <= k < gs.len() implies 0 <= #[trigger] gs[k] <= end by {
        if k > 0 {
            assert(gs[k] == page_starts(s, end, 0)[k - 1]);
        }
    }
    if ps.len() >= n {
        assert(0 <= pick_back(ps, n) <= end);
    }
    if gs.len() >= n {
        assert(0 <= pick_back(gs, n) <= end);
    }
    lemma_skip_ws(s, e);
    let start = skip_ws(s, e);
    if start < s.len() {
        lemma_back_ws(s, s.len() as int);
        assert(!is_ws(s[start]));
        lemma_para_fwd_scan(s, start, start, n, 0, back_ws(s, s.len() as int));
        lemma_page_fwd_scan(s, start, start, n, 0, back_ws(s, s.len() as int));
    }
}

proof fn lemma_sentences_bounds(s: Seq<char>, b: int, e: int, n: int, sp: SplitsView)
    requires
        0 <= b <= s.len(),
        0 <= e <= s.len(),
        n >= 1,
    ensures
        sentences_before(s, b, n, sp.before) matches Some((x, y)) ==> 0 <= x <= y <= b,
        sentences_after(s, e, n, sp.after) matches Some((x, y)) ==> e <= x <= y <= s.len(),
{
    lemma_back_ws(s, b);
    let end = back_ws(s, b);
    match paragraph_before(s, b) {
        None => {},
        Some((ps, _)) => {
            let sents = sp.before;
            lemma_rfind_upto(s.take(end), blank_line(), s.take(end).len() - 2);
            assert(0 <= ps <= end);
            let p = blank_from(s.subrange(ps, end), 0, false);
            lemma_blank_len(s.subrange(ps, end), 0);
            if sents.len() > 0 {
                lemma_locate_from(p, sents, 0, 0);
                match locate_from(p, sents, 0, 0) {
                    None => {},
                    Some(pos) => {
                        let take = if n < sents.len() {
                            n
                        } else {
                            sents.len() as int
                        };
                        let f = pos[sents.len() - take];
                        let l = pos[sents.len() - 1];
                        assert(f.0 <= f.1);
                        if sents.len() - take < sents.len() - 1 {
                            assert(f.1 <= l.0);
                        }
                    },
                }
            }
        },
    }
    match paragraph_after(s, e) {
        None => {},
        Some((start, p)) => {
            let pe = paragraph_end_from(s, e);
            lemma_find_from(s, blank_line(), e);
            let slice = s.subrange(e, pe);
            lemma_skip_ws(slice, 0);
            lemma_trim_start(slice);
            lemma_trim_end(trim_start(slice));
            let sents = sp.after;
            if sents.len() > 0 {
                lemma_locate_from(p, sents, 0, 0);
                match locate_from(p, sents, 0, 0) {
                    None => {},
                    Some(pos) => {
                        let take = if n < sents.len() {
                            n
                        } else {
                            sents.len() as int
                        };
                        let f = pos[0];
                        let l = pos[take - 1];
                        assert(f.0 <= f.1);
                        if take - 1 > 0 {
                            assert(f.1 <= l.0);
                        }
                    },
                }
            }
        },
    }
}

proof fn lemma_units_bounds(s: Seq<char>, b: int, e: int, n: int, u: Unit, sp: SplitsView)
    requires
        0 <= b <= s.len(),
        0 <= e <= s.len(),
        n >= 1,
    ensures
        unit_before(s, b, n, u, sp) matches Some((x, y)) ==> 0 <= x <= y <= b,
        unit_after(s, e, n, u, sp) matches Some((x, y)) ==> e <= x <= y <= s.len(),
{
    lemma_words_bounds(s, b, e, n);
    lemma_blocks_bounds(s, b, e, n);
    lemma_sentences_bounds(s, b, e, n, sp);
}

proof fn lemma_resolve_units_bounds(
    s: Seq<char>,
    cs: int,
    ce: int,
    n: int,
    m: int,
    u: Unit,
    sp: SplitsView,
)
    requires
        0 <= cs <= ce,
        n >= 0,
        m >= 0,
    ensures
        resolve_units(s, cs, ce, n, m, u, sp) matches Some((x, y)) ==> x <= y <= utf16_len(s),
{
    let b = char_index(s, cs);
    let e = char_index(s, ce);
    lemma_idx_of_utf16(s, cs, 0);
    lemma_idx_of_utf16(s, ce, 0);
    lemma_idx_mono(s, cs, ce, 0);
    if n > 0 {
        lemma_units_bounds(s, b, e, n, u, sp);
    }
    if m > 0 {
        lemma_units_bounds(s, b, e, m, u, sp);
    }
    assert(s.take(s.len() as int) =~= s);
    let back = if n > 0 {
        unit_before(s, b, n, u, sp)
    } else {
        None
    };
    let fwd = if m > 0 {
        unit_after(s, e, m, u, sp)
    } else {
        None
    };
    if n == 0 && m == 0 {
    } else {
        assert(resolve_units(s, cs, ce, n, m, u, sp) == combine(s, back, fwd));
        match (back, fwd) {
            (Some((a, a2)), Some((c, d))) => {
                lemma_utf16_mono(s, a, d);
                lemma_utf16_mono(s, d, s.len() as int);
            },
            (Some((a, a2)), None) => {
                lemma_utf16_mono(s, a, a2);
                lemma_utf16_mono(s, a2, s.len() as int);
            },
            (None, Some((c, d))) => {
                lemma_utf16_mono(s, c, d);
                lemma_utf16_mono(s, d, s.len() as int);
            },
            (None, None) => {},
        }
    }
}

proof fn lemma_headings_bounds(s: Seq<char>, f: Seq<(int, int)>, o: int)
    requires
        0 <= o <= s.len(),
    ensures
        forall|k: int|
            0 <= k < headings_from(s, f, o).len() ==> 0 <= (#[trigger] headings_from(
                s,
                f,
                o,
            )[k]).0 <= s.len(),
    decreases s.len() - o,
{
    let e = line_end(s, o);
    lemma_find_char_from(s, '\n', o);
    let here = if !in_fenced(f, o) && atx_level(s.subrange(o, e)) is Some {
        seq![(o, atx_level(s.subrange(o, e)).unwrap())]
    } else {
        Seq::empty()
    };
    if e < s.len() {
        lemma_headings_bounds(s, f, e + 1);
        let r = headings_from(s, f, e + 1);
        assert(headings_from(s, f, o) == here + r);
        assert forall|k: int| 0 <= k < (here + r).len() implies 0 <= (#[trigger] (here + r)[k]).0
            <= s.len() by {
            if k >= here.len() {
                assert((here + r)[k] == r[k - here.len()]);
            }
        }
    }
}

proof fn lemma_heading_at_or_before(hs: Seq<(int, u8)>, b: int, k: int, n: int)
    requires
        0 <= n,
        forall|i: int| 0 <= i < hs.len() ==> 0 <= (#[trigger] hs[i]).0 <= n,
    ensures
        0 <= heading_at_or_before(hs, b, k).0 <= n,
    decreases k,
{
    if 0 < k <= hs.len() && hs[k - 1].0 > b {
        lemma_heading_at_or_before(hs, b, k - 1, n);
    }
}

proof fn lemma_next_heading(hs: Seq<(int, u8)>, start: int, level: u8, k: int, dflt: int, n: int)
    requires
        0 <= dflt <= n,
        forall|i: int| 0 <= i < hs.len() ==> 0 <= (#[trigger] hs[i]).0 <= n,
    ensures
        0 <= next_heading(hs, start, level, k, dflt) <= n,
    decreases hs.len() - k,
{
    if 0 <= k < hs.len() && !(hs[k].0 > start && hs[k].1 <= level) {
        lemma_next_heading(hs, start, level, k + 1, dflt, n);
    }
}

/// Every resolved scope is a range of the document: it starts no later than
/// it ends, and ends no later than the document does (UTF-16 offsets), for
/// an annotation that starts no later than it ends.
pub proof fn law_resolved_range_within_document(
    s: Seq<char>,
    cs: int,
    ce: int,
    sc: ScopeView,
    sp: SplitsView,
    mode: ResolutionMode,
)
    requires
        0 <= cs <= ce,
    ensures
        scope_range(s, cs, ce, sc, sp, mode) matches Some((x, y)) ==> x <= y <= utf16_len(s),
{
    assert(s.take(s.len() as int) =~= s);
    let bidi = mode == ResolutionMode::Bidirectional;
    match sc {
        ScopeView::Words(n) => {
            let m = if bidi { n as int } else { 0 };
            lemma_resolve_units_bounds(s, cs, ce, n as int, m, Unit::Word, sp);
        },
        ScopeView::Sentence(n) => {
            let m = if bidi { n as int } else { 0 };
            lemma_resolve_units_bounds(s, cs, ce, n as int, m, Unit::Sentence, sp);
        },
        ScopeView::Paragraph(n) => {
            let m = if bidi { n as int } else { 0 };
            lemma_resolve_units_bounds(s, cs, ce, n as int, m, Unit::Paragraph, sp);
        },
        ScopeView::Page(n) => {
            let m = if bidi { n as int } else { 0 };
            lemma_resolve_units_bounds(s, cs, ce, n as int, m, Unit::Page, sp);
        },
        ScopeView::AsymWords(n, m) => {
            lemma_resolve_units_bounds(s, cs, ce, n as int, m as int, Unit::Word, sp);
        },
        ScopeView::AsymSentence(n, m) => {
            lemma_resolve_units_bounds(s, cs, ce, n as int, m as int, Unit::Sentence, sp);
        },
        ScopeView::AsymParagraph(n, m) => {
            lemma_resolve_units_bounds(s, cs, ce, n as int, m as int, Unit::Paragraph, sp);
        },
        ScopeView::AsymPage(n, m) => {
            lemma_resolve_units_bounds(s, cs, ce, n as int, m as int, Unit::Page, sp);
        },
        ScopeView::Anchor(a) => {
            let b = char_index(s, cs);
            lemma_idx_of_utf16(s, cs, 0);
            law_anchor_is_last_occurrence_before(s, b, a);
            match anchor_range(s, b, a) {
                Some((x, y)) => {
                    assert(matches_at(s, a, x));
                    lemma_utf16_mono(s, x, y);
                    lemma_utf16_mono(s, y, s.len() as int);
                },
                None => {},
            }
        },
        ScopeView::Section => {
            let b = char_index(s, cs);
            let f = fenced_ranges(s);
            let hs = headings_from(s, f, 0);
            lemma_headings_bounds(s, f, 0);
            lemma_heading_at_or_before(hs, b, hs.len() as int, s.len() as int);
            let (start, level) = heading_at_or_before(hs, b, hs.len() as int);
            lemma_next_heading(hs, start, level, 0, s.len() as int, s.len() as int);
            lemma_back_ws(s, next_heading(hs, start, level, 0, s.len() as int));
            match section_range(s, b) {
                Some((x, y)) => {
                    lemma_utf16_mono(s, x, y);
                    lemma_utf16_mono(s, y, s.len() as int);
                },
                None => {},
            }
        },
        ScopeView::Document => {},
    }
}

proof fn lemma_idx_exact(s: Seq<char>, k: int, k0: int)
    requires
        0 <= k <= k0 <= s.len(),
    ensures
        idx_of_utf16(s, u16_at(s, k0) as int, k) == k0,
    decreases k0 - k,
{
    if k < k0 {
        lemma_utf16_mono(s, k, k0);
        lemma_idx_exact(s, k + 1, k0);
    }
}

/// The UTF-16 offset of a character boundary maps back to that character.
pub proof fn lemma_char_index_of_boundary(s: Seq<char>, k0: int)
    requires
        0 <= k0 <= s.len(),
    ensures
        char_index(s, u16_at(s, k0) as int) == k0,
{
    lemma_idx_exact(s, 0, k0);
}

/// Scopes that count units (or find an anchor) backward from the
/// annotation start.
pub open spec fn counts_backward(sc: ScopeView) -> bool {
    ||| sc is Words
    ||| sc is Sentence
    ||| sc is Paragraph
    ||| sc is Page
    ||| sc is Anchor
}

/// In backward mode a scope that is not asymmetric does not depend on where
/// the annotation ends, and a counted (or anchor) range ends at or before
/// the annotation start: at its character, and so at `char_start` itself
/// when that falls on a character boundary.
pub proof fn law_backward_scope_before_annotation(
    s: Seq<char>,
    cs: int,
    ce: int,
    ce2: int,
    sc: ScopeView,
    sp: SplitsView,
)
    requires
        0 <= cs,
        !(sc is AsymWords || sc is AsymSentence || sc is AsymParagraph || sc is AsymPage),
    ensures
        scope_range(s, cs, ce, sc, sp, ResolutionMode::Backward) == scope_range(
            s,
            cs,
            ce2,
            sc,
            sp,
            ResolutionMode::Backward,
        ),
        counts_backward(sc) ==> (scope_range(s, cs, ce, sc, sp, ResolutionMode::Backward) matches Some(
            (x, y),
        ) ==> y <= u16_at(s, char_index(s, cs))),
        forall|k0: int|
            0 <= k0 <= s.len() && cs == #[trigger] u16_at(s, k0) && counts_backward(sc) ==> (
            scope_range(s, cs, ce, sc, sp, ResolutionMode::Backward) matches Some((x, y)) ==> y
                <= cs),
{
    let b = char_index(s, cs);
    lemma_idx_of_utf16(s, cs, 0);
    let r = scope_range(s, cs, ce, sc, sp, ResolutionMode::Backward);
    match sc {
        ScopeView::Words(n) => {
            if n >= 1 {
                lemma_units_bounds(s, b, b, n as int, Unit::Word, sp);
            }
        },
        ScopeView::Sentence(n) => {
            if n >= 1 {
                lemma_units_bounds(s, b, b, n as int, Unit::Sentence, sp);
            }
        },
        ScopeView::Paragraph(n) => {
            if n >= 1 {
                lemma_units_bounds(s, b, b, n as int, Unit::Paragraph, sp);
            }
        },
        ScopeView::Page(n) => {
            if n >= 1 {
                lemma_units_bounds(s, b, b, n as int, Unit::Page, sp);
            }
        },
        ScopeView::Anchor(a) => {
            law_anchor_is_last_occurrence_before(s, b, a);
        },
        _ => {},
    }
    match r {
        Some((x, y)) => {
            if counts_backward(sc) {
                let yi: int = match sc {
                    ScopeView::Words(n) => unit_before(s, b, n as int, Unit::Word, sp).unwrap().1,
                    ScopeView::Sentence(n) => unit_before(
                        s,
                        b,
                        n as int,
                        Unit::Sentence,
                        sp,
                    ).unwrap().1,
                    ScopeView::Paragraph(n) => unit_before(
                        s,
                        b,
                        n as int,
                        Unit::Paragraph,
                        sp,
                    ).unwrap().1,
                    ScopeView::Page(n) => unit_before(s, b, n as int, Unit::Page, sp).unwrap().1,
                    ScopeView::Anchor(a) => anchor_range(s, b, a).unwrap().1,
                    _ => 0,
                };
                assert(y == u16_at(s, yi));
                lemma_utf16_mono(s, yi, b);
            }
        },
        None => {},
    }
    assert forall|k0: int|
        0 <= k0 <= s.len() && cs == #[trigger] u16_at(s, k0) && counts_backward(sc) implies (
        r matches Some((x, y)) ==> y <= cs) by {
        lemma_char_index_of_boundary(s, k0);
    }
}

proof fn lemma_words_back_scan_more(s: Seq<char>, i: int, n: int, found: int, in_word: bool)
    requires
        0 <= i <= s.len(),
    ensures
        words_back_scan(s, i, n + 1, found, in_word) <= words_back_scan(s, i, n, found, in_word),
    decreases i,
{
    if i > 0 {
        if is_ws(s[i - 1]) {
            if in_word {
                if found + 1 >= n + 1 {
                } else if found + 1 >= n {
                    lemma_words_back_scan(s, i - 1, n + 1, found + 1, false);
                } else {
                    lemma_words_back_scan_more(s, i - 1, n, found + 1, false);
                }
            } else {
                lemma_words_back_scan_more(s, i - 1, n, found, false);
            }
        } else {
            lemma_words_back_scan_more(s, i - 1, n, found, true);
        }
    }
}

/// Paragraph starts found from `i` come in increasing order, after `i`.
proof fn lemma_para_starts_sorted(s: Seq<char>, lim: int, i: int)
    requires
        0 <= i,
    ensures
        forall|k: int|
            0 <= k < para_starts(s, lim, i).len() ==> i < #[trigger] para_starts(s, lim, i)[k],
        forall|j: int, k: int|
            0 <= j < k < para_starts(s, lim, i).len() ==> #[trigger] para_starts(s, lim, i)[j]
                < #[trigger] para_starts(s, lim, i)[k],
    decreases lim - i,
{
    if i + 1 >= lim || i + 1 >= s.len() {
        assert(para_starts(s, lim, i) =~= Seq::<int>::empty());
    } else if s[i] == '\n' && s[i + 1] == '\n' {
        let e = nl_run_end(s, lim, i + 2);
        lemma_nl_run_end(s, lim, i + 2);
        if e > i && e <= lim {
            lemma_para_starts_sorted(s, lim, e);
            let r = para_starts(s, lim, e);
            let q = seq![e] + r;
            assert(para_starts(s, lim, i) == q);
            assert forall|k: int| 0 <= k < q.len() implies i < #[trigger] q[k] by {
                if k > 0 {
                    assert(q[k] == r[k - 1]);
                }
            }
            assert forall|j: int, k: int| 0 <= j < k < q.len() implies #[trigger] q[j]
                < #[trigger] q[k] by {
                assert(q[k] == r[k - 1]);
                if j > 0 {
                    assert(q[j] == r[j - 1]);
                }
            }
        } else {
            assert(para_starts(s, lim, i) =~= Seq::<int>::empty());
        }
    } else {
        lemma_para_starts_sorted(s, lim, i + 1);
        assert(para_starts(s, lim, i) == para_starts(s, lim, i + 1));
    }
}

/// Page starts found from `i` come in increasing order, after `i`.
proof fn lemma_page_starts_sorted(s: Seq<char>, lim: int, i: int)
    requires
        0 <= i,
    ensures
        forall|k: int|
            0 <= k < page_starts(s, lim, i).len() ==> i < #[trigger] page_starts(s, lim, i)[k],
        forall|j: int, k: int|
            0 <= j < k < page_starts(s, lim, i).len() ==> #[trigger] page_starts(s, lim, i)[j]
                < #[trigger] page_starts(s, lim, i)[k],
    decreases lim - i,
{
    if i >= lim || i >= s.len() {
    } else {
        lemma_page_starts_sorted(s, lim, i + 1);
        let r = page_starts(s, lim, i + 1);
        if s[i] == '\x0C' {
            let q = seq![i + 1] + r;
            assert forall|k: int| 0 <= k < q.len() implies i < #[trigger] q[k] by {
                if k > 0 {
                    assert(q[k] == r[k - 1]);
                }
            }
            assert forall|j: int, k: int| 0 <= j < k < q.len() implies #[trigger] q[j]
                < #[trigger] q[k] by {
                assert(q[k] == r[k - 1]);
                if j > 0 {
                    assert(q[j] == r[j - 1]);
                }
            }
        }
    }
}

proof fn lemma_pick_back_more(bs: Seq<int>, n: int)
    requires
        n >= 1,
        bs.len() >= 1,
        forall|j: int, k: int| 0 <= j < k < bs.len() ==> #[trigger] bs[j] <= #[trigger] bs[k],
    ensures
        pick_back(bs, n + 1) <= pick_back(bs, n),
{
    if bs.len() >= n + 1 {
        assert(bs[bs.len() - (n + 1)] <= bs[bs.len() - n]);
    } else if bs.len() == n {
        assert(bs[bs.len() - n] == bs[0]);
    }
}

proof fn lemma_starts_with_zero(r: Seq<int>)
    requires
        forall|k: int| 0 <= k < r.len() ==> 0 < #[trigger] r[k],
        forall|j: int, k: int| 0 <= j < k < r.len() ==> #[trigger] r[j] < #[trigger] r[k],
    ensures
        forall|j: int, k: int|
            0 <= j < k < (seq![0int] + r).len() ==> #[trigger] (seq![0int] + r)[j] <= #[trigger] (
            seq![0int] + r)[k],
{
    let q = seq![0int] + r;
    assert forall|j: int, k: int| 0 <= j < k < q.len() implies #[trigger] q[j] <= #[trigger] q[k] by {
        assert(q[k] == r[k - 1]);
        if j > 0 {
            assert(q[j] == r[j - 1]);
        }
    }
}

/// Counting one more unit back finds the same range end and a start no
/// later than before.
proof fn lemma_unit_before_more(s: Seq<char>, b: int, n: int, u: Unit, sp: SplitsView)
    requires
        0 <= b <= s.len(),
        n >= 1,
    ensures
        unit_before(s, b, n, u, sp) is Some == unit_before(s, b, n + 1, u, sp) is Some,
        unit_before(s, b, n, u, sp) matches Some((x, y)) ==> unit_before(
            s,
            b,
            n + 1,
            u,
            sp,
        ).unwrap().1 == y && unit_before(s, b, n + 1, u, sp).unwrap().0 <= x,
{
    lemma_back_ws(s, b);
    let end = back_ws(s, b);
    match u {
        Unit::Word => {
            lemma_words_back_scan_more(s, end, n, 0, false);
        },
        Unit::Paragraph => {
            lemma_para_starts_sorted(s, end, 0);
            lemma_starts_with_zero(para_starts(s, end, 0));
            lemma_pick_back_more(seq![0int] + para_starts(s, end, 0), n);
        },
        Unit::Page => {
            lemma_page_starts_sorted(s, end, 0);
            lemma_starts_with_zero(page_starts(s, end, 0));
            lemma_pick_back_more(seq![0int] + page_starts(s, end, 0), n);
        },
        Unit::Sentence => {
            match paragraph_before(s, b) {
                None => {},
                Some((ps, pe)) => {
                    let sents = sp.before;
                    let p = blank_from(s.subrange(ps, pe), 0, false);
                    if sents.len() > 0 {
                        lemma_rfind_upto(s.take(end), blank_line(), s.take(end).len() - 2);
                        lemma_blank_len(s.subrange(ps, pe), 0);
                        lemma_locate_from(p, sents, 0, 0);
                        match locate_from(p, sents, 0, 0) {
                            None => {},
                            Some(pos) => {
                                let t1 = if n < sents.len() {
                                    n
                                } else {
                                    sents.len() as int
                                };
                                let t2 = if n + 1 < sents.len() {
                                    n + 1
                                } else {
                                    sents.len() as int
                                };
                                if t2 > t1 {
                                    let j = sents.len() - t2;
                                    let k = sents.len() - t1;
                                    assert(pos[j].0 <= pos[j].1);
                                    assert(pos[j].1 <= pos[k].0);
                                }
                            },
                        }
                    }
                },
            }
        },
    }
}

proof fn lemma_more_units(
    s: Seq<char>,
    cs: int,
    ce: int,
    n: int,
    u: Unit,
    sp: SplitsView,
)
    requires
        0 <= cs,
        1 <= n,
    ensures
        resolve_units(s, cs, ce, n, 0, u, sp) is Some == resolve_units(s, cs, ce, n + 1, 0, u, sp) is Some,
        resolve_units(s, cs, ce, n, 0, u, sp) matches Some((x, y)) ==> resolve_units(
            s,
            cs,
            ce,
            n + 1,
            0,
            u,
            sp,
        ).unwrap().1 == y && resolve_units(s, cs, ce, n + 1, 0, u, sp).unwrap().0 <= x,
{
    let b = char_index(s, cs);
    lemma_idx_of_utf16(s, cs, 0);
    lemma_unit_before_more(s, b, n, u, sp);
    lemma_units_bounds(s, b, b, n, u, sp);
    lemma_units_bounds(s, b, b, n + 1, u, sp);
    match unit_before(s, b, n, u, sp) {
        Some((x, y)) => {
            let x2 = unit_before(s, b, n + 1, u, sp).unwrap().0;
            lemma_utf16_mono(s, x2, x);
        },
        None => {},
    }
}

/// The symmetric scope of `n` units of kind `u`.
pub open spec fn counted(u: Unit, n: u8) -> ScopeView {
    match u {
        Unit::Word => ScopeView::Words(n),
        Unit::Sentence => ScopeView::Sentence(n),
        Unit::Paragraph => ScopeView::Paragraph(n),
        Unit::Page => ScopeView::Page(n),
    }
}

/// Asking for more units back never moves the end of the range and never
/// moves its start forward, and a range exists for `n + 1` units exactly
/// when it does for `n` (backward mode; words, sentences, paragraphs, pages).
pub proof fn law_more_units_extend_backward(
    s: Seq<char>,
    cs: int,
    ce: int,
    u: Unit,
    n: u8,
    sp: SplitsView,
)
    requires
        0 <= cs,
        1 <= n <= 254,
    ensures
        ({
            let a = scope_range(s, cs, ce, counted(u, n), sp, ResolutionMode::Backward);
            let b = scope_range(s, cs, ce, counted(u, (n + 1) as u8), sp, ResolutionMode::Backward);
            &&& a is Some == b is Some
            &&& a matches Some((x, y)) ==> b.unwrap().1 == y && b.unwrap().0 <= x
        }),
{
    lemma_more_units(s, cs, ce, n as int, u, sp);
    assert((n + 1) as u8 as int == n as int + 1);
}

/// Every ATX heading of levels 1 to 6 is a heading of its level: one to six
/// `#` followed by a space (and any title), or alone on the line.
pub proof fn law_atx_headings_have_their_level(h: nat, t: Seq<char>)
    requires
        1 <= h <= 6,
    ensures
        atx_level(Seq::new(h, |i: int| '#') + seq![' '] + t) == Some(h as u8),
        atx_level(Seq::new(h, |i: int| '#')) == Some(h as u8),
{
    let hs = Seq::new(h, |i: int| '#');
    let l = hs + seq![' '] + t;
    lemma_run_len_of(l, ' ', 0, 0);
    assert(l.skip(0) =~= l);
    lemma_run_len_of(l, '#', 0, h as int);
    assert(l.skip(h as int)[0] == ' ');
    lemma_run_len_of(hs, ' ', 0, 0);
    assert(hs.skip(0) =~= hs);
    lemma_run_len_of(hs, '#', 0, h as int);
    assert(hs.skip(h as int) =~= Seq::<char>::empty());
}

/// `run_len` from `i` is `j` when `[i, j)` holds `c` and `j` does not.
proof fn lemma_run_len_of(t: Seq<char>, c: char, i: int, j: int)
    requires
        0 <= i <= j <= t.len(),
        forall|k: int| i <= k < j ==> t[k] == c,
        j == t.len() || t[j] != c,
    ensures
        run_len(t, c, i) == j,
    decreases j - i,
{
    if i < j {
        lemma_run_len_of(t, c, i + 1, j);
    }
}

// ------------------------------------------------------------ blank lines

/// A blank line starts at `i`: two newlines there, not preceded by another.
pub open spec fn blank_run_start(s: Seq<char>, i: int) -> bool {
    &&& 0 <= i && i + 1 < s.len()
    &&& s[i] == '\n' && s[i + 1] == '\n'
    &&& (i == 0 || s[i - 1] != '\n')
}

/// How many blank lines start in `[a, b)`.
pub open spec fn blank_runs(s: Seq<char>, a: int, b: int) -> nat
    decreases b - a,
{
    if b <= a {
        0
    } else {
        blank_runs(s, a, b - 1) + if blank_run_start(s, b - 1) {
            1nat
        } else {
            0nat
        }
    }
}

/// A newline run from `e` (below `lim`) is all newlines and stops before a
/// character that is not one.
proof fn lemma_nl_run_chars(s: Seq<char>, lim: int, e: int)
    requires
        0 <= e <= lim <= s.len(),
    ensures
        e <= nl_run_end(s, lim, e) <= lim,
        forall|k: int| e <= k < nl_run_end(s, lim, e) ==> s[k] == '\n',
        nl_run_end(s, lim, e) < lim ==> s[nl_run_end(s, lim, e)] != '\n',
    decreases lim - e,
{
    if e < lim && s[e] == '\n' {
        lemma_nl_run_chars(s, lim, e + 1);
    }
}

/// Paragraph starts follow a blank line and hold no newline themselves: a
/// run of several blank lines separates two paragraphs, it is no paragraph.
pub proof fn law_paragraph_starts_follow_blank_lines(s: Seq<char>, lim: int, i: int)
    requires
        0 <= i,
        lim <= s.len(),
    ensures
        forall|k: int|
            0 <= k < para_starts(s, lim, i).len() ==> {
                let p = #[trigger] para_starts(s, lim, i)[k];
                &&& 2 <= p <= lim
                &&& s[p - 1] == '\n' && s[p - 2] == '\n'
                &&& p < lim ==> s[p] != '\n'
            },
    decreases lim - i,
{
    if i + 1 >= lim || i + 1 >= s.len() {
        assert(para_starts(s, lim, i) =~= Seq::<int>::empty());
    } else if s[i] == '\n' && s[i + 1] == '\n' {
        let e = nl_run_end(s, lim, i + 2);
        lemma_nl_run_chars(s, lim, i + 2);
        law_paragraph_starts_follow_blank_lines(s, lim, e);
        let r = para_starts(s, lim, e);
        let q = seq![e] + r;
        assert(para_starts(s, lim, i) == q);
        assert forall|k: int| 0 <= k < q.len() implies {
            let p = #[trigger] q[k];
            &&& 2 <= p <= lim
            &&& s[p - 1] == '\n' && s[p - 2] == '\n'
            &&& p < lim ==> s[p] != '\n'
        } by {
            if k > 0 {
                assert(q[k] == r[k - 1]);
            }
        }
    } else {
        law_paragraph_starts_follow_blank_lines(s, lim, i + 1);
        assert(para_starts(s, lim, i) == para_starts(s, lim, i + 1));
    }
}

/// The backward paragraph range starts at the document start or at the
/// first character after a blank line (never inside a run of blank lines).
pub proof fn law_paragraphs_before_start(s: Seq<char>, b: int, n: int)
    requires
        0 <= b <= s.len(),
        n >= 1,
    ensures
        paragraphs_before(s, b, n) matches Some((x, y)) ==> x == 0 || (2 <= x < y && s[x - 1]
            == '\n' && s[x - 2] == '\n' && s[x] != '\n'),
{
    lemma_back_ws(s, b);
    let end = back_ws(s, b);
    law_paragraph_starts_follow_blank_lines(s, end, 0);
    let ps = para_starts(s, end, 0);
    let bs = seq![0int] + ps;
    if end > 0 {
        assert(!is_ws(s[end - 1]));
        let x = pick_back(bs, n);
        if x != 0 {
            let k = if bs.len() >= n {
                bs.len() - n
            } else {
                0
            };
            assert(x == bs[k]);
            assert(k > 0);
            assert(x == ps[k - 1]);
            if x == end {
                assert(s[end - 1] == '\n');
            }
        }
    }
}

/// Scanning forward for paragraph ends from `i` (having passed `found`
/// blank lines since `x`): the range ends just before the `m`-th blank line
/// after `x`, or at `dflt` when there are fewer.
proof fn lemma_para_fwd_count(s: Seq<char>, x: int, i: int, m: int, found: int, dflt: int)
    requires
        0 <= x <= i <= s.len(),
        0 <= found < m,
        blank_runs(s, x, i) == found,
        i < s.len() && s[i] == '\n' ==> (i == 0 || s[i - 1] != '\n'),
    ensures
        ({
            let y = para_fwd_scan(s, i, m, found, dflt);
            ||| (exists|j: int|
                x <= j && #[trigger] blank_run_start(s, j) && blank_runs(s, x, j) == m - 1 && y
                    == back_ws(s, j))
            ||| (blank_runs(s, x, s.len() as int) < m && y == dflt)
        }),
    decreases s.len() - i,
{
    if i + 1 >= s.len() {
        lemma_blank_runs_flat(s, x, i, s.len() as int);
    } else if s[i] == '\n' && s[i + 1] == '\n' {
        assert(blank_run_start(s, i));
        if found + 1 >= m {
            assert(blank_run_start(s, i) && blank_runs(s, x, i) == m - 1);
        } else {
            let e = nl_run_end(s, s.len() as int, i + 2);
            lemma_nl_run_chars(s, s.len() as int, i + 2);
            assert(blank_runs(s, x, i + 1) == found + 1);
            lemma_blank_runs_flat(s, x, i + 1, e);
            lemma_para_fwd_count(s, x, e, m, found + 1, dflt);
        }
    } else {
        assert(blank_runs(s, x, i + 1) == found);
        lemma_para_fwd_count(s, x, i + 1, m, found, dflt);
    }
}

/// No blank line starts in `[i, j)` when each of those positions either
/// follows a newline or cannot start one.
proof fn lemma_blank_runs_flat(s: Seq<char>, x: int, i: int, j: int)
    requires
        x <= i <= j <= s.len(),
        forall|k: int| i <= k < j ==> !blank_run_start(s, k),
    ensures
        blank_runs(s, x, j) == blank_runs(s, x, i),
    decreases j - i,
{
    if i < j {
        lemma_blank_runs_flat(s, x, i, j - 1);
    }
}

/// The forward paragraph range from `e` over `m` paragraphs starts at the
/// first non-whitespace character and ends just before the `m`-th blank line
/// after it (trailing whitespace excluded), or at the end of the text's last
/// non-whitespace character when fewer blank lines follow. A run of several
/// blank lines counts once.
pub proof fn law_paragraphs_after_end(s: Seq<char>, e: int, m: int)
    requires
        0 <= e <= s.len(),
        m >= 1,
    ensures
        paragraphs_after(s, e, m) matches Some((x, y)) ==> {
            &&& x == skip_ws(s, e)
            &&& {
                ||| (exists|j: int|
                    x <= j && #[trigger] blank_run_start(s, j) && blank_runs(s, x, j) == m - 1
                        && y == back_ws(s, j))
                ||| (blank_runs(s, x, s.len() as int) < m && y == back_ws(s, s.len() as int))
            }
        },
{
    lemma_skip_ws(s, e);
    let x = skip_ws(s, e);
    if x < s.len() {
        assert(!is_ws(s[x]));
        lemma_para_fwd_count(s, x, x, m, 0, back_ws(s, s.len() as int));
    }
}

} // verus!
