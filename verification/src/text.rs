//! Character-level helpers shared by the parsers: whitespace, trimming,
//! searching and UTF-16 lengths, all over sequences of `char`.
use vstd::prelude::*;

verus! {

/// Documents are held as vectors of `char` while they are parsed; this is
/// the size such a vector can have in memory (four bytes per `char`).
pub open spec fn fits(s: Seq<char>) -> bool {
    s.len() <= usize::MAX / 4
}

/// The Unicode `White_Space` property (what `char::is_whitespace` tests).
pub open spec fn is_ws(c: char) -> bool {
    ||| ('\u{9}' <= c && c <= '\u{d}')
    ||| c == ' '
    ||| c == '\u{85}'
    ||| c == '\u{a0}'
    ||| c == '\u{1680}'
    ||| ('\u{2000}' <= c && c <= '\u{200a}')
    ||| c == '\u{2028}'
    ||| c == '\u{2029}'
    ||| c == '\u{202f}'
    ||| c == '\u{205f}'
    ||| c == '\u{3000}'
}

pub fn ws_char(c: char) -> (b: bool)
    ensures
        b == is_ws(c),
{
    ('\u{9}' <= c && c <= '\u{d}') || c == ' ' || c == '\u{85}' || c == '\u{a0}' || c
        == '\u{1680}' || ('\u{2000}' <= c && c <= '\u{200a}') || c == '\u{2028}' || c
        == '\u{2029}' || c == '\u{202f}' || c == '\u{205f}' || c == '\u{3000}'
}

pub open spec fn is_ascii_lower(c: char) -> bool {
    'a' <= c && c <= 'z'
}

pub open spec fn is_ascii_alnum(c: char) -> bool {
    ||| ('a' <= c && c <= 'z')
    ||| ('A' <= c && c <= 'Z')
    ||| ('0' <= c && c <= '9')
}

pub open spec fn is_ascii_digit(c: char) -> bool {
    '0' <= c && c <= '9'
}

/// Number of UTF-16 code units that encode `c`.
pub open spec fn char_utf16(c: char) -> nat {
    if (c as u32) >= 0x10000 {
        2
    } else {
        1
    }
}

/// Number of UTF-16 code units that encode `s`.
pub open spec fn utf16_len(s: Seq<char>) -> nat
    decreases s.len(),
{
    if s.len() == 0 {
        0
    } else {
        utf16_len(s.drop_last()) + char_utf16(s.last())
    }
}

/// First index at or after `i` that does not hold whitespace (or the end).
pub open spec fn skip_ws(s: Seq<char>, i: int) -> int
    decreases s.len() - i,
{
    if 0 <= i < s.len() && is_ws(s[i]) {
        skip_ws(s, i + 1)
    } else {
        i
    }
}

/// Start of the run of whitespace that ends at `j`.
pub open spec fn back_ws(s: Seq<char>, j: int) -> int
    decreases j,
{
    if 0 < j <= s.len() && is_ws(s[j - 1]) {
        back_ws(s, j - 1)
    } else {
        j
    }
}

pub open spec fn trim_start(s: Seq<char>) -> Seq<char> {
    s.subrange(skip_ws(s, 0), s.len() as int)
}

pub open spec fn trim_end(s: Seq<char>) -> Seq<char> {
    s.subrange(0, back_ws(s, s.len() as int))
}

pub open spec fn trim(s: Seq<char>) -> Seq<char> {
    trim_end(trim_start(s))
}

pub open spec fn all_ws(s: Seq<char>) -> bool {
    forall|k: int| 0 <= k < s.len() ==> is_ws(#[trigger] s[k])
}

/// `p` occurs in `s` at index `i`.
pub open spec fn matches_at(s: Seq<char>, p: Seq<char>, i: int) -> bool {
    0 <= i && i + p.len() <= s.len() && s.subrange(i, i + p.len()) == p
}

/// Index of the first occurrence of `p` in `s` at or after `i`.
pub open spec fn find_from(s: Seq<char>, p: Seq<char>, i: int) -> Option<int>
    decreases s.len() + 1 - i,
{
    if i < 0 || i + p.len() > s.len() {
        None
    } else if matches_at(s, p, i) {
        Some(i)
    } else {
        find_from(s, p, i + 1)
    }
}

/// Index of the first occurrence of the character `c` in `s` at or after `i`.
pub open spec fn find_char_from(s: Seq<char>, c: char, i: int) -> Option<int>
    decreases s.len() - i,
{
    if i < 0 || i >= s.len() {
        None
    } else if s[i] == c {
        Some(i)
    } else {
        find_char_from(s, c, i + 1)
    }
}

/// Index of the last occurrence of `p` in `s` that starts at or before `k`.
pub open spec fn rfind_upto(s: Seq<char>, p: Seq<char>, k: int) -> Option<int>
    decreases k + 1,
{
    if k < 0 {
        None
    } else if matches_at(s, p, k) {
        Some(k)
    } else {
        rfind_upto(s, p, k - 1)
    }
}

pub open spec fn rfind(s: Seq<char>, p: Seq<char>) -> Option<int> {
    rfind_upto(s, p, s.len() - p.len())
}

pub open spec fn starts_with(s: Seq<char>, p: Seq<char>) -> bool {
    matches_at(s, p, 0)
}

pub open spec fn ends_with_char(s: Seq<char>, c: char) -> bool {
    s.len() > 0 && s.last() == c
}

// ---------------------------------------------------------------- lemmas

pub proof fn lemma_skip_ws(s: Seq<char>, i: int)
    requires
        0 <= i <= s.len(),
    ensures
        i <= skip_ws(s, i) <= s.len(),
        forall|k: int| i <= k < skip_ws(s, i) ==> is_ws(#[trigger] s[k]),
        skip_ws(s, i) == s.len() || !is_ws(s[skip_ws(s, i)]),
    decreases s.len() - i,
{
    if i < s.len() && is_ws(s[i]) {
        lemma_skip_ws(s, i + 1);
    }
}

pub proof fn lemma_back_ws(s: Seq<char>, j: int)
    requires
        0 <= j <= s.len(),
    ensures
        0 <= back_ws(s, j) <= j,
        forall|k: int| back_ws(s, j) <= k < j ==> is_ws(#[trigger] s[k]),
        back_ws(s, j) == 0 || !is_ws(s[back_ws(s, j) - 1]),
    decreases j,
{
    if 0 < j && is_ws(s[j - 1]) {
        lemma_back_ws(s, j - 1);
    }
}

/// `skip_ws` only looks at the characters it passes over.
pub proof fn lemma_skip_ws_unique(s: Seq<char>, i: int, j: int)
    requires
        0 <= i <= j <= s.len(),
        forall|k: int| i <= k < j ==> is_ws(#[trigger] s[k]),
        j == s.len() || !is_ws(s[j]),
    ensures
        skip_ws(s, i) == j,
    decreases j - i,
{
    if i < j {
        lemma_skip_ws_unique(s, i + 1, j);
    }
}

pub proof fn lemma_back_ws_unique(s: Seq<char>, i: int, j: int)
    requires
        0 <= i <= j <= s.len(),
        forall|k: int| i <= k < j ==> is_ws(#[trigger] s[k]),
        i == 0 || !is_ws(s[i - 1]),
    ensures
        back_ws(s, j) == i,
    decreases j - i,
{
    if i < j {
        lemma_back_ws_unique(s, i, j - 1);
    }
}

pub proof fn lemma_trim_start(s: Seq<char>)
    ensures
        trim_start(s).len() == 0 || !is_ws(trim_start(s)[0]),
        trim_start(s).len() <= s.len(),
        all_ws(s.subrange(0, s.len() - trim_start(s).len())),
        s =~= s.subrange(0, s.len() - trim_start(s).len()) + trim_start(s),
{
    lemma_skip_ws(s, 0);
}

pub proof fn lemma_trim_end(s: Seq<char>)
    ensures
        trim_end(s).len() == 0 || !is_ws(trim_end(s).last()),
        trim_end(s).len() <= s.len(),
        trim_end(s) =~= s.subrange(0, trim_end(s).len() as int),
        all_ws(s.subrange(trim_end(s).len() as int, s.len() as int)),
{
    lemma_back_ws(s, s.len() as int);
}

/// `trim_start` of a sequence that has no leading whitespace.
pub proof fn lemma_trim_start_noop(s: Seq<char>)
    requires
        s.len() == 0 || !is_ws(s[0]),
    ensures
        trim_start(s) == s,
{
    assert(trim_start(s) =~= s);
}

pub proof fn lemma_trim_end_noop(s: Seq<char>)
    requires
        s.len() == 0 || !is_ws(s.last()),
    ensures
        trim_end(s) == s,
{
    assert(trim_end(s) =~= s);
}

/// Trimming the start of a suffix of whitespace-then-text.
pub proof fn lemma_trim_start_skip(s: Seq<char>, i: int)
    requires
        0 <= i <= s.len(),
    ensures
        trim_start(s.subrange(i, s.len() as int)) =~= s.subrange(skip_ws(s, i), s.len() as int),
{
    let t = s.subrange(i, s.len() as int);
    lemma_skip_ws(s, i);
    let j = skip_ws(s, i);
    assert forall|k: int| 0 <= k < j - i implies is_ws(#[trigger] t[k]) by {
        assert(t[k] == s[i + k]);
    }
    lemma_skip_ws_unique(t, 0, j - i);
}

/// Trimming the end of a prefix.
pub proof fn lemma_trim_end_take(s: Seq<char>, j: int)
    requires
        0 <= j <= s.len(),
    ensures
        trim_end(s.subrange(0, j)) =~= s.subrange(0, back_ws(s, j)),
{
    let t = s.subrange(0, j);
    lemma_back_ws(s, j);
    let i = back_ws(s, j);
    assert forall|k: int| i <= k < j implies is_ws(#[trigger] t[k]) by {
        assert(t[k] == s[k]);
    }
    lemma_back_ws_unique(t, i, j);
}

pub proof fn lemma_find_from(s: Seq<char>, p: Seq<char>, i: int)
    requires
        0 <= i,
    ensures
        match find_from(s, p, i) {
            Some(k) => i <= k && matches_at(s, p, k) && forall|m: int|
                i <= m < k ==> !matches_at(s, p, m),
            None => forall|m: int| i <= m ==> !matches_at(s, p, m),
        },
    decreases s.len() + 1 - i,
{
    if i + p.len() > s.len() {
    } else if matches_at(s, p, i) {
    } else {
        lemma_find_from(s, p, i + 1);
    }
}

pub proof fn lemma_find_char_from(s: Seq<char>, c: char, i: int)
    requires
        0 <= i,
    ensures
        match find_char_from(s, c, i) {
            Some(k) => i <= k < s.len() && s[k] == c && forall|m: int|
                i <= m < k ==> s[m] != c,
            None => forall|m: int| i <= m < s.len() ==> s[m] != c,
        },
    decreases s.len() - i,
{
    if i >= s.len() {
    } else if s[i] == c {
    } else {
        lemma_find_char_from(s, c, i + 1);
    }
}

/// The first-occurrence search is determined by where the matches are.
pub proof fn lemma_find_from_unique(s: Seq<char>, p: Seq<char>, i: int, k: int)
    requires
        0 <= i <= k,
        matches_at(s, p, k),
        forall|m: int| i <= m < k ==> !matches_at(s, p, m),
    ensures
        find_from(s, p, i) == Some(k),
    decreases k - i,
{
    if i < k {
        lemma_find_from_unique(s, p, i + 1, k);
    }
}

pub proof fn lemma_find_from_none(s: Seq<char>, p: Seq<char>, i: int)
    requires
        0 <= i,
        forall|m: int| i <= m ==> !matches_at(s, p, m),
    ensures
        find_from(s, p, i) is None,
    decreases s.len() + 1 - i,
{
    if i + p.len() <= s.len() {
        lemma_find_from_none(s, p, i + 1);
    }
}

pub proof fn lemma_utf16_take(s: Seq<char>, i: int)
    requires
        0 <= i < s.len(),
    ensures
        utf16_len(s.take(i + 1)) == utf16_len(s.take(i)) + char_utf16(s[i]),
{
    assert(s.take(i + 1).drop_last() =~= s.take(i));
}

pub proof fn lemma_utf16_bound(s: Seq<char>)
    ensures
        s.len() <= utf16_len(s) <= 2 * s.len(),
    decreases s.len(),
{
    if s.len() > 0 {
        lemma_utf16_bound(s.drop_last());
    }
}

pub proof fn lemma_utf16_concat(a: Seq<char>, b: Seq<char>)
    ensures
        utf16_len(a + b) == utf16_len(a) + utf16_len(b),
    decreases b.len(),
{
    if b.len() > 0 {
        assert((a + b).drop_last() =~= a + b.drop_last());
        lemma_utf16_concat(a, b.drop_last());
    } else {
        assert(a + b =~= a);
    }
}

/// UTF-16 length grows with the prefix.
pub proof fn lemma_utf16_mono(s: Seq<char>, i: int, j: int)
    requires
        0 <= i <= j <= s.len(),
    ensures
        utf16_len(s.take(i)) + (j - i) <= utf16_len(s.take(j)),
    decreases j - i,
{
    if i < j {
        lemma_utf16_mono(s, i, j - 1);
        lemma_utf16_take(s, j - 1);
    }
}

// ---------------------------------------------------------------- exec

/// The characters of `s`, in order.
pub fn chars_of(s: &str) -> (v: Vec<char>)
    ensures
        v@ == s@,
{
    let mut v: Vec<char> = Vec::new();
    for c in it: s.chars()
        invariant
            v@ == it.seq().take(it.index() as int),
    {
        v.push(c);
    }
    v
}

/// A `String` holding the characters `v[lo..hi]`.
pub fn string_of(v: &Vec<char>, lo: usize, hi: usize) -> (s: String)
    requires
        lo <= hi <= v.len(),
    ensures
        s@ == v@.subrange(lo as int, hi as int),
{
    let w = sub_vec(v, lo, hi);
    string_from_chars(&w)
}

/// Builds a `String` from its characters (std's `FromIterator<&char>` for
/// `String`); the result holds exactly the given characters, in order.
#[verifier::external_body]
fn string_from_chars(v: &Vec<char>) -> (s: String)
    ensures
        s@ == v@,
{
    v.iter().collect()
}

/// A copy of `v[lo..hi]`.
pub fn sub_vec(v: &Vec<char>, lo: usize, hi: usize) -> (w: Vec<char>)
    requires
        lo <= hi <= v.len(),
    ensures
        w@ == v@.subrange(lo as int, hi as int),
{
    let mut w: Vec<char> = Vec::new();
    let mut i = lo;
    while i < hi
        invariant
            lo <= i <= hi <= v.len(),
            w@ == v@.subrange(lo as int, i as int),
        decreases hi - i,
    {
        w.push(v[i]);
        i += 1;
        assert(w@ =~= v@.subrange(lo as int, i as int));
    }
    w
}

/// First non-whitespace index at or after `i` in `v` (or `v.len()`).
pub fn skip_ws_exec(v: &Vec<char>, i: usize) -> (j: usize)
    requires
        i <= v.len(),
    ensures
        j as int == skip_ws(v@, i as int),
        i <= j <= v.len(),
{
    let mut j = i;
    while j < v.len() && ws_char(v[j])
        invariant
            i <= j <= v.len(),
            skip_ws(v@, j as int) == skip_ws(v@, i as int),
        decreases v.len() - j,
    {
        j += 1;
    }
    j
}

/// Start of the whitespace run ending at `j` in `v`.
pub fn back_ws_exec(v: &Vec<char>, j: usize) -> (i: usize)
    requires
        j <= v.len(),
    ensures
        i as int == back_ws(v@, j as int),
        i <= j,
{
    let mut i = j;
    while i > 0 && ws_char(v[i - 1])
        invariant
            i <= j <= v.len(),
            back_ws(v@, i as int) == back_ws(v@, j as int),
        decreases i,
    {
        i -= 1;
    }
    i
}

/// `v[i..i + p.len()] == p`.
pub fn matches_at_exec(v: &Vec<char>, p: &Vec<char>, i: usize) -> (b: bool)
    ensures
        b == matches_at(v@, p@, i as int),
{
    if i > v.len() || p.len() > v.len() - i {
        return false;
    }
    let mut k: usize = 0;
    while k < p.len()
        invariant
            i + p.len() <= v.len(),
            k <= p.len(),
            forall|m: int| 0 <= m < k ==> v@[i + m] == p@[m],
        decreases p.len() - k,
    {
        if v[i + k] != p[k] {
            assert(v@.subrange(i as int, i + p.len())[k as int] != p@[k as int]);
            return false;
        }
        k += 1;
    }
    assert(v@.subrange(i as int, i + p.len()) =~= p@);
    true
}

/// First occurrence of `p` in `v` at or after `i`.
pub fn find_from_exec(v: &Vec<char>, p: &Vec<char>, i: usize) -> (r: Option<usize>)
    ensures
        match r {
            Some(k) => find_from(v@, p@, i as int) == Some(k as int),
            None => find_from(v@, p@, i as int) is None,
        },
{
    if p.len() > v.len() || i > v.len() - p.len() {
        proof {
            reveal_with_fuel(find_from, 1);
        }
        return None;
    }
    let last = v.len() - p.len();
    let mut k = i;
    while k <= last
        invariant
            i <= k,
            last == v.len() - p.len(),
            find_from(v@, p@, k as int) == find_from(v@, p@, i as int),
        decreases last + 1 - k,
    {
        if matches_at_exec(v, p, k) {
            return Some(k);
        }
        if k == last {
            assert(find_from(v@, p@, k + 1) is None);
            return None;
        }
        k += 1;
    }
    None
}

/// First occurrence of the character `c` in `v` at or after `i`.
pub fn find_char_exec(v: &Vec<char>, c: char, i: usize) -> (r: Option<usize>)
    ensures
        match r {
            Some(k) => find_char_from(v@, c, i as int) == Some(k as int),
            None => find_char_from(v@, c, i as int) is None,
        },
{
    let mut k = i;
    while k < v.len()
        invariant
            i <= k,
            find_char_from(v@, c, k as int) == find_char_from(v@, c, i as int),
        decreases v.len() - k,
    {
        if v[k] == c {
            return Some(k);
        }
        k += 1;
    }
    None
}

/// `v[lo..hi]` equals `lit`.
pub fn range_is(v: &Vec<char>, lo: usize, hi: usize, lit: &[char]) -> (b: bool)
    requires
        lo <= hi <= v.len(),
    ensures
        b == (v@.subrange(lo as int, hi as int) == lit@),
{
    if hi - lo != lit.len() {
        return false;
    }
    let mut k: usize = 0;
    while k < lit.len()
        invariant
            hi - lo == lit.len(),
            lo <= hi <= v.len(),
            k <= lit.len(),
            forall|m: int| 0 <= m < k ==> v@[lo + m] == lit@[m],
        decreases lit.len() - k,
    {
        if v[lo + k] != lit[k] {
            assert(v@.subrange(lo as int, hi as int)[k as int] != lit@[k as int]);
            return false;
        }
        k += 1;
    }
    assert(v@.subrange(lo as int, hi as int) =~= lit@);
    true
}

/// First non-space index in `v[lo..hi]` (or `hi`).
pub fn skip_ws_bounded(v: &Vec<char>, lo: usize, hi: usize) -> (a: usize)
    requires
        lo <= hi <= v.len(),
    ensures
        lo <= a <= hi,
        a - lo == skip_ws(v@.subrange(lo as int, hi as int), 0),
{
    let ghost t = v@.subrange(lo as int, hi as int);
    let mut a = lo;
    while a < hi && ws_char(v[a])
        invariant
            lo <= a <= hi <= v.len(),
            t == v@.subrange(lo as int, hi as int),
            skip_ws(t, a - lo) == skip_ws(t, 0),
        decreases hi - a,
    {
        a += 1;
    }
    a
}

/// Start of the trailing whitespace run of `v[lo..hi]`.
pub fn back_ws_bounded(v: &Vec<char>, lo: usize, hi: usize) -> (b: usize)
    requires
        lo <= hi <= v.len(),
    ensures
        lo <= b <= hi,
        b - lo == back_ws(v@.subrange(lo as int, hi as int), hi - lo),
{
    let ghost t = v@.subrange(lo as int, hi as int);
    let mut b = hi;
    while b > lo && ws_char(v[b - 1])
        invariant
            lo <= b <= hi <= v.len(),
            t == v@.subrange(lo as int, hi as int),
            back_ws(t, b - lo) == back_ws(t, hi - lo),
        decreases b,
    {
        b -= 1;
    }
    b
}

/// Bounds of `trim(v[lo..hi])` within `v`.
pub fn trim_range(v: &Vec<char>, lo: usize, hi: usize) -> (r: (usize, usize))
    requires
        lo <= hi <= v.len(),
    ensures
        lo <= r.0 <= r.1 <= hi,
        v@.subrange(r.0 as int, r.1 as int) == trim(v@.subrange(lo as int, hi as int)),
        v@.subrange(r.0 as int, hi as int) == trim_start(v@.subrange(lo as int, hi as int)),
{
    let a = skip_ws_bounded(v, lo, hi);
    let b = back_ws_bounded(v, a, hi);
    proof {
        let t = v@.subrange(lo as int, hi as int);
        assert(trim_start(t) =~= v@.subrange(a as int, hi as int));
        assert(trim_end(v@.subrange(a as int, hi as int)) =~= v@.subrange(a as int, b as int));
    }
    (a, b)
}

/// Number of UTF-16 code units of `v[lo..hi]`.
pub fn utf16_count(v: &Vec<char>, lo: usize, hi: usize) -> (n: usize)
    requires
        lo <= hi <= v.len(),
        fits(v@),
    ensures
        n == utf16_len(v@.subrange(lo as int, hi as int)),
{
    let ghost s = v@.subrange(lo as int, hi as int);
    let mut n: usize = 0;
    let mut i = lo;
    proof {
        assert(s.take(0) =~= Seq::<char>::empty());
    }
    while i < hi
        invariant
            lo <= i <= hi <= v.len(),
            fits(v@),
            s == v@.subrange(lo as int, hi as int),
            n == utf16_len(s.take(i - lo)),
            n <= 2 * (i - lo),
        decreases hi - i,
    {
        proof {
            lemma_utf16_take(s, i - lo);
        }
        let c = v[i];
        if (c as u32) >= 0x10000 {
            n += 2;
        } else {
            n += 1;
        }
        i += 1;
    }
    assert(s.take(hi - lo) =~= s);
    n
}

} // verus!
