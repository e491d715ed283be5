//! Inserting dashes next to dashes that a text already holds leaves its
//! line structure and its code fences as they were: every line keeps the
//! answers it gives to "does this open a fence?" and "does this close one?",
//! and the fenced ranges move with the characters they cover.
use crate::scanner::{fence_close, fence_open, fences_from, in_fenced, line_end, run_len, Marker};
use crate::text::{
    back_ws, find_char_from, is_ws, lemma_back_ws, lemma_find_char_from, lemma_skip_ws,
    lemma_skip_ws_unique, skip_ws, starts_with, trim, trim_end, trim_start,
};
use vstd::prelude::*;

verus! {

/// The run of `c` at the start of two texts ends at the same place when
/// they agree up to `d` and both hold a character other than `c` at `d`.
proof fn lemma_run_len_same(a: Seq<char>, b: Seq<char>, c: char, i: int, d: int)
    requires
        0 <= i <= d,
        d < a.len(),
        d < b.len(),
        forall|k: int| 0 <= k < d ==> a[k] == b[k],
        a[d] != c,
        b[d] == a[d],
    ensures
        run_len(a, c, i) == run_len(b, c, i),
    decreases d - i,
{
    if i < d && a[i] == c {
        lemma_run_len_same(a, b, c, i + 1, d);
    }
}

/// A left-trimmed line that holds a dash closes no fence, whatever its
/// fence character.
proof fn lemma_dash_blocks_close(t: Seq<char>, d: int, m: Marker)
    requires
        0 <= d < t.len(),
        t[d] == '-',
        m.ch == '`' || m.ch == '~',
    ensures
        !fence_close(t, m),
{
    let e = back_ws(t, t.len() as int);
    lemma_back_ws(t, t.len() as int);
    assert(!is_ws(t[d]));
    assert(d < e);
    assert(trim(t) =~= trim_end(trim_start(t)));
    if fence_close(t, m) {
        let ts = trim_start(t);
        lemma_skip_ws(t, 0);
        let i0 = skip_ws(t, 0);
        assert(i0 <= d);
        let te = back_ws(ts, ts.len() as int);
        lemma_back_ws(ts, ts.len() as int);
        assert(ts[d - i0] == '-');
        assert(!is_ws(ts[d - i0]));
        assert(d - i0 < te);
        assert(trim(t)[d - i0] == '-');
    }
}

/// One line before and after dashes were inserted into it, the first one
/// at `j`, next to a dash of the line: the line opens the same fence (or
/// none), and closes none.
pub proof fn lemma_line_insert(ls: Seq<char>, lt: Seq<char>, j: int)
    requires
        0 <= j <= ls.len(),
        j < lt.len(),
        forall|k: int| 0 <= k < j ==> ls[k] == lt[k],
        lt[j] == '-',
        (j < ls.len() && ls[j] == '-') || (j > 0 && ls[j - 1] == '-'),
    ensures
        fence_open(trim_start(ls)) == fence_open(trim_start(lt)),
        forall|m: Marker|
            (m.ch == '`' || m.ch == '~') ==> !#[trigger] fence_close(trim_start(ls), m)
                && !fence_close(trim_start(lt), m),
{
    let d = if j < ls.len() && ls[j] == '-' {
        j
    } else {
        j - 1
    };
    lemma_skip_ws(ls, 0);
    lemma_skip_ws(lt, 0);
    let i0 = skip_ws(ls, 0);
    assert(!is_ws(ls[d]));
    assert(i0 <= d);
    if i0 < j {
        lemma_skip_ws_unique(lt, 0, i0);
    } else {
        lemma_skip_ws_unique(lt, 0, j);
    }
    let i1 = skip_ws(lt, 0);
    let ts = trim_start(ls);
    let tt = trim_start(lt);
    assert(ts[d - i0] == '-');
    assert(tt[d - i1] == '-') by {
        if d < j {
            assert(lt[d] == ls[d]);
        }
    }
    assert(i0 == i1);
    assert forall|k: int| 0 <= k < d - i0 implies ts[k] == tt[k] by {
        assert(ls[i0 + k] == lt[i0 + k]);
    }
    if d - i0 < 3 {
        if ts.len() >= 3 {
            assert(ts.subrange(0, 3)[d - i0] == '-');
        }
        if tt.len() >= 3 {
            assert(tt.subrange(0, 3)[d - i0] == '-');
        }
        assert(!starts_with(ts, seq!['`', '`', '`']));
        assert(!starts_with(tt, seq!['`', '`', '`']));
        assert(!starts_with(ts, seq!['~', '~', '~']));
        assert(!starts_with(tt, seq!['~', '~', '~']));
    } else {
        assert(ts.subrange(0, 3) =~= tt.subrange(0, 3));
        lemma_run_len_same(ts, tt, '`', 0, d - i0);
        lemma_run_len_same(ts, tt, '~', 0, d - i0);
    }
    assert forall|m: Marker|
        (m.ch == '`' || m.ch == '~') implies !#[trigger] fence_close(trim_start(ls), m)
            && !fence_close(trim_start(lt), m) by {
        lemma_dash_blocks_close(ts, d - i0, m);
        lemma_dash_blocks_close(tt, d - i0, m);
    }
}

// ------------------------------------------------------------ the relation

/// `t` is the stretch `[a, b)` of `s` with dashes inserted: `h(k)` is where
/// `s[k]` went (`h(b)` is the end of `t`), and every inserted character is
/// a dash that stands next to a dash of `s`, or before the stretch's first
/// character when that is a dash.
#[verifier::opaque]
pub open spec fn ins_rel(s: Seq<char>, a: int, b: int, t: Seq<char>, h: spec_fn(int) -> int) -> bool {
    &&& 0 <= a <= b <= s.len()
    &&& 0 <= h(a)
    &&& h(b) == t.len()
    &&& forall|k1: int, k2: int|
        a <= k1 <= k2 <= b ==> #[trigger] h(k2) - #[trigger] h(k1) >= k2 - k1
    &&& forall|k: int| a <= k < b ==> t[#[trigger] h(k)] == s[k]
    &&& forall|j: int| 0 <= j < h(a) ==> #[trigger] t[j] == '-'
    &&& h(a) > 0 ==> (a < s.len() && s[a] == '-')
    &&& forall|k: int, j: int|
        #![trigger t[j], h(k)]
        a <= k < b && h(k) < j < h(k + 1) ==> t[j] == '-'
    &&& forall|k: int|
        a <= k < b && #[trigger] h(k) + 1 < h(k + 1) ==> (s[k] == '-' || (k + 1 < s.len() && s[k
            + 1] == '-'))
}

/// Where the line of `s` that starts at `o` starts in `t`.
pub open spec fn lo(h: spec_fn(int) -> int, o: int) -> int {
    if o == 0 {
        0
    } else {
        h(o - 1) + 1
    }
}

pub open spec fn map_open(h: spec_fn(int) -> int, open: Option<(Marker, int)>) -> Option<
    (Marker, int),
> {
    match open {
        Some((m, st)) => Some((m, lo(h, st))),
        None => None,
    }
}

pub open spec fn map_ranges(h: spec_fn(int) -> int, r: Seq<(int, int)>) -> Seq<(int, int)> {
    r.map_values(|x: (int, int)| (lo(h, x.0), h(x.1)))
}

proof fn lemma_ins_mono(s: Seq<char>, t: Seq<char>, h: spec_fn(int) -> int, k1: int, k2: int)
    requires
        ins_rel(s, 0, s.len() as int, t, h),
        0 <= k1 <= k2 <= s.len(),
    ensures
        h(k2) - h(k1) >= k2 - k1,
{
    reveal(ins_rel);
}

proof fn lemma_ins_char(s: Seq<char>, t: Seq<char>, h: spec_fn(int) -> int, k: int)
    requires
        ins_rel(s, 0, s.len() as int, t, h),
        0 <= k < s.len(),
    ensures
        0 <= h(k) < t.len(),
        t[h(k)] == s[k],
{
    reveal(ins_rel);
    assert(h(s.len() as int) - h(k) >= s.len() - k);
}

proof fn lemma_ins_ends(s: Seq<char>, t: Seq<char>, h: spec_fn(int) -> int)
    requires
        ins_rel(s, 0, s.len() as int, t, h),
    ensures
        h(0) >= 0,
        h(s.len() as int) == t.len(),
        h(0) > 0 ==> (0 < s.len() && s[0] == '-'),
        forall|j: int| 0 <= j < h(0) ==> #[trigger] t[j] == '-',
{
    reveal(ins_rel);
}

proof fn lemma_ins_gap(s: Seq<char>, t: Seq<char>, h: spec_fn(int) -> int, k: int, j: int)
    requires
        ins_rel(s, 0, s.len() as int, t, h),
        0 <= k < s.len(),
        h(k) < j < h(k + 1),
    ensures
        t[j] == '-',
        s[k] == '-' || (k + 1 < s.len() && s[k + 1] == '-'),
{
    reveal(ins_rel);
}

proof fn lemma_find_char_unique(s: Seq<char>, c: char, i: int, k: int)
    requires
        0 <= i <= k < s.len(),
        s[k] == c,
        forall|m: int| i <= m < k ==> s[m] != c,
    ensures
        find_char_from(s, c, i) == Some(k),
    decreases k - i,
{
    if i < k {
        lemma_find_char_unique(s, c, i + 1, k);
    }
}

proof fn lemma_find_char_none(s: Seq<char>, c: char, i: int)
    requires
        0 <= i,
        forall|m: int| i <= m < s.len() ==> s[m] != c,
    ensures
        find_char_from(s, c, i) is None,
    decreases s.len() - i,
{
    if i < s.len() {
        lemma_find_char_none(s, c, i + 1);
    }
}

/// A position of `t` between the images of `a` and `b` lies between the
/// images of two neighbours.
proof fn lemma_locate(s: Seq<char>, t: Seq<char>, h: spec_fn(int) -> int, a: int, b: int, j: int) -> (k: int)
    requires
        ins_rel(s, 0, s.len() as int, t, h),
        0 <= a < b <= s.len(),
        h(a) <= j < h(b),
    ensures
        a <= k < b,
        h(k) <= j < h(k + 1),
    decreases b - a,
{
    if j < h(a + 1) {
        a
    } else {
        lemma_locate(s, t, h, a + 1, b, j)
    }
}

/// The characters of `t` on the line that starts at `o` in `s`, up to its
/// end `e`, are no newlines.
proof fn lemma_line_no_newline(s: Seq<char>, t: Seq<char>, h: spec_fn(int) -> int, o: int, e: int, j: int)
    requires
        ins_rel(s, 0, s.len() as int, t, h),
        0 <= o <= e <= s.len(),
        o == 0 || s[o - 1] == '\n',
        forall|m: int| o <= m < e ==> s[m] != '\n',
        lo(h, o) <= j < h(e),
    ensures
        t[j] != '\n',
{
    if j < h(o) {
        if o > 0 {
            lemma_ins_gap(s, t, h, o - 1, j);
        } else {
            lemma_ins_ends(s, t, h);
        }
    } else {
        let k = lemma_locate(s, t, h, o, e, j);
        if j == h(k) {
            lemma_ins_char(s, t, h, k);
        } else {
            lemma_ins_gap(s, t, h, k, j);
        }
    }
}

proof fn lemma_first_gap(h: spec_fn(int) -> int, o: int, l0: int, i: int, n: int) -> (j: int)
    requires
        0 <= i <= n,
        h(o + n) > l0 + n,
        forall|k: int| 0 <= k < i ==> #[trigger] h(o + k) <= l0 + k,
    ensures
        i <= j <= n,
        h(o + j) > l0 + j,
        forall|k: int| 0 <= k < j ==> #[trigger] h(o + k) <= l0 + k,
    decreases n - i,
{
    if h(o + i) > l0 + i {
        i
    } else {
        lemma_first_gap(h, o, l0, i + 1, n)
    }
}

/// The line of `s` from `o` to its end `e` and the corresponding stretch
/// of `t` open the same fence, and close the same ones.
proof fn lemma_line_fences(s: Seq<char>, t: Seq<char>, h: spec_fn(int) -> int, o: int, e: int)
    requires
        ins_rel(s, 0, s.len() as int, t, h),
        0 <= o <= e <= s.len(),
        o == 0 || s[o - 1] == '\n',
        forall|m: int| o <= m < e ==> s[m] != '\n',
        e == s.len() || s[e] == '\n',
    ensures
        lo(h, o) <= h(e),
        fence_open(trim_start(s.subrange(o, e))) == fence_open(
            trim_start(t.subrange(lo(h, o), h(e))),
        ),
        forall|m: Marker|
            (m.ch == '`' || m.ch == '~') ==> #[trigger] fence_close(
                trim_start(s.subrange(o, e)),
                m,
            ) == fence_close(trim_start(t.subrange(lo(h, o), h(e))), m),
{
    let l0 = lo(h, o);
    let n = e - o;
    let ls = s.subrange(o, e);
    let lt = t.subrange(l0, h(e));
    lemma_ins_ends(s, t, h);
    if o > 0 {
        lemma_ins_char(s, t, h, o - 1);
    }
    lemma_ins_mono(s, t, h, e, s.len() as int);
    assert(h(o) >= l0) by {
        if o > 0 {
            lemma_ins_mono(s, t, h, o - 1, o);
        }
    }
    assert forall|i: int| 0 <= i <= n implies #[trigger] h(o + i) >= l0 + i by {
        lemma_ins_mono(s, t, h, o, o + i);
    }
    if h(e) - l0 == n {
        assert forall|i: int| 0 <= i < n implies lt[i] == ls[i] by {
            lemma_ins_mono(s, t, h, o + i, e);
            assert(h(o + i) >= l0 + i);
            assert(h(o + i) == l0 + i);
            lemma_ins_char(s, t, h, o + i);
            assert(lt[i] == t[l0 + i]);
            assert(ls[i] == s[o + i]);
        }
        assert(lt =~= ls);
    } else {
        assert(h(o + n) >= l0 + n);
        let j = lemma_first_gap(h, o, l0, 0, n);
        assert forall|k: int| 0 <= k < j implies ls[k] == lt[k] by {
            assert(h(o + k) >= l0 + k);
            assert(h(o + k) <= l0 + k);
            lemma_ins_char(s, t, h, o + k);
        }
        if j == 0 {
            if o == 0 {
                assert(t[0] == '-');
            } else {
                lemma_ins_gap(s, t, h, o - 1, l0);
            }
            assert(e != o) by {
                if e == o {
                    assert(s[e] == '\n');
                }
            }
        } else {
            let k = j - 1;
            assert(h(o + k) >= l0 + k);
            assert(h(o + k) <= l0 + k);
            lemma_ins_gap(s, t, h, o + k, l0 + j);
            if !(s[o + j - 1] == '-') {
                assert(o + j != e);
            }
        }
        lemma_line_insert(ls, lt, j);
    }
}

/// The fences of `t` are those of `s`, moved with the characters: a range
/// that starts at a line of `s` starts at that line in `t`, and one that
/// ends at a newline (or the end) of `s` ends at that newline (or the end)
/// of `t`.
pub proof fn lemma_fences_insert(
    s: Seq<char>,
    t: Seq<char>,
    h: spec_fn(int) -> int,
    o: int,
    open: Option<(Marker, int)>,
)
    requires
        ins_rel(s, 0, s.len() as int, t, h),
        0 <= o <= s.len(),
        o == 0 || s[o - 1] == '\n',
        match open {
            Some((m, st)) => (m.ch == '`' || m.ch == '~') && 0 <= st <= o,
            None => true,
        },
    ensures
        fences_from(t, lo(h, o), map_open(h, open)) == map_ranges(h, fences_from(s, o, open)),
    decreases s.len() - o,
{
    let e = line_end(s, o);
    lemma_find_char_from(s, '\n', o);
    let l0 = lo(h, o);
    let e2 = h(e);
    lemma_line_fences(s, t, h, o, e);
    assert forall|j: int| l0 <= j < e2 implies t[j] != '\n' by {
        lemma_line_no_newline(s, t, h, o, e, j);
    }
    lemma_ins_ends(s, t, h);
    if o > 0 {
        lemma_ins_char(s, t, h, o - 1);
    }
    if e < s.len() {
        lemma_ins_char(s, t, h, e);
        lemma_find_char_unique(t, '\n', l0, e2);
    } else {
        lemma_find_char_none(t, '\n', l0);
    }
    assert(line_end(t, l0) == e2);
    let ls = trim_start(s.subrange(o, e));
    let lt = trim_start(t.subrange(l0, e2));
    match open {
        Some((m, st)) => {
            assert(fence_close(ls, m) == fence_close(lt, m));
        },
        None => {},
    }
    if e < s.len() {
        assert(lo(h, e + 1) == e2 + 1);
        let next = match open {
            None => match fence_open(ls) {
                Some(m) => Some((m, o)),
                None => None,
            },
            Some((m, start)) => if fence_close(ls, m) {
                None
            } else {
                open
            },
        };
        lemma_fences_insert(s, t, h, e + 1, next);
        let emitted: Seq<(int, int)> = match open {
            None => Seq::empty(),
            Some((m, start)) => if fence_close(ls, m) {
                seq![(start, e)]
            } else {
                Seq::empty()
            },
        };
        assert(map_ranges(h, emitted + fences_from(s, e + 1, next)) =~= map_ranges(h, emitted)
            + map_ranges(h, fences_from(s, e + 1, next)));
    } else {
        assert(h(e) == t.len());
        let next = match open {
            None => match fence_open(ls) {
                Some(m) => Some((m, o)),
                None => None,
            },
            Some((m, start)) => if fence_close(ls, m) {
                None
            } else {
                open
            },
        };
        let emitted: Seq<(int, int)> = match open {
            None => Seq::empty(),
            Some((m, start)) => if fence_close(ls, m) {
                seq![(start, e)]
            } else {
                Seq::empty()
            },
        };
        let tail: Seq<(int, int)> = match next {
            Some((_, start)) => seq![(start, s.len() as int)],
            None => Seq::empty(),
        };
        assert(map_ranges(h, emitted + tail) =~= map_ranges(h, emitted) + map_ranges(h, tail));
    }
}

// ------------------------------------------------------------ building it

/// With `h1` and `h2` equal on `[a, b]`, the relation holds for either.
pub proof fn lemma_ins_transfer(
    s: Seq<char>,
    a: int,
    b: int,
    t: Seq<char>,
    h1: spec_fn(int) -> int,
    h2: spec_fn(int) -> int,
)
    requires
        ins_rel(s, a, b, t, h1),
        forall|k: int| a <= k <= b ==> #[trigger] h1(k) == h2(k),
    ensures
        ins_rel(s, a, b, t, h2),
{
    reveal(ins_rel);
    assert forall|k1: int, k2: int| a <= k1 <= k2 <= b implies #[trigger] h2(k2) - #[trigger] h2(
        k1,
    ) >= k2 - k1 by {
        assert(h1(k2) - h1(k1) >= k2 - k1);
    }
    assert forall|k: int| a <= k < b implies t[#[trigger] h2(k)] == s[k] by {
        assert(t[h1(k)] == s[k]);
    }
    assert forall|k: int, j: int|
        #![trigger t[j], h2(k)]
        a <= k < b && h2(k) < j < h2(k + 1) implies t[j] == '-' by {
        assert(h1(k) < j < h1(k + 1));
        assert(t[j] == '-');
    }
    assert forall|k: int| a <= k < b && #[trigger] h2(k) + 1 < h2(k + 1) implies (s[k] == '-' || (
    k + 1 < s.len() && s[k + 1] == '-')) by {
        assert(h1(k) + 1 < h1(k + 1));
    }
}

/// A stretch of `s` copied as it is.
pub proof fn lemma_ins_copy(s: Seq<char>, a: int, b: int)
    requires
        0 <= a <= b <= s.len(),
    ensures
        ins_rel(s, a, b, s.subrange(a, b), |k: int| k - a),
{
    reveal(ins_rel);
}

/// A stretch of `s` that ends in a dash, with a dash added after it.
pub proof fn lemma_ins_dash_after(s: Seq<char>, a: int, b: int)
    requires
        0 <= a < b <= s.len(),
        s[b - 1] == '-',
    ensures
        ins_rel(
            s,
            a,
            b,
            s.subrange(a, b) + seq!['-'],
            |k: int|
                if k < b {
                    k - a
                } else {
                    b - a + 1
                },
        ),
{
    reveal(ins_rel);
    let t = s.subrange(a, b) + seq!['-'];
    let h = |k: int|
        if k < b {
            k - a
        } else {
            b - a + 1
        };
    assert forall|k: int| a <= k < b implies t[#[trigger] h(k)] == s[k] by {
        assert(t[k - a] == s.subrange(a, b)[k - a]);
    }
    assert forall|k: int, j: int|
        #![trigger t[j], h(k)]
        a <= k < b && h(k) < j < h(k + 1) implies t[j] == '-' by {
        assert(k == b - 1);
        assert(j == b - a);
    }
}

/// A stretch of `s` that starts with a dash, with a dash put before it.
pub proof fn lemma_ins_dash_before(s: Seq<char>, a: int, b: int)
    requires
        0 <= a < b <= s.len(),
        s[a] == '-',
    ensures
        ins_rel(s, a, b, seq!['-'] + s.subrange(a, b), |k: int| k - a + 1),
{
    reveal(ins_rel);
    let t = seq!['-'] + s.subrange(a, b);
    let h = |k: int| k - a + 1;
    assert forall|k: int| a <= k < b implies t[#[trigger] h(k)] == s[k] by {
        assert(t[k - a + 1] == s.subrange(a, b)[k - a]);
    }
}

/// Two neighbouring stretches, each with its dashes, make the stretch that
/// covers both.
#[verifier::rlimit(60)]
pub proof fn lemma_ins_concat(
    s: Seq<char>,
    a: int,
    m: int,
    b: int,
    ta: Seq<char>,
    ha: spec_fn(int) -> int,
    tb: Seq<char>,
    hb: spec_fn(int) -> int,
)
    requires
        ins_rel(s, a, m, ta, ha),
        ins_rel(s, m, b, tb, hb),
    ensures
        ins_rel(
            s,
            a,
            b,
            ta + tb,
            |k: int|
                if k < m {
                    ha(k)
                } else {
                    ta.len() + hb(k)
                },
        ),
{
    reveal(ins_rel);
    let t = ta + tb;
    let h = |k: int|
        if k < m {
            ha(k)
        } else {
            ta.len() + hb(k)
        };
    assert(ha(m) == ta.len());
    assert forall|k1: int, k2: int| a <= k1 <= k2 <= b implies #[trigger] h(k2) - #[trigger] h(k1)
        >= k2 - k1 by {
        if k2 < m {
            assert(ha(k2) - ha(k1) >= k2 - k1);
        } else if k1 >= m {
            assert(hb(k2) - hb(k1) >= k2 - k1);
        } else {
            assert(ha(m) - ha(k1) >= m - k1);
            assert(hb(k2) - hb(m) >= k2 - m);
        }
    }
    assert forall|k: int| a <= k < b implies t[#[trigger] h(k)] == s[k] by {
        if k < m {
            assert(ha(m) - ha(k) >= m - k);
            assert(ta[ha(k)] == s[k]);
        } else {
            assert(hb(b) - hb(k) >= b - k);
            assert(tb[hb(k)] == s[k]);
        }
    }
    assert forall|j: int| 0 <= j < h(a) implies #[trigger] t[j] == '-' by {
        if a < m {
            assert(ta[j] == '-');
        } else if j < ta.len() {
            assert(ta[j] == '-');
        } else {
            assert(tb[j - ta.len()] == '-');
        }
    }
    assert forall|k: int, j: int|
        #![trigger t[j], h(k)]
        a <= k < b && h(k) < j < h(k + 1) implies t[j] == '-' by {
        if k + 1 < m {
            assert(ta[j] == '-');
        } else if k >= m {
            assert(hb(k) < j - ta.len() < hb(k + 1));
            assert(tb[j - ta.len()] == '-');
        } else if j < ta.len() {
            assert(ha(k) < j < ha(k + 1));
            assert(ta[j] == '-');
        } else {
            assert(tb[j - ta.len()] == '-');
        }
    }
    assert forall|k: int| a <= k < b && #[trigger] h(k) + 1 < h(k + 1) implies (s[k] == '-' || (k
        + 1 < s.len() && s[k + 1] == '-')) by {
        if k + 1 < m {
            assert(ha(k) + 1 < ha(k + 1));
        } else if k >= m {
            assert(hb(k) + 1 < hb(k + 1));
        } else if ha(k) + 1 < ha(k + 1) {
        } else {
            assert(hb(m) > 0);
        }
    }
}

// ------------------------------------------------------------ fencedness

/// Fenced ranges start and end inside the text.
pub proof fn lemma_fences_bounds(s: Seq<char>, o: int, open: Option<(Marker, int)>)
    requires
        0 <= o <= s.len(),
        match open {
            Some((_, st)) => 0 <= st <= o,
            None => true,
        },
    ensures
        forall|i: int|
            0 <= i < fences_from(s, o, open).len() ==> 0 <= (#[trigger] fences_from(
                s,
                o,
                open,
            )[i]).0 <= s.len() && 0 <= fences_from(s, o, open)[i].1 <= s.len(),
    decreases s.len() - o,
{
    let e = line_end(s, o);
    lemma_find_char_from(s, '\n', o);
    let ls = trim_start(s.subrange(o, e));
    let next = match open {
        None => match fence_open(ls) {
            Some(m) => Some((m, o)),
            None => None,
        },
        Some((m, start)) => if fence_close(ls, m) {
            None
        } else {
            open
        },
    };
    let emitted: Seq<(int, int)> = match open {
        None => Seq::empty(),
        Some((m, start)) => if fence_close(ls, m) {
            seq![(start, e)]
        } else {
            Seq::empty()
        },
    };
    let rest = if e < s.len() {
        fences_from(s, e + 1, next)
    } else {
        match next {
            Some((_, start)) => seq![(start, s.len() as int)],
            None => Seq::empty(),
        }
    };
    if e < s.len() {
        lemma_fences_bounds(s, e + 1, next);
    }
    assert(fences_from(s, o, open) == emitted + rest);
    assert forall|i: int| 0 <= i < (emitted + rest).len() implies 0 <= (#[trigger] (emitted
        + rest)[i]).0 <= s.len() && 0 <= (emitted + rest)[i].1 <= s.len() by {
        if i < emitted.len() {
            assert((emitted + rest)[i] == emitted[i]);
        } else {
            assert((emitted + rest)[i] == rest[i - emitted.len()]);
        }
    }
}

/// A character of `s` lies in a fenced range of `s` exactly when its place
/// in `t` lies in the moved range.
pub proof fn lemma_in_fenced_map(
    s: Seq<char>,
    t: Seq<char>,
    h: spec_fn(int) -> int,
    r: Seq<(int, int)>,
    k: int,
)
    requires
        ins_rel(s, 0, s.len() as int, t, h),
        0 <= k < s.len(),
        forall|i: int|
            0 <= i < r.len() ==> 0 <= (#[trigger] r[i]).0 <= s.len() && 0 <= r[i].1 <= s.len(),
    ensures
        in_fenced(map_ranges(h, r), h(k)) == in_fenced(r, k),
{
    let mr = map_ranges(h, r);
    lemma_ins_ends(s, t, h);
    assert forall|i: int| 0 <= i < r.len() implies ((#[trigger] mr[i]).0 <= h(k) < mr[i].1) == (
    r[i].0 <= k < r[i].1) by {
        let a = r[i].0;
        let b = r[i].1;
        assert(mr[i] == (lo(h, a), h(b)));
        if a <= k {
            if a > 0 {
                lemma_ins_mono(s, t, h, a - 1, k);
            } else {
                lemma_ins_mono(s, t, h, 0, k);
            }
        } else {
            lemma_ins_mono(s, t, h, k, a - 1);
        }
        if k < b {
            lemma_ins_mono(s, t, h, k, b);
        } else {
            lemma_ins_mono(s, t, h, b, k);
        }
    }
    if in_fenced(r, k) {
        let i = choose|i: int| 0 <= i < r.len() && (#[trigger] r[i]).0 <= k < r[i].1;
        assert(mr[i].0 <= h(k) < mr[i].1);
    }
    if in_fenced(mr, h(k)) {
        let i = choose|i: int| 0 <= i < mr.len() && (#[trigger] mr[i]).0 <= h(k) < mr[i].1;
        assert(r[i].0 <= k < r[i].1);
    }
}

} // verus!
