//! Finding HTML comments in a document, outside fenced code blocks, with
//! their UTF-16 offsets.
use crate::types::{all_eq, all_eq_exec};
use crate::text::{
    trim_range, chars_of, find_char_exec, find_char_from, find_from, find_from_exec, fits,
    lemma_find_char_from, lemma_find_from, lemma_utf16_bound, lemma_utf16_concat, lemma_utf16_mono,
    starts_with, string_of, trim, trim_start, utf16_count, utf16_len, range_is,
};
use vstd::prelude::*;

verus! {

/// A raw HTML comment extracted from the document.
#[derive(Debug, Clone, PartialEq, Eq)]
pub struct RawComment {
    /// UTF-16 offset of the `<` that opens the comment
    pub char_start: usize,
    /// UTF-16 offset one past the `>` that closes the comment
    pub char_end: usize,
    /// The text between the delimiters, trimmed of leading/trailing whitespace
    pub inner: String,
    /// The full original source including delimiters
    pub original: String,
}

/// The mathematical value of a [`RawComment`].
pub struct RawCommentView {
    pub char_start: nat,
    pub char_end: nat,
    pub inner: Seq<char>,
    pub original: Seq<char>,
}

impl View for RawComment {
    type V = RawCommentView;

    open spec fn view(&self) -> RawCommentView {
        RawCommentView {
            char_start: self.char_start as nat,
            char_end: self.char_end as nat,
            inner: self.inner@,
            original: self.original@,
        }
    }
}

// ------------------------------------------------------------ code fences

/// End of the line that starts at `o` (index of its `\n`, or the end).
pub open spec fn line_end(s: Seq<char>, o: int) -> int {
    match find_char_from(s, '\n', o) {
        Some(e) => e,
        None => s.len() as int,
    }
}

/// Length of the run of `c` at the start of `t`.
pub open spec fn run_len(t: Seq<char>, c: char, i: int) -> int
    decreases t.len() - i,
{
    if 0 <= i < t.len() && t[i] == c {
        run_len(t, c, i + 1)
    } else {
        i
    }
}

/// A fence marker: `count` repetitions of the fence character.
pub struct Marker {
    pub ch: char,
    pub count: nat,
}

/// The marker opened by a (left-trimmed) line: three or more backticks or
/// tildes, counted in full.
pub open spec fn fence_open(t: Seq<char>) -> Option<Marker> {
    if starts_with(t, seq!['`', '`', '`']) {
        Some(Marker { ch: '`', count: run_len(t, '`', 0) as nat })
    } else if starts_with(t, seq!['~', '~', '~']) {
        Some(Marker { ch: '~', count: run_len(t, '~', 0) as nat })
    } else {
        None
    }
}

/// A (left-trimmed) line closes the fence opened by `m`: it starts with the
/// marker and holds nothing but fence characters.
pub open spec fn fence_close(t: Seq<char>, m: Marker) -> bool {
    &&& m.count <= t.len()
    &&& all_eq(t.take(m.count as int), m.ch)
    &&& all_eq(trim(t), m.ch)
}

/// Fenced byte ranges found from the line starting at `o`, given whether a
/// fence is open (with its marker and start).
pub open spec fn fences_from(s: Seq<char>, o: int, open: Option<(Marker, int)>) -> Seq<(int, int)>
    decreases s.len() - o,
{
    let e = line_end(s, o);
    let t = trim_start(s.subrange(o, e));
    let (next, emitted): (Option<(Marker, int)>, Seq<(int, int)>) = match open {
        None => match fence_open(t) {
            Some(m) => (Some((m, o)), Seq::empty()),
            None => (None, Seq::empty()),
        },
        Some((m, start)) => if fence_close(t, m) {
            (None, seq![(start, e)])
        } else {
            (open, Seq::empty())
        },
    };
    if e < o || e >= s.len() {
        emitted + match next {
            Some((_, start)) => seq![(start, s.len() as int)],
            None => Seq::empty(),
        }
    } else {
        emitted + fences_from(s, e + 1, next)
    }
}

/// The fenced code blocks of a document, as `[start, end)` index ranges.
pub open spec fn fenced_ranges(s: Seq<char>) -> Seq<(int, int)> {
    fences_from(s, 0, None)
}

pub open spec fn in_fenced(ranges: Seq<(int, int)>, off: int) -> bool {
    exists|k: int| 0 <= k < ranges.len() && (#[trigger] ranges[k]).0 <= off < ranges[k].1
}

pub open spec fn ranges_view(r: Seq<(usize, usize)>) -> Seq<(int, int)> {
    r.map_values(|p: (usize, usize)| (p.0 as int, p.1 as int))
}

proof fn lemma_line_end(s: Seq<char>, o: int)
    requires
        0 <= o <= s.len(),
    ensures
        o <= line_end(s, o) <= s.len(),
        line_end(s, o) < s.len() ==> s[line_end(s, o)] == '\n',
        forall|k: int| o <= k < line_end(s, o) ==> s[k] != '\n',
{
    lemma_find_char_from(s, '\n', o);
}

pub fn run_len_exec(v: &Vec<char>, lo: usize, hi: usize, c: char) -> (n: usize)
    requires
        lo <= hi <= v.len(),
    ensures
        n == run_len(v@.subrange(lo as int, hi as int), c, 0),
        lo + n <= hi,
{
    let ghost t = v@.subrange(lo as int, hi as int);
    let mut k = lo;
    while k < hi && v[k] == c
        invariant
            lo <= k <= hi <= v.len(),
            t == v@.subrange(lo as int, hi as int),
            run_len(t, c, k - lo) == run_len(t, c, 0),
        decreases hi - k,
    {
        k += 1;
    }
    k - lo
}

fn fence_open_exec(v: &Vec<char>, lo: usize, hi: usize) -> (r: Option<(char, usize)>)
    requires
        lo <= hi <= v.len(),
    ensures
        match r {
            Some((c, n)) => fence_open(v@.subrange(lo as int, hi as int)) == Some(
                Marker { ch: c, count: n as nat },
            ),
            None => fence_open(v@.subrange(lo as int, hi as int)) is None,
        },
{
    let ghost t = v@.subrange(lo as int, hi as int);
    let bt: &[char] = &['`', '`', '`'];
    let td: &[char] = &['~', '~', '~'];
    assert(bt@ == seq!['`', '`', '`']);
    assert(td@ == seq!['~', '~', '~']);
    if hi - lo >= 3 && range_is(v, lo, lo + 3, bt) {
        assert(t.subrange(0, 3) =~= v@.subrange(lo as int, lo + 3));
        Some(('`', run_len_exec(v, lo, hi, '`')))
    } else if hi - lo >= 3 && range_is(v, lo, lo + 3, td) {
        assert(t.subrange(0, 3) =~= v@.subrange(lo as int, lo + 3));
        assert(!starts_with(t, seq!['`', '`', '`'])) by {
            assert(t.subrange(0, 3) =~= v@.subrange(lo as int, lo + 3));
        }
        Some(('~', run_len_exec(v, lo, hi, '~')))
    } else {
        proof {
            if hi - lo >= 3 {
                assert(t.subrange(0, 3) =~= v@.subrange(lo as int, lo + 3));
            }
        }
        None
    }
}

fn fence_close_exec(v: &Vec<char>, lo: usize, hi: usize, c: char, n: usize) -> (b: bool)
    requires
        lo <= hi <= v.len(),
    ensures
        b == fence_close(v@.subrange(lo as int, hi as int), Marker { ch: c, count: n as nat }),
{
    let ghost t = v@.subrange(lo as int, hi as int);
    if n > hi - lo {
        return false;
    }
    proof {
        assert(t.take(n as int) =~= v@.subrange(lo as int, lo + n));
    }
    if !all_eq_exec(v, lo, lo + n, c) {
        return false;
    }
    let (a, b) = trim_range(v, lo, hi);
    all_eq_exec(v, a, b, c)
}


pub open spec fn open_view(open: Option<(char, usize, usize)>) -> Option<(Marker, int)> {
    match open {
        Some((c, n, start)) => Some((Marker { ch: c, count: n as nat }, start as int)),
        None => None,
    }
}

proof fn lemma_ranges_view_push(r: Seq<(usize, usize)>, x: (usize, usize))
    ensures
        ranges_view(r.push(x)) == ranges_view(r) + seq![(x.0 as int, x.1 as int)],
{
    assert(ranges_view(r.push(x)) =~= ranges_view(r) + seq![(x.0 as int, x.1 as int)]);
}

/// Find all fenced code block ranges (``` or ~~~ fences) in the document.
/// A fence left open at the end of the document extends to its end.
pub fn find_fenced_ranges(v: &Vec<char>) -> (r: Vec<(usize, usize)>)
    ensures
        ranges_view(r@) == fenced_ranges(v@),
        forall|k: int| 0 <= k < r.len() ==> (#[trigger] r@[k]).0 <= r@[k].1 <= v.len(),
{
    let mut out: Vec<(usize, usize)> = Vec::new();
    let mut open: Option<(char, usize, usize)> = None;
    let mut o: usize = 0;
    assert(ranges_view(out@) =~= Seq::<(int, int)>::empty());
    loop
        invariant
            o <= v.len(),
            ranges_view(out@) + fences_from(v@, o as int, open_view(open)) == fenced_ranges(v@),
            forall|k: int| 0 <= k < out.len() ==> (#[trigger] out@[k]).0 <= out@[k].1 <= v.len(),
            open matches Some((_, _, st)) ==> st <= o,
        decreases v.len() - o,
    {
        let e = match find_char_exec(v, '\n', o) {
            Some(e) => e,
            None => v.len(),
        };
        proof {
            lemma_line_end(v@, o as int);
        }
        assert(e as int == line_end(v@, o as int));
        let (ts, _te) = trim_range(v, o, e);
        let ghost t = trim_start(v@.subrange(o as int, e as int));
        assert(v@.subrange(ts as int, e as int) == t);
        let ghost before = ranges_view(out@);
        let ghost st_open = open_view(open);
        let next: Option<(char, usize, usize)>;
        let ghost mut em: Seq<(int, int)> = Seq::empty();
        match open {
            None => {
                match fence_open_exec(v, ts, e) {
                    Some((c, n)) => {
                        next = Some((c, n, o));
                    },
                    None => {
                        next = None;
                    },
                }
            },
            Some((c, n, start)) => {
                if fence_close_exec(v, ts, e, c, n) {
                    proof {
                        lemma_ranges_view_push(out@, (start, e));
                    }
                    out.push((start, e));
                    proof {
                        em = seq![(start as int, e as int)];
                    }
                    next = None;
                } else {
                    next = open;
                }
            },
        }
        assert(ranges_view(out@) == before + em);
        assert(fences_from(v@, o as int, st_open) == em + (if e >= v.len() {
            match open_view(next) {
                Some((_, start)) => seq![(start, v.len() as int)],
                None => Seq::<(int, int)>::empty(),
            }
        } else {
            fences_from(v@, e + 1, open_view(next))
        }));
        if e >= v.len() {
            match next {
                Some((_, _, start)) => {
                    proof {
                        lemma_ranges_view_push(out@, (start, v.len()));
                    }
                    out.push((start, v.len()));
                },
                None => {},
            }
            proof {
                assert(ranges_view(out@) =~= fenced_ranges(v@));
            }
            return out;
        }
        open = next;
        o = e + 1;
        proof {
            assert(ranges_view(out@) + fences_from(v@, o as int, open_view(open)) =~= fenced_ranges(v@));
        }
    }
}

pub open spec fn in_fenced_usize(ranges: Seq<(usize, usize)>, off: int) -> bool {
    exists|k: int| 0 <= k < ranges.len() && (#[trigger] ranges[k]).0 <= off < ranges[k].1
}

/// Whether `off` lies in one of the ranges.
pub fn is_in_fenced_range(off: usize, ranges: &Vec<(usize, usize)>) -> (b: bool)
    ensures
        b == in_fenced(ranges_view(ranges@), off as int),
{
    let mut k: usize = 0;
    while k < ranges.len()
        invariant
            k <= ranges.len(),
            forall|m: int| 0 <= m < k ==> !((#[trigger] ranges@[m]).0 <= off < ranges@[m].1),
        decreases ranges.len() - k,
    {
        if ranges[k].0 <= off && off < ranges[k].1 {
            proof {
                assert(ranges_view(ranges@)[k as int] == (ranges@[k as int].0 as int, ranges@[k as int].1 as int));
            }
            return true;
        }
        k += 1;
    }
    proof {
        assert forall|m: int| 0 <= m < ranges_view(ranges@).len() implies !(
        (#[trigger] ranges_view(ranges@)[m]).0 <= off < ranges_view(ranges@)[m].1) by {
            assert(ranges_view(ranges@)[m] == (ranges@[m].0 as int, ranges@[m].1 as int));
        }
    }
    false
}

// ------------------------------------------------------------ comments

/// Comments delimited by `open` and `close`, searched from `from`. A
/// comment whose opening delimiter lies in a fenced block is skipped (the
/// search resumes right after that delimiter); an unclosed comment ends the
/// search. With `skip_raw`, comments whose trimmed text starts with `raw:`
/// are left out.
pub open spec fn scan_from(
    s: Seq<char>,
    fences: Seq<(int, int)>,
    from: int,
    open: Seq<char>,
    close: Seq<char>,
    skip_raw: bool,
) -> Seq<RawCommentView>
    decreases s.len() + 1 - from,
{
    match find_from(s, open, from) {
        None => Seq::empty(),
        Some(o) => if o < from || open.len() == 0 || o + open.len() > s.len() {
            Seq::empty()
        } else if in_fenced(fences, o) {
            scan_from(s, fences, o + open.len(), open, close, skip_raw)
        } else {
            match find_from(s, close, o + open.len()) {
                None => Seq::empty(),
                Some(c) => if c < o + open.len() || c + close.len() > s.len() {
                    Seq::empty()
                } else {
                    let end = c + close.len();
                    let inner = trim(s.subrange(o + open.len(), c));
                    let item = RawCommentView {
                        char_start: utf16_len(s.take(o)),
                        char_end: utf16_len(s.take(o)) + utf16_len(s.subrange(o, end)),
                        inner,
                        original: s.subrange(o, end),
                    };
                    let here = if skip_raw && starts_with(inner, seq!['r', 'a', 'w', ':']) {
                        Seq::empty()
                    } else {
                        seq![item]
                    };
                    here + scan_from(s, fences, end, open, close, skip_raw)
                },
            }
        },
    }
}

/// Standard `<!-- -->` comments outside code fences, without `raw:` ones.
pub open spec fn std_comments(s: Seq<char>) -> Seq<RawCommentView> {
    scan_from(s, fenced_ranges(s), 0, seq!['<', '!', '-', '-'], seq!['-', '-', '>'], true)
}

/// Triple-dash `<!--- --->` annotation comments outside code fences.
pub open spec fn annotation_comments(s: Seq<char>) -> Seq<RawCommentView> {
    scan_from(
        s,
        fenced_ranges(s),
        0,
        seq!['<', '!', '-', '-', '-'],
        seq!['-', '-', '-', '>'],
        false,
    )
}

pub open spec fn raw_views(r: Seq<RawComment>) -> Seq<RawCommentView> {
    r.map_values(|c: RawComment| c@)
}

proof fn lemma_raw_views_push(r: Seq<RawComment>, x: RawComment)
    ensures
        raw_views(r.push(x)) == raw_views(r) + seq![x@],
{
    assert(raw_views(r.push(x)) =~= raw_views(r) + seq![x@]);
}

fn scan_delimited(
    v: &Vec<char>,
    fences: &Vec<(usize, usize)>,
    open: &Vec<char>,
    close: &Vec<char>,
    skip_raw: bool,
) -> (out: Vec<RawComment>)
    requires
        fits(v@),
        open@.len() > 0,
    ensures
        raw_views(out@) == scan_from(v@, ranges_view(fences@), 0, open@, close@, skip_raw),
{
    let ghost s = v@;
    let ghost f = ranges_view(fences@);
    let raw: &[char] = &['r', 'a', 'w', ':'];
    assert(raw@ == seq!['r', 'a', 'w', ':']);
    let mut out: Vec<RawComment> = Vec::new();
    let mut search_from: usize = 0;
    let mut last: usize = 0;
    let mut acc: usize = 0;
    assert(raw_views(out@) =~= Seq::<RawCommentView>::empty());
    assert(s.take(0) =~= Seq::<char>::empty());
    loop
        invariant
            fits(s),
            s == v@,
            raw@ == seq!['r', 'a', 'w', ':'],
            f == ranges_view(fences@),
            open@.len() > 0,
            last <= search_from <= v.len() + 1,
            last <= v.len(),
            acc == utf16_len(s.take(last as int)),
            raw_views(out@) + scan_from(s, f, search_from as int, open@, close@, skip_raw)
                == scan_from(s, f, 0, open@, close@, skip_raw),
        decreases v.len() + 1 - search_from,
    {
        let ghost before = raw_views(out@);
        proof {
            lemma_find_from(s, open@, search_from as int);
        }
        let o = match find_from_exec(v, open, search_from) {
            Some(o) => o,
            None => {
                assert(raw_views(out@) =~= scan_from(s, f, 0, open@, close@, skip_raw));
                return out;
            },
        };
        let after_open = o + open.len();
        let ghost old_from = search_from as int;
        if is_in_fenced_range(o, fences) {
            assert(scan_from(s, f, old_from, open@, close@, skip_raw) == scan_from(
                s,
                f,
                after_open as int,
                open@,
                close@,
                skip_raw,
            ));
            search_from = after_open;
            continue;
        }
        proof {
            lemma_find_from(s, close@, after_open as int);
        }
        let c = match find_from_exec(v, close, after_open) {
            Some(c) => c,
            None => {
                assert(raw_views(out@) =~= scan_from(s, f, 0, open@, close@, skip_raw));
                return out;
            },
        };
        let end = c + close.len();
        proof {
            lemma_utf16_concat(s.take(last as int), s.subrange(last as int, o as int));
            assert(s.take(last as int) + s.subrange(last as int, o as int) =~= s.take(o as int));
            lemma_utf16_concat(s.take(o as int), s.subrange(o as int, end as int));
            assert(s.take(o as int) + s.subrange(o as int, end as int) =~= s.take(end as int));
            lemma_utf16_bound(s.take(end as int));
        }
        acc = acc + utf16_count(v, last, o);
        let start16 = acc;
        let end16 = start16 + utf16_count(v, o, end);
        let (a, b) = trim_range(v, after_open, c);
        let is_raw = skip_raw && b - a >= 4 && range_is(v, a, a + 4, raw);
        proof {
            let inner = s.subrange(a as int, b as int);
            if b - a >= 4 {
                assert(inner.subrange(0, 4) =~= s.subrange(a as int, a + 4));
            }
        }
        let ghost item_v = RawCommentView {
            char_start: utf16_len(s.take(o as int)),
            char_end: utf16_len(s.take(o as int)) + utf16_len(s.subrange(o as int, end as int)),
            inner: trim(s.subrange(after_open as int, c as int)),
            original: s.subrange(o as int, end as int),
        };
        let ghost here = if is_raw {
            Seq::<RawCommentView>::empty()
        } else {
            seq![item_v]
        };
        assert(find_from(s, open@, old_from) == Some(o as int));
        assert(!in_fenced(f, o as int));
        assert(find_from(s, close@, o + open@.len()) == Some(c as int));
        assert(o + open@.len() <= s.len());
        assert(c + close@.len() <= s.len());
        assert(is_raw == (skip_raw && starts_with(item_v.inner, seq!['r', 'a', 'w', ':'])));
        assert(scan_from(s, f, old_from, open@, close@, skip_raw) == here + scan_from(
            s,
            f,
            end as int,
            open@,
            close@,
            skip_raw,
        ));
        if !is_raw {
            let item = RawComment {
                char_start: start16,
                char_end: end16,
                inner: string_of(v, a, b),
                original: string_of(v, o, end),
            };
            proof {
                lemma_raw_views_push(out@, item);
            }
            out.push(item);
        }
        assert(raw_views(out@) == before + here);
        last = o;
        search_from = end;
        assert(raw_views(out@) + scan_from(s, f, search_from as int, open@, close@, skip_raw)
            =~= scan_from(s, f, 0, open@, close@, skip_raw));
    }
}

/// Scan a document for standard HTML comments, returning them with UTF-16
/// offsets. Skips comments inside fenced code blocks (``` or ~~~) and
/// comments whose trimmed inner text starts with `raw:`.
pub fn scan_comments(content: &str) -> (r: Vec<RawComment>)
    requires
        fits(content@),
    ensures
        raw_views(r@) == std_comments(content@),
{
    let v = chars_of(content);
    let fences = find_fenced_ranges(&v);
    let open = vec!['<', '!', '-', '-'];
    let close = vec!['-', '-', '>'];
    assert(open@ == seq!['<', '!', '-', '-']);
    assert(close@ == seq!['-', '-', '>']);
    scan_delimited(&v, &fences, &open, &close, true)
}

/// Scan a document for triple-dash annotation comments (`<!--- --->`),
/// returning them with UTF-16 offsets. Comments inside fenced code blocks
/// are skipped; standard `<!-- -->` comments are not annotation comments.
pub fn scan_annotation_comments(content: &str) -> (r: Vec<RawComment>)
    requires
        fits(content@),
    ensures
        raw_views(r@) == annotation_comments(content@),
{
    let v = chars_of(content);
    let fences = find_fenced_ranges(&v);
    let open = vec!['<', '!', '-', '-', '-'];
    let close = vec!['-', '-', '-', '>'];
    assert(open@ == seq!['<', '!', '-', '-', '-']);
    assert(close@ == seq!['-', '-', '-', '>']);
    scan_delimited(&v, &fences, &open, &close, false)
}

/// Comments come in document order, each one a non-empty span that ends
/// before the next one starts.
pub open spec fn in_order(r: Seq<RawCommentView>) -> bool {
    &&& forall|k: int| 0 <= k < r.len() ==> (#[trigger] r[k]).char_start < r[k].char_end
    &&& forall|i: int, j: int| 0 <= i < j < r.len() ==> (#[trigger] r[i]).char_end <= (
    #[trigger] r[j]).char_start
}

/// Every comment found from `from` starts at or after `from`, and they are
/// in document order.
pub proof fn lemma_scan_in_order(
    s: Seq<char>,
    f: Seq<(int, int)>,
    from: int,
    open: Seq<char>,
    close: Seq<char>,
    skip_raw: bool,
)
    requires
        0 <= from <= s.len(),
    ensures
        in_order(scan_from(s, f, from, open, close, skip_raw)),
        forall|k: int|
            0 <= k < scan_from(s, f, from, open, close, skip_raw).len() ==> utf16_len(s.take(from))
                <= (#[trigger] scan_from(s, f, from, open, close, skip_raw)[k]).char_start,
    decreases s.len() + 1 - from,
{
    let r = scan_from(s, f, from, open, close, skip_raw);
    lemma_find_from(s, open, from);
    match find_from(s, open, from) {
        None => {},
        Some(o) => {
            if o < from || open.len() == 0 || o + open.len() > s.len() {
            } else if in_fenced(f, o) {
                lemma_scan_in_order(s, f, o + open.len(), open, close, skip_raw);
                lemma_utf16_mono(s, from, o + open.len());
            } else {
                lemma_find_from(s, close, o + open.len());
                match find_from(s, close, o + open.len()) {
                    None => {},
                    Some(c) => {
                        if c < o + open.len() || c + close.len() > s.len() {
                        } else {
                            let end = c + close.len();
                            lemma_scan_in_order(s, f, end, open, close, skip_raw);
                            lemma_utf16_mono(s, from, o);
                            lemma_utf16_concat(s.take(o), s.subrange(o, end));
                            assert(s.take(o) + s.subrange(o, end) =~= s.take(end));
                            lemma_utf16_bound(s.subrange(o, end));
                            let rest = scan_from(s, f, end, open, close, skip_raw);
                            let inner = trim(s.subrange(o + open.len(), c));
                            let here = if skip_raw && starts_with(
                                inner,
                                seq!['r', 'a', 'w', ':'],
                            ) {
                                Seq::<RawCommentView>::empty()
                            } else {
                                seq![
                                    RawCommentView {
                                        char_start: utf16_len(s.take(o)),
                                        char_end: utf16_len(s.take(o)) + utf16_len(
                                            s.subrange(o, end),
                                        ),
                                        inner,
                                        original: s.subrange(o, end),
                                    },
                                ]
                            };
                            assert(r == here + rest);
                            assert forall|i: int, j: int| 0 <= i < j < r.len() implies (
                            #[trigger] r[i]).char_end <= (#[trigger] r[j]).char_start by {
                                if i < here.len() {
                                    assert(r[j] == rest[j - here.len()]);
                                } else {
                                    assert(r[i] == rest[i - here.len()]);
                                    assert(r[j] == rest[j - here.len()]);
                                }
                            }
                            assert forall|k: int| 0 <= k < r.len() implies (#[trigger] r[k]).char_start
                                < r[k].char_end && utf16_len(s.take(from)) <= r[k].char_start by {
                                if k >= here.len() {
                                    assert(r[k] == rest[k - here.len()]);
                                }
                            }
                        }
                    },
                }
            }
        },
    }
}

} // verus!
