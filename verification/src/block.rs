//! The block (multi-line) form: head lines, a `---` separator, and a
//! Markdown body.
use crate::date::{date_line, date_match_at_exec};
use crate::marks::{
    builtin_marks, builtin_marks_exec, codes_view, is_mark_code, is_mark_code_exec,
};
use crate::scanner::line_end;
use crate::text::{
    chars_of, find_char_exec, lemma_find_char_from, range_is, string_of, sub_vec, trim,
    trim_range,
};
use crate::types::{
    certainty_of, opt_str, parse_scope, parse_scope_exec, scope_or_default, type_keyword,
    type_keyword_exec, Annotation, AnnotationForm, AnnotationType, AnnotationView, Certainty,
    Scope, ScopeView,
};
use vstd::prelude::*;

verus! {

pub open spec fn is_separator(l: Seq<char>) -> bool {
    trim(l) == seq!['-', '-', '-']
}

/// Start of the first separator line (a line that is `---` once trimmed)
/// among the lines starting at `o`.
pub open spec fn separator_from(s: Seq<char>, o: int) -> Option<int>
    decreases s.len() - o,
{
    let e = line_end(s, o);
    if is_separator(s.subrange(o, e)) {
        Some(o)
    } else if e < o || e >= s.len() {
        None
    } else {
        separator_from(s, e + 1)
    }
}

/// The inner text has a `---` separator line.
pub open spec fn block_form(s: Seq<char>) -> bool {
    separator_from(s, 0) is Some
}

/// Head (before the separator line, without the newline ending it) and
/// body (after the separator line and its newline, if there is one).
pub open spec fn head_body(s: Seq<char>) -> (Seq<char>, Option<Seq<char>>) {
    match separator_from(s, 0) {
        Some(o) => {
            let e = line_end(s, o);
            let head = s.take(if o >= 1 {
                o - 1
            } else {
                0
            });
            let body = if e + 1 <= s.len() {
                Some(s.skip(e + 1))
            } else {
                None
            };
            (head, body)
        },
        None => (s, None),
    }
}

/// A line that is exactly `^"text"`: the text.
pub open spec fn anchor_line(l: Seq<char>) -> Option<Seq<char>> {
    if l.len() >= 4 && l[0] == '^' && l[1] == '"' && l.last() == '"' && (forall|k: int|
        2 <= k < l.len() - 1 ==> l[k] != '"') {
        Some(l.subrange(2, l.len() - 1))
    } else {
        None
    }
}

/// What the head lines have set so far.
pub struct HeadState {
    pub ty: AnnotationType,
    pub mark: Option<Seq<char>>,
    pub cert: Certainty,
    pub scope: ScopeView,
    pub date: Option<Seq<char>>,
}

pub open spec fn initial_head() -> HeadState {
    HeadState {
        ty: AnnotationType::Bare,
        mark: None,
        cert: Certainty::Neutral,
        scope: ScopeView::Sentence(1),
        date: None,
    }
}

/// One trimmed head line: a date, an anchor, a scope, or (while no type is
/// set) a type keyword or mark code with an optional trailing `?`/`!`.
pub open spec fn apply_head_line(st: HeadState, l: Seq<char>, custom: Seq<Seq<char>>) -> HeadState {
    if l.len() == 0 {
        st
    } else if date_line(l) is Some {
        HeadState { date: date_line(l), ..st }
    } else if anchor_line(l) is Some {
        HeadState { scope: ScopeView::Anchor(anchor_line(l).unwrap()), ..st }
    } else if parse_scope(l) is Some {
        HeadState { scope: scope_or_default(l), ..st }
    } else if st.ty == AnnotationType::Bare {
        let has_cert = l.last() == '?' || l.last() == '!';
        let word = if has_cert {
            l.drop_last()
        } else {
            l
        };
        let cert = if has_cert {
            certainty_of(l.last())
        } else {
            st.cert
        };
        match type_keyword(word) {
            Some(t) => HeadState { ty: t, cert, ..st },
            None => if is_mark_code(word, custom) {
                HeadState { ty: AnnotationType::Mark, mark: Some(word), cert, ..st }
            } else {
                st
            },
        }
    } else {
        st
    }
}

/// Folds the head lines starting at `o`.
pub open spec fn head_from(
    h: Seq<char>,
    o: int,
    st: HeadState,
    custom: Seq<Seq<char>>,
) -> HeadState
    decreases h.len() - o,
{
    let e = line_end(h, o);
    let st2 = apply_head_line(st, trim(h.subrange(o, e)), custom);
    if e < o || e >= h.len() {
        st2
    } else {
        head_from(h, e + 1, st2, custom)
    }
}

/// The annotation a block-form inner text denotes.
pub open spec fn block_spec(s: Seq<char>, custom: Seq<Seq<char>>) -> AnnotationView {
    let (head, body) = head_body(s);
    let st = head_from(head, 0, initial_head(), custom);
    AnnotationView {
        form: AnnotationForm::Block,
        id: None,
        mark: st.mark,
        annotation_type: st.ty,
        certainty: st.cert,
        scope: st.scope,
        body: match body {
            Some(b) => if trim(b).len() == 0 {
                None
            } else {
                Some(trim(b))
            },
            None => None,
        },
        date: st.date,
        char_start: 0,
        char_end: 0,
        original: Seq::empty(),
    }
}

proof fn lemma_line_end(s: Seq<char>, o: int)
    requires
        0 <= o <= s.len(),
    ensures
        o <= line_end(s, o) <= s.len(),
{
    lemma_find_char_from(s, '\n', o);
}

/// End of the line of `v` that starts at `o`.
fn line_end_exec(v: &Vec<char>, o: usize) -> (e: usize)
    requires
        o <= v.len(),
    ensures
        e == line_end(v@, o as int),
        o <= e <= v.len(),
{
    proof {
        lemma_line_end(v@, o as int);
    }
    match find_char_exec(v, '\n', o) {
        Some(e) => e,
        None => v.len(),
    }
}

/// Start of the separator line of `v`, if any.
fn separator_exec(v: &Vec<char>) -> (r: Option<usize>)
    ensures
        match r {
            Some(o) => separator_from(v@, 0) == Some(o as int) && o <= v.len(),
            None => separator_from(v@, 0) is None,
        },
{
    let dashes: &[char] = &['-', '-', '-'];
    assert(dashes@ == seq!['-', '-', '-']);
    let mut o: usize = 0;
    loop
        invariant
            o <= v.len(),
            dashes@ == seq!['-', '-', '-'],
            separator_from(v@, o as int) == separator_from(v@, 0),
        decreases v.len() - o,
    {
        let e = line_end_exec(v, o);
        let (a, b) = trim_range(v, o, e);
        if range_is(v, a, b, dashes) {
            return Some(o);
        }
        if e >= v.len() {
            return None;
        }
        o = e + 1;
    }
}

/// Check if the inner text of a comment looks like block form (has a `---`
/// separator line).
pub fn is_block_form(inner: &str) -> (b: bool)
    ensures
        b == block_form(inner@),
{
    let v = chars_of(inner);
    separator_exec(&v).is_some()
}

fn anchor_line_exec(l: &Vec<char>) -> (r: bool)
    ensures
        r == anchor_line(l@) is Some,
{
    let n = l.len();
    if n < 4 || l[0] != '^' || l[1] != '"' || l[n - 1] != '"' {
        return false;
    }
    let mut k: usize = 2;
    while k < n - 1
        invariant
            2 <= k <= n - 1,
            n == l.len(),
            n >= 4,
            forall|m: int| 2 <= m < k ==> l@[m] != '"',
        decreases n - 1 - k,
    {
        if l[k] == '"' {
            return false;
        }
        k += 1;
    }
    true
}

/// Exec counterpart of [`HeadState`].
struct Head {
    ty: AnnotationType,
    mark: Option<String>,
    cert: Certainty,
    scope: Scope,
    date: Option<String>,
}

spec fn head_view(h: Head) -> HeadState {
    HeadState {
        ty: h.ty,
        mark: opt_str(h.mark),
        cert: h.cert,
        scope: h.scope@,
        date: opt_str(h.date),
    }
}

fn apply_head_line_exec(
    st: Head,
    l: &Vec<char>,
    builtin: &Vec<Vec<char>>,
    custom: &Vec<Vec<char>>,
) -> (r: Head)
    requires
        codes_view(builtin@) == builtin_marks(),
    ensures
        head_view(r) == apply_head_line(head_view(st), l@, codes_view(custom@)),
{
    let n = l.len();
    if n == 0 {
        return st;
    }
    proof {
        assert(l@.subrange(0, n as int) =~= l@);
    }
    match date_match_at_exec(l, 0) {
        Some(e) => {
            if e == n {
                return Head { date: Some(string_of(l, 1, e)), ..st };
            }
        },
        None => {},
    }
    if anchor_line_exec(l) {
        return Head { scope: Scope::Anchor(string_of(l, 2, n - 1)), ..st };
    }
    match parse_scope_exec(l, 0, n) {
        Some(sc) => {
            return Head { scope: sc, ..st };
        },
        None => {},
    }
    if st.ty != AnnotationType::Bare {
        return st;
    }
    let has_cert = l[n - 1] == '?' || l[n - 1] == '!';
    let wend = if has_cert {
        n - 1
    } else {
        n
    };
    proof {
        assert(l@.drop_last() =~= l@.subrange(0, n - 1));
    }
    let cert = if has_cert {
        Certainty::from_char(l[n - 1])
    } else {
        st.cert
    };
    match type_keyword_exec(l, 0, wend) {
        Some(t) => Head { ty: t, cert, ..st },
        None => {
            if is_mark_code_exec(builtin, custom, l, 0, wend) {
                Head { ty: AnnotationType::Mark, mark: Some(string_of(l, 0, wend)), cert, ..st }
            } else {
                st
            }
        },
    }
}

/// Parse a block form annotation whose inner text holds a `---` line,
/// recognizing the given custom mark codes in the type line.
pub fn parse_block_with_marks(inner: &str, custom: &Vec<Vec<char>>) -> (ann: Annotation)
    ensures
        ann@ == block_spec(inner@, codes_view(custom@)),
{
    let v = chars_of(inner);
    let builtin = builtin_marks_exec();
    let sep = separator_exec(&v);
    let (hend, body_start): (usize, Option<usize>) = match sep {
        Some(o) => {
            let e = line_end_exec(&v, o);
            (
                if o >= 1 {
                    o - 1
                } else {
                    0
                },
                if e < v.len() {
                    Some(e + 1)
                } else {
                    None
                },
            )
        },
        None => (v.len(), None),
    };
    let head = sub_vec(&v, 0, hend);
    proof {
        assert(head@ == head_body(v@).0) by {
            assert(v@.take(hend as int) =~= v@.subrange(0, hend as int));
            assert(v@.subrange(0, v.len() as int) =~= v@);
        }
    }
    let mut st = Head {
        ty: AnnotationType::Bare,
        mark: None,
        cert: Certainty::Neutral,
        scope: Scope::Sentence(1),
        date: None,
    };
    let ghost cv = codes_view(custom@);
    let mut o: usize = 0;
    loop
        invariant
            o <= head.len(),
            codes_view(builtin@) == builtin_marks(),
            cv == codes_view(custom@),
            head_from(head@, o as int, head_view(st), cv) == head_from(
                head@,
                0,
                initial_head(),
                cv,
            ),
        ensures
            head_view(st) == head_from(head@, 0, initial_head(), cv),
        decreases head.len() - o,
    {
        let e = line_end_exec(&head, o);
        let (a, b) = trim_range(&head, o, e);
        let line = sub_vec(&head, a, b);
        let ghost before = head_view(st);
        st = apply_head_line_exec(st, &line, &builtin, custom);
        assert(head_from(head@, o as int, before, cv) == if e >= head.len() {
            head_view(st)
        } else {
            head_from(head@, e + 1, head_view(st), cv)
        });
        if e >= head.len() {
            break;
        }
        o = e + 1;
    }
    let body = match body_start {
        Some(bs) => {
            let (a, b) = trim_range(&v, bs, v.len());
            assert(v@.skip(bs as int) =~= v@.subrange(bs as int, v.len() as int));
            if a == b {
                None
            } else {
                Some(string_of(&v, a, b))
            }
        },
        None => None,
    };
    Annotation {
        form: AnnotationForm::Block,
        id: None,
        mark: st.mark,
        annotation_type: st.ty,
        certainty: st.cert,
        scope: st.scope,
        body,
        date: st.date,
        char_start: 0,
        char_end: 0,
        original: String::new(),
    }
}

/// Parse a block form annotation (built-in mark codes only). The inner text
/// is expected to contain at least one `---` line.
pub fn parse_block(inner: &str) -> (ann: Annotation)
    ensures
        ann@ == block_spec(inner@, Seq::empty()),
{
    let custom: Vec<Vec<char>> = Vec::new();
    assert(codes_view(custom@) =~= Seq::<Seq<char>>::empty());
    parse_block_with_marks(inner, &custom)
}

// ------------------------------------------------------------ head order

/// The lines of `h` from `o` on, each without its newline.
pub open spec fn lines_from(h: Seq<char>, o: int) -> Seq<Seq<char>>
    decreases h.len() - o,
{
    let e = line_end(h, o);
    if e < o || e >= h.len() {
        seq![h.subrange(o, e)]
    } else {
        seq![h.subrange(o, e)] + lines_from(h, e + 1)
    }
}

/// Folds a sequence of head lines, trimming each.
pub open spec fn fold_head(ls: Seq<Seq<char>>, st: HeadState, custom: Seq<Seq<char>>) -> HeadState
    decreases ls.len(),
{
    if ls.len() == 0 {
        st
    } else {
        fold_head(ls.drop_first(), apply_head_line(st, trim(ls[0]), custom), custom)
    }
}

/// The word of a type line, without its certainty mark.
pub open spec fn type_word(t: Seq<char>) -> Seq<char> {
    if t.len() > 0 && (t.last() == '?' || t.last() == '!') {
        t.drop_last()
    } else {
        t
    }
}

/// The kind of a trimmed head line: blank (0), date (1), anchor or scope
/// (2), type keyword with an optional certainty mark (3), anything else (4).
pub open spec fn head_kind(t: Seq<char>) -> int {
    if t.len() == 0 {
        0
    } else if date_line(t) is Some {
        1
    } else if anchor_line(t) is Some || parse_scope(t) is Some {
        2
    } else if type_keyword(type_word(t)) is Some {
        3
    } else {
        4
    }
}

/// Every head line is blank or of one of the three kinds, and no kind
/// occurs twice.
pub open spec fn distinct_kinds(ls: Seq<Seq<char>>) -> bool {
    &&& forall|i: int| 0 <= i < ls.len() ==> head_kind(trim(#[trigger] ls[i])) != 4
    &&& forall|i: int, j: int|
        0 <= i < ls.len() && 0 <= j < ls.len() && head_kind(trim(#[trigger] ls[i])) == head_kind(
            trim(#[trigger] ls[j]),
        ) && head_kind(trim(ls[i])) != 0 ==> i == j
}

pub open spec fn has_kind(ls: Seq<Seq<char>>, k: int) -> bool {
    exists|i: int| 0 <= i < ls.len() && head_kind(trim(#[trigger] ls[i])) == k
}

/// The (trimmed) line of kind `k`.
pub open spec fn line_of(ls: Seq<Seq<char>>, k: int) -> Seq<char> {
    trim(ls[choose|i: int| 0 <= i < ls.len() && head_kind(trim(#[trigger] ls[i])) == k])
}

/// What lines of distinct kinds set, whatever their order.
pub open spec fn head_summary(ls: Seq<Seq<char>>, st: HeadState) -> HeadState {
    let l3 = line_of(ls, 3);
    let l2 = line_of(ls, 2);
    HeadState {
        ty: if has_kind(ls, 3) {
            type_keyword(type_word(l3)).unwrap()
        } else {
            st.ty
        },
        mark: st.mark,
        cert: if has_kind(ls, 3) && (l3.last() == '?' || l3.last() == '!') {
            certainty_of(l3.last())
        } else {
            st.cert
        },
        scope: if has_kind(ls, 2) {
            if anchor_line(l2) is Some {
                ScopeView::Anchor(anchor_line(l2).unwrap())
            } else {
                scope_or_default(l2)
            }
        } else {
            st.scope
        },
        date: if has_kind(ls, 1) {
            date_line(line_of(ls, 1))
        } else {
            st.date
        },
    }
}

proof fn lemma_line_of(ls: Seq<Seq<char>>, j: int)
    requires
        distinct_kinds(ls),
        0 <= j < ls.len(),
        head_kind(trim(ls[j])) != 0,
    ensures
        has_kind(ls, head_kind(trim(ls[j]))),
        line_of(ls, head_kind(trim(ls[j]))) == trim(ls[j]),
{
    let k = head_kind(trim(ls[j]));
    assert(has_kind(ls, k));
    let i = choose|i: int| 0 <= i < ls.len() && head_kind(trim(#[trigger] ls[i])) == k;
    assert(i == j);
}

proof fn lemma_fold_summary(ls: Seq<Seq<char>>, st: HeadState, custom: Seq<Seq<char>>)
    requires
        distinct_kinds(ls),
        has_kind(ls, 3) ==> st.ty == AnnotationType::Bare,
    ensures
        fold_head(ls, st, custom) == head_summary(ls, st),
    decreases ls.len(),
{
    if ls.len() > 0 {
        let r = ls.drop_first();
        let t = trim(ls[0]);
        let k = head_kind(t);
        let st2 = apply_head_line(st, t, custom);
        assert forall|i: int| 0 <= i < r.len() implies #[trigger] r[i] == ls[i + 1] by {}
        assert(distinct_kinds(r)) by {
            assert forall|i: int, j: int|
                0 <= i < r.len() && 0 <= j < r.len() && head_kind(trim(#[trigger] r[i]))
                    == head_kind(trim(#[trigger] r[j])) && head_kind(trim(r[i])) != 0 implies i
                == j by {
                assert(r[i] == ls[i + 1] && r[j] == ls[j + 1]);
            }
        }
        assert forall|q: int| 1 <= q <= 3 && has_kind(r, q) implies has_kind(ls, q) && line_of(
            ls,
            q,
        ) == line_of(r, q) && q != k by {
            let i = choose|i: int| 0 <= i < r.len() && head_kind(trim(#[trigger] r[i])) == q;
            assert(r[i] == ls[i + 1]);
            lemma_line_of(r, i);
            lemma_line_of(ls, i + 1);
        }
        if k != 0 {
            lemma_line_of(ls, 0);
        }
        assert forall|q: int| 1 <= q <= 3 && has_kind(ls, q) && q != k implies has_kind(r, q) by {
            let i = choose|i: int| 0 <= i < ls.len() && head_kind(trim(#[trigger] ls[i])) == q;
            assert(i != 0);
            assert(r[i - 1] == ls[i]);
        }
        if k == 3 {
            assert(!has_kind(r, 3));
        }
        lemma_fold_summary(r, st2, custom);
    }
}

/// Head lines of distinct kinds may come in any order: two sequences of
/// them that hold the same lines fold to the same state.
pub proof fn lemma_head_order_free(
    l1: Seq<Seq<char>>,
    l2: Seq<Seq<char>>,
    st: HeadState,
    custom: Seq<Seq<char>>,
)
    requires
        distinct_kinds(l1),
        distinct_kinds(l2),
        l1.to_multiset() == l2.to_multiset(),
        st.ty == AnnotationType::Bare,
    ensures
        fold_head(l1, st, custom) == fold_head(l2, st, custom),
{
    lemma_fold_summary(l1, st, custom);
    lemma_fold_summary(l2, st, custom);
    assert forall|q: int| 1 <= q <= 3 && has_kind(l1, q) implies has_kind(l2, q) && line_of(
        l1,
        q,
    ) == line_of(l2, q) by {
        let i = choose|i: int| 0 <= i < l1.len() && head_kind(trim(#[trigger] l1[i])) == q;
        let x = l1[i];
        vstd::seq_lib::to_multiset_contains(l1, x);
        vstd::seq_lib::to_multiset_contains(l2, x);
        assert(l1.contains(x));
        let j = choose|j: int| 0 <= j < l2.len() && l2[j] == x;
        lemma_line_of(l1, i);
        lemma_line_of(l2, j);
    }
    assert forall|q: int| 1 <= q <= 3 && has_kind(l2, q) implies has_kind(l1, q) by {
        let j = choose|j: int| 0 <= j < l2.len() && head_kind(trim(#[trigger] l2[j])) == q;
        let x = l2[j];
        vstd::seq_lib::to_multiset_contains(l1, x);
        vstd::seq_lib::to_multiset_contains(l2, x);
        assert(l2.contains(x));
        let i = choose|i: int| 0 <= i < l1.len() && l1[i] == x;
        assert(head_kind(trim(l1[i])) == q);
    }
}

proof fn lemma_head_from_lines(h: Seq<char>, o: int, st: HeadState, custom: Seq<Seq<char>>)
    requires
        0 <= o <= h.len(),
    ensures
        head_from(h, o, st, custom) == fold_head(lines_from(h, o), st, custom),
    decreases h.len() - o,
{
    let e = line_end(h, o);
    lemma_find_char_from(h, '\n', o);
    let l = h.subrange(o, e);
    let st2 = apply_head_line(st, trim(l), custom);
    let ls = lines_from(h, o);
    if e < o || e >= h.len() {
        assert(ls == seq![l]);
        assert(ls.drop_first() =~= Seq::<Seq<char>>::empty());
        assert(fold_head(ls.drop_first(), st2, custom) == st2);
    } else {
        lemma_head_from_lines(h, e + 1, st2, custom);
        assert(ls == seq![l] + lines_from(h, e + 1));
        assert(ls[0] == l);
        assert(ls.drop_first() =~= lines_from(h, e + 1));
    }
    assert(fold_head(ls, st, custom) == fold_head(ls.drop_first(), st2, custom));
}

/// Block head lines may come in any order: two block annotations whose head
/// lines are the same lines of distinct kinds (blank, date, scope or anchor,
/// type keyword with an optional certainty mark), and whose bodies are
/// equal, denote the same annotation.
pub proof fn law_block_head_order_free(s1: Seq<char>, s2: Seq<char>, custom: Seq<Seq<char>>)
    requires
        distinct_kinds(lines_from(head_body(s1).0, 0)),
        distinct_kinds(lines_from(head_body(s2).0, 0)),
        lines_from(head_body(s1).0, 0).to_multiset() == lines_from(head_body(s2).0, 0).to_multiset(),
        head_body(s1).1 == head_body(s2).1,
    ensures
        block_spec(s1, custom) == block_spec(s2, custom),
{
    let h1 = head_body(s1).0;
    let h2 = head_body(s2).0;
    lemma_head_from_lines(h1, 0, initial_head(), custom);
    lemma_head_from_lines(h2, 0, initial_head(), custom);
    lemma_head_order_free(lines_from(h1, 0), lines_from(h2, 0), initial_head(), custom);
}

} // verus!
