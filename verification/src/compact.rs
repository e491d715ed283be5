//! The compact (single-line) form:
//! `[ID] TYPE-OR-MARK CERTAINTY SCOPE ^"ANCHOR" | BODY @DATE`.
use crate::date::{date_search, date_search_exec, date_shape, lemma_date_search, lemma_found_date_shape};
use crate::marks::{builtin_marks, builtin_marks_exec, codes_view, is_mark_code, is_mark_code_exec};
use crate::text::{
    lemma_skip_ws, matches_at, skip_ws, chars_of, find_char_exec, find_char_from, is_ascii_lower, is_ws, lemma_find_char_from,
    lemma_trim_end_take, lemma_trim_start_skip, range_is, skip_ws_exec, starts_with, string_of,
    sub_vec, trim_end, trim_start, ws_char, back_ws_exec,
};
use crate::types::{
    all_eq, all_eq_exec, certainty_of, is_new_style, parse_scope, parse_scope_exec,
    scope_or_default, Annotation, AnnotationForm, AnnotationType, AnnotationView, Certainty, Scope,
    ScopeView, opt_str,
};
use vstd::prelude::*;

verus! {

// ------------------------------------------------------------ grammar

/// After a type keyword: a certainty mark, a space, a pipe, or nothing.
pub open spec fn keyword_follower(s: Seq<char>, k: int) -> bool {
    k == s.len() || (k < s.len() && (s[k] == '?' || s[k] == '!' || s[k] == ':' || s[k] == ' '
        || s[k] == '|'))
}

pub open spec fn keyword_here(s: Seq<char>, kw: Seq<char>) -> bool {
    starts_with(s, kw) && keyword_follower(s, kw.len() as int)
}

/// The type keyword at the start of `s` and its length (tried in the order
/// `todo`, `app`, `cf`, `tr`, `llm`, `th`, `n`, `q`).
pub open spec fn leading_type(s: Seq<char>) -> Option<(AnnotationType, int)> {
    if keyword_here(s, seq!['t', 'o', 'd', 'o']) {
        Some((AnnotationType::Todo, 4))
    } else if keyword_here(s, seq!['a', 'p', 'p']) {
        Some((AnnotationType::Apparatus, 3))
    } else if keyword_here(s, seq!['c', 'f']) {
        Some((AnnotationType::CrossRef, 2))
    } else if keyword_here(s, seq!['t', 'r']) {
        Some((AnnotationType::Translation, 2))
    } else if keyword_here(s, seq!['l', 'l', 'm']) {
        Some((AnnotationType::Llm, 3))
    } else if keyword_here(s, seq!['t', 'h']) {
        Some((AnnotationType::Thread, 2))
    } else if keyword_here(s, seq!['n']) {
        Some((AnnotationType::Note, 1))
    } else if keyword_here(s, seq!['q']) {
        Some((AnnotationType::Question, 1))
    } else {
        None
    }
}

/// Length of the run of ASCII lowercase letters starting at `i`.
pub open spec fn lower_run(s: Seq<char>, i: int) -> int
    decreases s.len() - i,
{
    if 0 <= i < s.len() && is_ascii_lower(s[i]) {
        lower_run(s, i + 1)
    } else {
        i
    }
}

/// Index of the first whitespace character at or after `i`.
pub open spec fn first_ws(s: Seq<char>, i: int) -> Option<int>
    decreases s.len() - i,
{
    if i < 0 || i >= s.len() {
        None
    } else if is_ws(s[i]) {
        Some(i)
    } else {
        first_ws(s, i + 1)
    }
}

/// A scope token at the start of `s` that is followed by whitespace: the
/// scope and the index just past that whitespace character.
pub open spec fn scope_token(s: Seq<char>) -> Option<(ScopeView, int)> {
    match first_ws(s, 0) {
        Some(w) => if w > 0 && parse_scope(s.take(w)) is Some {
            Some((parse_scope(s.take(w)).unwrap(), w + 1))
        } else {
            None
        },
        None => None,
    }
}

/// What follows a candidate mark code is header material: a certainty
/// character (itself followed by header material), a pipe, the end, or
/// (after whitespace) a scope token, anchor, date, or pipe.
pub open spec fn header_after(a: Seq<char>) -> bool
    decreases a.len(),
{
    if a.len() == 0 {
        true
    } else if a[0] == '?' || a[0] == '!' || a[0] == ':' {
        header_after(a.drop_first())
    } else if a[0] == '|' {
        true
    } else if is_ws(a[0]) {
        let t = trim_start(a);
        ||| t.len() == 0
        ||| t[0] == '|'
        ||| (t.len() >= 2 && t[0] == '^' && t[1] == '"')
        ||| (t[0] == '@' && date_search(t, 0) is Some)
        ||| scope_token(t) is Some
        ||| (t[0] == '_' && all_eq(t, '_'))
        ||| parse_scope(t) is Some
    } else {
        false
    }
}

/// Closing quote of an anchor `^"text"` (non-empty text) starting at `i`.
pub open spec fn anchor_at(s: Seq<char>, i: int) -> Option<int> {
    if 0 <= i && i + 1 < s.len() && s[i] == '^' && s[i + 1] == '"' {
        match find_char_from(s, '"', i + 2) {
            Some(j) => if j > i + 2 {
                Some(j)
            } else {
                None
            },
            None => None,
        }
    } else {
        None
    }
}

/// The leftmost anchor at or after `i`: its `^` and its closing quote.
pub open spec fn anchor_search(s: Seq<char>, i: int) -> Option<(int, int)>
    decreases s.len() - i,
{
    if i < 0 || i >= s.len() {
        None
    } else {
        match anchor_at(s, i) {
            Some(j) => Some((i, j)),
            None => anchor_search(s, i + 1),
        }
    }
}

// ------------------------------------------------------------ the steps

/// Step 1: a type keyword at the start.
pub open spec fn step_type(inner: Seq<char>) -> (AnnotationType, Seq<char>, bool) {
    match leading_type(inner) {
        Some((t, k)) => (t, inner.skip(k), true),
        None => (AnnotationType::Bare, inner, false),
    }
}

/// Step 1.5: with no type keyword, a mark code followed by header material.
/// A lone code is not structure.
pub open spec fn step_mark(
    ty: AnnotationType,
    rem: Seq<char>,
    st: bool,
    custom: Seq<Seq<char>>,
) -> (AnnotationType, Option<Seq<char>>, Seq<char>, bool) {
    let tok = rem.take(lower_run(rem, 0));
    let after = rem.skip(lower_run(rem, 0));
    if ty == AnnotationType::Bare && is_mark_code(tok, custom) && header_after(after) {
        (AnnotationType::Mark, Some(tok), after, st || after.len() > 0)
    } else {
        (ty, None, rem, st)
    }
}

/// Step 2: a certainty mark (`:` alone is not structure).
pub open spec fn step_cert(rem: Seq<char>, st: bool) -> (Certainty, Seq<char>, bool) {
    if rem.len() > 0 && (rem[0] == '?' || rem[0] == '!' || rem[0] == ':') {
        (certainty_of(rem[0]), rem.drop_first(), st || rem[0] != ':')
    } else {
        (Certainty::Neutral, rem, st)
    }
}

/// Step 3: a scope token. A new-style token (section, document, asymmetric)
/// with no type or certainty before it only counts when a pipe (or the
/// end) follows, since it may be prose.
pub open spec fn step_scope(rem: Seq<char>, st: bool) -> (ScopeView, Seq<char>, bool) {
    match scope_token(rem) {
        Some((sc, end)) => {
            let rest = rem.skip(end);
            let t = trim_start(rest);
            if !st && is_new_style(sc) && !(t.len() > 0 && t[0] == '|') {
                (ScopeView::Sentence(1), rem, st)
            } else {
                (sc, rest, true)
            }
        },
        None => if parse_scope(rem) is Some {
            (scope_or_default(rem), Seq::empty(), true)
        } else {
            (ScopeView::Sentence(1), rem, st)
        },
    }
}

/// Step 4: the leftmost `^"text"` anchor; the text before it is dropped.
pub open spec fn step_anchor(sc: ScopeView, rem: Seq<char>, st: bool) -> (
    ScopeView,
    Seq<char>,
    bool,
) {
    match anchor_search(rem, 0) {
        Some((i, j)) => (ScopeView::Anchor(rem.subrange(i + 2, j)), rem.skip(j + 1), true),
        None => (sc, rem, st),
    }
}

/// Step 5: the body follows the first pipe.
pub open spec fn step_body(rem: Seq<char>, st: bool) -> (Seq<char>, bool) {
    match find_char_from(rem, '|', 0) {
        Some(p) => (trim_start(rem.skip(p + 1)), true),
        None => (rem, st),
    }
}

/// Step 6: the leftmost date ends the body; what follows it is dropped.
pub open spec fn step_date(body: Seq<char>, st: bool) -> (Seq<char>, Option<Seq<char>>, bool) {
    match date_search(body, 0) {
        Some((a, e)) => (trim_end(body.take(a)), Some(body.subrange(a + 1, e)), true),
        None => (trim_end(body), None, st),
    }
}

/// The annotation a compact inner text denotes, and whether it has any
/// detectable structure.
pub open spec fn compact_spec(inner: Seq<char>, custom: Seq<Seq<char>>) -> (AnnotationView, bool) {
    let (ty1, r1, s1) = step_type(inner);
    let (ty, mark, r2, s2) = step_mark(ty1, r1, s1, custom);
    let (cert, r3, s3) = step_cert(r2, s2);
    let (sc1, r4, s4) = step_scope(trim_start(r3), s3);
    let (sc, r5, s5) = step_anchor(sc1, trim_start(r4), s4);
    let (bt, s6) = step_body(trim_start(r5), s5);
    let (bc, date, s7) = step_date(bt, s6);
    if !s7 && mark is None {
        (
            AnnotationView {
                form: AnnotationForm::Compact,
                id: None,
                mark: None,
                annotation_type: AnnotationType::Bare,
                certainty: Certainty::Neutral,
                scope: ScopeView::Sentence(1),
                body: Some(inner),
                date: None,
                char_start: 0,
                char_end: 0,
                original: Seq::empty(),
            },
            false,
        )
    } else {
        (
            AnnotationView {
                form: AnnotationForm::Compact,
                id: None,
                mark,
                annotation_type: ty,
                certainty: cert,
                scope: sc,
                body: if bc.len() == 0 {
                    None
                } else {
                    Some(bc)
                },
                date,
                char_start: 0,
                char_end: 0,
                original: Seq::empty(),
            },
            s7,
        )
    }
}

// ------------------------------------------------------------ exec

fn keyword_here_exec(v: &Vec<char>, kw: &[char]) -> (b: bool)
    ensures
        b == keyword_here(v@, kw@),
{
    let n = kw.len();
    if n > v.len() || !range_is(v, 0, n, kw) {
        return false;
    }
    n == v.len() || v[n] == '?' || v[n] == '!' || v[n] == ':' || v[n] == ' ' || v[n] == '|'
}

fn leading_type_exec(v: &Vec<char>) -> (r: Option<(AnnotationType, usize)>)
    ensures
        match r {
            Some((t, k)) => leading_type(v@) == Some((t, k as int)) && k <= v.len(),
            None => leading_type(v@) is None,
        },
{
    let k_todo: &[char] = &['t', 'o', 'd', 'o'];
    let k_app: &[char] = &['a', 'p', 'p'];
    let k_cf: &[char] = &['c', 'f'];
    let k_tr: &[char] = &['t', 'r'];
    let k_llm: &[char] = &['l', 'l', 'm'];
    let k_th: &[char] = &['t', 'h'];
    let k_n: &[char] = &['n'];
    let k_q: &[char] = &['q'];
    assert(k_todo@ == seq!['t', 'o', 'd', 'o']);
    assert(k_app@ == seq!['a', 'p', 'p']);
    assert(k_cf@ == seq!['c', 'f']);
    assert(k_tr@ == seq!['t', 'r']);
    assert(k_llm@ == seq!['l', 'l', 'm']);
    assert(k_th@ == seq!['t', 'h']);
    assert(k_n@ == seq!['n']);
    assert(k_q@ == seq!['q']);
    if keyword_here_exec(v, k_todo) {
        Some((AnnotationType::Todo, 4))
    } else if keyword_here_exec(v, k_app) {
        Some((AnnotationType::Apparatus, 3))
    } else if keyword_here_exec(v, k_cf) {
        Some((AnnotationType::CrossRef, 2))
    } else if keyword_here_exec(v, k_tr) {
        Some((AnnotationType::Translation, 2))
    } else if keyword_here_exec(v, k_llm) {
        Some((AnnotationType::Llm, 3))
    } else if keyword_here_exec(v, k_th) {
        Some((AnnotationType::Thread, 2))
    } else if keyword_here_exec(v, k_n) {
        Some((AnnotationType::Note, 1))
    } else if keyword_here_exec(v, k_q) {
        Some((AnnotationType::Question, 1))
    } else {
        None
    }
}

fn lower_run_exec(v: &Vec<char>) -> (k: usize)
    ensures
        k == lower_run(v@, 0),
        k <= v.len(),
{
    let mut k: usize = 0;
    while k < v.len() && 'a' <= v[k] && v[k] <= 'z'
        invariant
            k <= v.len(),
            lower_run(v@, k as int) == lower_run(v@, 0),
        decreases v.len() - k,
    {
        k += 1;
    }
    k
}

pub fn first_ws_exec(v: &Vec<char>, i: usize) -> (r: Option<usize>)
    ensures
        match r {
            Some(w) => first_ws(v@, i as int) == Some(w as int) && i <= w < v.len(),
            None => first_ws(v@, i as int) is None,
        },
{
    let mut k = i;
    while k < v.len()
        invariant
            i <= k,
            first_ws(v@, k as int) == first_ws(v@, i as int),
        decreases v.len() - k,
    {
        if ws_char(v[k]) {
            return Some(k);
        }
        k += 1;
    }
    None
}

fn scope_token_exec(v: &Vec<char>) -> (r: Option<(Scope, usize)>)
    ensures
        match r {
            Some((sc, e)) => scope_token(v@) == Some((sc@, e as int)) && e <= v.len(),
            None => scope_token(v@) is None,
        },
{
    match first_ws_exec(v, 0) {
        Some(w) => {
            if w == 0 {
                return None;
            }
            assert(v@.take(w as int) =~= v@.subrange(0, w as int));
            match parse_scope_exec(v, 0, w) {
                Some(sc) => Some((sc, w + 1)),
                None => None,
            }
        },
        None => None,
    }
}

/// Whether `v[i..]` is header material after a candidate mark code.
fn header_after_exec(v: &Vec<char>, i0: usize) -> (b: bool)
    requires
        i0 <= v.len(),
    ensures
        b == header_after(v@.skip(i0 as int)),
{
    let mut i = i0;
    while i < v.len() && (v[i] == '?' || v[i] == '!' || v[i] == ':')
        invariant
            i0 <= i <= v.len(),
            header_after(v@.skip(i as int)) == header_after(v@.skip(i0 as int)),
        decreases v.len() - i,
    {
        assert(v@.skip(i as int).drop_first() =~= v@.skip(i + 1));
        i += 1;
    }
    if i == v.len() {
        assert(v@.skip(i as int).len() == 0);
        return true;
    }
    assert(v@.skip(i as int)[0] == v@[i as int]);
    if v[i] == '|' {
        return true;
    }
    if !ws_char(v[i]) {
        return false;
    }
    let j = skip_ws_exec(v, i);
    let t = sub_vec(v, j, v.len());
    proof {
        lemma_trim_start_skip(v@, i as int);
        assert(t@ == trim_start(v@.skip(i as int))) by {
            assert(v@.skip(i as int) =~= v@.subrange(i as int, v.len() as int));
        }
        assert(t@.subrange(0, t@.len() as int) =~= t@);
    }
    let n = t.len();
    n == 0 || t[0] == '|' || (n >= 2 && t[0] == '^' && t[1] == '"') || (t[0] == '@'
        && date_search_exec(&t, 0).is_some()) || scope_token_exec(&t).is_some() || (t[0] == '_'
        && all_eq_exec(&t, 0, n, '_')) || parse_scope_exec(&t, 0, n).is_some()
}

fn anchor_search_exec(v: &Vec<char>) -> (r: Option<(usize, usize)>)
    ensures
        match r {
            Some((i, j)) => anchor_search(v@, 0) == Some((i as int, j as int)) && i + 2 < j
                < v.len(),
            None => anchor_search(v@, 0) is None,
        },
{
    let mut i: usize = 0;
    while i < v.len()
        invariant
            anchor_search(v@, i as int) == anchor_search(v@, 0),
        decreases v.len() - i,
    {
        if i + 1 < v.len() && v[i] == '^' && v[i + 1] == '"' {
            proof {
                lemma_find_char_from(v@, '"', i + 2);
            }
            match find_char_exec(v, '"', i + 2) {
                Some(j) => {
                    if j > i + 2 {
                        return Some((i, j));
                    }
                },
                None => {},
            }
        }
        i += 1;
    }
    None
}

/// `v[lo..]` with its leading whitespace removed.
fn trim_start_vec(v: &Vec<char>) -> (w: Vec<char>)
    ensures
        w@ == trim_start(v@),
{
    let j = skip_ws_exec(v, 0);
    proof {
        lemma_trim_start_skip(v@, 0);
        assert(v@.subrange(0, v.len() as int) =~= v@);
    }
    sub_vec(v, j, v.len())
}

fn stage_type_mark(v: &Vec<char>, builtin: &Vec<Vec<char>>, custom: &Vec<Vec<char>>) -> (r: (
    AnnotationType,
    Option<String>,
    Vec<char>,
    bool,
))
    requires
        codes_view(builtin@) == builtin_marks(),
    ensures
        ({
            let (ty1, r1, s1) = step_type(v@);
            let m = step_mark(ty1, r1, s1, codes_view(custom@));
            r.0 == m.0 && opt_str(r.1) == m.1 && r.2@ == m.2 && r.3 == m.3
        }),
{
    let ghost cv = codes_view(custom@);
    let (ty1, k1, s1) = match leading_type_exec(v) {
        Some((t, k)) => (t, k, true),
        None => (AnnotationType::Bare, 0, false),
    };
    let r1 = sub_vec(v, k1, v.len());
    assert(r1@ == step_type(v@).1) by {
        assert(v@.skip(k1 as int) =~= v@.subrange(k1 as int, v.len() as int));
        assert(v@.subrange(0, v.len() as int) =~= v@);
    }
    let lr = lower_run_exec(&r1);
    let is_mark = ty1 == AnnotationType::Bare && is_mark_code_exec(builtin, custom, &r1, 0, lr)
        && header_after_exec(&r1, lr);
    proof {
        assert(r1@.take(lr as int) =~= r1@.subrange(0, lr as int));
    }
    if is_mark {
        let after = sub_vec(&r1, lr, r1.len());
        assert(after@ =~= r1@.skip(lr as int));
        let st = s1 || after.len() > 0;
        (AnnotationType::Mark, Some(string_of(&r1, 0, lr)), after, st)
    } else {
        (ty1, None, r1, s1)
    }
}

fn stage_cert(r2: Vec<char>, s2: bool) -> (r: (Certainty, Vec<char>, bool))
    ensures
        (r.0, r.1@, r.2) == step_cert(r2@, s2),
{
    if r2.len() > 0 && (r2[0] == '?' || r2[0] == '!' || r2[0] == ':') {
        let rest = sub_vec(&r2, 1, r2.len());
        assert(rest@ =~= r2@.drop_first());
        (Certainty::from_char(r2[0]), rest, s2 || r2[0] != ':')
    } else {
        (Certainty::Neutral, r2, s2)
    }
}

fn stage_scope(r3t: Vec<char>, s3: bool) -> (r: (Scope, Vec<char>, bool))
    ensures
        (r.0@, r.1@, r.2) == step_scope(r3t@, s3),
{
    match scope_token_exec(&r3t) {
        Some((sc, end)) => {
            let rest = sub_vec(&r3t, end, r3t.len());
            assert(rest@ =~= r3t@.skip(end as int));
            let rt = trim_start_vec(&rest);
            let piped = rt.len() > 0 && rt[0] == '|';
            let new_style = match sc {
                Scope::Section | Scope::Document | Scope::AsymWords(..) | Scope::AsymSentence(..)
                | Scope::AsymParagraph(..) | Scope::AsymPage(..) => true,
                _ => false,
            };
            assert(new_style == is_new_style(sc@));
            if !s3 && new_style && !piped {
                (Scope::Sentence(1), r3t, s3)
            } else {
                (sc, rest, true)
            }
        },
        None => {
            assert(r3t@.subrange(0, r3t@.len() as int) =~= r3t@);
            match parse_scope_exec(&r3t, 0, r3t.len()) {
                Some(sc) => {
                    let empty: Vec<char> = Vec::new();
                    assert(empty@ =~= Seq::<char>::empty());
                    (sc, empty, true)
                },
                None => (Scope::Sentence(1), r3t, s3),
            }
        },
    }
}

fn stage_anchor(sc1: Scope, r4t: Vec<char>, s4: bool) -> (r: (Scope, Vec<char>, bool))
    ensures
        (r.0@, r.1@, r.2) == step_anchor(sc1@, r4t@, s4),
{
    match anchor_search_exec(&r4t) {
        Some((i, j)) => {
            let rest = sub_vec(&r4t, j + 1, r4t.len());
            assert(rest@ =~= r4t@.skip(j + 1));
            (Scope::Anchor(string_of(&r4t, i + 2, j)), rest, true)
        },
        None => (sc1, r4t, s4),
    }
}

fn stage_body(r5t: Vec<char>, s5: bool) -> (r: (Vec<char>, bool))
    ensures
        (r.0@, r.1) == step_body(r5t@, s5),
{
    proof {
        lemma_find_char_from(r5t@, '|', 0);
    }
    match find_char_exec(&r5t, '|', 0) {
        Some(p) => {
            assert(find_char_from(r5t@, '|', 0) == Some(p as int));
            assert(p < r5t.len());
            let rest = sub_vec(&r5t, p + 1, r5t.len());
            assert(rest@ =~= r5t@.skip(p + 1));
            (trim_start_vec(&rest), true)
        },
        None => (r5t, s5),
    }
}

fn stage_date(bt: &Vec<char>, s6: bool) -> (r: (usize, Option<String>, bool))
    ensures
        r.0 <= bt.len(),
        (bt@.subrange(0, r.0 as int), opt_str(r.1), r.2) == step_date(bt@, s6),
{
    proof {
        lemma_date_search(bt@, 0);
    }
    match date_search_exec(bt, 0) {
        Some((a, e)) => {
            let be = back_ws_exec(bt, a);
            proof {
                lemma_trim_end_take(bt@, a as int);
                assert(bt@.take(a as int) =~= bt@.subrange(0, a as int));
            }
            (be, Some(string_of(bt, a + 1, e)), true)
        },
        None => {
            let be = back_ws_exec(bt, bt.len());
            proof {
                lemma_trim_end_take(bt@, bt.len() as int);
                assert(bt@.subrange(0, bt.len() as int) =~= bt@);
            }
            (be, None, s6)
        },
    }
}

/// Parse the compact form, also returning whether any structure was
/// detected; `custom` holds workspace-defined mark codes.
pub fn parse_compact_inner(inner: &str, custom: &Vec<Vec<char>>) -> (r: (Annotation, bool))
    ensures
        (r.0@, r.1) == compact_spec(inner@, codes_view(custom@)),
{
    let v = chars_of(inner);
    let builtin = builtin_marks_exec();
    let (ty, mark, r2, s2) = stage_type_mark(&v, &builtin, custom);
    let (cert, r3, s3) = stage_cert(r2, s2);
    let (sc1, r4, s4) = stage_scope(trim_start_vec(&r3), s3);
    let (sc, r5, s5) = stage_anchor(sc1, trim_start_vec(&r4), s4);
    let (bt, s6) = stage_body(trim_start_vec(&r5), s5);
    let (bc_end, date, s7) = stage_date(&bt, s6);
    if !s7 && mark.is_none() {
        return (
            Annotation {
                form: AnnotationForm::Compact,
                id: None,
                mark: None,
                annotation_type: AnnotationType::Bare,
                certainty: Certainty::Neutral,
                scope: Scope::Sentence(1),
                body: Some(inner.to_owned()),
                date: None,
                char_start: 0,
                char_end: 0,
                original: String::new(),
            },
            false,
        );
    }
    let body = if bc_end == 0 {
        None
    } else {
        Some(string_of(&bt, 0, bc_end))
    };
    (
        Annotation {
            form: AnnotationForm::Compact,
            id: None,
            mark,
            annotation_type: ty,
            certainty: cert,
            scope: sc,
            body,
            date,
            char_start: 0,
            char_end: 0,
            original: String::new(),
        },
        s7,
    )
}

/// Parse a compact form annotation from the inner text of an annotation
/// comment (built-in mark codes only). Positions and the original text are
/// left zero/empty for the caller to fill in.
pub fn parse_compact(inner: &str) -> (ann: Annotation)
    ensures
        ann@ == compact_spec(inner@, Seq::empty()).0,
{
    let custom: Vec<Vec<char>> = Vec::new();
    assert(codes_view(custom@) =~= Seq::<Seq<char>>::empty());
    parse_compact_inner(inner, &custom).0
}

/// Whether the inner text has detectable annotation structure (type keyword,
/// certainty mark, scope token, anchor, pipe, date) or is block form. Plain
/// prose comments return false. An ID alone is not structure, and a lone
/// mark code is not either. Custom mark codes are not consulted.
pub fn is_structured_annotation(inner: &str) -> (b: bool)
    ensures
        b == crate::parser::classify_spec(inner@, Seq::empty()).2,
{
    let custom: Vec<Vec<char>> = Vec::new();
    assert(codes_view(custom@) =~= Seq::<Seq<char>>::empty());
    crate::parser::classify(inner, &custom).2
}

// ------------------------------------------------------------ laws

/// Type keywords win over mark codes: whatever custom codes are defined, a
/// comment that starts with a type keyword (followed by a certainty mark,
/// space, pipe or the end) has that type and no mark.
pub proof fn law_type_keyword_precedes_marks(inner: Seq<char>, custom: Seq<Seq<char>>)
    requires
        leading_type(inner) is Some,
    ensures
        compact_spec(inner, custom).0.annotation_type == leading_type(inner).unwrap().0,
        compact_spec(inner, custom).0.mark is None,
        compact_spec(inner, custom).1,
{
}

proof fn lemma_lower_run_all(t: Seq<char>, i: int)
    requires
        0 <= i <= t.len(),
        forall|k: int| 0 <= k < t.len() ==> is_ascii_lower(#[trigger] t[k]),
    ensures
        lower_run(t, i) == t.len(),
    decreases t.len() - i,
{
    if i < t.len() {
        lemma_lower_run_all(t, i + 1);
    }
}

/// A lone mark code (built-in or custom, ASCII lowercase) parses as that
/// mark with the default scope and no body, but it is not structure: the
/// migration tool leaves such one-word comments alone.
pub proof fn law_lone_mark_code(t: Seq<char>, custom: Seq<Seq<char>>)
    requires
        t.len() > 0,
        forall|k: int| 0 <= k < t.len() ==> is_ascii_lower(#[trigger] t[k]),
        is_mark_code(t, custom),
        leading_type(t) is None,
    ensures
        compact_spec(t, custom).0.annotation_type == AnnotationType::Mark,
        compact_spec(t, custom).0.mark == Some(t),
        compact_spec(t, custom).0.scope == ScopeView::Sentence(1),
        compact_spec(t, custom).0.body is None,
        !compact_spec(t, custom).1,
{
    lemma_lower_run_all(t, 0);
    assert(t.take(t.len() as int) =~= t);
    let e = t.skip(t.len() as int);
    assert(e =~= Seq::<char>::empty());
    assert(trim_start(e) =~= Seq::<char>::empty());
    assert(first_ws(e, 0) is None);
    assert(parse_scope(e) is None);
    assert(anchor_search(e, 0) is None);
    assert(find_char_from(e, '|', 0) is None);
    assert(date_search(e, 0) is None);
    assert(trim_end(e) =~= Seq::<char>::empty());
}

/// A date in a compact annotation is `dddd-dd` or `dddd-dd-dd` (ASCII digits,
/// or beyond ASCII the digits of the regex crate's `\d`), and an annotation
/// with a date has structure.
pub proof fn law_compact_date_shape(inner: Seq<char>, custom: Seq<Seq<char>>)
    ensures
        compact_spec(inner, custom).0.date matches Some(d) ==> date_shape(d) && compact_spec(
            inner,
            custom,
        ).1,
{
    let (ty1, r1, s1) = step_type(inner);
    let (ty, mark, r2, s2) = step_mark(ty1, r1, s1, custom);
    let (cert, r3, s3) = step_cert(r2, s2);
    let (sc1, r4, s4) = step_scope(trim_start(r3), s3);
    let (sc, r5, s5) = step_anchor(sc1, trim_start(r4), s4);
    let (bt, s6) = step_body(trim_start(r5), s5);
    lemma_found_date_shape(bt);
}

// ------------------------------------------------------------ suffixes

/// `x` is what is left of `y` after dropping some of its first characters.
pub open spec fn is_suffix(x: Seq<char>, y: Seq<char>) -> bool {
    exists|k: int| 0 <= k <= y.len() && x == #[trigger] y.skip(k)
}

proof fn lemma_suffix_at(y: Seq<char>, k: int)
    requires
        0 <= k <= y.len(),
    ensures
        is_suffix(y.skip(k), y),
{
}

proof fn lemma_suffix_refl(x: Seq<char>)
    ensures
        is_suffix(x, x),
{
    assert(x.skip(0) =~= x);
}

proof fn lemma_suffix_trans(x: Seq<char>, y: Seq<char>, z: Seq<char>)
    requires
        is_suffix(x, y),
        is_suffix(y, z),
    ensures
        is_suffix(x, z),
{
    let k1 = choose|k: int| 0 <= k <= y.len() && x == #[trigger] y.skip(k);
    let k2 = choose|k: int| 0 <= k <= z.len() && y == #[trigger] z.skip(k);
    assert(z.skip(k2 + k1) =~= x);
    lemma_suffix_at(z, k2 + k1);
}

proof fn lemma_trim_start_suffix(x: Seq<char>)
    ensures
        is_suffix(trim_start(x), x),
{
    lemma_skip_ws(x, 0);
    lemma_suffix_at(x, skip_ws(x, 0));
}

proof fn lemma_lower_run_bound(s: Seq<char>, i: int)
    requires
        0 <= i <= s.len(),
    ensures
        i <= lower_run(s, i) <= s.len(),
    decreases s.len() - i,
{
    if i < s.len() && is_ascii_lower(s[i]) {
        lemma_lower_run_bound(s, i + 1);
    }
}

proof fn lemma_first_ws_bound(s: Seq<char>, i: int)
    requires
        0 <= i,
    ensures
        first_ws(s, i) matches Some(w) ==> i <= w < s.len(),
    decreases s.len() - i,
{
    if 0 <= i < s.len() && !is_ws(s[i]) {
        lemma_first_ws_bound(s, i + 1);
    }
}

proof fn lemma_anchor_search_bound(s: Seq<char>, i: int)
    requires
        0 <= i,
    ensures
        anchor_search(s, i) matches Some((a, j)) ==> i <= a && a + 2 < j < s.len(),
    decreases s.len() - i,
{
    if 0 <= i < s.len() {
        if 0 <= i && i + 1 < s.len() && s[i] == '^' && s[i + 1] == '"' {
            lemma_find_char_from(s, '"', i + 2);
        }
        if anchor_at(s, i) is None {
            lemma_anchor_search_bound(s, i + 1);
        }
    }
}

/// The text a compact annotation's body and date are read from is the end
/// of its inner text.
proof fn lemma_body_text_suffix(inner: Seq<char>, custom: Seq<Seq<char>>)
    ensures
        ({
            let (ty1, r1, s1) = step_type(inner);
            let (ty, mark, r2, s2) = step_mark(ty1, r1, s1, custom);
            let (cert, r3, s3) = step_cert(r2, s2);
            let (sc1, r4, s4) = step_scope(trim_start(r3), s3);
            let (sc, r5, s5) = step_anchor(sc1, trim_start(r4), s4);
            let (bt, s6) = step_body(trim_start(r5), s5);
            is_suffix(bt, inner)
        }),
{
    let (ty1, r1, s1) = step_type(inner);
    match leading_type(inner) {
        Some((t, k)) => lemma_suffix_at(inner, k),
        None => lemma_suffix_at(inner, 0),
    }
    let (ty, mark, r2, s2) = step_mark(ty1, r1, s1, custom);
    lemma_lower_run_bound(r1, 0);
    lemma_suffix_at(r1, lower_run(r1, 0));
    lemma_suffix_refl(r1);
    lemma_suffix_trans(r2, r1, inner);
    let (cert, r3, s3) = step_cert(r2, s2);
    lemma_suffix_refl(r2);
    if r2.len() > 0 {
        assert(r2.drop_first() =~= r2.skip(1));
        lemma_suffix_at(r2, 1);
    }
    lemma_suffix_trans(r3, r2, inner);
    let t3 = trim_start(r3);
    lemma_trim_start_suffix(r3);
    lemma_suffix_trans(t3, r3, inner);
    let (sc1, r4, s4) = step_scope(t3, s3);
    lemma_first_ws_bound(t3, 0);
    lemma_suffix_refl(t3);
    lemma_suffix_at(t3, t3.len() as int);
    assert(t3.skip(t3.len() as int) =~= Seq::<char>::empty());
    match scope_token(t3) {
        Some((sc, end)) => lemma_suffix_at(t3, end),
        None => {},
    }
    lemma_suffix_trans(r4, t3, inner);
    let t4 = trim_start(r4);
    lemma_trim_start_suffix(r4);
    lemma_suffix_trans(t4, r4, inner);
    let (sc, r5, s5) = step_anchor(sc1, t4, s4);
    lemma_anchor_search_bound(t4, 0);
    lemma_suffix_refl(t4);
    match anchor_search(t4, 0) {
        Some((i, j)) => lemma_suffix_at(t4, j + 1),
        None => {},
    }
    lemma_suffix_trans(r5, t4, inner);
    let t5 = trim_start(r5);
    lemma_trim_start_suffix(r5);
    lemma_suffix_trans(t5, r5, inner);
    let (bt, s6) = step_body(t5, s5);
    lemma_find_char_from(t5, '|', 0);
    lemma_suffix_refl(t5);
    match find_char_from(t5, '|', 0) {
        Some(p) => {
            lemma_suffix_at(t5, p + 1);
            lemma_trim_start_suffix(t5.skip(p + 1));
            lemma_suffix_trans(bt, t5.skip(p + 1), t5);
        },
        None => {},
    }
    lemma_suffix_trans(bt, t5, inner);
}

/// A date in a compact annotation is written in its inner text right after
/// an `@`.
pub proof fn law_compact_date_in_text(inner: Seq<char>, custom: Seq<Seq<char>>)
    ensures
        compact_spec(inner, custom).0.date is Some ==> exists|i: int|
            #[trigger] matches_at(inner, seq!['@'] + compact_spec(inner, custom).0.date.unwrap(), i),
{
    let (ty1, r1, s1) = step_type(inner);
    let (ty, mark, r2, s2) = step_mark(ty1, r1, s1, custom);
    let (cert, r3, s3) = step_cert(r2, s2);
    let (sc1, r4, s4) = step_scope(trim_start(r3), s3);
    let (sc, r5, s5) = step_anchor(sc1, trim_start(r4), s4);
    let (bt, s6) = step_body(trim_start(r5), s5);
    lemma_body_text_suffix(inner, custom);
    lemma_date_search(bt, 0);
    match date_search(bt, 0) {
        Some((a, e)) => {
            let d = bt.subrange(a + 1, e);
            let k = choose|k: int| 0 <= k <= inner.len() && bt == #[trigger] inner.skip(k);
            assert(bt[a] == '@');
            assert(inner.subrange(k + a, k + a + (seq!['@'] + d).len()) =~= seq!['@'] + d) by {
                assert forall|m: int| 0 <= m < (seq!['@'] + d).len() implies inner[k + a + m] == (
                seq!['@'] + d)[m] by {
                    assert(inner[k + a + m] == bt[a + m]);
                }
            }
            assert(matches_at(inner, seq!['@'] + d, k + a));
            assert(compact_spec(inner, custom).0.date == Some(d));
            assert(exists|i: int| #[trigger] matches_at(inner, seq!['@'] + d, i));
            assert(compact_spec(inner, custom).0.date.unwrap() == d);
            assert(exists|i: int|
                #[trigger] matches_at(
                    inner,
                    seq!['@'] + compact_spec(inner, custom).0.date.unwrap(),
                    i,
                ));
        },
        None => {
            assert(compact_spec(inner, custom).0.date is None);
        },
    }
}

} // verus!
