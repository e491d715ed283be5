//! Classification of annotation comments and whole-document parsing.
use crate::block::{block_form, block_spec, is_block_form, parse_block_with_marks};
use crate::compact::{compact_spec, parse_compact_inner};
use crate::id::{extract_id, id_prefix, is_id_char, opt_str_view, split_id, valid_id};
use crate::marks::codes_view;
use crate::scanner::{
    annotation_comments, in_order, lemma_scan_in_order, raw_views, scan_annotation_comments,
    RawCommentView,
};
use crate::text::{chars_of, fits};
use crate::types::{Annotation, AnnotationView};
use vstd::prelude::*;

verus! {

/// The optional leading ID, the annotation, and whether the text has
/// detectable structure (block form always does).
pub open spec fn classify_spec(inner: Seq<char>, custom: Seq<Seq<char>>) -> (
    Option<Seq<char>>,
    AnnotationView,
    bool,
) {
    let (id, rest) = split_id(inner);
    if block_form(rest) {
        (id, block_spec(rest, custom), true)
    } else {
        let (a, st) = compact_spec(rest, custom);
        (id, a, st)
    }
}

/// The annotation parsed from one comment, with its ID, position and
/// source text.
pub open spec fn annotate(rc: RawCommentView, custom: Seq<Seq<char>>) -> AnnotationView {
    let (id, a, _) = classify_spec(rc.inner, custom);
    AnnotationView {
        id,
        char_start: rc.char_start,
        char_end: rc.char_end,
        original: rc.original,
        ..a
    }
}

/// The annotations of a document, in document order.
pub open spec fn annotations_spec(content: Seq<char>, custom: Seq<Seq<char>>) -> Seq<
    AnnotationView,
> {
    annotation_comments(content).map_values(|rc: RawCommentView| annotate(rc, custom))
}

pub open spec fn ann_views(r: Seq<Annotation>) -> Seq<AnnotationView> {
    r.map_values(|a: Annotation| a@)
}

pub open spec fn strings_view(r: Seq<String>) -> Seq<Seq<char>> {
    r.map_values(|s: String| s@)
}

/// Classify a comment's inner text: extract the optional leading ID, parse
/// the remainder in block or compact form, and report whether it has
/// detectable structure. Shared by document parsing and the structure test
/// so the two cannot diverge.
pub fn classify(inner: &str, custom: &Vec<Vec<char>>) -> (r: (Option<String>, Annotation, bool))
    ensures
        (opt_str_view(r.0), r.1@, r.2) == classify_spec(inner@, codes_view(custom@)),
{
    let (id, rest) = extract_id(inner);
    if is_block_form(rest) {
        (id, parse_block_with_marks(rest, custom), true)
    } else {
        let (ann, structured) = parse_compact_inner(rest, custom);
        (id, ann, structured)
    }
}

/// The custom codes as character vectors.
fn codes_of(custom: &[String]) -> (r: Vec<Vec<char>>)
    ensures
        codes_view(r@) == strings_view(custom@),
{
    let mut r: Vec<Vec<char>> = Vec::new();
    let mut i: usize = 0;
    while i < custom.len()
        invariant
            i <= custom.len(),
            codes_view(r@) == strings_view(custom@.take(i as int)),
        decreases custom.len() - i,
    {
        let w = chars_of(custom[i].as_str());
        let ghost before = r@;
        r.push(w);
        assert(codes_view(r@) =~= codes_view(before).push(custom@[i as int]@));
        assert(custom@.take(i + 1) =~= custom@.take(i as int).push(custom@[i as int]));
        assert(strings_view(custom@.take(i + 1)) =~= strings_view(custom@.take(i as int)).push(
            custom@[i as int]@,
        ));
        i += 1;
        assert(codes_view(r@) =~= strings_view(custom@.take(i as int)));
    }
    assert(custom@.take(i as int) =~= custom@);
    r
}

/// Parse all annotation comments in a document, also recognizing the given
/// custom mark codes in the type slot. Annotations come in document order.
pub fn parse_annotations_with_marks(content: &str, custom_marks: &[String]) -> (r: Vec<
    Annotation,
>)
    requires
        fits(content@),
    ensures
        ann_views(r@) == annotations_spec(content@, strings_view(custom_marks@)),
        forall|i: int, j: int|
            0 <= i < j < r.len() ==> (#[trigger] r@[i]).char_end <= (#[trigger] r@[j]).char_start,
        forall|k: int| 0 <= k < r.len() ==> (#[trigger] r@[k]).char_start < r@[k].char_end,
{
    let custom = codes_of(custom_marks);
    let ghost cv = codes_view(custom@);
    let raw = scan_annotation_comments(content);
    let ghost rv = raw_views(raw@);
    proof {
        lemma_scan_in_order(
            content@,
            crate::scanner::fenced_ranges(content@),
            0,
            seq!['<', '!', '-', '-', '-'],
            seq!['-', '-', '-', '>'],
            false,
        );
    }
    let mut out: Vec<Annotation> = Vec::new();
    let mut i: usize = 0;
    while i < raw.len()
        invariant
            i <= raw.len(),
            rv == raw_views(raw@),
            rv == annotation_comments(content@),
            in_order(rv),
            cv == codes_view(custom@),
            cv == strings_view(custom_marks@),
            ann_views(out@) == rv.take(i as int).map_values(
                |rc: RawCommentView| annotate(rc, cv),
            ),
        decreases raw.len() - i,
    {
        let rc = &raw[i];
        let (id, ann, _) = classify(rc.inner.as_str(), &custom);
        let full = Annotation {
            id,
            char_start: rc.char_start,
            char_end: rc.char_end,
            original: rc.original.clone(),
            ..ann
        };
        assert(rv[i as int] == rc@);
        assert(full@ == annotate(rc@, cv));
        let ghost before = out@;
        out.push(full);
        assert(ann_views(out@) =~= ann_views(before).push(annotate(rv[i as int], cv)));
        assert(rv.take(i + 1) =~= rv.take(i as int).push(rv[i as int]));
        i += 1;
        assert(ann_views(out@) =~= rv.take(i as int).map_values(
            |rc: RawCommentView| annotate(rc, cv),
        ));
    }
    assert(rv.take(i as int) =~= rv);
    proof {
        assert forall|i: int, j: int| 0 <= i < j < out.len() implies (#[trigger] out@[i]).char_end
            <= (#[trigger] out@[j]).char_start by {
            assert(ann_views(out@)[i] == out@[i]@);
            assert(ann_views(out@)[j] == out@[j]@);
            assert(rv[i].char_end <= rv[j].char_start);
        }
        assert forall|k: int| 0 <= k < out.len() implies (#[trigger] out@[k]).char_start
            < out@[k].char_end by {
            assert(ann_views(out@)[k] == out@[k]@);
            assert(rv[k].char_start < rv[k].char_end);
        }
    }
    out
}

/// Parse all annotation comments in a document (built-in mark codes only).
/// Returns annotations ordered by their position in the document.
pub fn parse_annotations(content: &str) -> (r: Vec<Annotation>)
    requires
        fits(content@),
    ensures
        ann_views(r@) == annotations_spec(content@, Seq::empty()),
        forall|i: int, j: int|
            0 <= i < j < r.len() ==> (#[trigger] r@[i]).char_end <= (#[trigger] r@[j]).char_start,
        forall|k: int| 0 <= k < r.len() ==> (#[trigger] r@[k]).char_start < r@[k].char_end,
{
    let none: Vec<String> = Vec::new();
    assert(strings_view(none@) =~= Seq::<Seq<char>>::empty());
    parse_annotations_with_marks(content, none.as_slice())
}

/// A comment that is only a mark code (say `<!-- nb -->`) has no detectable
/// structure, though it still parses as that mark: `is_structured_annotation`
/// and document parsing agree on it through [`classify_spec`].
pub proof fn law_lone_mark_is_not_structure(t: Seq<char>, custom: Seq<Seq<char>>)
    requires
        t.len() > 0,
        forall|k: int| 0 <= k < t.len() ==> crate::text::is_ascii_lower(#[trigger] t[k]),
        crate::marks::is_mark_code(t, custom),
        crate::compact::leading_type(t) is None,
    ensures
        !classify_spec(t, custom).2,
        classify_spec(t, custom).0 is None,
        classify_spec(t, custom).1.annotation_type == crate::types::AnnotationType::Mark,
        classify_spec(t, custom).1.mark == Some(t),
{
    crate::compact::law_lone_mark_code(t, custom);
    assert(!crate::text::is_ws(t[0]));
    crate::text::lemma_find_char_from(t, '\n', 0);
    assert(crate::scanner::line_end(t, 0) == t.len());
    assert(t.subrange(0, t.len() as int) =~= t);
    crate::text::lemma_trim_start(t);
    crate::text::lemma_skip_ws(t, 0);
    assert(crate::text::trim_start(t) =~= t);
    crate::text::lemma_back_ws(t, t.len() as int);
    assert(!crate::text::is_ws(t.last()));
    crate::text::lemma_trim_end_noop(t);
    assert(crate::text::trim(t) == t);
    assert(t != seq!['-', '-', '-']) by {
        assert(t[0] != '-');
    }
    assert(crate::block::separator_from(t, 0) is None);
}

/// A valid leading `[id]` adds no structure and changes nothing of the
/// annotation: the text after it classifies as it would alone. Block form
/// always counts as structure.
pub proof fn law_id_adds_no_structure(x: Seq<char>, s: Seq<char>, custom: Seq<Seq<char>>)
    requires
        valid_id(x),
        !(crate::text::trim_start(s).len() > 0 && crate::text::trim_start(s)[0] == '['),
    ensures
        classify_spec(seq!['['] + x + seq![']', ' '] + s, custom).0 == Some(x),
        classify_spec(seq!['['] + x + seq![']', ' '] + s, custom).1 == classify_spec(
            crate::text::trim_start(s),
            custom,
        ).1,
        classify_spec(seq!['['] + x + seq![']', ' '] + s, custom).2 == classify_spec(
            crate::text::trim_start(s),
            custom,
        ).2,
        block_form(crate::text::trim_start(s)) ==> classify_spec(
            crate::text::trim_start(s),
            custom,
        ).2,
{
    let full = seq!['['] + x + seq![']', ' '] + s;
    let c: int = x.len() as int + 1;
    assert(full[c] == ']');
    assert forall|m: int| 1 <= m < c implies full[m] != ']' by {
        assert(full[m] == x[m - 1]);
        if m > 1 {
            assert(is_id_char(x[m - 1]));
        }
    }
    crate::text::lemma_find_char_from(full, ']', 1);
    assert(crate::text::find_char_from(full, ']', 1) == Some(c)) by {
        match crate::text::find_char_from(full, ']', 1) {
            Some(k) => {
                if k > c {
                    assert(full[c] == ']');
                }
            },
            None => {
                assert(full[c] == ']');
            },
        }
    }
    assert(full.subrange(1, c) =~= x);
    let u = full.skip(c + 1);
    assert(u =~= seq![' '] + s);
    assert(u[0] == ' ');
    assert(id_prefix(full) == Some((x, c + 1)));
    crate::text::lemma_trim_start_skip(u, 1);
    assert(u.subrange(1, u.len() as int) =~= s);
    assert(crate::text::is_ws(u[0]));
    assert(crate::text::skip_ws(u, 0) == crate::text::skip_ws(u, 1));
    assert(crate::text::trim_start(u) =~= crate::text::trim_start(s));
    assert(split_id(full) == (Some(x), crate::text::trim_start(s)));
    assert(split_id(crate::text::trim_start(s)) == (
        None::<Seq<char>>,
        crate::text::trim_start(s),
    ));
}

proof fn lemma_compact_custom(rest: Seq<char>, custom: Seq<Seq<char>>)
    ensures
        compact_spec(rest, Seq::empty()).0.annotation_type != crate::types::AnnotationType::Bare
            ==> compact_spec(rest, custom) == compact_spec(rest, Seq::empty()),
{
    let (ty1, r1, s1) = crate::compact::step_type(rest);
    let tok = r1.take(crate::compact::lower_run(r1, 0));
    if crate::marks::is_mark_code(tok, Seq::empty()) {
        assert(crate::marks::builtin_marks().contains(tok));
    }
}

/// Custom mark codes only fill in annotations that would otherwise be bare:
/// with or without them a document yields the same comments, at the same
/// places, with the same IDs and forms, and a compact annotation that has a
/// type (or a built-in mark) without them is the same with them.
pub proof fn law_custom_marks_only_fill_bare(content: Seq<char>, custom: Seq<Seq<char>>)
    ensures
        annotations_spec(content, custom).len() == annotations_spec(content, Seq::empty()).len(),
        forall|i: int|
            0 <= i < annotations_spec(content, custom).len() ==> {
                let m = #[trigger] annotations_spec(content, custom)[i];
                let p = annotations_spec(content, Seq::empty())[i];
                &&& m.char_start == p.char_start
                &&& m.char_end == p.char_end
                &&& m.original == p.original
                &&& m.id == p.id
                &&& m.form == p.form
                &&& (p.form == crate::types::AnnotationForm::Compact && p.annotation_type
                    != crate::types::AnnotationType::Bare) ==> m == p
            },
{
    let cs = annotation_comments(content);
    assert forall|i: int| 0 <= i < annotations_spec(content, custom).len() implies {
        let m = #[trigger] annotations_spec(content, custom)[i];
        let p = annotations_spec(content, Seq::empty())[i];
        &&& m.char_start == p.char_start
        &&& m.char_end == p.char_end
        &&& m.original == p.original
        &&& m.id == p.id
        &&& m.form == p.form
        &&& (p.form == crate::types::AnnotationForm::Compact && p.annotation_type
            != crate::types::AnnotationType::Bare) ==> m == p
    } by {
        let rc = cs[i];
        let (id, rest) = split_id(rc.inner);
        lemma_compact_custom(rest, custom);
    }
}

} // verus!
