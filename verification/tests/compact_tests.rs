use annotation_core::compact::{is_structured_annotation, parse_compact};
use annotation_core::types::{AnnotationForm, AnnotationType, Certainty, Scope};


#[test]
fn full_compact_annotation() {
    let ann = parse_compact("n? __ | same sense as TĀ 3.68? @2026-03");
    assert_eq!(ann.annotation_type, AnnotationType::Note);
    assert_eq!(ann.certainty, Certainty::Tentative);
    assert_eq!(ann.scope, Scope::Words(2));
    assert_eq!(ann.body, Some("same sense as TĀ 3.68?".to_string()));
    assert_eq!(ann.date, Some("2026-03".to_string()));
    assert_eq!(ann.form, AnnotationForm::Compact);
}

#[test]
fn todo_firm_with_anchor() {
    let ann = parse_compact(r#"todo! ^"8th century" | Sanderson 2007 handout says 9th c."#);
    assert_eq!(ann.annotation_type, AnnotationType::Todo);
    assert_eq!(ann.certainty, Certainty::Firm);
    assert_eq!(ann.scope, Scope::Anchor("8th century".to_string()));
    assert_eq!(ann.body, Some("Sanderson 2007 handout says 9th c.".to_string()));
    assert_eq!(ann.date, None);
}

#[test]
fn crossref_preceding_paragraph() {
    let ann = parse_compact(r"cf \pp");
    assert_eq!(ann.annotation_type, AnnotationType::CrossRef);
    assert_eq!(ann.certainty, Certainty::Neutral);
    assert_eq!(ann.scope, Scope::Paragraph(2));
    assert_eq!(ann.body, None);
}

#[test]
fn note_with_colon_separator() {
    let ann = parse_compact("n: _ | seems wrong @2026-03");
    assert_eq!(ann.annotation_type, AnnotationType::Note);
    assert_eq!(ann.certainty, Certainty::Neutral);
    assert_eq!(ann.scope, Scope::Words(1));
    assert_eq!(ann.body, Some("seems wrong".to_string()));
    assert_eq!(ann.date, Some("2026-03".to_string()));
}

#[test]
fn apparatus_type() {
    let ann = parse_compact("app: | variant reading in ms. B");
    assert_eq!(ann.annotation_type, AnnotationType::Apparatus);
    assert_eq!(ann.body, Some("variant reading in ms. B".to_string()));
}

#[test]
fn type_only_no_body() {
    let ann = parse_compact("q?");
    assert_eq!(ann.annotation_type, AnnotationType::Question);
    assert_eq!(ann.certainty, Certainty::Tentative);
    assert_eq!(ann.body, None);
}

#[test]
fn date_with_full_precision() {
    let ann = parse_compact("n: | a note @2026-03-28");
    assert_eq!(ann.date, Some("2026-03-28".to_string()));
}

#[test]
fn bare_comment() {
    let ann = parse_compact("compare Vasugupta SpK 1.1");
    assert_eq!(ann.annotation_type, AnnotationType::Bare);
    assert_eq!(ann.certainty, Certainty::Neutral);
    assert_eq!(ann.scope, Scope::Sentence(1));
    assert_eq!(ann.body, Some("compare Vasugupta SpK 1.1".to_string()));
}

#[test]
fn body_only_with_pipe() {
    let ann = parse_compact("| just the body");
    // Pipe makes it structured, but no type → Bare type with extracted body
    assert_eq!(ann.annotation_type, AnnotationType::Bare);
    assert_eq!(ann.body, Some("just the body".to_string()));
}

#[test]
fn paragraph_scope() {
    let ann = parse_compact(r"n: \p | paragraph note");
    assert_eq!(ann.scope, Scope::Paragraph(1));
    assert_eq!(ann.body, Some("paragraph note".to_string()));
}

#[test]
fn three_word_scope() {
    let ann = parse_compact("n: ___ | three words");
    assert_eq!(ann.scope, Scope::Words(3));
}

#[test]
fn question_with_scope_and_anchor() {
    let ann = parse_compact(r#"q? ^"some phrase" | is this right?"#);
    assert_eq!(ann.annotation_type, AnnotationType::Question);
    assert_eq!(ann.scope, Scope::Anchor("some phrase".to_string()));
    assert_eq!(ann.body, Some("is this right?".to_string()));
}

#[test]
fn translation_type() {
    let ann = parse_compact("tr: | Sanskrit translation of verse 3");
    assert_eq!(ann.annotation_type, AnnotationType::Translation);
    assert_eq!(ann.certainty, Certainty::Neutral);
    assert_eq!(ann.body, Some("Sanskrit translation of verse 3".to_string()));
}

#[test]
fn translation_tentative_with_date() {
    let ann = parse_compact("tr? _ | tentative rendering @2026-03");
    assert_eq!(ann.annotation_type, AnnotationType::Translation);
    assert_eq!(ann.certainty, Certainty::Tentative);
    assert_eq!(ann.scope, Scope::Words(1));
    assert_eq!(ann.body, Some("tentative rendering".to_string()));
    assert_eq!(ann.date, Some("2026-03".to_string()));
}

#[test]
fn page_scope() {
    let ann = parse_compact(r"n: \f | page-level note");
    assert_eq!(ann.scope, Scope::Page(1));
    assert_eq!(ann.body, Some("page-level note".to_string()));
}

#[test]
fn page_scope_two() {
    let ann = parse_compact(r"n: \ff | this and preceding page");
    assert_eq!(ann.scope, Scope::Page(2));
}

#[test]
fn page_scope_underscore_suffix() {
    let ann = parse_compact(r"cf \f__");
    assert_eq!(ann.annotation_type, AnnotationType::CrossRef);
    assert_eq!(ann.scope, Scope::Page(2));
    assert_eq!(ann.body, None);
}

#[test]
fn paragraph_underscore_suffix_compact() {
    let ann = parse_compact(r"n: \p__ | two paragraphs");
    assert_eq!(ann.scope, Scope::Paragraph(2));
    assert_eq!(ann.body, Some("two paragraphs".to_string()));
}

#[test]
fn page_scope_three_letters() {
    let ann = parse_compact(r"cf \fff");
    assert_eq!(ann.scope, Scope::Page(3));
}

#[test]
fn page_scope_three_underscores() {
    let ann = parse_compact(r"cf \f___");
    assert_eq!(ann.scope, Scope::Page(3));
}

#[test]
fn page_scope_equivalence() {
    let a = parse_compact(r"n: \f___ | note");
    let b = parse_compact(r"n: \fff | note");
    assert_eq!(a.scope, b.scope);
}

// Sentence scope

#[test]
fn sentence_scope() {
    let ann = parse_compact(r"n: \s | sentence-level note");
    assert_eq!(ann.scope, Scope::Sentence(1));
    assert_eq!(ann.body, Some("sentence-level note".to_string()));
}

#[test]
fn sentence_scope_two() {
    let ann = parse_compact(r"n: \ss | two sentences");
    assert_eq!(ann.scope, Scope::Sentence(2));
}

#[test]
fn sentence_scope_three_letters() {
    let ann = parse_compact(r"cf \sss");
    assert_eq!(ann.scope, Scope::Sentence(3));
}

#[test]
fn sentence_scope_underscore_suffix() {
    let ann = parse_compact(r"cf \s__");
    assert_eq!(ann.annotation_type, AnnotationType::CrossRef);
    assert_eq!(ann.scope, Scope::Sentence(2));
    assert_eq!(ann.body, None);
}

#[test]
fn sentence_scope_three_underscores() {
    let ann = parse_compact(r"cf \s___");
    assert_eq!(ann.scope, Scope::Sentence(3));
}

#[test]
fn sentence_scope_equivalence() {
    let a = parse_compact(r"n: \s___ | note");
    let b = parse_compact(r"n: \sss | note");
    assert_eq!(a.scope, b.scope);
}

// Section / Document / asymmetric scopes

#[test]
fn section_scope_with_body() {
    let ann = parse_compact(r"n: \h | section note");
    assert_eq!(ann.scope, Scope::Section);
    assert_eq!(ann.body, Some("section note".to_string()));
}

#[test]
fn document_scope_with_body() {
    let ann = parse_compact(r"llm \d | summarize entire document");
    assert_eq!(ann.annotation_type, AnnotationType::Llm);
    assert_eq!(ann.scope, Scope::Document);
}

#[test]
fn section_scope_at_end() {
    let ann = parse_compact(r"cf \h");
    assert_eq!(ann.annotation_type, AnnotationType::CrossRef);
    assert_eq!(ann.scope, Scope::Section);
    assert_eq!(ann.body, None);
}

#[test]
fn document_scope_at_end() {
    let ann = parse_compact(r"cf \d");
    assert_eq!(ann.scope, Scope::Document);
}

#[test]
fn asym_paragraph_scope_with_body() {
    let ann = parse_compact(r"n: 2\p1 | two before one after");
    assert_eq!(ann.scope, Scope::AsymParagraph(2, 1));
    assert_eq!(ann.body, Some("two before one after".to_string()));
}

#[test]
fn asym_words_scope_with_body() {
    let ann = parse_compact("n: 3_1 | words around");
    assert_eq!(ann.scope, Scope::AsymWords(3, 1));
}

#[test]
fn asym_sentence_scope_at_end() {
    let ann = parse_compact(r"cf 2\s1");
    assert_eq!(ann.scope, Scope::AsymSentence(2, 1));
    assert_eq!(ann.body, None);
}

#[test]
fn asym_page_scope_forward_only() {
    let ann = parse_compact(r"n: 0\s2 | forward only");
    assert_eq!(ann.scope, Scope::AsymSentence(0, 2));
}

// Headerless new-token guard: a new-style scope token (asym, \h, \d) with
// no preceding type/certainty only counts as scope when followed by | or end

#[test]
fn digit_leading_bare_comment_stays_bare() {
    let ann = parse_compact("2_4 is the ratio");
    assert_eq!(ann.annotation_type, AnnotationType::Bare);
    assert_eq!(ann.scope, Scope::Sentence(1));
    assert_eq!(ann.body, Some("2_4 is the ratio".to_string()));
}

#[test]
fn document_token_bare_prose_stays_bare() {
    let ann = parse_compact(r"\d is a TeX macro");
    assert_eq!(ann.annotation_type, AnnotationType::Bare);
    assert_eq!(ann.scope, Scope::Sentence(1));
    assert_eq!(ann.body, Some(r"\d is a TeX macro".to_string()));
}

#[test]
fn headerless_asym_with_pipe_is_scope() {
    let ann = parse_compact("2_4 | note");
    assert_eq!(ann.scope, Scope::AsymWords(2, 4));
    assert_eq!(ann.body, Some("note".to_string()));
}

#[test]
fn headerless_asym_alone_is_scope() {
    let ann = parse_compact("2_4");
    assert_eq!(ann.scope, Scope::AsymWords(2, 4));
    assert_eq!(ann.body, None);
}

#[test]
fn typed_asym_prose_body_still_scope() {
    // With a type keyword present, the token is unambiguous header material
    let ann = parse_compact("n: 2_4 no pipe body");
    assert_eq!(ann.scope, Scope::AsymWords(2, 4));
    assert_eq!(ann.body, Some("no pipe body".to_string()));
}

#[test]
fn unstructured_digit_leading_prose() {
    assert!(!is_structured_annotation("2_4 is the ratio"));
    assert!(is_structured_annotation("2_4 | x"));
}

// Philological marks

#[test]
fn mark_highlight_one_word() {
    let ann = parse_compact("hi _");
    assert_eq!(ann.annotation_type, AnnotationType::Mark);
    assert_eq!(ann.mark, Some("hi".to_string()));
    assert_eq!(ann.scope, Scope::Words(1));
    assert_eq!(ann.body, None);
}

#[test]
fn mark_tentative_sic() {
    let ann = parse_compact("sic? _");
    assert_eq!(ann.annotation_type, AnnotationType::Mark);
    assert_eq!(ann.mark, Some("sic".to_string()));
    assert_eq!(ann.certainty, Certainty::Tentative);
    assert_eq!(ann.scope, Scope::Words(1));
}

#[test]
fn mark_crux_with_body() {
    let ann = parse_compact("crux | dagger passage");
    assert_eq!(ann.annotation_type, AnnotationType::Mark);
    assert_eq!(ann.mark, Some("crux".to_string()));
    assert_eq!(ann.scope, Scope::Sentence(1));
    assert_eq!(ann.body, Some("dagger passage".to_string()));
}

#[test]
fn mark_emphasis_anchored() {
    let ann = parse_compact(r#"em ^"phrase" | emphasis here"#);
    assert_eq!(ann.annotation_type, AnnotationType::Mark);
    assert_eq!(ann.mark, Some("em".to_string()));
    assert_eq!(ann.scope, Scope::Anchor("phrase".to_string()));
    assert_eq!(ann.body, Some("emphasis here".to_string()));
}

#[test]
fn mark_bold_paragraph() {
    let ann = parse_compact(r"nb \p");
    assert_eq!(ann.annotation_type, AnnotationType::Mark);
    assert_eq!(ann.mark, Some("nb".to_string()));
    assert_eq!(ann.scope, Scope::Paragraph(1));
}

#[test]
fn mark_alone_defaults_sentence() {
    let ann = parse_compact("gloss");
    assert_eq!(ann.annotation_type, AnnotationType::Mark);
    assert_eq!(ann.mark, Some("gloss".to_string()));
    assert_eq!(ann.scope, Scope::Sentence(1));
}

#[test]
fn mark_with_date() {
    let ann = parse_compact("hi _ | check this @2026-03");
    assert_eq!(ann.mark, Some("hi".to_string()));
    assert_eq!(ann.body, Some("check this".to_string()));
    assert_eq!(ann.date, Some("2026-03".to_string()));
}

#[test]
fn all_sixteen_builtin_marks_parse() {
    for code in [
        "nb", "it", "ul", "st", "sc", "hi", "em", "sic", "crux", "lac",
        "del", "sup", "conj", "dub", "gloss", "interp",
    ] {
        let ann = parse_compact(&format!("{code} _"));
        assert_eq!(ann.annotation_type, AnnotationType::Mark, "code {code}");
        assert_eq!(ann.mark, Some(code.to_string()), "code {code}");
    }
}

#[test]
fn mark_prose_words_stay_bare() {
    // it / hi / em / st are common words — a mark code followed by prose
    // is a bare comment, not a mark
    for inner in ["it is raining", "hi there everyone", "em dashes are nice", "st paul wrote"] {
        let ann = parse_compact(inner);
        assert_eq!(ann.annotation_type, AnnotationType::Bare, "inner {inner}");
        assert_eq!(ann.mark, None);
        assert_eq!(ann.body, Some(inner.to_string()));
    }
}

#[test]
fn mark_certainty_followed_by_prose_stays_bare() {
    // Punctuation must not bypass the prose guard
    for inner in [
        "hi! everyone remember this",
        "it? not sure about this",
        "st: 21",
        "em: use a dash here",
    ] {
        let ann = parse_compact(inner);
        assert_eq!(ann.annotation_type, AnnotationType::Bare, "inner {inner}");
        assert_eq!(ann.mark, None);
        assert_eq!(ann.body, Some(inner.to_string()));
    }
}

#[test]
fn mark_certainty_with_header_is_mark() {
    let ann = parse_compact("sic? _");
    assert_eq!(ann.annotation_type, AnnotationType::Mark);

    let ann = parse_compact("hi! | body note");
    assert_eq!(ann.annotation_type, AnnotationType::Mark);
    assert_eq!(ann.certainty, Certainty::Firm);
    assert_eq!(ann.body, Some("body note".to_string()));

    let ann = parse_compact("sic?");
    assert_eq!(ann.annotation_type, AnnotationType::Mark);
    assert_eq!(ann.certainty, Certainty::Tentative);
}

#[test]
fn mark_followed_by_date_is_mark() {
    let ann = parse_compact("hi @2026-03");
    assert_eq!(ann.annotation_type, AnnotationType::Mark);
    assert_eq!(ann.mark, Some("hi".to_string()));
    assert_eq!(ann.date, Some("2026-03".to_string()));
    // But a bare @ mention is still prose
    let ann = parse_compact("hi @alice please review");
    assert_eq!(ann.annotation_type, AnnotationType::Bare);
}

#[test]
fn type_keyword_precedence_over_marks() {
    // n is always Note, never a mark, even though nb is a mark code
    let ann = parse_compact("n: _ | note");
    assert_eq!(ann.annotation_type, AnnotationType::Note);
    assert_eq!(ann.mark, None);
}

#[test]
fn unknown_code_stays_bare() {
    let ann = parse_compact("zz is not a mark");
    assert_eq!(ann.annotation_type, AnnotationType::Bare);
    assert_eq!(ann.mark, None);
}

#[test]
fn structured_mark_annotation() {
    assert!(is_structured_annotation("hi _"));
    assert!(!is_structured_annotation("it is raining"));
}

#[test]
fn lone_mark_code_is_not_structure() {
    // The migrate tool must not rewrite plain one-word legacy comments
    // like <!-- nb --> or <!-- sic -->
    assert!(!is_structured_annotation("nb"));
    assert!(!is_structured_annotation("sic"));
    assert!(!is_structured_annotation("gloss"));
}

#[test]
fn lone_mark_code_still_parses_as_mark() {
    // In a triple-dash comment a lone code still renders as a mark
    let ann = parse_compact("sic");
    assert_eq!(ann.annotation_type, AnnotationType::Mark);
    assert_eq!(ann.mark, Some("sic".to_string()));
    assert_eq!(ann.body, None);
}

// llm / th types

#[test]
fn llm_type() {
    let ann = parse_compact("llm | summarize entire document");
    assert_eq!(ann.annotation_type, AnnotationType::Llm);
    assert_eq!(ann.body, Some("summarize entire document".to_string()));
}

#[test]
fn thread_type_tentative() {
    let ann = parse_compact("th? | is this Jayaratha?");
    assert_eq!(ann.annotation_type, AnnotationType::Thread);
    assert_eq!(ann.certainty, Certainty::Tentative);
    assert_eq!(ann.body, Some("is this Jayaratha?".to_string()));
}

#[test]
fn thread_type_only() {
    let ann = parse_compact("th");
    assert_eq!(ann.annotation_type, AnnotationType::Thread);
    assert_eq!(ann.body, None);
}

#[test]
fn llm_with_scope() {
    let ann = parse_compact(r"llm: \p | rewrite this paragraph");
    assert_eq!(ann.annotation_type, AnnotationType::Llm);
    assert_eq!(ann.scope, Scope::Paragraph(1));
}

#[test]
fn th_prefix_word_stays_bare() {
    let ann = parse_compact("throwaway note");
    assert_eq!(ann.annotation_type, AnnotationType::Bare);
    assert_eq!(ann.body, Some("throwaway note".to_string()));
}

#[test]
fn llm_prefix_word_stays_bare() {
    let ann = parse_compact("llms are interesting");
    assert_eq!(ann.annotation_type, AnnotationType::Bare);
    assert_eq!(ann.body, Some("llms are interesting".to_string()));
}

// is_structured_annotation

#[test]
fn structured_type_keyword() {
    assert!(is_structured_annotation("n: check TA 3.68"));
}

#[test]
fn structured_certainty_and_date() {
    assert!(is_structured_annotation("todo! verify @2026-03"));
}

#[test]
fn structured_scope_token() {
    assert!(is_structured_annotation(r"cf \pp"));
}

#[test]
fn structured_pipe_only() {
    assert!(is_structured_annotation("| body only"));
}

#[test]
fn structured_date_only() {
    assert!(is_structured_annotation("note @2026-03"));
}

#[test]
fn structured_type_with_certainty() {
    assert!(is_structured_annotation("n?"));
}

#[test]
fn structured_block_form() {
    assert!(is_structured_annotation("n\n---\nbody"));
}

#[test]
fn id_with_structured_remainder() {
    assert!(is_structured_annotation("[x1] n: | note"));
    assert!(is_structured_annotation("[x1] todo! verify @2026-03"));
}

#[test]
fn id_alone_is_not_structure() {
    // A bare [word] must not count as structure: the migrate tool would
    // otherwise rewrite plain legacy comments like <!-- [TODO] fix --> or
    // <!-- [1] see footnote --> into rendering annotations.
    assert!(!is_structured_annotation("[x1] hello"));
    assert!(!is_structured_annotation("[TODO] fix header wording"));
    assert!(!is_structured_annotation("[1] see footnote"));
}

#[test]
fn unstructured_invalid_id() {
    assert!(!is_structured_annotation("[*b*] hello"));
    assert!(!is_structured_annotation("[[Wiki Link]] prose"));
}

#[test]
fn unstructured_plain_prose() {
    assert!(!is_structured_annotation("fix this later"));
}

#[test]
fn unstructured_raw_prefix() {
    assert!(!is_structured_annotation("raw: build marker"));
}

#[test]
fn unstructured_empty() {
    assert!(!is_structured_annotation(""));
}

