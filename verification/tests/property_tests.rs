use annotation_core::block::parse_block;
use annotation_core::compact::{is_structured_annotation, parse_compact};
use annotation_core::id::extract_id;
use annotation_core::parser::{parse_annotations, parse_annotations_with_marks};
use annotation_core::scanner::{scan_annotation_comments, scan_comments};
use annotation_core::scope_resolver::{
    blank_comments, heading_level, resolve_scope_range, ws_flexible_find, ResolutionMode,
    SentenceSplits,
};
use annotation_core::types::{AnnotationType, Certainty, Scope};

fn splits(before: &[&str], after: &[&str]) -> SentenceSplits {
    SentenceSplits {
        before: before.iter().map(|s| s.to_string()).collect(),
        after: after.iter().map(|s| s.to_string()).collect(),
    }
}

// ── Scope spellings ──

#[test]
fn letter_repeat_equals_underscores() {
    for (a, b) in [("\\pp", "\\p__"), ("\\fff", "\\f___"), ("\\ss", "\\s__"), ("\\p", "\\p_")] {
        assert_eq!(Scope::try_parse(a), Scope::try_parse(b));
        assert!(Scope::try_parse(b).is_some());
    }
    assert_eq!(Scope::try_parse("\\pp"), Some(Scope::Paragraph(2)));
}

#[test]
fn underscore_run_counts_words() {
    assert_eq!(Scope::try_parse("_"), Some(Scope::Words(1)));
    assert_eq!(Scope::try_parse("_____"), Some(Scope::Words(5)));
}

#[test]
fn extended_scope_tokens() {
    assert_eq!(Scope::try_parse("\\h"), Some(Scope::Section));
    assert_eq!(Scope::try_parse("\\d"), Some(Scope::Document));
    assert_eq!(Scope::try_parse("3_1"), Some(Scope::AsymWords(3, 1)));
    assert_eq!(Scope::try_parse("2\\s1"), Some(Scope::AsymSentence(2, 1)));
    assert_eq!(Scope::try_parse("1\\p2"), Some(Scope::AsymParagraph(1, 2)));
    assert_eq!(Scope::try_parse("0\\f1"), Some(Scope::AsymPage(0, 1)));
    assert_eq!(Scope::try_parse("2_4x"), None);
    assert_eq!(Scope::try_parse(""), None);
}

#[test]
fn default_scope_is_current_sentence() {
    assert_eq!(Scope::from_str("nonsense"), Scope::Sentence(1));
    assert_eq!(parse_compact("n: | body").scope, Scope::Sentence(1));
}

// ── Type keywords and marks ──

#[test]
fn type_keyword_wins_over_mark_code() {
    let ann = parse_compact("n");
    assert_eq!(ann.annotation_type, AnnotationType::Note);
    assert_eq!(ann.mark, None);
    let ann = parse_compact("q? maybe");
    assert_eq!(ann.annotation_type, AnnotationType::Question);
    assert_eq!(ann.certainty, Certainty::Tentative);
    assert_eq!(ann.mark, None);
}

#[test]
fn lone_mark_code_is_a_mark_but_not_structure() {
    let ann = parse_compact("nb");
    assert_eq!(ann.annotation_type, AnnotationType::Mark);
    assert_eq!(ann.mark, Some("nb".to_string()));
    assert_eq!(ann.scope, Scope::Sentence(1));
    assert_eq!(ann.body, None);
    assert!(!is_structured_annotation("nb"));
}

#[test]
fn custom_mark_code_is_recognised() {
    let marks = vec!["mymark".to_string()];
    let anns = parse_annotations_with_marks("Text here. <!--- mymark __ | why --->", &marks);
    assert_eq!(anns.len(), 1);
    assert_eq!(anns[0].annotation_type, AnnotationType::Mark);
    assert_eq!(anns[0].mark, Some("mymark".to_string()));
    assert_eq!(anns[0].scope, Scope::Words(2));
    assert_eq!(anns[0].body, Some("why".to_string()));
    // Without the custom code the same comment carries no mark.
    let plain = parse_annotations("Text here. <!--- mymark __ | why --->");
    assert_eq!(plain.len(), 1);
    assert_eq!(plain[0].mark, None);
}

// ── Dates ──

#[test]
fn date_is_found_after_the_pipe() {
    let ann = parse_compact("n: | checked @2026-03-28");
    assert_eq!(ann.date, Some("2026-03-28".to_string()));
    assert_eq!(ann.body, Some("checked".to_string()));
}

#[test]
fn month_only_date() {
    let ann = parse_compact("n: | later @2026-03");
    assert_eq!(ann.date, Some("2026-03".to_string()));
}

#[test]
fn non_digit_date_is_body_text() {
    let ann = parse_compact("n: | contact @abcd-ef");
    assert_eq!(ann.date, None);
    assert_eq!(ann.body, Some("contact @abcd-ef".to_string()));
}

// ── IDs ──

#[test]
fn id_with_dots_and_dashes() {
    let (id, rest) = extract_id("[a.b-c_1] n: | x");
    assert_eq!(id, Some("a.b-c_1".to_string()));
    assert_eq!(rest, "n: | x");
}

#[test]
fn id_must_start_alphanumeric() {
    let (id, rest) = extract_id("[-x] n: | x");
    assert_eq!(id, None);
    assert_eq!(rest, "[-x] n: | x");
}

#[test]
fn markdown_link_is_not_an_id() {
    let (id, _) = extract_id("[text](url) n: | x");
    assert_eq!(id, None);
}

// ── Scanning ──

#[test]
fn scanned_comments_are_in_document_order() {
    let doc = "a <!--- n: | x ---> b <!--- q? | y ---> c";
    let found = scan_annotation_comments(doc);
    assert_eq!(found.len(), 2);
    assert!(found[0].char_end <= found[1].char_start);
    assert!(found[0].char_start < found[0].char_end);
    assert_eq!(found[0].inner, "n: | x");
    assert_eq!(found[1].original, "<!--- q? | y --->");
}

#[test]
fn utf16_offsets_count_surrogate_pairs() {
    let doc = "😀 <!--- n: | x --->";
    let found = scan_annotation_comments(doc);
    assert_eq!(found[0].char_start, 3);
    assert_eq!(found[0].char_end, 3 + "<!--- n: | x --->".len());
}

#[test]
fn standard_comments_scanned_with_raw_skipped() {
    let found = scan_comments("<!-- n: | x --> <!-- raw: keep -->");
    assert_eq!(found.len(), 1);
    assert_eq!(found[0].inner, "n: | x");
}

#[test]
fn parsed_annotations_do_not_overlap() {
    let doc = "one <!--- n: | a ---> two <!--- t: | b ---> three";
    let anns = parse_annotations(doc);
    assert_eq!(anns.len(), 2);
    assert!(anns[0].char_start < anns[0].char_end);
    assert!(anns[0].char_end <= anns[1].char_start);
}

// ── Blocks ──

#[test]
fn block_with_scope() {
    let ann = parse_block("todo!\n\\pp\n---\nFix this.");
    assert_eq!(ann.annotation_type, AnnotationType::Todo);
    assert_eq!(ann.certainty, Certainty::Firm);
    assert_eq!(ann.scope, Scope::Paragraph(2));
    assert_eq!(ann.body, Some("Fix this.".to_string()));
}

// ── Scope resolution ──

#[test]
fn bidirectional_words_equal_symmetric_asym() {
    let content = "one two three <!--- n: __ | x ---> four five six";
    let start = 14;
    let end = start + "<!--- n: __ | x --->".len();
    let none = SentenceSplits::empty();
    let bidi = resolve_scope_range(content, start, end, &Scope::Words(2), &none, ResolutionMode::Bidirectional);
    let asym = resolve_scope_range(content, start, end, &Scope::AsymWords(2, 2), &none, ResolutionMode::Backward);
    assert_eq!(bidi, asym);
    assert_eq!(bidi, Some((4, content.len() - " six".len())));
}

#[test]
fn backward_words_equal_asym_before_only() {
    let content = "one two three <!--- n: __ | x ---> four";
    let none = SentenceSplits::empty();
    let back = resolve_scope_range(content, 14, 30, &Scope::Words(2), &none, ResolutionMode::Backward);
    let asym = resolve_scope_range(content, 14, 30, &Scope::AsymWords(2, 0), &none, ResolutionMode::Backward);
    assert_eq!(back, asym);
    assert_eq!(back, Some((4, 13)));
}

#[test]
fn mode_does_not_change_anchor_or_document() {
    let content = "alpha beta <!--- n: ^\"beta\" | x --->";
    let none = SentenceSplits::empty();
    for scope in [Scope::Anchor("beta".to_string()), Scope::Document, Scope::Section] {
        let a = resolve_scope_range(content, 11, content.len(), &scope, &none, ResolutionMode::Backward);
        let b = resolve_scope_range(content, 11, content.len(), &scope, &none, ResolutionMode::Bidirectional);
        assert_eq!(a, b);
    }
    assert_eq!(
        resolve_scope_range(content, 11, content.len(), &Scope::Document, &none, ResolutionMode::Backward),
        Some((0, content.len()))
    );
}

#[test]
fn anchor_takes_last_occurrence_before_annotation() {
    let content = "cat dog cat bird <!--- n: ^\"cat\" | x ---> cat";
    let none = SentenceSplits::empty();
    let r = resolve_scope_range(content, 17, 17, &Scope::Anchor("cat".to_string()), &none, ResolutionMode::Backward);
    assert_eq!(r, Some((8, 11)));
    let missing = resolve_scope_range(content, 17, 17, &Scope::Anchor("eel".to_string()), &none, ResolutionMode::Backward);
    assert_eq!(missing, None);
}

#[test]
fn document_scope_of_empty_text_is_none() {
    let none = SentenceSplits::empty();
    assert_eq!(resolve_scope_range("", 0, 0, &Scope::Document, &none, ResolutionMode::Backward), None);
}

#[test]
fn sentence_scope_uses_the_given_splits() {
    let content = "First one. Second one. <!--- n: \\s | x --->";
    let s = splits(&["First one.", "Second one."], &[]);
    let r = resolve_scope_range(content, 23, content.len(), &Scope::Sentence(1), &s, ResolutionMode::Backward);
    assert_eq!(r, Some((11, 22)));
    let r2 = resolve_scope_range(content, 23, content.len(), &Scope::Sentence(2), &s, ResolutionMode::Backward);
    assert_eq!(r2, Some((0, 22)));
}

#[test]
fn empty_splits_have_no_sentences() {
    let e = SentenceSplits::empty();
    assert!(e.before.is_empty());
    assert!(e.after.is_empty());
}

#[test]
fn resolution_mode_names() {
    assert_eq!(ResolutionMode::from_str("backward"), Some(ResolutionMode::Backward));
    assert_eq!(ResolutionMode::from_str("bidirectional"), Some(ResolutionMode::Bidirectional));
    assert_eq!(ResolutionMode::from_str("sideways"), None);
}

// ── Helpers of resolution ──

#[test]
fn blanking_keeps_byte_length() {
    let text = "a <!--- é n: | x ---> b";
    let blanked = blank_comments(text);
    assert_eq!(blanked.len(), text.len());
    assert!(blanked.starts_with("a "));
    assert!(blanked.ends_with(" b"));
    assert!(!blanked.contains("<!---"));
}

#[test]
fn flexible_find_across_line_breaks_and_multibyte() {
    let hay = "café au\n  lait and more";
    assert_eq!(ws_flexible_find(hay, "au lait", 0), Some((6, 15)));
    assert_eq!(ws_flexible_find(hay, "café", 1), None);
    assert_eq!(ws_flexible_find(hay, "missing words", 0), None);
}

#[test]
fn heading_levels() {
    assert_eq!(heading_level("# Title"), Some(1));
    assert_eq!(heading_level("### Sub"), Some(3));
    assert_eq!(heading_level("####### seven"), None);
    assert_eq!(heading_level("#nospace"), None);
}

#[test]
fn default_mode_is_backward() {
    assert_eq!(ResolutionMode::default(), ResolutionMode::Backward);
}

#[test]
fn resolved_ranges_lie_within_the_document() {
    let content = "# Title\n\nFirst sentence here. Second one 😀 follows.\n\n<!--- n: \\p | x ---> tail words\n\x0Cnext page";
    let start = content.find("<!---").unwrap();
    let start16 = content[..start].encode_utf16().count();
    let end16 = start16 + "<!--- n: \\p | x --->".len();
    let total16 = content.encode_utf16().count();
    let s = splits(&["First sentence here.", "Second one 😀 follows."], &["tail words"]);
    let scopes = [
        Scope::Words(3),
        Scope::Sentence(2),
        Scope::Paragraph(2),
        Scope::Page(1),
        Scope::Section,
        Scope::Document,
        Scope::Anchor("one".to_string()),
        Scope::AsymWords(1, 5),
        Scope::AsymSentence(1, 1),
        Scope::AsymParagraph(1, 2),
        Scope::AsymPage(1, 1),
    ];
    for scope in scopes.iter() {
        for mode in [ResolutionMode::Backward, ResolutionMode::Bidirectional] {
            if let Some((x, y)) = resolve_scope_range(content, start16, end16, scope, &s, mode) {
                assert!(x <= y && y <= total16, "{:?} {:?}", scope, (x, y));
            }
        }
    }
}

#[test]
fn non_ascii_decimal_digits_make_a_date() {
    let ann = parse_compact("n: | later @\u{0662}\u{0660}\u{0662}\u{0666}-\u{0660}\u{0663}");
    assert_eq!(ann.date, Some("\u{0662}\u{0660}\u{0662}\u{0666}-\u{0660}\u{0663}".to_string()));
    assert_eq!(ann.body, Some("later".to_string()));
    let plain = parse_compact("n: | later @2026-0a");
    assert_eq!(plain.date, None);
}

#[test]
fn leading_id_adds_no_structure() {
    assert_eq!(is_structured_annotation("[a1] n: | x"), is_structured_annotation("n: | x"));
    assert!(is_structured_annotation("[a1] n: | x"));
    assert!(!is_structured_annotation("[a1] it is raining"));
    assert!(!is_structured_annotation("it is raining"));
}

#[test]
fn custom_marks_leave_typed_annotations_alone() {
    let doc = "A <!--- n: | x ---> b <!--- mymark | y ---> c <!--- hi | z --->";
    let marks = vec!["mymark".to_string(), "n".to_string()];
    let plain = parse_annotations(doc);
    let with = parse_annotations_with_marks(doc, &marks);
    assert_eq!(plain.len(), with.len());
    assert_eq!(with[0].annotation_type, AnnotationType::Note);
    assert_eq!(with[0].mark, plain[0].mark);
    assert_eq!(with[2].mark, plain[2].mark);
    assert_eq!(plain[1].annotation_type, AnnotationType::Bare);
    assert_eq!(with[1].mark, Some("mymark".to_string()));
    for i in 0..3 {
        assert_eq!(plain[i].char_start, with[i].char_start);
        assert_eq!(plain[i].original, with[i].original);
    }
}

#[test]
fn backward_ranges_end_before_the_annotation_and_ignore_its_end() {
    let content = "one two three <!--- n: __ | x ---> four";
    let none = SentenceSplits::empty();
    let a = resolve_scope_range(content, 14, 30, &Scope::Words(2), &none, ResolutionMode::Backward);
    let b = resolve_scope_range(content, 14, 34, &Scope::Words(2), &none, ResolutionMode::Backward);
    assert_eq!(a, b);
    assert!(a.unwrap().1 <= 14);
}

#[test]
fn more_units_move_only_the_start_back() {
    let content = "one two three four <!--- n: _ | x --->";
    let none = SentenceSplits::empty();
    let r1 = resolve_scope_range(content, 19, 19, &Scope::Words(1), &none, ResolutionMode::Backward).unwrap();
    let r2 = resolve_scope_range(content, 19, 19, &Scope::Words(2), &none, ResolutionMode::Backward).unwrap();
    let r9 = resolve_scope_range(content, 19, 19, &Scope::Words(9), &none, ResolutionMode::Backward).unwrap();
    assert_eq!(r1, (14, 18));
    assert_eq!(r2, (8, 18));
    assert_eq!(r9, (0, 18));
}

#[test]
fn block_head_lines_in_any_order() {
    let a = parse_block("\\pp\nn!\n@2026-03-28\n---\nBody text.");
    let b = parse_block("n!\n@2026-03-28\n\\pp\n---\nBody text.");
    assert_eq!(a.annotation_type, b.annotation_type);
    assert_eq!(a.certainty, b.certainty);
    assert_eq!(a.scope, b.scope);
    assert_eq!(a.date, b.date);
    assert_eq!(a.body, b.body);
    assert_eq!(a.scope, Scope::Paragraph(2));
}
