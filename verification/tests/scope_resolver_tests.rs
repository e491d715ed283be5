use annotation_core::scope_resolver::{
    blank_comments, heading_level, resolve_scope_range, sentence_text_after, sentence_text_before,
    ws_flexible_find, ResolutionMode, SentenceSplits,
};
use annotation_core::types::Scope;

/// Splits text into sentences the way a rule-based splitter does for these
/// English examples: whitespace runs collapse to one space, and a sentence
/// ends after `.`, `?` or `!` followed by whitespace.
fn split_sentences(text: &str, _lang: &str) -> Vec<String> {
    let words: Vec<&str> = text.split_whitespace().collect();
    let mut out = Vec::new();
    let mut cur: Vec<&str> = Vec::new();
    for w in words {
        cur.push(w);
        if w.ends_with('.') || w.ends_with('?') || w.ends_with('!') {
            out.push(cur.join(" "));
            cur.clear();
        }
    }
    if !cur.is_empty() {
        out.push(cur.join(" "));
    }
    out
}

/// Resolves a scope, splitting the texts that sentence scopes need.
fn resolve(
    content: &str,
    char_start: usize,
    char_end: usize,
    scope: &Scope,
    lang: &str,
    mode: ResolutionMode,
) -> Option<(usize, usize)> {
    let splits = SentenceSplits {
        before: sentence_text_before(content, char_start)
            .map(|t| split_sentences(&t, lang))
            .unwrap_or_default(),
        after: sentence_text_after(content, char_end)
            .map(|t| split_sentences(&t, lang))
            .unwrap_or_default(),
    };
    resolve_scope_range(content, char_start, char_end, scope, &splits, mode)
}


// ── Words scope ──

#[test]
fn words_1_single_preceding_word() {
    let content = "hello <!-- n: _ | note -->";
    let char_start = 6;
    let result = resolve(content, char_start, char_start, &Scope::Words(1), "en", ResolutionMode::Backward);
    assert_eq!(result, Some((0, 5))); // "hello"
}

#[test]
fn words_2_two_preceding_words() {
    // "the quick brown fox <!-- ... -->"
    //                ^^^^^^^^^ "brown fox" = offsets 10..19
    let content = "the quick brown fox <!-- n: __ | note -->";
    let char_start = 20; // position of '<'
    let result = resolve(content, char_start, char_start, &Scope::Words(2), "en", ResolutionMode::Backward);
    assert_eq!(result, Some((10, 19))); // "brown fox"
}

#[test]
fn words_3_three_preceding_words() {
    let content = "the quick brown fox <!-- n: ___ | note -->";
    let char_start = 20;
    let result = resolve(content, char_start, char_start, &Scope::Words(3), "en", ResolutionMode::Backward);
    assert_eq!(result, Some((4, 19))); // "quick brown fox"
}

#[test]
fn words_more_than_available() {
    // Only 2 words but requesting 5 — should highlight all available
    let content = "brown fox <!-- n: | note -->";
    let char_start = 10;
    let result = resolve(content, char_start, char_start, &Scope::Words(5), "en", ResolutionMode::Backward);
    assert_eq!(result, Some((0, 9))); // "brown fox"
}

#[test]
fn words_with_cjk() {
    // CJK: 你好 世界 — 2 words, each 2 UTF-16 units
    let content = "你好 世界 <!-- n: __ | note -->";
    let char_start = 5; // 你(1) 好(1) space(1) 世(1) 界(1) = 5 UTF-16 units, then space before <!--
    let result = resolve(content, char_start, char_start, &Scope::Words(1), "en", ResolutionMode::Backward);
    assert_eq!(result, Some((3, 5))); // "世界"
}

#[test]
fn words_no_preceding_text() {
    let content = "<!-- n: _ | note -->";
    let char_start = 0;
    let result = resolve(content, char_start, char_start, &Scope::Words(1), "en", ResolutionMode::Backward);
    assert_eq!(result, None);
}

#[test]
fn words_only_whitespace_before() {
    let content = "   <!-- n: _ | note -->";
    let char_start = 3;
    let result = resolve(content, char_start, char_start, &Scope::Words(1), "en", ResolutionMode::Backward);
    assert_eq!(result, None);
}

// ── Sentence scope ──

#[test]
fn sentence_single_sentence() {
    let content = "The cat sat on the mat.<!-- n: | note -->";
    let char_start = 23;
    let result = resolve(content, char_start, char_start, &Scope::Sentence(1), "en", ResolutionMode::Backward);
    assert_eq!(result, Some((0, 23))); // "The cat sat on the mat."
}

#[test]
fn sentence_last_of_multiple_sentences() {
    let content = "The dog ran. The cat sat.<!-- n: | note -->";
    let char_start = 25;
    let result = resolve(content, char_start, char_start, &Scope::Sentence(1), "en", ResolutionMode::Backward);
    // Should highlight "The cat sat." (last sentence)
    assert_eq!(result, Some((13, 25)));
}

#[test]
fn sentence_two_of_multiple() {
    let content = "First one. The dog ran. The cat sat.<!-- n: \\ss | note -->";
    let char_start = 36;
    let result = resolve(content, char_start, char_start, &Scope::Sentence(2), "en", ResolutionMode::Backward);
    // Should highlight "The dog ran. The cat sat."
    assert_eq!(result, Some((11, 36)));
}

#[test]
fn sentence_more_than_available() {
    let content = "The dog ran. The cat sat.<!-- n: \\sss | note -->";
    let char_start = 25;
    let result = resolve(content, char_start, char_start, &Scope::Sentence(3), "en", ResolutionMode::Backward);
    // Only 2 sentences available — should highlight both
    assert_eq!(result, Some((0, 25)));
}

#[test]
fn sentence_mid_sentence() {
    // Annotation is in the middle of a sentence
    let content = "The dog ran. The cat sat<!-- n: | note --> on the mat.";
    let char_start = 25;
    let result = resolve(content, char_start, char_start, &Scope::Sentence(1), "en", ResolutionMode::Backward);
    // Should highlight "The cat sat" (partial sentence before annotation)
    assert_eq!(result, Some((13, 25)));
}

#[test]
fn sentence_no_preceding_text() {
    let content = "<!-- n: | note -->";
    let char_start = 0;
    let result = resolve(content, char_start, char_start, &Scope::Sentence(1), "en", ResolutionMode::Backward);
    assert_eq!(result, None);
}

// ── Paragraph scope ──

#[test]
fn paragraph_1_current_paragraph() {
    let content = "First paragraph.\n\nSecond paragraph text.<!-- n: \\p | note -->";
    // "First paragraph.\n\nSecond paragraph text." = 18 + 22 = 40 chars
    let char_start = 40;
    let result = resolve(content, char_start, char_start, &Scope::Paragraph(1), "en", ResolutionMode::Backward);
    assert_eq!(result, Some((18, 40))); // "Second paragraph text."
}

#[test]
fn paragraph_2_current_and_preceding() {
    let content = "First para.\n\nSecond para.\n\nThird para.<!-- n: \\pp | note -->";
    let char_start = 38;
    let result = resolve(content, char_start, char_start, &Scope::Paragraph(2), "en", ResolutionMode::Backward);
    // Should include "Second para.\n\nThird para."
    assert_eq!(result, Some((13, 38)));
}

#[test]
fn paragraph_more_than_available() {
    let content = "Only paragraph.<!-- n: \\ppp | note -->";
    let char_start = 15;
    let result = resolve(content, char_start, char_start, &Scope::Paragraph(3), "en", ResolutionMode::Backward);
    assert_eq!(result, Some((0, 15))); // "Only paragraph."
}

#[test]
fn paragraph_no_preceding_text() {
    let content = "<!-- n: \\p | note -->";
    let char_start = 0;
    let result = resolve(content, char_start, char_start, &Scope::Paragraph(1), "en", ResolutionMode::Backward);
    assert_eq!(result, None);
}

// ── Page scope ──

#[test]
fn page_1_current_page() {
    // \x0C is form feed (page break)
    let content = "Page one.\x0CPage two text.<!-- n: \\f | note -->";
    let char_start = 25;
    let result = resolve(content, char_start, char_start, &Scope::Page(1), "en", ResolutionMode::Backward);
    assert_eq!(result, Some((10, 25))); // "Page two text."
}

#[test]
fn page_2_current_and_preceding() {
    let content = "Page one.\x0CPage two.\x0CPage three.<!-- n: | note -->";
    let char_start = 31;
    let result = resolve(content, char_start, char_start, &Scope::Page(2), "en", ResolutionMode::Backward);
    assert_eq!(result, Some((10, 31))); // "Page two.\x0CPage three."
}

#[test]
fn page_no_form_feed() {
    // No form feed — treat entire text as one page
    let content = "All one page.<!-- n: \\f | note -->";
    let char_start = 14;
    let result = resolve(content, char_start, char_start, &Scope::Page(1), "en", ResolutionMode::Backward);
    assert_eq!(result, Some((0, 14)));
}

// ── Page/paragraph boundary fall-through (intentional, locked) ──

#[test]
fn page_annotation_at_top_of_page_falls_through_to_previous() {
    // \x0C is whitespace: an annotation alone at the top of page 2 has an
    // empty current page, so \f falls through to page 1 — mirroring the
    // paragraph behavior the spec's 2\p1 example relies on.
    let content = "One.\x0C<!--- n: \\f | x --->";
    let ann = content.find("<!---").unwrap();
    let result = resolve(content, ann, content.len(), &Scope::Page(1), "en", ResolutionMode::Backward);
    assert_eq!(result, Some((0, 4))); // "One."
}

#[test]
fn page_forward_just_before_form_feed_falls_through_to_next() {
    let content = "One.<!--- n: 0\\f1 | x --->\x0CTwo.\x0CThree.";
    let ann = content.find("<!---").unwrap();
    let ann_end = ann + "<!--- n: 0\\f1 | x --->".len();
    let result = resolve(content, ann, ann_end, &Scope::AsymPage(0, 1), "en", ResolutionMode::Backward);
    let start = content.find("Two.").unwrap();
    assert_eq!(result, Some((start, start + 4))); // next page, not beyond
}

#[test]
fn paragraph_annotation_own_paragraph_falls_through_to_previous() {
    let content = "Para A.\n\n<!--- n: \\p | x --->";
    let ann = content.find("<!---").unwrap();
    let result = resolve(content, ann, content.len(), &Scope::Paragraph(1), "en", ResolutionMode::Backward);
    assert_eq!(result, Some((0, 7))); // "Para A."
}

// ── Anchor scope ──

#[test]
fn anchor_found() {
    let content = "The term anuttara appears in this text.<!-- n: ^\"anuttara\" | note -->";
    let char_start = 39;
    let result = resolve(
        content, char_start, char_start,
        &Scope::Anchor("anuttara".to_string()), "en", ResolutionMode::Backward,
    );
    assert_eq!(result, Some((9, 17))); // "anuttara" at offset 9..17
}

#[test]
fn anchor_not_found() {
    let content = "No match here.<!-- n: ^\"missing\" | note -->";
    let char_start = 15;
    let result = resolve(
        content, char_start, char_start,
        &Scope::Anchor("missing".to_string()), "en", ResolutionMode::Backward,
    );
    assert_eq!(result, None);
}

// ── Document scope ──

#[test]
fn document_whole_file() {
    let content = "First paragraph.\n\nSecond paragraph.<!--- n: \\d | note --->\n\nThird.";
    let ann = content.find("<!---").unwrap();
    let result = resolve(content, ann, ann + 22, &Scope::Document, "en", ResolutionMode::Backward);
    assert_eq!(result, Some((0, content.len())));
}

#[test]
fn document_utf16_cjk() {
    // 你好世界 = 4 UTF-16 units; total = 4 + 22 comment chars
    let content = "你好世界<!--- llm \\d | 总结 --->";
    let result = resolve(content, 4, 25, &Scope::Document, "en", ResolutionMode::Backward);
    let expected_len = content.chars().map(|c| c.len_utf16()).sum::<usize>();
    assert_eq!(result, Some((0, expected_len)));
}

// ── Section scope ──

#[test]
fn section_basic() {
    let content = "## Methods\n\nSome methodology text here.\n\n<!--- n: \\h | note --->\n\n## Results\n\nMore.";
    let ann = content.find("<!---").unwrap();
    let ann_end = ann + "<!--- n: \\h | note --->".len();
    let result = resolve(content, ann, ann_end, &Scope::Section, "en", ResolutionMode::Backward);
    // From the start of "## Methods" up to (trimmed) just before "## Results"
    assert_eq!(result, Some((0, ann_end)));
}

#[test]
fn section_nearest_subheading() {
    let content = "## Methods\n\n### Detail\n\nDetail text.<!--- n: \\h | x --->\n\n## Results";
    let ann = content.find("<!---").unwrap();
    let ann_end = ann + "<!--- n: \\h | x --->".len();
    let start = content.find("### Detail").unwrap();
    let result = resolve(content, ann, ann_end, &Scope::Section, "en", ResolutionMode::Backward);
    assert_eq!(result, Some((start, ann_end)));
}

#[test]
fn section_spans_lower_level_headings() {
    let content = "# Top\n\nIntro.<!--- n: \\h | x --->\n\n## Sub\n\nSub text.\n\n# Next";
    let ann = content.find("<!---").unwrap();
    let ann_end = ann + "<!--- n: \\h | x --->".len();
    let result = resolve(content, ann, ann_end, &Scope::Section, "en", ResolutionMode::Backward);
    // Section of "# Top" runs through "## Sub" (lower level) up to "# Next"
    let expected_end = content.find("\n\n# Next").unwrap();
    assert_eq!(result, Some((0, expected_end)));
}

#[test]
fn section_no_preceding_heading_clamps_to_doc_start() {
    let content = "Preamble text.<!--- n: \\h | x --->\n\n# First\n\nBody.";
    let ann = content.find("<!---").unwrap();
    let ann_end = ann + "<!--- n: \\h | x --->".len();
    let result = resolve(content, ann, ann_end, &Scope::Section, "en", ResolutionMode::Backward);
    assert_eq!(result, Some((0, ann_end)));
}

#[test]
fn section_extends_to_eof() {
    let content = "## Last\n\nFinal text.<!--- n: \\h | x --->\n";
    let ann = content.find("<!---").unwrap();
    let ann_end = ann + "<!--- n: \\h | x --->".len();
    let result = resolve(content, ann, ann_end, &Scope::Section, "en", ResolutionMode::Backward);
    assert_eq!(result, Some((0, ann_end)));
}

#[test]
fn section_ignores_heading_in_code_fence() {
    let content = "## Real\n\ntext<!--- n: \\h | x --->\n\n```\n# fenced\n```\n\n## Next";
    let ann = content.find("<!---").unwrap();
    let ann_end = ann + "<!--- n: \\h | x --->".len();
    let result = resolve(content, ann, ann_end, &Scope::Section, "en", ResolutionMode::Backward);
    // Section ends just before "## Next" (trimmed), running through the fence
    let expected_end = content.rfind("\n\n## Next").unwrap();
    assert_eq!(result, Some((0, expected_end)));
}

#[test]
fn section_ignores_indented_code_hash_line() {
    // 4-space-indented lines are code, not ATX headings (CommonMark)
    let content = "## Real\n\ntext<!--- n: \\h | x --->\n\n    # indented code comment\n\nmore text\n\n## Next";
    let ann = content.find("<!---").unwrap();
    let ann_end = ann + "<!--- n: \\h | x --->".len();
    let result = resolve(content, ann, ann_end, &Scope::Section, "en", ResolutionMode::Backward);
    let expected_end = content.rfind("\n\n## Next").unwrap();
    assert_eq!(result, Some((0, expected_end)));
}

#[test]
fn heading_up_to_three_spaces_indent_ok() {
    assert_eq!(heading_level("   ## ok"), Some(2));
    assert_eq!(heading_level("    ## code"), None);
    assert_eq!(heading_level("\t# tab code"), None);
    assert_eq!(heading_level("# plain"), Some(1));
}

#[test]
fn section_utf16_cjk() {
    let content = "## 标题\n\n你好世界<!--- n: \\h | 注 --->\n\n## 下节";
    let ann_utf16: usize = content[..content.find("<!---").unwrap()]
        .chars().map(|c| c.len_utf16()).sum();
    let comment_utf16: usize = "<!--- n: \\h | 注 --->".chars().map(|c| c.len_utf16()).sum();
    let result = resolve(content, ann_utf16, ann_utf16 + comment_utf16, &Scope::Section, "en", ResolutionMode::Backward);
    assert_eq!(result, Some((0, ann_utf16 + comment_utf16)));
}

// ── Forward sentence stays in the current paragraph ──

#[test]
fn forward_sentence_at_paragraph_end_contributes_nothing() {
    let content = "A one. <!--- n: 0\\s1 | x --->\n\nNext para sentence.";
    let ann = content.find("<!---").unwrap();
    let ann_end = ann + "<!--- n: 0\\s1 | x --->".len();
    let result = resolve(content, ann, ann_end, &Scope::AsymSentence(0, 1), "en", ResolutionMode::Backward);
    assert_eq!(result, None);
}

#[test]
fn asym_sentence_at_paragraph_end_backward_only() {
    let content = "A one. <!--- n: 1\\s1 | x --->\n\nNext para sentence.";
    let ann = content.find("<!---").unwrap();
    let ann_end = ann + "<!--- n: 1\\s1 | x --->".len();
    let result = resolve(content, ann, ann_end, &Scope::AsymSentence(1, 1), "en", ResolutionMode::Backward);
    assert_eq!(result, Some((0, 6))); // "A one." — forward side empty
}

// ── Duplicated sentence text (sequential location) ──

#[test]
fn duplicate_sentences_backward() {
    let content = "Stop now. Stop now.<!--- n: \\ss | x --->";
    let ann = content.find("<!---").unwrap();
    let result = resolve(content, ann, content.len(), &Scope::Sentence(2), "en", ResolutionMode::Backward);
    assert_eq!(result, Some((0, 19))); // both occurrences, not a re-match of the first
}

#[test]
fn duplicate_sentences_forward() {
    let content = "Intro. <!--- n: 0\\s2 | x ---> Stop now. Stop now.";
    let ann = content.find("<!---").unwrap();
    let ann_end = ann + "<!--- n: 0\\s2 | x --->".len();
    let result = resolve(content, ann, ann_end, &Scope::AsymSentence(0, 2), "en", ResolutionMode::Backward);
    assert_eq!(result, Some((30, 49)));
}

#[test]
fn duplicate_sentence_backward_single() {
    // \s over a paragraph whose last sentence duplicates an earlier one
    let content = "Stop now. Middle bit. Stop now.<!--- n: \\s | x --->";
    let ann = content.find("<!---").unwrap();
    let result = resolve(content, ann, content.len(), &Scope::Sentence(1), "en", ResolutionMode::Backward);
    assert_eq!(result, Some((22, 31))); // the second "Stop now.", not the first
}

// ── ResolutionMode parsing ──

#[test]
fn resolution_mode_from_str_strict() {
    assert_eq!(ResolutionMode::from_str("backward"), Some(ResolutionMode::Backward));
    assert_eq!(ResolutionMode::from_str("bidirectional"), Some(ResolutionMode::Bidirectional));
    assert_eq!(ResolutionMode::from_str("Bidirectional"), None);
    assert_eq!(ResolutionMode::from_str("bidi"), None);
    assert_eq!(ResolutionMode::from_str(""), None);
}

// ── Bidirectional mode ──

#[test]
fn bidirectional_words() {
    let content = "alpha beta <!--- x ---> gamma delta";
    let result = resolve(content, 11, 23, &Scope::Words(1), "en", ResolutionMode::Bidirectional);
    assert_eq!(result, Some((6, 29))); // "beta" + "gamma"
}

#[test]
fn bidirectional_equals_symmetric_asym() {
    let content = "one two three <!--- x ---> four five six";
    let bidi = resolve(content, 14, 26, &Scope::Words(2), "en", ResolutionMode::Bidirectional);
    let asym = resolve(content, 14, 26, &Scope::AsymWords(2, 2), "en", ResolutionMode::Backward);
    assert_eq!(bidi, asym);
    assert!(bidi.is_some());
}

#[test]
fn bidirectional_paragraph() {
    let content = "Para A.\n\nPara B.\n\n<!--- x --->\n\nPara C.\n\nPara D.";
    let ann = content.find("<!---").unwrap();
    let ann_end = ann + "<!--- x --->".len();
    let bidi = resolve(content, ann, ann_end, &Scope::Paragraph(1), "en", ResolutionMode::Bidirectional);
    let b_start = content.find("Para B.").unwrap();
    let c_end = content.find("Para C.").unwrap() + "Para C.".len();
    assert_eq!(bidi, Some((b_start, c_end)));
}

#[test]
fn bidirectional_sentence() {
    let content = "First one. Second two. <!--- x ---> Third three. Fourth four.";
    let ann = content.find("<!---").unwrap();
    let ann_end = ann + "<!--- x --->".len();
    let bidi = resolve(content, ann, ann_end, &Scope::Sentence(1), "en", ResolutionMode::Bidirectional);
    let asym = resolve(content, ann, ann_end, &Scope::AsymSentence(1, 1), "en", ResolutionMode::Backward);
    assert_eq!(bidi, asym);
    let back_start = content.find("Second two.").unwrap();
    let fwd_end = content.find("Third three.").unwrap() + "Third three.".len();
    assert_eq!(bidi, Some((back_start, fwd_end)));
}

#[test]
fn bidirectional_page() {
    let content = "One.\x0CTwo.<!--- x ---> more.\x0CThree.\x0CFour.";
    let ann = content.find("<!---").unwrap();
    let ann_end = ann + "<!--- x --->".len();
    let bidi = resolve(content, ann, ann_end, &Scope::Page(1), "en", ResolutionMode::Bidirectional);
    // backward: "Two." on the current page; forward: " more." to the next form feed
    let back_start = content.find("Two.").unwrap();
    let fwd_end = content.find(" more.").unwrap() + " more.".len();
    assert_eq!(bidi, Some((back_start, fwd_end)));
}

#[test]
fn asym_page_forward_clamps_to_eof() {
    let content = "One.\x0CTwo.<!--- n: 0\\f9 | x ---> rest of page.";
    let ann = content.find("<!---").unwrap();
    let ann_end = ann + "<!--- n: 0\\f9 | x --->".len();
    let result = resolve(content, ann, ann_end, &Scope::AsymPage(0, 9), "en", ResolutionMode::Backward);
    let start = content.find("rest of page.").unwrap();
    assert_eq!(result, Some((start, content.len())));
}

#[test]
fn asym_words_backward_clamps_to_doc_start() {
    // 2 words available, 9 requested — clamp to document start
    let content = "alpha beta <!--- n: 9_1 | x ---> gamma";
    let ann = content.find("<!---").unwrap();
    let ann_end = ann + "<!--- n: 9_1 | x --->".len();
    let result = resolve(content, ann, ann_end, &Scope::AsymWords(9, 1), "en", ResolutionMode::Backward);
    let fwd_end = content.find("gamma").unwrap() + "gamma".len();
    assert_eq!(result, Some((0, fwd_end)));
}

#[test]
fn bidirectional_does_not_affect_anchor() {
    let content = "The term anuttara appears.<!--- x --->";
    let backward = resolve(content, 26, 38, &Scope::Anchor("anuttara".to_string()), "en", ResolutionMode::Backward);
    let bidi = resolve(content, 26, 38, &Scope::Anchor("anuttara".to_string()), "en", ResolutionMode::Bidirectional);
    assert_eq!(backward, bidi);
    assert!(backward.is_some());
}

#[test]
fn backward_mode_words_unchanged() {
    let content = "alpha beta <!--- x ---> gamma delta";
    let result = resolve(content, 11, 23, &Scope::Words(1), "en", ResolutionMode::Backward);
    assert_eq!(result, Some((6, 10))); // "beta" only
}

// ── Asymmetric words ──

#[test]
fn asym_words_before_and_after() {
    let content = "alpha beta <!--- n: 2_1 | x ---> gamma delta";
    let ann = 11;
    let ann_end = 32;
    let result = resolve(content, ann, ann_end, &Scope::AsymWords(2, 1), "en", ResolutionMode::Backward);
    // "alpha beta" backward + "gamma" forward
    assert_eq!(result, Some((0, 38)));
}

#[test]
fn asym_words_forward_only() {
    let content = "alpha beta <!--- n: 0_1 | x ---> gamma delta";
    let result = resolve(content, 11, 32, &Scope::AsymWords(0, 1), "en", ResolutionMode::Backward);
    assert_eq!(result, Some((33, 38))); // "gamma"
}

#[test]
fn asym_words_backward_only() {
    let content = "alpha beta <!--- n: 2_0 | x ---> gamma delta";
    let result = resolve(content, 11, 32, &Scope::AsymWords(2, 0), "en", ResolutionMode::Backward);
    assert_eq!(result, Some((0, 10))); // "alpha beta"
}

#[test]
fn asym_words_zero_zero() {
    let content = "alpha <!--- x ---> beta";
    let result = resolve(content, 6, 18, &Scope::AsymWords(0, 0), "en", ResolutionMode::Backward);
    assert_eq!(result, None);
}

#[test]
fn asym_words_forward_clamps_to_eof() {
    let content = "alpha beta <!--- n: 0_5 | x ---> gamma delta";
    let result = resolve(content, 11, 32, &Scope::AsymWords(0, 5), "en", ResolutionMode::Backward);
    assert_eq!(result, Some((33, 44))); // "gamma delta" — all that's available
}

#[test]
fn asym_words_no_text_after() {
    let content = "alpha beta <!--- n: 1_1 | x --->";
    let result = resolve(content, 11, 32, &Scope::AsymWords(1, 1), "en", ResolutionMode::Backward);
    assert_eq!(result, Some((6, 10))); // backward "beta" only; forward side empty
}

// ── Asymmetric paragraphs ──

#[test]
fn asym_paragraph_spec_example() {
    // Spec: `2\p1` targets A and B above, plus one paragraph below
    let content = "Paragraph A.\n\nParagraph B.\n\n<!--- n: 2\\p1 | x --->\n\nParagraph C.\n\nParagraph D.";
    let ann = content.find("<!---").unwrap();
    let ann_end = ann + "<!--- n: 2\\p1 | x --->".len();
    let result = resolve(content, ann, ann_end, &Scope::AsymParagraph(2, 1), "en", ResolutionMode::Backward);
    let c_end = content.find("Paragraph C.").unwrap() + "Paragraph C.".len();
    assert_eq!(result, Some((0, c_end)));
}

#[test]
fn asym_paragraph_forward_only() {
    let content = "Paragraph A.\n\n<!--- n: 0\\p2 | x --->\n\nParagraph C.\n\nParagraph D.\n\nParagraph E.";
    let ann = content.find("<!---").unwrap();
    let ann_end = ann + "<!--- n: 0\\p2 | x --->".len();
    let result = resolve(content, ann, ann_end, &Scope::AsymParagraph(0, 2), "en", ResolutionMode::Backward);
    let c_start = content.find("Paragraph C.").unwrap();
    let d_end = content.find("Paragraph D.").unwrap() + "Paragraph D.".len();
    assert_eq!(result, Some((c_start, d_end)));
}

#[test]
fn asym_paragraph_backward_only() {
    let content = "Paragraph A.\n\nParagraph B.\n\n<!--- n: 2\\p0 | x --->\n\nParagraph C.";
    let ann = content.find("<!---").unwrap();
    let ann_end = ann + "<!--- n: 2\\p0 | x --->".len();
    let result = resolve(content, ann, ann_end, &Scope::AsymParagraph(2, 0), "en", ResolutionMode::Backward);
    let b_end = content.find("Paragraph B.").unwrap() + "Paragraph B.".len();
    assert_eq!(result, Some((0, b_end)));
}

#[test]
fn asym_paragraph_forward_clamps_to_eof() {
    let content = "A.\n\n<!--- n: 0\\p9 | x --->\n\nOnly one after.";
    let ann = content.find("<!---").unwrap();
    let ann_end = ann + "<!--- n: 0\\p9 | x --->".len();
    let result = resolve(content, ann, ann_end, &Scope::AsymParagraph(0, 9), "en", ResolutionMode::Backward);
    let start = content.find("Only one after.").unwrap();
    assert_eq!(result, Some((start, content.len())));
}

#[test]
fn asym_paragraph_mid_paragraph_forward_rest() {
    // Annotation mid-paragraph: forward 1 = rest of the current paragraph
    let content = "Before text <!--- n: 0\\p1 | x ---> rest of paragraph.\n\nNext para.";
    let ann = content.find("<!---").unwrap();
    let ann_end = ann + "<!--- n: 0\\p1 | x --->".len();
    let result = resolve(content, ann, ann_end, &Scope::AsymParagraph(0, 1), "en", ResolutionMode::Backward);
    let start = content.find("rest of").unwrap();
    let end = content.find("rest of paragraph.").unwrap() + "rest of paragraph.".len();
    assert_eq!(result, Some((start, end)));
}

// ── Asymmetric pages ──

#[test]
fn asym_page_before_and_after() {
    let content = "One.\x0CTwo.<!--- n: 1\\f1 | x ---> more.\x0CThree.\x0CFour.";
    let ann = 9;
    let ann_end = ann + "<!--- n: 1\\f1 | x --->".len();
    let result = resolve(content, ann, ann_end, &Scope::AsymPage(1, 1), "en", ResolutionMode::Backward);
    // backward: "Two." (5..9); forward: " more." to the next form feed
    let fwd_end = content.find(" more.").unwrap() + " more.".len();
    assert_eq!(result, Some((5, fwd_end)));
}

#[test]
fn asym_page_forward_two() {
    let content = "One.\x0CTwo.<!--- n: 0\\f2 | x ---> more.\x0CThree.\x0CFour.";
    let ann = 9;
    let ann_end = ann + "<!--- n: 0\\f2 | x --->".len();
    let result = resolve(content, ann, ann_end, &Scope::AsymPage(0, 2), "en", ResolutionMode::Backward);
    let start = content.find("more.").unwrap();
    let end = content.find("Three.").unwrap() + "Three.".len();
    assert_eq!(result, Some((start, end)));
}

#[test]
fn asym_page_spec_backward_only() {
    // Spec: `2\f0` — 2 pages before, 0 after
    let content = "One.\x0CTwo.<!--- n: 2\\f0 | x --->\x0CThree.";
    let ann = 9;
    let ann_end = ann + "<!--- n: 2\\f0 | x --->".len();
    let result = resolve(content, ann, ann_end, &Scope::AsymPage(2, 0), "en", ResolutionMode::Backward);
    assert_eq!(result, Some((0, 9))); // "One.\x0CTwo."
}

// ── Asymmetric sentences ──

#[test]
fn asym_sentence_before_and_after() {
    let content = "First one. Second two. <!--- n: 1\\s1 | x ---> Third three. Fourth four.";
    let ann = content.find("<!---").unwrap();
    let ann_end = ann + "<!--- n: 1\\s1 | x --->".len();
    let result = resolve(content, ann, ann_end, &Scope::AsymSentence(1, 1), "en", ResolutionMode::Backward);
    let back_start = content.find("Second two.").unwrap();
    let fwd_end = content.find("Third three.").unwrap() + "Third three.".len();
    assert_eq!(result, Some((back_start, fwd_end)));
}

#[test]
fn asym_sentence_spec_forward_only() {
    // Spec: `0\s2` — 0 sentences before, 2 after (forward only)
    let content = "First one. Second two. <!--- n: 0\\s2 | x ---> Third three. Fourth four.";
    let ann = content.find("<!---").unwrap();
    let ann_end = ann + "<!--- n: 0\\s2 | x --->".len();
    let result = resolve(content, ann, ann_end, &Scope::AsymSentence(0, 2), "en", ResolutionMode::Backward);
    let start = content.find("Third three.").unwrap();
    assert_eq!(result, Some((start, content.len())));
}

#[test]
fn asym_sentence_forward_clamps_to_paragraph() {
    let content = "A one. <!--- n: 0\\s5 | x ---> B two. C three.\n\nNew paragraph sentence.";
    let ann = content.find("<!---").unwrap();
    let ann_end = ann + "<!--- n: 0\\s5 | x --->".len();
    let result = resolve(content, ann, ann_end, &Scope::AsymSentence(0, 5), "en", ResolutionMode::Backward);
    let start = content.find("B two.").unwrap();
    let end = content.find("C three.").unwrap() + "C three.".len();
    assert_eq!(result, Some((start, end)));
}

#[test]
fn asym_sentence_forward_double_spaces() {
    // The sentenza whitespace pitfall applies to forward resolution too
    let content = "Intro. <!--- n: 0\\s1 | x ---> Forward  has  double  spaces. Tail.";
    let ann = content.find("<!---").unwrap();
    let ann_end = ann + "<!--- n: 0\\s1 | x --->".len();
    let result = resolve(content, ann, ann_end, &Scope::AsymSentence(0, 1), "en", ResolutionMode::Backward);
    let start = content.find("Forward").unwrap();
    let end = content.find("spaces.").unwrap() + "spaces.".len();
    assert_eq!(result, Some((start, end)));
}

// ── Sentence scope with whitespace normalization ──

#[test]
fn sentence_with_double_spaces() {
    // Double spaces (common in LaTeX paste) caused find() to fail because sentenza
    // collapses \s{2,} to a single space during preprocessing.
    let content = "Maximum depth  $d = 5$  and composition.<!-- n: | note -->";
    let ann_start = content.find("<!--").unwrap();
    let result = resolve(content, ann_start, content.len(), &Scope::Sentence(1), "en", ResolutionMode::Backward);
    assert!(result.is_some(), "scope should resolve despite double spaces");
    let (start, end) = result.unwrap();
    assert_eq!(start, 0);
    assert_eq!(end, ann_start);
}

#[test]
fn sentence_double_spaces_multi_sentence() {
    let content = "First sentence. Second  has  double  spaces.<!-- n: | note -->";
    let ann_start = content.find("<!--").unwrap();
    let result = resolve(content, ann_start, content.len(), &Scope::Sentence(1), "en", ResolutionMode::Backward);
    assert!(result.is_some());
    let (start, end) = result.unwrap();
    // Should highlight only the second sentence (with its original double spaces)
    assert_eq!(start, 16); // after "First sentence. "
    assert_eq!(end, ann_start);
}

// ── HTML comment blanking in sentence scope (issue #14) ──

#[test]
fn sentence_backward_comment_in_same_paragraph() {
    // Exact repro from issue #14: an earlier annotation in the same
    // paragraph gets mangled by sentenza preprocessing (`<!---` → `<!—`),
    // so the sentence containing it could not be located and the whole
    // paragraph failed to resolve.
    let content = "Some text here. Final sentence. <!--- n | first note --->\n\n<!--- n | second note --->\n\nNext paragraph.";
    let ann = content.rfind("<!--- n | second note --->").unwrap();
    let ann_end = ann + "<!--- n | second note --->".len();
    let result = resolve(content, ann, ann_end, &Scope::Sentence(1), "en", ResolutionMode::Backward);
    let start = content.find("Final sentence.").unwrap();
    assert_eq!(result, Some((start, start + "Final sentence.".len())));
}

#[test]
fn sentence_backward_comment_inside_sentence() {
    // A comment interrupting the target sentence is blanked away; the
    // resolved range still covers the interrupted sentence end to end.
    let content = "First one. Beta <!--- n | x ---> sentence continues here.<!--- target --->";
    let ann = content.find("<!--- target --->").unwrap();
    let result = resolve(content, ann, content.len(), &Scope::Sentence(1), "en", ResolutionMode::Backward);
    let start = content.find("Beta").unwrap();
    let end = content.find("here.").unwrap() + "here.".len();
    assert_eq!(result, Some((start, end)));
}

// ── ws_flexible_find unit tests ──

#[test]
fn ws_flex_exact_match() {
    assert_eq!(ws_flexible_find("hello world", "hello world", 0), Some((0, 11)));
}

#[test]
fn ws_flex_double_space_in_haystack() {
    assert_eq!(ws_flexible_find("hello  world", "hello world", 0), Some((0, 12)));
}

#[test]
fn ws_flex_multiple_double_spaces() {
    assert_eq!(ws_flexible_find("a  b  c", "a b c", 0), Some((0, 7)));
}

#[test]
fn ws_flex_start_offset() {
    assert_eq!(ws_flexible_find("xx hello  world", "hello world", 3), Some((3, 15)));
}

#[test]
fn ws_flex_no_match() {
    assert_eq!(ws_flexible_find("hello world", "goodbye", 0), None);
}

// ── blank_comments ──

#[test]
fn blank_comments_triple_dash() {
    let input = "p <!--- note ---> q";
    let out = blank_comments(input);
    assert!(!out.contains("<!---"), "annotation comment must be blanked");
    assert_eq!(out.len(), input.len(), "blanking must preserve byte length");
    assert_eq!(&out[0..1], "p");
    assert_eq!(&out[18..19], "q");
}

#[test]
fn blank_comments_standard_comment_untouched() {
    let input = "a <!-- x --> b";
    assert_eq!(blank_comments(input), input);
}

#[test]
fn blank_comments_unclosed() {
    let input = "keep <!--- oops";
    let out = blank_comments(input);
    assert_eq!(out.len(), input.len());
    assert_eq!(out, format!("keep {}", " ".repeat(input.len() - 5)));
}

#[test]
fn blank_comments_multiple() {
    let input = "One. <!--- a ---> Two. <!--- b ---> Three.";
    let out = blank_comments(input);
    assert_eq!(out.len(), input.len());
    assert!(!out.contains("<!---"));
    assert_eq!(&out[0..4], "One.");
    let two = input.find("Two.").unwrap();
    assert_eq!(&out[two..two + 4], "Two.");
    let three = input.find("Three.").unwrap();
    assert_eq!(&out[three..three + 6], "Three.");
}

#[test]
fn blank_comments_multibyte_inside() {
    let input = "café <!--- naïve ---> x";
    let out = blank_comments(input);
    assert_eq!(out.len(), input.len(), "byte length preserved with multibyte content");
    assert!(!out.contains("<!---"));
    assert!(out.starts_with("café "));
    assert!(out.ends_with(" x"));
}

#[test]
fn blank_comments_no_comment() {
    let input = "plain text, nothing to blank.";
    assert_eq!(blank_comments(input), input);
}

