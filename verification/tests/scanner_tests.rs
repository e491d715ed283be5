use annotation_core::scanner::scan_comments;


// === Basic scanning ===

#[test]
fn single_line_comment() {
    let doc = "hello <!-- world --> end";
    let comments = scan_comments(doc);
    assert_eq!(comments.len(), 1);
    assert_eq!(comments[0].inner, "world");
    assert_eq!(comments[0].original, "<!-- world -->");
    assert_eq!(comments[0].char_start, 6);
    assert_eq!(comments[0].char_end, 20);
}

#[test]
fn multi_line_comment() {
    let doc = "before\n<!--\nfoo\nbar\n-->\nafter";
    let comments = scan_comments(doc);
    assert_eq!(comments.len(), 1);
    assert_eq!(comments[0].inner, "foo\nbar");
    assert_eq!(comments[0].original, "<!--\nfoo\nbar\n-->");
    assert_eq!(comments[0].char_start, 7); // after "before\n"
}

#[test]
fn multiple_comments() {
    let doc = "<!-- a --> text <!-- b -->";
    let comments = scan_comments(doc);
    assert_eq!(comments.len(), 2);
    assert_eq!(comments[0].inner, "a");
    assert_eq!(comments[1].inner, "b");
}

#[test]
fn empty_document() {
    assert_eq!(scan_comments("").len(), 0);
}

#[test]
fn no_comments() {
    assert_eq!(scan_comments("just regular text").len(), 0);
}

#[test]
fn empty_comment() {
    let comments = scan_comments("<!--  -->");
    assert_eq!(comments.len(), 1);
    assert_eq!(comments[0].inner, "");
}

#[test]
fn comment_no_spaces() {
    let comments = scan_comments("<!--text-->");
    assert_eq!(comments.len(), 1);
    assert_eq!(comments[0].inner, "text");
}

// === Code fence skipping ===

#[test]
fn skip_comment_in_backtick_fence() {
    let doc = "before\n```\n<!-- skip -->\n```\nafter <!-- keep -->";
    let comments = scan_comments(doc);
    assert_eq!(comments.len(), 1);
    assert_eq!(comments[0].inner, "keep");
}

#[test]
fn skip_comment_in_tilde_fence() {
    let doc = "~~~\n<!-- skip -->\n~~~\n<!-- keep -->";
    let comments = scan_comments(doc);
    assert_eq!(comments.len(), 1);
    assert_eq!(comments[0].inner, "keep");
}

#[test]
fn skip_comment_in_four_backtick_fence() {
    let doc = "````\n```\n<!-- skip -->\n```\n````\n<!-- keep -->";
    let comments = scan_comments(doc);
    assert_eq!(comments.len(), 1);
    assert_eq!(comments[0].inner, "keep");
}

#[test]
fn fence_with_language_tag() {
    let doc = "```rust\n<!-- skip -->\n```\n<!-- keep -->";
    let comments = scan_comments(doc);
    assert_eq!(comments.len(), 1);
    assert_eq!(comments[0].inner, "keep");
}

// === raw: opt-out ===

#[test]
fn skip_raw_comment() {
    let doc = "<!-- raw: this is raw --> <!-- keep -->";
    let comments = scan_comments(doc);
    assert_eq!(comments.len(), 1);
    assert_eq!(comments[0].inner, "keep");
}

#[test]
fn raw_prefix_case_sensitive() {
    let doc = "<!-- Raw: keep -->";
    let comments = scan_comments(doc);
    assert_eq!(comments.len(), 1);
}

// === UTF-16 offsets ===

#[test]
fn utf16_offsets_ascii() {
    let doc = "ab <!-- c --> de";
    let comments = scan_comments(doc);
    assert_eq!(comments[0].char_start, 3);
    assert_eq!(comments[0].char_end, 13);
}

#[test]
fn utf16_offsets_cjk() {
    // CJK chars: 1 UTF-16 code unit each
    // "<!-- note -->" = 13 chars
    let doc = "你好<!-- note -->";
    let comments = scan_comments(doc);
    assert_eq!(comments[0].char_start, 2);
    assert_eq!(comments[0].char_end, 15); // 2 + 13
}

#[test]
fn utf16_offsets_emoji() {
    // 🎉 = U+1F389 = 2 UTF-16 code units
    // "<!-- hi -->" = 11 chars
    let doc = "🎉<!-- hi -->";
    let comments = scan_comments(doc);
    assert_eq!(comments[0].char_start, 2);
    assert_eq!(comments[0].char_end, 13); // 2 + 11
}

#[test]
fn utf16_offsets_mixed() {
    // "a你🎉" = 1 + 1 + 2 = 4 UTF-16 units
    let doc = "a你🎉<!-- x -->";
    let comments = scan_comments(doc);
    assert_eq!(comments[0].char_start, 4);
}

// === Edge cases ===

#[test]
fn unclosed_comment() {
    let doc = "<!-- no end";
    assert_eq!(scan_comments(doc).len(), 0);
}

#[test]
fn comment_at_document_start() {
    let doc = "<!-- first -->";
    let comments = scan_comments(doc);
    assert_eq!(comments[0].char_start, 0);
}

#[test]
fn adjacent_comments() {
    let doc = "<!-- a --><!-- b -->";
    let comments = scan_comments(doc);
    assert_eq!(comments.len(), 2);
    assert_eq!(comments[0].inner, "a");
    assert_eq!(comments[1].inner, "b");
}

#[test]
fn comment_after_multiline() {
    let doc = "<!--\nblock\n-->\n<!-- inline -->";
    let comments = scan_comments(doc);
    assert_eq!(comments.len(), 2);
    assert_eq!(comments[0].inner, "block");
    assert_eq!(comments[1].inner, "inline");
}

