use annotation_core::block::{is_block_form, parse_block};
use annotation_core::types::{AnnotationForm, AnnotationType, Certainty, Scope};


#[test]
fn basic_block() {
    let inner = "n!\n\\p\n@2026-03-28\n---\nLambert's framing maps closely to Tainter's\ncomplexity brake.";
    let ann = parse_block(inner);
    assert_eq!(ann.form, AnnotationForm::Block);
    assert_eq!(ann.annotation_type, AnnotationType::Note);
    assert_eq!(ann.certainty, Certainty::Firm);
    assert_eq!(ann.scope, Scope::Paragraph(1));
    assert_eq!(ann.date, Some("2026-03-28".to_string()));
    assert_eq!(
        ann.body,
        Some("Lambert's framing maps closely to Tainter's\ncomplexity brake.".to_string())
    );
}

#[test]
fn block_with_anchor() {
    let inner = "cf\n^\"anuttara\"\n@2026-03\n---\nPrimary parallels:\n- TĀ 3.68";
    let ann = parse_block(inner);
    assert_eq!(ann.annotation_type, AnnotationType::CrossRef);
    assert_eq!(ann.scope, Scope::Anchor("anuttara".to_string()));
    assert_eq!(ann.date, Some("2026-03".to_string()));
    assert!(ann.body.unwrap().contains("Primary parallels:"));
}

#[test]
fn block_question_tentative() {
    let inner = "q?\n@2026-03-28\n---\nIs this Jayaratha or Abhinavagupta?";
    let ann = parse_block(inner);
    assert_eq!(ann.annotation_type, AnnotationType::Question);
    assert_eq!(ann.certainty, Certainty::Tentative);
    assert_eq!(ann.body, Some("Is this Jayaratha or Abhinavagupta?".to_string()));
}

#[test]
fn block_with_multiple_body_sections() {
    let inner = "cf\n---\nFirst section.\n\n---\n\nSecond section.";
    let ann = parse_block(inner);
    assert_eq!(ann.annotation_type, AnnotationType::CrossRef);
    // Only first --- splits head/body; subsequent --- are in the body
    let body = ann.body.unwrap();
    assert!(body.contains("First section."));
    assert!(body.contains("---"));
    assert!(body.contains("Second section."));
}

#[test]
fn block_no_body() {
    let inner = "todo\n\\p\n---";
    let ann = parse_block(inner);
    assert_eq!(ann.annotation_type, AnnotationType::Todo);
    assert_eq!(ann.scope, Scope::Paragraph(1));
    assert_eq!(ann.body, None);
}

#[test]
fn block_apparatus() {
    let inner = "app\n---\nms. B reads *prakāśa* instead of *vimarśa*";
    let ann = parse_block(inner);
    assert_eq!(ann.annotation_type, AnnotationType::Apparatus);
    assert!(ann.body.unwrap().contains("ms. B reads"));
}

#[test]
fn block_date_only_head() {
    let inner = "n\n@2026-03\n---\nSome note.";
    let ann = parse_block(inner);
    assert_eq!(ann.date, Some("2026-03".to_string()));
}

#[test]
fn block_scope_underscores() {
    let inner = "n\n__\n---\nTwo words.";
    let ann = parse_block(inner);
    assert_eq!(ann.scope, Scope::Words(2));
}

#[test]
fn block_page_scope() {
    let inner = "n\n\\f\n---\nPage-level note.";
    let ann = parse_block(inner);
    assert_eq!(ann.scope, Scope::Page(1));
}

#[test]
fn block_page_scope_two() {
    let inner = "cf\n\\ff\n---\nCross-ref spanning two pages.";
    let ann = parse_block(inner);
    assert_eq!(ann.scope, Scope::Page(2));
}

#[test]
fn block_paragraph_underscore_suffix() {
    let inner = "n\n\\p__\n---\nTwo paragraphs.";
    let ann = parse_block(inner);
    assert_eq!(ann.scope, Scope::Paragraph(2));
}

#[test]
fn block_page_underscore_suffix() {
    let inner = "cf\n\\f___\n---\nThree pages.";
    let ann = parse_block(inner);
    assert_eq!(ann.scope, Scope::Page(3));
}

#[test]
fn block_paragraph_three_letters() {
    let inner = "n\n\\ppp\n---\nThree paragraphs.";
    let ann = parse_block(inner);
    assert_eq!(ann.scope, Scope::Paragraph(3));
}

// is_block_form detection

#[test]
fn detect_block_form() {
    assert!(is_block_form("n\n---\nbody"));
    assert!(is_block_form("  ---  "));
    assert!(!is_block_form("no separator here"));
    assert!(!is_block_form("text --- inline")); // not on its own line
}

