use annotation_core::migrate::migrate_content;


#[test]
fn converts_structured_comment() {
    let result = migrate_content("<!-- n: | note -->");
    assert_eq!(result.output, "<!--- n: | note --->");
    assert_eq!(result.conversions, 1);
}

#[test]
fn preserves_plain_prose_comment() {
    let result = migrate_content("<!-- fix this later -->");
    assert_eq!(result.output, "<!-- fix this later -->");
    assert_eq!(result.conversions, 0);
}

#[test]
fn preserves_raw_comment() {
    let result = migrate_content("<!-- raw: build marker -->");
    assert_eq!(result.output, "<!-- raw: build marker -->");
    assert_eq!(result.conversions, 0);
}

#[test]
fn idempotent_on_triple_dash() {
    let result = migrate_content("<!--- n: | note --->");
    assert_eq!(result.output, "<!--- n: | note --->");
    assert_eq!(result.conversions, 0);
}

#[test]
fn skips_comment_in_code_fence() {
    let doc = "```\n<!-- n: | fenced -->\n```\n<!-- n: | outside -->";
    let result = migrate_content(doc);
    assert_eq!(
        result.output,
        "```\n<!-- n: | fenced -->\n```\n<!--- n: | outside --->"
    );
    assert_eq!(result.conversions, 1);
}

#[test]
fn mixed_partial_vault() {
    let result = migrate_content("<!--- n: done ---> <!-- q? todo -->");
    assert_eq!(result.output, "<!--- n: done ---> <!--- q? todo --->");
    assert_eq!(result.conversions, 1);
}

#[test]
fn preserves_multiline_block_form() {
    let result = migrate_content("<!--\nn!\n---\nbody\n-->");
    assert_eq!(result.output, "<!---\nn!\n---\nbody\n--->");
    assert_eq!(result.conversions, 1);
}

#[test]
fn leaves_unclosed_comment() {
    let result = migrate_content("<!-- n: no end");
    assert_eq!(result.output, "<!-- n: no end");
    assert_eq!(result.conversions, 0);
}

#[test]
fn double_run_is_noop() {
    let doc = "\
Intro.<!-- n: _ | note @2026-03 -->

<!-- plain prose -->

<!-- raw: marker -->

```
<!-- n: | fenced -->
```

<!--
todo!
---
Block body.
-->

<!--- q? already migrated --->
";
    let first = migrate_content(doc);
    assert_eq!(first.conversions, 2); // compact note + block todo
    let second = migrate_content(&first.output);
    assert_eq!(second.conversions, 0);
    assert_eq!(second.output, first.output);
}


#[test]
fn output_grows_by_two_dashes_per_conversion() {
    let doc = "a <!-- n: | x --> b <!-- plain --> c <!-- q? y -->";
    let r = migrate_content(doc);
    assert_eq!(r.conversions, 2);
    assert_eq!(r.output.chars().count(), doc.chars().count() + 2 * r.conversions);
    assert_eq!(r.output, "a <!--- n: | x ---> b <!-- plain --> c <!--- q? y --->");
}

#[test]
fn second_run_converts_nothing() {
    let doc = "Text <!-- n: _ | note --> more <!-- hi __ --> end <!--\ntodo!\n---\nbody\n-->\n~~~~\n<!-- q? fenced -->\n~~~~\n<!-- n: | a\n```-->";
    let first = migrate_content(doc);
    assert_eq!(first.conversions, 4);
    let second = migrate_content(&first.output);
    assert_eq!(second.conversions, 0);
    assert_eq!(second.output, first.output);
}

// A converted comment that holds another comment opening: the second run
// finds the inner opening and converts it as well.
#[test]
fn nested_opening_is_converted_on_second_run() {
    let first = migrate_content("<!-- n: | a <!-- q? b -->");
    assert_eq!(first.output, "<!--- n: | a <!-- q? b --->");
    assert_eq!(first.conversions, 1);
    let second = migrate_content(&first.output);
    assert_eq!(second.conversions, 1);
}

#[test]
fn empty_document_is_unchanged() {
    let r = migrate_content("");
    assert_eq!(r.output, "");
    assert_eq!(r.conversions, 0);
}
