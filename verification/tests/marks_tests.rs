use annotation_core::marks::{marks_from_document, parse_marks_toml, MarkDefinition, TomlValue};

fn find<'a>(defs: &'a [(String, MarkDefinition)], code: &str) -> Option<&'a MarkDefinition> {
    defs.iter().find(|(c, _)| c == code).map(|(_, d)| d)
}

fn style_get<'a>(def: &'a MarkDefinition, key: &str) -> Option<&'a String> {
    def.style.iter().find(|(k, _)| k == key).map(|(_, v)| v)
}

#[test]
fn parses_spec_example() {
    let input = r#"
[mymark]
label = "my custom mark"
icon = "M"
[mymark.style]
color = "purple"
font-weight = "bold"
"#;
    let defs = parse_marks_toml(input).unwrap();
    let def = find(&defs, "mymark").unwrap();
    assert_eq!(def.label, "my custom mark");
    assert_eq!(def.icon, Some("M".to_string()));
    assert_eq!(style_get(def, "color"), Some(&"purple".to_string()));
    assert_eq!(style_get(def, "font-weight"), Some(&"bold".to_string()));
}

#[test]
fn parses_multiple_marks() {
    let input = r#"
[alpha]
label = "alpha mark"

[beta]
label = "beta mark"
[beta.style]
color = "red"
"#;
    let defs = parse_marks_toml(input).unwrap();
    assert_eq!(defs.len(), 2);
    assert_eq!(find(&defs, "alpha").unwrap().label, "alpha mark");
    assert!(find(&defs, "alpha").unwrap().style.is_empty());
    assert_eq!(style_get(find(&defs, "beta").unwrap(), "color"), Some(&"red".to_string()));
}

#[test]
fn invalid_toml_returns_none() {
    assert_eq!(parse_marks_toml("[unclosed"), None);
    assert_eq!(parse_marks_toml("not = = toml"), None);
}

#[test]
fn missing_label_defaults_to_code() {
    let input = "[nolabel]\n[nolabel.style]\ncolor = \"blue\"\n";
    let defs = parse_marks_toml(input).unwrap();
    assert_eq!(find(&defs, "nolabel").unwrap().label, "nolabel");
}

#[test]
fn non_lowercase_codes_skipped() {
    // The parser only matches ascii-lowercase tokens in the type slot,
    // so codes that could never match are rejected at load time
    let input = "[MyMark]\nlabel = \"x\"\n\n[ok]\nlabel = \"y\"\n\n[with_underscore]\nlabel = \"z\"\n";
    let defs = parse_marks_toml(input).unwrap();
    assert!(find(&defs, "MyMark").is_none());
    assert!(find(&defs, "with_underscore").is_none());
    assert!(find(&defs, "ok").is_some());
}

#[test]
fn non_string_style_values_skipped() {
    let input = "[m]\nlabel = \"x\"\n[m.style]\ncolor = \"red\"\nweight = 700\n";
    let defs = parse_marks_toml(input).unwrap();
    let def = find(&defs, "m").unwrap();
    assert_eq!(style_get(def, "color"), Some(&"red".to_string()));
    assert!(style_get(def, "weight").is_none());
}

#[test]
fn empty_input_is_empty_map() {
    let defs = parse_marks_toml("").unwrap();
    assert!(defs.is_empty());
}

// Entries come out sorted by code, and a top-level value that is not a
// table of fields (a bare value) is skipped.
#[test]
fn entries_in_table_order_and_non_tables_skipped() {
    let input = "top = \"x\"\n[zeta]\nlabel = \"z\"\n[alpha]\nicon = \"A\"\n";
    let defs = parse_marks_toml(input).unwrap();
    let codes: Vec<&str> = defs.iter().map(|(c, _)| c.as_str()).collect();
    assert_eq!(codes, vec!["alpha", "zeta"]);
    assert_eq!(find(&defs, "alpha").unwrap().label, "alpha");
    assert_eq!(find(&defs, "alpha").unwrap().icon, Some("A".to_string()));
    assert_eq!(find(&defs, "zeta").unwrap().icon, None);
}

#[test]
fn non_string_label_falls_back_to_code() {
    let defs = parse_marks_toml("[k]\nlabel = 3\n").unwrap();
    assert_eq!(find(&defs, "k").unwrap().label, "k");
}

#[test]
fn definitions_from_a_given_document() {
    let doc = TomlValue::Table(vec![
        ("b".to_string(), TomlValue::Table(vec![("label".to_string(), TomlValue::Str("B".to_string()))])),
        ("X".to_string(), TomlValue::Table(vec![])),
        ("c".to_string(), TomlValue::Other),
    ]);
    let defs = marks_from_document(Some(doc)).unwrap();
    assert_eq!(defs.len(), 1);
    assert_eq!(defs[0].0, "b");
    assert_eq!(defs[0].1.label, "B");
    assert!(marks_from_document(Some(TomlValue::Other)).is_none());
    assert!(marks_from_document(None).is_none());
}

#[test]
fn style_pairs_sorted_by_property() {
    let defs = parse_marks_toml("[m]\n[m.style]\nz-index = \"1\"\ncolor = \"red\"\nborder = \"none\"\n").unwrap();
    let keys: Vec<&str> = find(&defs, "m").unwrap().style.iter().map(|(k, _)| k.as_str()).collect();
    assert_eq!(keys, vec!["border", "color", "z-index"]);
}
