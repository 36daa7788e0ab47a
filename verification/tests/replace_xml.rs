//! Tests of the placeholder-substitution engine on single XML fragments.

use docxide_template::replace_placeholders_in_xml;

fn pairs(list: &[(&str, &str)]) -> Vec<(String, String)> {
    let mut v: Vec<(String, String)> = Vec::new();
    for (t, r) in list {
        v.push((t.to_string(), r.to_string()));
    }
    v
}

#[test]
fn replace_single_run_placeholder() {
    let xml = r#"<w:t>{Name}</w:t>"#;
    let result = replace_placeholders_in_xml(xml, &pairs(&[("{Name}", "Alice")]));
    assert_eq!(result, r#"<w:t>Alice</w:t>"#);
}

#[test]
fn replace_placeholder_split_across_runs() {
    let xml = r#"<w:t>{Na</w:t><w:t>me}</w:t>"#;
    let result = replace_placeholders_in_xml(xml, &pairs(&[("{Name}", "Alice")]));
    assert_eq!(result, r#"<w:t>Alice</w:t><w:t></w:t>"#);
}

#[test]
fn replace_placeholder_with_inner_whitespace() {
    let xml = r#"<w:t>Hello { Name }!</w:t>"#;
    let result = replace_placeholders_in_xml(xml, &pairs(&[("{ Name }", "Alice")]));
    assert_eq!(result, r#"<w:t>Hello Alice!</w:t>"#);
}

#[test]
fn replace_both_whitespace_variants() {
    let xml = r#"<w:t>{Name} and { Name }</w:t>"#;
    let result = replace_placeholders_in_xml(
        xml,
        &pairs(&[("{Name}", "Alice"), ("{ Name }", "Alice")]),
    );
    assert_eq!(result, r#"<w:t>Alice and Alice</w:t>"#);
}

#[test]
fn replace_multiple_placeholders() {
    let xml = r#"<w:t>Hello {First} {Last}!</w:t>"#;
    let result = replace_placeholders_in_xml(
        xml,
        &pairs(&[("{First}", "Alice"), ("{Last}", "Smith")]),
    );
    assert_eq!(result, r#"<w:t>Hello Alice Smith!</w:t>"#);
}

#[test]
fn no_placeholders_returns_unchanged() {
    let xml = r#"<w:t>No placeholders here</w:t>"#;
    let result = replace_placeholders_in_xml(xml, &pairs(&[("{Name}", "Alice")]));
    assert_eq!(result, xml);
}

#[test]
fn no_wt_tags_returns_unchanged() {
    let xml = r#"<w:p>plain paragraph</w:p>"#;
    let result = replace_placeholders_in_xml(xml, &pairs(&[("{Name}", "Alice")]));
    assert_eq!(result, xml);
}

#[test]
fn empty_replacements_returns_unchanged() {
    let xml = r#"<w:t>{Name}</w:t>"#;
    let result = replace_placeholders_in_xml(xml, &pairs(&[]));
    assert_eq!(result, xml);
}

#[test]
fn preserves_wt_attributes() {
    let xml = r#"<w:t xml:space="preserve">{Name}</w:t>"#;
    let result = replace_placeholders_in_xml(xml, &pairs(&[("{Name}", "Alice")]));
    assert_eq!(result, r#"<w:t xml:space="preserve">Alice</w:t>"#);
}

#[test]
fn empty_replacements_on_larger_document_is_identity() {
    let xml = r#"<w:p><w:r><w:t>one</w:t></w:r><w:r><w:t>two {X}</w:t></w:r></w:p>"#;
    let result = replace_placeholders_in_xml(xml, &pairs(&[]));
    assert_eq!(result, xml);
}

#[test]
fn match_split_over_three_runs() {
    let xml = r#"<w:t>{Na</w:t><w:t>m</w:t><w:t>e}</w:t>"#;
    let result = replace_placeholders_in_xml(xml, &pairs(&[("{Name}", "Alice")]));
    assert_eq!(result, r#"<w:t>Alice</w:t><w:t></w:t><w:t></w:t>"#);
}

#[test]
fn repeated_token_replaced_at_each_occurrence() {
    let xml = r#"<w:t>{X} then {X} then {X}</w:t>"#;
    let result = replace_placeholders_in_xml(xml, &pairs(&[("{X}", "y")]));
    assert_eq!(result, r#"<w:t>y then y then y</w:t>"#);
}

#[test]
fn text_outside_runs_is_untouched() {
    let xml = r#"{Name}<w:t>{Name}</w:t>{Name}"#;
    let result = replace_placeholders_in_xml(xml, &pairs(&[("{Name}", "Bo")]));
    assert_eq!(result, r#"{Name}<w:t>Bo</w:t>{Name}"#);
}

#[test]
fn later_binding_scans_pristine_text() {
    // Bindings scan the original run text, never what an earlier binding wrote.
    let xml = r#"<w:t>{A}</w:t>"#;
    let result = replace_placeholders_in_xml(xml, &pairs(&[("{A}", "{B}"), ("{B}", "no")]));
    assert_eq!(result, r#"<w:t>{B}</w:t>"#);
}

#[test]
fn empty_token_matches_nothing() {
    let xml = r#"<w:t>abc</w:t>"#;
    let result = replace_placeholders_in_xml(xml, &pairs(&[("", "x")]));
    assert_eq!(result, xml);
}

#[test]
fn replacement_with_empty_value_deletes_token() {
    let xml = r#"<w:t>a{X}b</w:t>"#;
    let result = replace_placeholders_in_xml(xml, &pairs(&[("{X}", "")]));
    assert_eq!(result, r#"<w:t>ab</w:t>"#);
}

#[test]
fn unterminated_open_tag_leaves_tail_untouched() {
    let xml = r#"<w:t>{X}</w:t><w:t>{X}"#;
    let result = replace_placeholders_in_xml(xml, &pairs(&[("{X}", "y")]));
    assert_eq!(result, r#"<w:t>y</w:t><w:t>{X}"#);
}

#[test]
fn multibyte_text_around_token_is_preserved() {
    let xml = "<w:t>número: {n}–fin</w:t>";
    let result = replace_placeholders_in_xml(xml, &pairs(&[("{n}", "π")]));
    assert_eq!(result, "<w:t>número: π–fin</w:t>");
}

#[test]
fn duplicate_tokens_rescan_the_pristine_text() {
    // Duplicate tokens are not deduplicated: each binding scans the pristine
    // text in turn, so the later binding's value is written last.
    let xml = r#"<w:t>{X}</w:t>"#;
    let result = replace_placeholders_in_xml(xml, &pairs(&[("{X}", "aa"), ("{X}", "bb")]));
    assert_eq!(result, r#"<w:t>bb</w:t>"#);
}
