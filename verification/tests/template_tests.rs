//! Tests of the template capability contract: typed values that expose a
//! source buffer and an ordered binding list, filled through the engine.

use std::io::{Cursor, Read, Write};
use docxide_template::{build_docx_bytes, DocxTemplate};

fn make_zip(entries: &[(&str, &[u8])]) -> Vec<u8> {
    let mut writer = zip::write::ZipWriter::new(Cursor::new(Vec::new()));
    let options = zip::write::SimpleFileOptions::default();
    for (name, content) in entries {
        writer.start_file(*name, options).unwrap();
        writer.write_all(content).unwrap();
    }
    writer.finish().unwrap().into_inner()
}

fn all_xml_content(docx_bytes: &[u8]) -> String {
    let cursor = Cursor::new(docx_bytes);
    let mut archive = zip::ZipArchive::new(cursor).unwrap();
    let mut combined = String::new();
    for i in 0..archive.len() {
        let mut file = archive.by_index(i).unwrap();
        let name = file.name().to_string();
        if name.ends_with(".xml") || name.ends_with(".rels") {
            let mut content = String::new();
            file.read_to_string(&mut content).unwrap();
            combined.push_str(&content);
        }
    }
    combined
}

struct TablePlaceholders {
    table_name: String,
    table_city: String,
}

impl TablePlaceholders {
    fn new(table_name: impl Into<String>, table_city: impl Into<String>) -> Self {
        Self { table_name: table_name.into(), table_city: table_city.into() }
    }
}

impl DocxTemplate for TablePlaceholders {
    fn template_source(&self) -> Vec<u8> {
        make_zip(&[(
            "word/document.xml",
            b"<w:tbl><w:tc><w:t>{table_name}</w:t></w:tc><w:tc><w:t>{table_city}</w:t></w:tc></w:tbl>",
        )])
    }

    fn replacements(&self) -> Vec<(String, String)> {
        vec![
            ("{table_name}".to_string(), self.table_name.clone()),
            ("{table_city}".to_string(), self.table_city.clone()),
        ]
    }
}

struct HeadFootTest {
    header: String,
    foo: String,
    top: String,
    bottom: String,
}

impl HeadFootTest {
    fn new(
        header: impl Into<String>,
        foo: impl Into<String>,
        top: impl Into<String>,
        bottom: impl Into<String>,
    ) -> Self {
        Self { header: header.into(), foo: foo.into(), top: top.into(), bottom: bottom.into() }
    }
}

impl DocxTemplate for HeadFootTest {
    fn template_source(&self) -> Vec<u8> {
        make_zip(&[
            ("word/document.xml", b"<w:t>{header} { foo }</w:t><w:t>{  foo  }</w:t>"),
            ("word/header1.xml", b"<w:t>{top}</w:t>"),
            ("word/footer1.xml", b"<w:t>{bottom}</w:t>"),
        ])
    }

    fn replacements(&self) -> Vec<(String, String)> {
        vec![
            ("{header}".to_string(), self.header.clone()),
            ("{ foo }".to_string(), self.foo.clone()),
            ("{  foo  }".to_string(), self.foo.clone()),
            ("{top}".to_string(), self.top.clone()),
            ("{bottom}".to_string(), self.bottom.clone()),
        ]
    }
}

struct CombinedAreas {
    body_name: String,
    cell_label: String,
    cell_value: String,
    doc_title: String,
    page_num: String,
}

impl CombinedAreas {
    fn new(
        body_name: impl Into<String>,
        cell_label: impl Into<String>,
        cell_value: impl Into<String>,
        doc_title: impl Into<String>,
        page_num: impl Into<String>,
    ) -> Self {
        Self {
            body_name: body_name.into(),
            cell_label: cell_label.into(),
            cell_value: cell_value.into(),
            doc_title: doc_title.into(),
            page_num: page_num.into(),
        }
    }
}

impl DocxTemplate for CombinedAreas {
    fn template_source(&self) -> Vec<u8> {
        make_zip(&[
            (
                "word/document.xml",
                b"<w:t>{body_name}</w:t><w:tc><w:t>{cell_label}</w:t></w:tc><w:tc><w:t>{cell_value}</w:t></w:tc>",
            ),
            ("word/header1.xml", b"<w:t>{doc_title}</w:t>"),
            ("word/footer1.xml", b"<w:t>{page_num}</w:t>"),
        ])
    }

    fn replacements(&self) -> Vec<(String, String)> {
        vec![
            ("{body_name}".to_string(), self.body_name.clone()),
            ("{cell_label}".to_string(), self.cell_label.clone()),
            ("{cell_value}".to_string(), self.cell_value.clone()),
            ("{doc_title}".to_string(), self.doc_title.clone()),
            ("{page_num}".to_string(), self.page_num.clone()),
        ]
    }
}

#[test]
fn table_placeholders_struct_has_fields() {
    let t = TablePlaceholders::new("Alice", "Oslo");
    assert_eq!(t.table_name, "Alice");
    assert_eq!(t.table_city, "Oslo");
}

#[test]
fn table_placeholders_fill_replaces() {
    let t = TablePlaceholders::new("Alice", "Oslo");
    let bytes = build_docx_bytes(&t.template_source(), &t.replacements()).unwrap();
    let xml = all_xml_content(&bytes);
    assert!(xml.contains("Alice"), "table_name not replaced");
    assert!(xml.contains("Oslo"), "table_city not replaced");
    assert!(!xml.contains("table_name"), "placeholder still present");
    assert!(!xml.contains("table_city"), "placeholder still present");
}

#[test]
fn header_footer_struct_has_fields() {
    let hf = HeadFootTest::new("My Report", "42", "Banner", "Fine Print");
    assert_eq!(hf.header, "My Report");
    assert_eq!(hf.foo, "42");
    assert_eq!(hf.top, "Banner");
    assert_eq!(hf.bottom, "Fine Print");
}

#[test]
fn header_footer_fill_replaces() {
    let hf = HeadFootTest::new("My Report", "42", "Banner", "Fine Print");
    let bytes = build_docx_bytes(&hf.template_source(), &hf.replacements()).unwrap();
    let all = all_xml_content(&bytes);
    assert!(all.contains("Banner"), "header top not replaced");
    assert!(all.contains("Fine Print"), "footer bottom not replaced");
}

#[test]
fn header_footer_replacements_include_whitespace_variants() {
    let hf = HeadFootTest::new("My Report", "42", "Banner", "Fine Print");
    let reps = hf.replacements();
    let placeholders: Vec<&str> = reps.iter().map(|(p, _)| p.as_str()).collect();
    assert!(
        placeholders.contains(&"{ foo }"),
        "missing {{ foo }} in replacements: {:?}",
        placeholders,
    );
    assert!(
        placeholders.contains(&"{  foo  }"),
        "missing {{  foo  }} in replacements: {:?}",
        placeholders,
    );
}

#[test]
fn combined_areas_struct_has_all_fields() {
    let c = CombinedAreas::new("Bob", "Item", "100", "Report", "7");
    assert_eq!(c.body_name, "Bob");
    assert_eq!(c.cell_label, "Item");
    assert_eq!(c.cell_value, "100");
    assert_eq!(c.doc_title, "Report");
    assert_eq!(c.page_num, "7");
}

#[test]
fn combined_areas_fill_replaces_all() {
    let c = CombinedAreas::new("Bob", "Item", "100", "Report", "7");
    let bytes = build_docx_bytes(&c.template_source(), &c.replacements()).unwrap();
    let all = all_xml_content(&bytes);
    assert!(all.contains("Report"), "doc_title not replaced");
    assert!(all.contains("Bob"), "body_name not replaced");
    assert!(all.contains("Item"), "cell_label not replaced");
    assert!(all.contains("100"), "cell_value not replaced");
    assert!(!all.contains("doc_title"), "placeholder still present");
    assert!(!all.contains("body_name"), "placeholder still present");
    assert!(!all.contains("cell_label"), "placeholder still present");
    assert!(!all.contains("cell_value"), "placeholder still present");
}
