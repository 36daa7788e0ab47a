//! Tests of the archive pipeline: filling a zip-packaged document in memory.

use std::io::{Cursor, Read, Write};
use docxide_template::{build_docx_bytes, fill_entries, ArchiveEntry, TemplateError};

fn pairs(list: &[(&str, &str)]) -> Vec<(String, String)> {
    let mut v: Vec<(String, String)> = Vec::new();
    for (t, r) in list {
        v.push((t.to_string(), r.to_string()));
    }
    v
}

fn make_zip(entries: &[(&str, &[u8])]) -> Vec<u8> {
    let mut writer = zip::write::ZipWriter::new(Cursor::new(Vec::new()));
    let options = zip::write::SimpleFileOptions::default();
    for (name, content) in entries {
        writer.start_file(*name, options).unwrap();
        writer.write_all(content).unwrap();
    }
    writer.finish().unwrap().into_inner()
}

fn read_entry(bytes: &[u8], name: &str) -> Vec<u8> {
    let mut archive = zip::ZipArchive::new(Cursor::new(bytes)).unwrap();
    let mut content = Vec::new();
    archive.by_name(name).unwrap().read_to_end(&mut content).unwrap();
    content
}

fn entry_names(bytes: &[u8]) -> Vec<String> {
    let mut archive = zip::ZipArchive::new(Cursor::new(bytes)).unwrap();
    let mut names = Vec::new();
    for i in 0..archive.len() {
        names.push(archive.by_index(i).unwrap().name().to_string());
    }
    names
}

#[test]
fn fills_markup_entry_in_archive() {
    let input = make_zip(&[("word/document.xml", b"<w:t>Hello {Name}!</w:t>")]);
    let out = build_docx_bytes(&input, &pairs(&[("{Name}", "Alice")])).unwrap();
    assert_eq!(read_entry(&out, "word/document.xml"), b"<w:t>Hello Alice!</w:t>".to_vec());
}

#[test]
fn fills_rels_entry_in_archive() {
    let input = make_zip(&[("word/_rels/document.xml.rels", b"<w:t>{Id}</w:t>")]);
    let out = build_docx_bytes(&input, &pairs(&[("{Id}", "r7")])).unwrap();
    assert_eq!(read_entry(&out, "word/_rels/document.xml.rels"), b"<w:t>r7</w:t>".to_vec());
}

#[test]
fn non_markup_entries_pass_through_byte_identical() {
    let media: &[u8] = &[0u8, 159, 146, 150, 255, 1, 2, 3];
    let input = make_zip(&[
        ("word/document.xml", b"<w:t>{Name}</w:t>"),
        ("word/media/image1.png", media),
        ("word/notes.txt", b"{Name} stays"),
    ]);
    let out = build_docx_bytes(&input, &pairs(&[("{Name}", "Alice")])).unwrap();
    assert_eq!(read_entry(&out, "word/media/image1.png"), media.to_vec());
    assert_eq!(read_entry(&out, "word/notes.txt"), b"{Name} stays".to_vec());
}

#[test]
fn output_is_valid_archive_with_same_names_in_order() {
    let input = make_zip(&[
        ("[Content_Types].xml", b"<Types/>"),
        ("word/document.xml", b"<w:t>{Name}</w:t>"),
        ("word/media/image1.png", &[1u8, 2, 3]),
        ("word/_rels/document.xml.rels", b"<Relationships/>"),
    ]);
    let out = build_docx_bytes(&input, &pairs(&[("{Name}", "Alice")])).unwrap();
    assert_eq!(entry_names(&out), entry_names(&input));
}

#[test]
fn satisfied_token_leaves_no_occurrence_in_markup() {
    let input = make_zip(&[
        ("word/document.xml", b"<w:t>{Name} and {Na</w:t><w:t>me}</w:t>"),
        ("word/header1.xml", b"<w:t>{Name}</w:t>"),
    ]);
    let out = build_docx_bytes(&input, &pairs(&[("{Name}", "Alice")])).unwrap();
    let doc = String::from_utf8(read_entry(&out, "word/document.xml")).unwrap();
    let header = String::from_utf8(read_entry(&out, "word/header1.xml")).unwrap();
    assert!(!doc.contains("{Name}"), "token still present: {doc}");
    assert!(!header.contains("{Name}"), "token still present: {header}");
    assert!(doc.contains("Alice"));
    assert!(header.contains("Alice"));
}

#[test]
fn empty_bindings_keep_markup_entries_byte_identical() {
    let input = make_zip(&[("word/document.xml", b"<w:t>{Name}</w:t>")]);
    let out = build_docx_bytes(&input, &pairs(&[])).unwrap();
    assert_eq!(read_entry(&out, "word/document.xml"), b"<w:t>{Name}</w:t>".to_vec());
}

#[test]
fn garbage_input_gives_format_error() {
    let result = build_docx_bytes(b"this is not an archive", &pairs(&[]));
    assert_eq!(result.unwrap_err(), TemplateError::Format);
}

#[test]
fn invalid_utf8_markup_entry_gives_encoding_error() {
    let input = make_zip(&[("word/document.xml", &[0xffu8, 0xfe, 0x00, 0x80])]);
    let result = build_docx_bytes(&input, &pairs(&[("{Name}", "Alice")]));
    assert_eq!(result.unwrap_err(), TemplateError::Encoding);
}

#[test]
fn invalid_utf8_non_markup_entry_is_fine() {
    let input = make_zip(&[("data.bin", &[0xffu8, 0xfe, 0x00, 0x80])]);
    let out = build_docx_bytes(&input, &pairs(&[("{Name}", "Alice")])).unwrap();
    assert_eq!(read_entry(&out, "data.bin"), vec![0xffu8, 0xfe, 0x00, 0x80]);
}

#[test]
fn error_messages_name_the_stage() {
    assert!(TemplateError::Format.message().contains("archive"));
    assert!(TemplateError::Encoding.message().contains("UTF-8"));
    assert!(TemplateError::Io.message().contains("put") || TemplateError::Io.message().contains("failed"));
}

#[test]
fn fill_entries_rewrites_only_markup() {
    let entries = vec![
        ArchiveEntry { name: "word/document.xml".to_string(), content: b"<w:t>{X}</w:t>".to_vec() },
        ArchiveEntry { name: "word/raw.dat".to_string(), content: b"<w:t>{X}</w:t>".to_vec() },
    ];
    let out = fill_entries(entries, &pairs(&[("{X}", "y")])).unwrap();
    assert_eq!(out[0].name, "word/document.xml");
    assert_eq!(out[0].content, b"<w:t>y</w:t>".to_vec());
    assert_eq!(out[1].name, "word/raw.dat");
    assert_eq!(out[1].content, b"<w:t>{X}</w:t>".to_vec());
}

#[test]
fn fill_entries_rejects_invalid_markup_text() {
    let entries = vec![
        ArchiveEntry { name: "word/document.xml".to_string(), content: vec![0xc3, 0x28] },
    ];
    let result = fill_entries(entries, &pairs(&[]));
    assert_eq!(result.unwrap_err(), TemplateError::Encoding);
}

#[test]
fn identical_inputs_give_byte_identical_output() {
    let input = make_zip(&[
        ("word/document.xml", b"<w:t>Hello {Name}!</w:t>"),
        ("word/media/image1.png", &[9u8, 8, 7]),
    ]);
    let first = build_docx_bytes(&input, &pairs(&[("{Name}", "Alice")])).unwrap();
    let second = build_docx_bytes(&input, &pairs(&[("{Name}", "Alice")])).unwrap();
    assert_eq!(first, second);
}
