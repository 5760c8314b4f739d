use std::io::Cursor;
use std::io::Read;
use std::io::Write;

use docx_edit::Docx;
use docx_edit::DocxError;
use docx_edit::encode;
use docx_edit::replace_bytes;

fn build_zip(entries: &[(&str, &[u8])]) -> Vec<u8> {
    let mut w = zip::ZipWriter::new(Cursor::new(Vec::new()));
    let opts = zip::write::SimpleFileOptions::default()
        .compression_method(zip::CompressionMethod::Stored);
    for (name, data) in entries {
        w.start_file(*name, opts).unwrap();
        w.write_all(data).unwrap();
    }
    w.finish().unwrap().into_inner()
}

fn test_document() -> Vec<u8> {
    build_zip(&[
        ("word/document.xml", b"<w:t>Test document.</w:t>"),
        ("word/_rels/document.xml.rels", b"<Relationships/>"),
    ])
}

#[test]
fn test_replace() {
    let cases: Vec<(&str, &str, &str)> = vec![
        ("Windows line breaks", "line1\r\nline2", "line1<w:br/>line2"),
        ("Mac line breaks", "line1\rline2", "line1<w:br/>line2"),
        ("Linux line breaks", "line1\nline2", "line1<w:br/>line2"),
        ("Tabs", "line1\tline2", "line1</w:t><w:tab/><w:t>line2"),
    ];
    for (name, replace_with, expect) in cases {
        let mut doc = Docx::new(test_document()).unwrap();
        doc.replace(&b"document.".to_vec(), &replace_with.as_bytes().to_vec(), 1).unwrap();
        let out = doc.write().unwrap();
        let doc = Docx::new(out).unwrap();
        let content = String::from_utf8(doc.get_content().clone()).unwrap();
        assert!(content.contains(expect), "{} failed: {}", name, content);
    }
}

#[test]
fn encode_windows_break_exact() {
    let r = encode(&b"line1\r\nline2".to_vec());
    assert_eq!(r, b"line1<w:br/>line2".to_vec());
}

#[test]
fn encode_lone_breaks_exact() {
    assert_eq!(encode(&b"line1\rline2".to_vec()), b"line1<w:br/>line2".to_vec());
    assert_eq!(encode(&b"line1\nline2".to_vec()), b"line1<w:br/>line2".to_vec());
}

#[test]
fn encode_tab_exact() {
    let r = encode(&b"line1\tline2".to_vec());
    assert_eq!(r, b"line1</w:t><w:tab/><w:t>line2".to_vec());
}

#[test]
fn encode_strips_artifacts() {
    let r = encode(&b"<string>abc</string>".to_vec());
    assert_eq!(r, b"abc".to_vec());
}

#[test]
fn encode_windows_pair_single_break() {
    // the pair is handled before the lone characters, so one mark, not two
    let r = encode(&b"a\r\nb\rc\nd".to_vec());
    assert_eq!(r, b"a<w:br/>b<w:br/>c<w:br/>d".to_vec());
}

#[test]
fn replace_limit_one_changes_first_only() {
    let r = replace_bytes(&b"ab cd ab".to_vec(), &b"ab".to_vec(), &b"X".to_vec(), 1);
    assert_eq!(r, b"X cd ab".to_vec());
}

#[test]
fn replace_limit_zero_changes_all() {
    let r = replace_bytes(&b"ab cd ab".to_vec(), &b"ab".to_vec(), &b"X".to_vec(), 0);
    assert_eq!(r, b"X cd X".to_vec());
}

#[test]
fn replace_absent_is_noop() {
    let mut doc = Docx::new(test_document()).unwrap();
    let before = doc.get_content().clone();
    let r = doc.replace(&b"nowhere".to_vec(), &b"X".to_vec(), 0);
    assert!(r.is_ok());
    assert_eq!(doc.get_content(), &before);
}

#[test]
fn round_trip_replaces_match() {
    let mut doc = Docx::new(test_document()).unwrap();
    doc.replace(&b"document.".to_vec(), &b"line1\r\nline2".to_vec(), 1).unwrap();
    let out = doc.write().unwrap();
    let doc = Docx::new(out).unwrap();
    let content = String::from_utf8(doc.get_content().clone()).unwrap();
    assert!(content.contains("line1<w:br/>line2"));
    assert!(!content.contains("document."));
}

#[test]
fn untracked_entries_copied_byte_for_byte() {
    let other: Vec<u8> = vec![0u8, 1, 2, 255, 254, 7];
    let media: Vec<u8> = vec![9u8, 9, 9];
    let input = build_zip(&[
        ("word/document.xml", b"<w:t>Test document.</w:t>"),
        ("word/_rels/document.xml.rels", b"<Relationships/>"),
        ("word/other.bin", &other),
        ("word/media/image1.png", &media),
    ]);
    let mut doc = Docx::new(input).unwrap();
    doc.replace(&b"document.".to_vec(), &b"edited".to_vec(), 1).unwrap();
    let out = doc.write().unwrap();

    let mut archive = zip::ZipArchive::new(Cursor::new(out)).unwrap();
    let names: Vec<String> = (0..archive.len())
        .map(|i| archive.by_index(i).unwrap().name().to_string())
        .collect();
    assert_eq!(
        names,
        vec![
            "word/document.xml".to_string(),
            "word/_rels/document.xml.rels".to_string(),
            "word/other.bin".to_string(),
            "word/media/image1.png".to_string(),
        ]
    );
    let mut buf = Vec::new();
    archive.by_name("word/other.bin").unwrap().read_to_end(&mut buf).unwrap();
    assert_eq!(buf, other);
    buf.clear();
    archive.by_name("word/media/image1.png").unwrap().read_to_end(&mut buf).unwrap();
    assert_eq!(buf, media);
    buf.clear();
    archive.by_name("word/_rels/document.xml.rels").unwrap().read_to_end(&mut buf).unwrap();
    assert_eq!(buf, b"<Relationships/>".to_vec());
}

#[test]
fn header_and_footer_parts_pass_through() {
    let input = build_zip(&[
        ("word/document.xml", b"<w:t>Test document.</w:t>"),
        ("word/_rels/document.xml.rels", b"<Relationships/>"),
        ("word/header1.xml", b"<w:hdr>head</w:hdr>"),
        ("word/footer1.xml", b"<w:ftr>foot</w:ftr>"),
    ]);
    let mut doc = Docx::new(input).unwrap();
    let out = doc.write().unwrap();
    let mut archive = zip::ZipArchive::new(Cursor::new(out)).unwrap();
    let mut buf = Vec::new();
    archive.by_name("word/header1.xml").unwrap().read_to_end(&mut buf).unwrap();
    assert_eq!(buf, b"<w:hdr>head</w:hdr>".to_vec());
    buf.clear();
    archive.by_name("word/footer1.xml").unwrap().read_to_end(&mut buf).unwrap();
    assert_eq!(buf, b"<w:ftr>foot</w:ftr>".to_vec());
}

#[test]
fn media_assets_are_exactly_the_prefixed_names() {
    let input = build_zip(&[
        ("word/document.xml", b"<w:t>Test document.</w:t>"),
        ("word/_rels/document.xml.rels", b"<Relationships/>"),
        ("word/media/image1.png", b"img1"),
        ("word/media/image2.png", b"img2"),
        ("word/other.bin", b"not media"),
    ]);
    let doc = Docx::new(input).unwrap();
    let media = doc.media_assets();
    assert_eq!(
        media,
        &vec![b"word/media/image1.png".to_vec(), b"word/media/image2.png".to_vec()]
    );
}

#[test]
fn get_zip_data_exposes_archive() {
    let doc_data = docx_edit::DocZipData::from_bytes(test_document()).unwrap();
    assert_eq!(doc_data.get_zip_data().len(), 2);
}

#[test]
fn invalid_bytes_are_a_format_error() {
    let r = Docx::new(vec![1u8, 2, 3, 4]);
    assert_eq!(r.err(), Some(DocxError::ArchiveFormat));
}

#[test]
fn missing_main_document_is_part_missing() {
    let input = build_zip(&[("word/_rels/document.xml.rels", b"<Relationships/>")]);
    let r = Docx::new(input);
    assert_eq!(r.err(), Some(DocxError::PartMissing));
}

#[test]
fn non_utf8_document_is_an_error() {
    let input = build_zip(&[
        ("word/document.xml", &[0xffu8, 0xfe, 0x00, 0x80]),
        ("word/_rels/document.xml.rels", b"<Relationships/>"),
    ]);
    let r = Docx::new(input);
    assert_eq!(r.err(), Some(DocxError::Io));
}

#[test]
fn missing_relationships_is_part_missing() {
    let input = build_zip(&[("word/document.xml", b"<w:t>x</w:t>")]);
    let r = Docx::new(input);
    assert_eq!(r.err(), Some(DocxError::PartMissing));
}
