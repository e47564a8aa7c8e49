//! Documents as ZIP archives.

use docx2md::convert::convert_entries;
use docx2md::{convert_bytes, ConvertError, ConvertOptions};
use std::io::{Cursor, Write};
use zip::write::SimpleFileOptions;
use zip::{CompressionMethod, ZipWriter};

fn archive(entries: &[(&str, &[u8])], method: CompressionMethod) -> Vec<u8> {
    let mut writer = ZipWriter::new(Cursor::new(Vec::new()));
    for (name, data) in entries {
        writer.start_file(*name, SimpleFileOptions::default().compression_method(method)).unwrap();
        writer.write_all(data).unwrap();
    }
    writer.finish().unwrap().into_inner()
}

const DOCUMENT: &[u8] = "<w:document xmlns:w='w'><w:body>\
    <w:p><w:pPr><w:pStyle w:val='h'/></w:pPr><w:r><w:t>标题</w:t></w:r></w:p>\
    <w:p><w:pPr><w:numPr><w:numId w:val='1'/></w:numPr></w:pPr><w:r><w:t>项</w:t></w:r></w:p>\
    </w:body></w:document>".as_bytes();

const STYLES: &[u8] = b"<w:styles xmlns:w='w'><w:style w:styleId='h'><w:name w:val='heading 1'/></w:style></w:styles>";

const NUMBERING: &[u8] = b"<w:numbering xmlns:w='w'>\
    <w:abstractNum w:abstractNumId='5'><w:lvl w:ilvl='0'><w:numFmt w:val='lowerRoman'/></w:lvl></w:abstractNum>\
    <w:num w:numId='1'><w:abstractNumId w:val='5'/></w:num></w:numbering>";

#[test]
fn archive_is_converted() {
    let entries: [(&str, &[u8]); 3] = [
        ("word/document.xml", DOCUMENT),
        ("word/styles.xml", STYLES),
        ("word/numbering.xml", NUMBERING),
    ];
    for method in [CompressionMethod::Stored, CompressionMethod::Deflated] {
        let md = convert_bytes(&archive(&entries, method), &ConvertOptions::default()).unwrap();
        assert_eq!(md, "# 标题\n\ni. 项\n");
    }
}

#[test]
fn styles_and_numbering_may_be_missing_or_damaged() {
    let alone: [(&str, &[u8]); 1] = [("word/document.xml", DOCUMENT)];
    let damaged: [(&str, &[u8]); 3] = [
        ("word/numbering.xml", b"\xff\xfe"),
        ("word/document.xml", DOCUMENT),
        ("word/styles.xml", b"\xff\xfe"),
    ];
    for bytes in [archive(&alone, CompressionMethod::Deflated), archive(&damaged, CompressionMethod::Deflated)] {
        assert_eq!(convert_bytes(&bytes, &ConvertOptions::default()).unwrap(), "标题\n\n- 项\n");
    }
}

#[test]
fn bytes_that_are_no_archive_are_refused() {
    for bytes in [&b""[..], &b"not a zip archive"[..]] {
        let r = convert_bytes(bytes, &ConvertOptions::default());
        assert!(matches!(&r, Err(ConvertError::Archive(_))));
        assert_eq!(r.unwrap_err().message(), Some("无法作为 zip 打开 DOCX".to_string()));
    }
}

#[test]
fn archive_without_document_is_refused() {
    let entries: [(&str, &[u8]); 1] = [("word/styles.xml", STYLES)];
    let r = convert_bytes(&archive(&entries, CompressionMethod::Stored), &ConvertOptions::default());
    assert!(matches!(&r, Err(ConvertError::MissingDocument(zip::result::ZipError::FileNotFound))));
    assert_eq!(r.unwrap_err().message(), Some("DOCX 中缺少 word/document.xml".to_string()));
}

#[test]
fn document_that_is_not_text_is_refused() {
    let entries: [(&str, &[u8]); 1] = [("word/document.xml", b"\xff\xfe")];
    let r = convert_bytes(&archive(&entries, CompressionMethod::Stored), &ConvertOptions::default());
    assert!(matches!(&r, Err(ConvertError::UnreadableDocument(_))));
    assert_eq!(r.unwrap_err().message(), None);
}

#[test]
fn archived_document_that_is_not_xml_is_refused() {
    let entries: [(&str, &[u8]); 1] = [("word/document.xml", b"<w:document>")];
    let r = convert_bytes(&archive(&entries, CompressionMethod::Stored), &ConvertOptions::default());
    assert!(matches!(r, Err(ConvertError::MalformedDocument(_))));
}

#[test]
fn entries_are_converted_as_they_were_read() {
    let text = |bytes: &[u8]| Ok(Ok(String::from_utf8(bytes.to_vec()).unwrap()));
    let missing = || Err(zip::result::ZipError::FileNotFound);
    let options = ConvertOptions::default();
    assert_eq!(convert_entries(text(DOCUMENT), text(STYLES), text(NUMBERING), &options).unwrap(), "# 标题\n\ni. 项\n");
    assert_eq!(convert_entries(text(DOCUMENT), missing(), text(NUMBERING), &options).unwrap(), "标题\n\ni. 项\n");
    assert_eq!(convert_entries(text(DOCUMENT), text(STYLES), missing(), &options).unwrap(), "# 标题\n\n- 项\n");
    assert!(matches!(
        convert_entries(missing(), text(STYLES), text(NUMBERING), &options),
        Err(ConvertError::MissingDocument(_))
    ));
    let damaged = Ok(Err(std::io::Error::from(std::io::ErrorKind::InvalidData)));
    assert!(matches!(
        convert_entries(damaged, text(STYLES), text(NUMBERING), &options),
        Err(ConvertError::UnreadableDocument(_))
    ));
}
