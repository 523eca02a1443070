use docray::error::ExtractError;
use docray::opc::{read_parts, sniff_opc, OpcKind};
use std::io::{Cursor, Write};
use zip::write::SimpleFileOptions;
use zip::ZipWriter;

fn opc(parts: &[(&str, &[u8])]) -> Vec<u8> {
    let mut writer = ZipWriter::new(Cursor::new(Vec::new()));
    for (name, bytes) in parts {
        writer.start_file(*name, SimpleFileOptions::default()).unwrap();
        writer.write_all(bytes).unwrap();
    }
    writer.finish().unwrap().into_inner()
}

#[test]
fn sniff_opc_classifies_pptx_and_pptm_by_main_part() {
    let pptx = opc(&[("ppt/presentation.xml", b"<p:presentation/>")]);
    assert_eq!(sniff_opc(&pptx).unwrap(), OpcKind::Pptx);

    let pptm = opc(&[
        ("ppt/presentation.xml", b"<p:presentation/>"),
        (
            "[Content_Types].xml",
            b"<Types><Override PartName=\"/ppt/presentation.xml\" ContentType=\"application/vnd.ms-powerpoint.presentation.macroEnabled.main+xml\"/></Types>",
        ),
        ("ppt/vbaProject.bin", b"macros are not inspected"),
    ]);
    assert_eq!(sniff_opc(&pptm).unwrap(), OpcKind::Pptx);
}

#[test]
fn sniff_opc_classifies_docx_and_docm_by_main_part() {
    let docx = opc(&[("word/document.xml", b"<w:document/>")]);
    assert_eq!(sniff_opc(&docx).unwrap(), OpcKind::Docx);

    let docm = opc(&[
        ("word/document.xml", b"<w:document/>"),
        (
            "[Content_Types].xml",
            b"<Types><Override PartName=\"/word/document.xml\" ContentType=\"application/vnd.ms-word.document.macroEnabled.main+xml\"/></Types>",
        ),
        ("word/vbaProject.bin", b"macros are not inspected"),
    ]);
    assert_eq!(sniff_opc(&docm).unwrap(), OpcKind::Docx);
}

#[test]
fn sniff_opc_classifies_plain_zip() {
    let zip = opc(&[("notes.txt", b"not an OOXML package")]);
    assert_eq!(sniff_opc(&zip).unwrap(), OpcKind::OtherZip);
}

#[test]
fn sniff_opc_applies_package_security_caps() {
    let hostile = opc(&[("../ppt/presentation.xml", b"<p:presentation/>")]);
    let error = sniff_opc(&hostile).unwrap_err();
    assert_eq!(error.code(), "parse_failure");
    assert!(error.message().contains("unsafe OPC entry name rejected"));
}

#[test]
fn parts_keep_archive_order_and_skip_directories() {
    let bytes = opc(&[("b.xml", b"<b/>"), ("dir/", b""), ("a.xml", b"<a/>")]);
    let parts = read_parts(&bytes).unwrap();
    let names: Vec<&str> = parts.entries.iter().map(|(n, _)| n.as_str()).collect();
    assert_eq!(names, vec!["b.xml", "a.xml"]);
    assert_eq!(parts.entries[0].1, b"<b/>".to_vec());
    assert_eq!(parts.entries[1].1, b"<a/>".to_vec());
}

#[test]
fn unsafe_entry_name_is_quoted_in_the_refusal() {
    let hostile = opc(&[("ok.xml", b"<a/>"), ("../evil.xml", b"<b/>")]);
    match read_parts(&hostile) {
        Err(ExtractError::ParseFailure(m)) => {
            assert_eq!(m, "unsafe OPC entry name rejected: \"../evil.xml\"")
        },
        _ => panic!("an entry outside the package root is refused"),
    }
}

#[test]
fn bytes_that_are_no_archive_are_a_parse_failure() {
    match sniff_opc(b"PK\x03\x04 not really a zip") {
        Err(ExtractError::ParseFailure(m)) => assert!(m.starts_with("invalid ZIP package: ")),
        _ => panic!("a broken archive is refused"),
    }
}

#[test]
fn backslash_names_climbing_out_are_refused_on_every_system() {
    let hostile = opc(&[("..\\evil.xml", b"<b/>")]);
    match read_parts(&hostile) {
        Err(ExtractError::ParseFailure(m)) => assert!(m.starts_with("unsafe OPC entry name rejected: ")),
        _ => panic!("a name that climbs out through a backslash is refused"),
    }
    let fine = opc(&[("a/../b.xml", b"<b/>")]);
    assert_eq!(read_parts(&fine).unwrap().entries[0].0, "a/../b.xml");
}
