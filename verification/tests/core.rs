use docray::capabilities::{check_granularity, Capabilities, GeometryKind};
use docray::cli::{classify_request, extract_error_exit_code, format_request, default_granularity, parse_granularity, unsupported_zip};
use docray::error::ExtractError;
use docray::granularity::{Granularity, OutputFormat};
use docray::selection::PageSelection;
use docray::sniff::{sniff_format, Format};

fn element_capabilities() -> Capabilities {
    Capabilities {
        finest_granularity: Granularity::Element,
        geometry: GeometryKind::Flow,
    }
}

#[test]
fn granularity_unavailable_maps_to_exit_8() {
    let error = ExtractError::GranularityUnavailable {
        requested: Granularity::Word,
        finest: Granularity::Element,
    };
    assert_eq!(extract_error_exit_code(&error), 8);
}

#[test]
fn page_out_of_range_code_and_display() {
    let err = ExtractError::PageOutOfRange {
        requested_end: 300,
        page_count: 287,
    };
    assert_eq!(err.code(), "page_out_of_range");
    let _ = err.message();
}

#[test]
fn page_selection_unsupported_code_and_display() {
    let err = ExtractError::PageSelectionUnsupported { format: "pptx" };
    assert_eq!(err.code(), "page_selection_unsupported");
    let _ = err.message();
}

#[test]
fn element_only_extractor_rejects_finer_and_implicit_requests() {
    let capabilities = element_capabilities();
    for (requested, effective) in [
        (None, Granularity::Char),
        (Some(Granularity::Char), Granularity::Char),
        (Some(Granularity::Word), Granularity::Word),
    ] {
        assert_eq!(
            check_granularity(&capabilities, requested),
            Err(ExtractError::GranularityUnavailable {
                requested: effective,
                finest: Granularity::Element,
            })
        );
    }
}

#[test]
fn element_only_extractor_accepts_element_requests() {
    let capabilities = element_capabilities();
    assert_eq!(
        check_granularity(&capabilities, Some(Granularity::Element)),
        Ok(())
    );
}

#[test]
fn parses_single_page() {
    assert_eq!(
        "7".parse::<PageSelection>().unwrap(),
        PageSelection { start: 7, end: 7 }
    );
}

#[test]
fn parses_range() {
    assert_eq!(
        "1-200".parse::<PageSelection>().unwrap(),
        PageSelection { start: 1, end: 200 }
    );
}

#[test]
fn range_count_is_inclusive() {
    assert_eq!("1-200".parse::<PageSelection>().unwrap().count(), 200);
}

#[test]
fn rejects_empty() {
    assert!("".parse::<PageSelection>().is_err());
}

#[test]
fn rejects_non_numeric() {
    assert!("abc".parse::<PageSelection>().is_err());
}

#[test]
fn rejects_zero_page() {
    assert!("0".parse::<PageSelection>().is_err());
}

#[test]
fn rejects_zero_in_range() {
    assert!("0-5".parse::<PageSelection>().is_err());
}

#[test]
fn rejects_reversed_range() {
    assert!("200-1".parse::<PageSelection>().is_err());
}

#[test]
fn rejects_multiple_separators() {
    assert!("1-2-3".parse::<PageSelection>().is_err());
}

#[test]
fn rejects_leading_dash() {
    assert!("-5".parse::<PageSelection>().is_err());
}

#[test]
fn single_page_range_is_valid() {
    assert_eq!(
        "5-5".parse::<PageSelection>().unwrap(),
        PageSelection { start: 5, end: 5 }
    );
}

#[test]
fn selection_error_messages_are_exact() {
    assert_eq!(
        PageSelection::parse("  ").unwrap_err(),
        "page selection is empty"
    );
    assert_eq!(
        PageSelection::parse("abc").unwrap_err(),
        "\"abc\" is not a valid page number"
    );
    assert_eq!(
        PageSelection::parse(" 0 ").unwrap_err(),
        "page numbers are 1-based; 0 is not valid"
    );
    assert_eq!(
        PageSelection::parse("200-1").unwrap_err(),
        "page selection \"200-1\" is reversed: start 200 > end 1"
    );
    assert_eq!(
        PageSelection::parse("1-2-3").unwrap_err(),
        "page selection \"1-2-3\" has more than one '-' separator"
    );
    assert_eq!(
        PageSelection::parse("4294967296").unwrap_err(),
        "\"4294967296\" is not a valid page number"
    );
    assert_eq!(
        PageSelection::parse(" +3-\u{3000}").unwrap_err(),
        "\"\" is not a valid page number"
    );
    assert_eq!(
        PageSelection::parse("\t+3-4294967295\n").unwrap(),
        PageSelection { start: 3, end: 4294967295 }
    );
}

#[test]
fn detects_pdf_magic_at_start() {
    assert_eq!(sniff_format(b"%PDF-1.7 rest"), Some(Format::Pdf));
}

#[test]
fn detects_pdf_magic_with_leading_junk_within_1024_bytes() {
    let mut bytes = vec![b'x'; 100];
    bytes.extend_from_slice(b"%PDF-1.4");
    assert_eq!(sniff_format(&bytes), Some(Format::Pdf));
}

#[test]
fn rejects_non_pdf_and_junk_beyond_1024() {
    assert_eq!(sniff_format(b"PK\x03\x04 not a pdf"), None);
    let mut bytes = vec![b'x'; 2000];
    bytes.extend_from_slice(b"%PDF-1.4");
    assert_eq!(sniff_format(&bytes), None);
    assert_eq!(sniff_format(b""), None);
}

#[test]
fn header_start_offset_boundary_is_1024() {
    let marker = b"%PDF-1.7";

    let mut at_1023 = vec![b'x'; 1023];
    at_1023.extend_from_slice(marker);
    assert_eq!(
        sniff_format(&at_1023),
        Some(Format::Pdf),
        "header starting at offset 1023 must be found"
    );

    let mut at_1024 = vec![b'x'; 1024];
    at_1024.extend_from_slice(marker);
    assert_eq!(
        sniff_format(&at_1024),
        None,
        "header starting at offset 1024 must be rejected"
    );
}

#[test]
fn error_codes_are_stable_strings() {
    assert_eq!(ExtractError::UnsupportedFormat.code(), "unsupported_format");
    assert_eq!(ExtractError::EncryptedPdf.code(), "encrypted_pdf");
    assert_eq!(
        ExtractError::TooManyPages {
            limit: 200,
            actual: 300
        }
        .code(),
        "too_many_pages"
    );
    assert_eq!(
        ExtractError::ParseFailure("x".into()).code(),
        "parse_failure"
    );
    assert_eq!(ExtractError::Io("x".into()).code(), "io_error");
    assert_eq!(
        ExtractError::GranularityUnavailable {
            requested: Granularity::Word,
            finest: Granularity::Element,
        }
        .code(),
        "granularity_unavailable"
    );
}

#[test]
fn error_messages_are_exact() {
    assert_eq!(
        ExtractError::TooManyPages { limit: 200, actual: 300 }.message(),
        "document has 300 pages, limit is 200"
    );
    assert_eq!(
        ExtractError::GranularityUnavailable {
            requested: Granularity::Word,
            finest: Granularity::Element,
        }
        .message(),
        "requested word granularity is unavailable; finest available is element; retry with granularity=element"
    );
    assert_eq!(
        ExtractError::PageOutOfRange { requested_end: 300, page_count: 287 }.message(),
        "requested pages end at 300 but document has 287 pages"
    );
    assert_eq!(
        ExtractError::PageSelectionUnsupported { format: "pptx" }.message(),
        "page selection is not supported for pptx"
    );
    assert_eq!(
        ExtractError::ParseFailure("bad".into()).message(),
        "failed to parse document: bad"
    );
    assert_eq!(ExtractError::Io("gone".into()).message(), "io error: gone");
    assert_eq!(
        ExtractError::UnsupportedFormat.message(),
        "input is not a supported format"
    );
    assert_eq!(
        ExtractError::EncryptedPdf.message(),
        "PDF is encrypted / password-protected"
    );
}

#[test]
fn exit_codes_cover_every_error() {
    assert_eq!(extract_error_exit_code(&ExtractError::UnsupportedFormat), 2);
    assert_eq!(extract_error_exit_code(&unsupported_zip()), 2);
    assert_eq!(extract_error_exit_code(&ExtractError::EncryptedPdf), 3);
    assert_eq!(extract_error_exit_code(&ExtractError::ParseFailure("x".into())), 4);
    assert_eq!(extract_error_exit_code(&ExtractError::Io("x".into())), 5);
    assert_eq!(
        extract_error_exit_code(&ExtractError::TooManyPages { limit: 1, actual: 2 }),
        6
    );
    assert_eq!(
        extract_error_exit_code(&ExtractError::PageOutOfRange { requested_end: 9, page_count: 2 }),
        9
    );
}

#[test]
fn granularity_and_format_names_roundtrip() {
    for g in [Granularity::Element, Granularity::Word, Granularity::Char] {
        assert_eq!(g.as_str().parse::<Granularity>().unwrap(), g);
    }
    assert_eq!(Granularity::Element.rank(), 0);
    assert_eq!(Granularity::Word.rank(), 1);
    assert_eq!(Granularity::Char.rank(), 2);
    assert_eq!(
        parse_granularity("pixel").unwrap_err(),
        "expected element, word, or char; got \"pixel\""
    );
    for f in [OutputFormat::Json, OutputFormat::Lean, OutputFormat::Markdown] {
        assert_eq!(f.as_str().parse::<OutputFormat>().unwrap(), f);
    }
    assert_eq!(OutputFormat::Markdown.as_str(), "md");
    assert_eq!(
        "toon".parse::<OutputFormat>().unwrap_err(),
        "expected json, lean, or md; got \"toon\""
    );
}

#[test]
fn lean_defaults_to_element_and_refuses_char() {
    assert_eq!(format_request(OutputFormat::Lean, None), Ok(Some(Granularity::Element)));
    assert_eq!(format_request(OutputFormat::Markdown, None), Ok(Some(Granularity::Element)));
    assert_eq!(format_request(OutputFormat::Json, None), Ok(None));
    assert_eq!(
        format_request(OutputFormat::Lean, Some(Granularity::Char)).unwrap_err(),
        "lean format requires element or word granularity"
    );
    assert_eq!(
        format_request(OutputFormat::Lean, Some(Granularity::Word)),
        Ok(Some(Granularity::Word))
    );
    let element = element_capabilities();
    assert_eq!(default_granularity(None, &element), Some(Granularity::Element));
    let char_capable = Capabilities {
        finest_granularity: Granularity::Char,
        geometry: GeometryKind::Paged,
    };
    assert_eq!(default_granularity(None, &char_capable), None);
    assert_eq!(
        default_granularity(Some(Granularity::Word), &element),
        Some(Granularity::Word)
    );
}

#[test]
fn classification_is_json_only() {
    assert_eq!(classify_request(OutputFormat::Json, true), Ok(()));
    assert_eq!(classify_request(OutputFormat::Lean, false), Ok(()));
    assert_eq!(
        classify_request(OutputFormat::Lean, true),
        Err("classification requires json format".to_string())
    );
    assert_eq!(
        classify_request(OutputFormat::Markdown, true),
        Err("classification requires json format".to_string())
    );
}

#[test]
fn parsed_selections_are_one_based_and_ordered() {
    for text in ["7", " 1-200 ", "3-3", "+2-9"] {
        let s: PageSelection = text.parse().unwrap();
        assert!(1 <= s.start && s.start <= s.end);
    }
    let single: PageSelection = "7".parse().unwrap();
    assert_eq!((single.start, single.end), (7, 7));
}
