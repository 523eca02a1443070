//! Extraction errors, their stable codes and their messages.
use vstd::prelude::*;
use crate::granularity::{granularity_name, Granularity};
use crate::text::{decimal, push_decimal, push_str, string_of};

verus! {

#[derive(Debug, PartialEq, Eq)]
pub enum ExtractError {
    UnsupportedFormat,
    UnsupportedFormatMessage(String),
    EncryptedPdf,
    TooManyPages { limit: u32, actual: u32 },
    ParseFailure(String),
    Io(String),
    GranularityUnavailable { requested: Granularity, finest: Granularity },
    PageOutOfRange { requested_end: u32, page_count: u32 },
    PageSelectionUnsupported { format: &'static str },
}

/// The stable machine-readable code of each error.
pub open spec fn error_code(e: ExtractError) -> Seq<char> {
    match e {
        ExtractError::UnsupportedFormat => "unsupported_format"@,
        ExtractError::UnsupportedFormatMessage(_) => "unsupported_format"@,
        ExtractError::EncryptedPdf => "encrypted_pdf"@,
        ExtractError::TooManyPages { .. } => "too_many_pages"@,
        ExtractError::ParseFailure(_) => "parse_failure"@,
        ExtractError::Io(_) => "io_error"@,
        ExtractError::GranularityUnavailable { .. } => "granularity_unavailable"@,
        ExtractError::PageOutOfRange { .. } => "page_out_of_range"@,
        ExtractError::PageSelectionUnsupported { .. } => "page_selection_unsupported"@,
    }
}

/// The human-readable message of each error.
pub open spec fn error_message(e: ExtractError) -> Seq<char> {
    match e {
        ExtractError::UnsupportedFormat => "input is not a supported format"@,
        ExtractError::UnsupportedFormatMessage(m) => m@,
        ExtractError::EncryptedPdf => "PDF is encrypted / password-protected"@,
        ExtractError::TooManyPages { limit, actual } => "document has "@ + decimal(actual as nat)
            + " pages, limit is "@ + decimal(limit as nat),
        ExtractError::ParseFailure(m) => "failed to parse document: "@ + m@,
        ExtractError::Io(m) => "io error: "@ + m@,
        ExtractError::GranularityUnavailable { requested, finest } => "requested "@
            + granularity_name(requested) + " granularity is unavailable; finest available is "@
            + granularity_name(finest) + "; retry with granularity="@ + granularity_name(finest),
        ExtractError::PageOutOfRange { requested_end, page_count } => "requested pages end at "@
            + decimal(requested_end as nat) + " but document has "@ + decimal(page_count as nat)
            + " pages"@,
        ExtractError::PageSelectionUnsupported { format } => "page selection is not supported for "@
            + format@,
    }
}

impl ExtractError {
    pub fn code(&self) -> (r: &'static str)
        ensures
            r@ == error_code(*self),
    {
        match self {
            ExtractError::UnsupportedFormat | ExtractError::UnsupportedFormatMessage(_) => {
                "unsupported_format"
            },
            ExtractError::EncryptedPdf => "encrypted_pdf",
            ExtractError::TooManyPages { .. } => "too_many_pages",
            ExtractError::ParseFailure(_) => "parse_failure",
            ExtractError::Io(_) => "io_error",
            ExtractError::GranularityUnavailable { .. } => "granularity_unavailable",
            ExtractError::PageOutOfRange { .. } => "page_out_of_range",
            ExtractError::PageSelectionUnsupported { .. } => "page_selection_unsupported",
        }
    }

    /// The message that the error displays.
    pub fn message(&self) -> (r: String)
        ensures
            r@ == error_message(*self),
    {
        let mut out: Vec<char> = Vec::new();
        match self {
            ExtractError::UnsupportedFormat => push_str(&mut out, "input is not a supported format"),
            ExtractError::UnsupportedFormatMessage(m) => push_str(&mut out, m.as_str()),
            ExtractError::EncryptedPdf => push_str(&mut out, "PDF is encrypted / password-protected"),
            ExtractError::TooManyPages { limit, actual } => {
                push_str(&mut out, "document has ");
                push_decimal(&mut out, *actual as u64);
                push_str(&mut out, " pages, limit is ");
                push_decimal(&mut out, *limit as u64);
            },
            ExtractError::ParseFailure(m) => {
                push_str(&mut out, "failed to parse document: ");
                push_str(&mut out, m.as_str());
            },
            ExtractError::Io(m) => {
                push_str(&mut out, "io error: ");
                push_str(&mut out, m.as_str());
            },
            ExtractError::GranularityUnavailable { requested, finest } => {
                push_str(&mut out, "requested ");
                push_str(&mut out, requested.as_str());
                push_str(&mut out, " granularity is unavailable; finest available is ");
                push_str(&mut out, finest.as_str());
                push_str(&mut out, "; retry with granularity=");
                push_str(&mut out, finest.as_str());
            },
            ExtractError::PageOutOfRange { requested_end, page_count } => {
                push_str(&mut out, "requested pages end at ");
                push_decimal(&mut out, *requested_end as u64);
                push_str(&mut out, " but document has ");
                push_decimal(&mut out, *page_count as u64);
                push_str(&mut out, " pages");
            },
            ExtractError::PageSelectionUnsupported { format } => {
                push_str(&mut out, "page selection is not supported for ");
                push_str(&mut out, format);
            },
        }
        assert(out@ =~= error_message(*self));
        string_of(&out)
    }
}

/// A parse failure carrying `message`.
pub fn parse_failure(message: String) -> (e: ExtractError)
    ensures
        e == ExtractError::ParseFailure(message),
{
    ExtractError::ParseFailure(message)
}

} // verus!
