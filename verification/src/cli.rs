//! The decisions of the `docray` command line: which detail level a request
//! resolves to, and which exit code an error maps to.
use vstd::prelude::*;
use crate::capabilities::Capabilities;
use crate::error::ExtractError;
use crate::granularity::{granularity_named, rank_of, Granularity, OutputFormat};
use crate::text::{chars_of, string_of};

verus! {

/// The process exit code of each error.
pub open spec fn exit_code_of(e: ExtractError) -> u8 {
    match e {
        ExtractError::UnsupportedFormat => 2,
        ExtractError::UnsupportedFormatMessage(_) => 2,
        ExtractError::EncryptedPdf => 3,
        ExtractError::ParseFailure(_) => 4,
        ExtractError::Io(_) => 5,
        ExtractError::TooManyPages { .. } => 6,
        ExtractError::GranularityUnavailable { .. } => 8,
        ExtractError::PageOutOfRange { .. } => 9,
        ExtractError::PageSelectionUnsupported { .. } => 10,
    }
}

pub fn extract_error_exit_code(e: &ExtractError) -> (r: u8)
    ensures
        r == exit_code_of(*e),
{
    match e {
        ExtractError::UnsupportedFormat | ExtractError::UnsupportedFormatMessage(_) => 2,
        ExtractError::EncryptedPdf => 3,
        ExtractError::ParseFailure(_) => 4,
        ExtractError::Io(_) => 5,
        ExtractError::TooManyPages { .. } => 6,
        ExtractError::GranularityUnavailable { .. } => 8,
        ExtractError::PageOutOfRange { .. } => 9,
        ExtractError::PageSelectionUnsupported { .. } => 10,
    }
}

/// The error for a ZIP archive that is not a supported Office document.
pub fn unsupported_zip() -> (e: ExtractError)
    ensures
        e matches ExtractError::UnsupportedFormatMessage(m) && m@
            == "zip archive is not a PowerPoint file"@,
{
    ExtractError::UnsupportedFormatMessage(string_of(&chars_of("zip archive is not a PowerPoint file")))
}

/// Parses the `--granularity` argument.
pub fn parse_granularity(value: &str) -> (r: Result<Granularity, String>)
    ensures
        r matches Ok(g) ==> granularity_named(value@) == Some(g),
        r is Err ==> granularity_named(value@) is None,
{
    Granularity::parse(value)
}

/// What an output format makes of an explicit or absent level: lean and
/// Markdown output default to `Element` and refuse `Char`; JSON keeps the
/// request as it is. An error carries the `bad_format` message.
pub open spec fn format_request_spec(format: OutputFormat, requested: Option<Granularity>) -> Result<
    Option<Granularity>,
    Seq<char>,
> {
    match (format, requested) {
        (OutputFormat::Json, r) => Ok(r),
        (OutputFormat::Lean, None) => Ok(Some(Granularity::Element)),
        (OutputFormat::Markdown, None) => Ok(Some(Granularity::Element)),
        (OutputFormat::Lean, Some(Granularity::Char)) => Err(
            "lean format requires element or word granularity"@,
        ),
        (OutputFormat::Markdown, Some(Granularity::Char)) => Err(
            "md format requires element or word granularity"@,
        ),
        (_, r) => Ok(r),
    }
}

pub fn format_request(format: OutputFormat, requested: Option<Granularity>) -> (r: Result<
    Option<Granularity>,
    String,
>)
    ensures
        match format_request_spec(format, requested) {
            Ok(g) => r == Ok::<Option<Granularity>, String>(g),
            Err(m) => r matches Err(e) && e@ == m,
        },
{
    match (format, requested) {
        (OutputFormat::Json, r) => Ok(r),
        (OutputFormat::Lean, None) | (OutputFormat::Markdown, None) => Ok(
            Some(Granularity::Element),
        ),
        (OutputFormat::Lean, Some(Granularity::Char)) => Err(
            string_of(&chars_of("lean format requires element or word granularity")),
        ),
        (OutputFormat::Markdown, Some(Granularity::Char)) => Err(
            string_of(&chars_of("md format requires element or word granularity")),
        ),
        (_, r) => Ok(r),
    }
}

/// Page classification is a field of the JSON output only: a classify
/// request with any other output format is refused with the `bad_format`
/// message.
pub open spec fn classify_request_spec(format: OutputFormat, classify: bool) -> Result<(), Seq<char>> {
    if classify && format != OutputFormat::Json {
        Err("classification requires json format"@)
    } else {
        Ok(())
    }
}

pub fn classify_request(format: OutputFormat, classify: bool) -> (r: Result<(), String>)
    ensures
        match classify_request_spec(format, classify) {
            Ok(()) => r is Ok,
            Err(m) => r matches Err(e) && e@ == m,
        },
{
    match format {
        OutputFormat::Json => Ok(()),
        _ => if classify {
            Err(string_of(&chars_of("classification requires json format")))
        } else {
            Ok(())
        },
    }
}

/// A missing level defaults to the finest the backend supports when that is
/// coarser than `Char`, so an element-only backend answers with element
/// output instead of an error. A char-capable backend keeps `None`, the
/// frozen full-hierarchy response.
pub open spec fn default_granularity_spec(requested: Option<Granularity>, capabilities: Capabilities) -> Option<Granularity> {
    match requested {
        None => if rank_of(capabilities.finest_granularity) < rank_of(Granularity::Char) {
            Some(capabilities.finest_granularity)
        } else {
            None
        },
        other => other,
    }
}

pub fn default_granularity(requested: Option<Granularity>, capabilities: &Capabilities) -> (r: Option<
    Granularity,
>)
    ensures
        r == default_granularity_spec(requested, *capabilities),
{
    match requested {
        None => if capabilities.finest_granularity.rank() < Granularity::Char.rank() {
            Some(capabilities.finest_granularity)
        } else {
            None
        },
        other => other,
    }
}

/// After the default is applied, a request always passes the backend's check:
/// an absent request on an element-only backend becomes its finest level.
pub proof fn defaulted_request_passes_check(capabilities: Capabilities)
    ensures
        ({
            let r = default_granularity_spec(None, capabilities);
            rank_of(crate::capabilities::effective_request(r)) <= rank_of(
                capabilities.finest_granularity,
            )
        }),
{
}

} // verus!
