//! The calls into outside crates that the page extractor makes: the
//! lightweight-markup conversion and the calendar checks and formatting.
//! Each is a small trusted wrapper whose contract states what the call
//! returns; nothing else in the library is taken on trust.
use crate::extract::valid_ymd;
use vstd::prelude::*;

verus! {

/// What the lightweight-markup conversion returns for a given source text.
/// The conversion is deterministic: its result depends on the text alone.
pub uninterp spec fn md_to_html(s: Seq<char>) -> Seq<char>;

/// The long human-readable form of a calendar date.
pub uninterp spec fn date_display(y: int, m: int, d: int) -> Seq<char>;

/// Relies on `markdown::to_html_with_options` with GitHub-flavored options,
/// dangerous HTML and protocols allowed (the content is author-trusted).
/// The crate documents that the call never errors unless MDX options are on,
/// and its result is a function of the input text alone.
#[verifier::external_body]
pub fn convert_markdown(s: &str) -> (r: String)
    ensures
        r@ == md_to_html(s@),
{
    let options = markdown::Options {
        compile: markdown::CompileOptions {
            allow_dangerous_html: true,
            allow_dangerous_protocol: true,
            ..markdown::CompileOptions::gfm()
        },
        ..markdown::Options::gfm()
    };
    markdown::to_html_with_options(s, &options).unwrap()
}

/// Relies on `chrono::NaiveDate::from_ymd_opt`: it returns `Some` exactly
/// for valid dates of the proleptic Gregorian calendar (a year of at most
/// four digits is always inside chrono's supported year range).
#[verifier::external_body]
pub fn ymd_is_valid(y: u32, m: u32, d: u32) -> (r: bool)
    requires
        y <= 9999,
        m <= 99,
        d <= 99,
    ensures
        r == valid_ymd(y as int, m as int, d as int),
{
    chrono::NaiveDate::from_ymd_opt(y as i32, m, d).is_some()
}

/// Relies on `chrono::NaiveDate::from_ymd_opt` and the `%B %d, %Y` date
/// format: full month name, zero-padded day, comma, year — a function of
/// the date alone.  The date is valid, so the construction cannot fail.
#[verifier::external_body]
pub fn format_date(y: u32, m: u32, d: u32) -> (r: String)
    requires
        y <= 9999,
        valid_ymd(y as int, m as int, d as int),
    ensures
        r@ == date_display(y as int, m as int, d as int),
{
    let date = chrono::NaiveDate::from_ymd_opt(y as i32, m, d).unwrap();
    date.format("%B %d, %Y").to_string()
}

} // verus!
