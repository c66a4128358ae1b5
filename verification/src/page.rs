//! The `Page` record and its extraction from one source file: logical
//! naming, lightweight-markup conversion, title and link extraction, the
//! optional date, and the derived word count.
use crate::extract::count_words;
use crate::extract::date_ok;
use crate::extract::digit_val;
use crate::extract::extract_links;
use crate::extract::find_title;
use crate::extract::first_title_at;
use crate::extract::has_date_prefix;
use crate::extract::has_title;
use crate::extract::is_digit;
use crate::extract::is_link_target;
use crate::extract::parse_date_prefix;
use crate::extract::prefix_day;
use crate::extract::prefix_month;
use crate::extract::prefix_year;
use crate::extract::strip_tags;
use crate::extract::title_text;
use crate::extract::word_count_of;
use crate::outside::convert_markdown;
use crate::outside::date_display;
use crate::outside::format_date;
use crate::outside::md_to_html;
use crate::outside::ymd_is_valid;
use crate::text::ends_md;
use crate::text::str_ends_md;
use vstd::prelude::*;
use vstd::string::StrSliceExecFns;
use vstd::string::StringExecFns;

verus! {

/// A structured calendar date, as read from a file name's date prefix.
#[derive(Clone, Copy)]
pub struct Date {
    pub year: u32,
    pub month: u32,
    pub day: u32,
}

/// One content unit, keyed by its unique name.
pub struct Page {
    pub name: String,
    pub date: Option<Date>,
    pub date_formatted: Option<String>,
    pub body: String,
    pub title: String,
    pub links: Vec<String>,
    pub backlinks: Vec<(String, String)>,
}

/// Why a batch load fails; every kind aborts the whole batch.
#[derive(Debug)]
pub enum LoadError {
    UnreadableFile { path: String },
    MissingTitle { page: String },
    InvalidDate { page: String },
    DanglingLink { page: String, target: String },
    DuplicateName { name: String },
}

/// One listed file, as its base name and decoded text content.
pub struct SourceFile {
    pub name: String,
    pub content: String,
}

/// The logical page name: a lightweight-markup source is renamed to the
/// native markup extension, so all pages share one naming scheme.
pub open spec fn logical_name(n: Seq<char>) -> Seq<char> {
    if ends_md(n) {
        n.take(n.len() - 3) + seq!['.', 'h', 't', 'm', 'l']
    } else {
        n
    }
}

/// The logical page body: lightweight markup is converted to the native
/// dialect, native markup passes through unchanged.
pub open spec fn logical_body(n: Seq<char>, c: Seq<char>) -> Seq<char> {
    if ends_md(n) {
        md_to_html(c)
    } else {
        c
    }
}

/// The extraction contract of one page against its already-renamed name and
/// already-converted body: identity, title, deduplicated fragment-stripped
/// links, and the optional date.
pub open spec fn page_parsed(p: Page, name: Seq<char>, body: Seq<char>) -> bool {
    &&& p.name@ == name
    &&& p.body@ == body
    &&& (exists|i: int, j: int|
        first_title_at(body, i, j) && p.title@ == title_text(body, i, j))
    &&& (forall|idx: int|
        0 <= idx < p.links@.len() ==> is_link_target(body, #[trigger] p.links@[idx]@))
    &&& (forall|t: Seq<char>|
        #[trigger] is_link_target(body, t) ==> exists|idx: int|
            0 <= idx < p.links@.len() && p.links@[idx]@ == t)
    &&& (forall|i1: int, i2: int|
        0 <= i1 < p.links@.len() && 0 <= i2 < p.links@.len() && i1 != i2 ==> p.links@[i1]@
            != p.links@[i2]@)
    &&& (has_date_prefix(name) ==> {
        &&& p.date matches Some(dt) && dt.year as int == prefix_year(name) && dt.month as int
            == prefix_month(name) && dt.day as int == prefix_day(name)
        &&& p.date_formatted matches Some(f) && f@ == date_display(
            prefix_year(name),
            prefix_month(name),
            prefix_day(name),
        )
    })
    &&& (!has_date_prefix(name) ==> p.date is None && p.date_formatted is None)
}

/// The extraction contract of one page against its source file.
pub open spec fn page_extracted(p: Page, n: Seq<char>, c: Seq<char>) -> bool {
    page_parsed(p, logical_name(n), logical_body(n, c))
}

/// A source file extracts successfully: its body has a title and its name
/// carries no invalid date prefix.
pub open spec fn source_ok(n: Seq<char>, c: Seq<char>) -> bool {
    has_title(logical_body(n, c)) && date_ok(logical_name(n))
}

/// Which extraction errors a source file can be charged with.
pub open spec fn source_err(e: LoadError, n: Seq<char>, c: Seq<char>) -> bool {
    match e {
        LoadError::MissingTitle { page } => page@ == logical_name(n) && !has_title(
            logical_body(n, c),
        ),
        LoadError::InvalidDate { page } => page@ == logical_name(n) && !date_ok(logical_name(n)),
        _ => false,
    }
}

impl Page {
    /// The number of words of the body: every tag is replaced by a space,
    /// the rest is split on whitespace, and tokens of a single character
    /// are not counted.
    pub fn word_count(&self) -> (r: usize)
        ensures
            r as int == word_count_of(self.body@),
    {
        let stripped = strip_tags(self.body.as_str());
        count_words(&stripped)
    }
}

/// Renames a lightweight-markup source file to the native markup extension.
fn rename_md(name: &String) -> (r: String)
    requires
        ends_md(name@),
    ensures
        r@ == logical_name(name@),
{
    let l = name.as_str().unicode_len();
    let stem = String::from_str(name.as_str().substring_char(0, l - 3));
    let out = stem.concat(".html");
    proof {
        reveal_strlit(".html");
        assert(".html"@ =~= seq!['.', 'h', 't', 'm', 'l']);
        assert(out@ =~= logical_name(name@));
    }
    out
}

/// Builds a page from an already-renamed name and already-converted body:
/// extracts the title and the links, and reads the optional date prefix.
pub fn from_string(name: String, body: String) -> (r: Result<Page, LoadError>)
    ensures
        r is Ok <==> has_title(body@) && date_ok(name@),
        r matches Ok(p) ==> page_parsed(p, name@, body@) && p.backlinks@.len() == 0,
        r matches Err(e) ==> match e {
            LoadError::MissingTitle { page } => page@ == name@ && !has_title(body@),
            LoadError::InvalidDate { page } => page@ == name@ && has_title(body@) && !date_ok(
                name@,
            ),
            _ => false,
        },
{
    let tp = match find_title(body.as_str()) {
        None => {
            return Err(LoadError::MissingTitle { page: name });
        },
        Some(tp) => tp,
    };
    let title = String::from_str(body.as_str().substring_char(tp.0 + 4, tp.1));
    let links = extract_links(body.as_str());
    assert(first_title_at(body@, tp.0 as int, tp.1 as int) && title@ == title_text(
        body@,
        tp.0 as int,
        tp.1 as int,
    ));
    let ghost links0 = links@;
    match parse_date_prefix(name.as_str()) {
        None => {
            let page = Page {
                name,
                date: None,
                date_formatted: None,
                body,
                title,
                links,
                backlinks: Vec::new(),
            };
            proof {
                lemma_links_carry(page, links0);
            }
            Ok(page)
        },
        Some((y, m, d)) => {
            proof {
                lemma_prefix_bounds(name@);
            }
            if ymd_is_valid(y, m, d) {
                let formatted = format_date(y, m, d);
                let page = Page {
                    name,
                    date: Some(Date { year: y, month: m, day: d }),
                    date_formatted: Some(formatted),
                    body,
                    title,
                    links,
                    backlinks: Vec::new(),
                };
                proof {
                    lemma_links_carry(page, links0);
                }
                Ok(page)
            } else {
                Err(LoadError::InvalidDate { page: name })
            }
        },
    }
}

/// Link completeness carries over to a page holding an equal link vector.
proof fn lemma_links_carry(p: Page, links0: Seq<String>)
    requires
        p.links@ == links0,
        forall|t: Seq<char>|
            #[trigger] is_link_target(p.body@, t) ==> exists|idx: int|
                0 <= idx < links0.len() && links0[idx]@ == t,
    ensures
        forall|t: Seq<char>|
            #[trigger] is_link_target(p.body@, t) ==> exists|idx: int|
                0 <= idx < p.links@.len() && p.links@[idx]@ == t,
{
    assert forall|t: Seq<char>| #[trigger] is_link_target(p.body@, t) implies exists|idx: int|
        0 <= idx < p.links@.len() && p.links@[idx]@ == t by {
        let idx0 = choose|idx: int| 0 <= idx < links0.len() && links0[idx]@ == t;
        assert(0 <= idx0 < p.links@.len() && p.links@[idx0]@ == t);
    }
}

/// The numbers a date prefix carries are at most four and two digits wide.
proof fn lemma_prefix_bounds(n: Seq<char>)
    requires
        has_date_prefix(n),
    ensures
        0 <= prefix_year(n) <= 9999,
        0 <= prefix_month(n) <= 99,
        0 <= prefix_day(n) <= 99,
{
    assert(forall|c: char| is_digit(c) ==> 0 <= digit_val(c) <= 9);
}

/// Builds a page from one listed source file, converting lightweight markup
/// and renaming the file first.
pub fn from_source(name: &String, content: &String) -> (r: Result<Page, LoadError>)
    ensures
        r is Ok <==> source_ok(name@, content@),
        r matches Ok(p) ==> page_extracted(p, name@, content@) && p.backlinks@.len() == 0,
        r matches Err(e) ==> source_err(e, name@, content@),
{
    if str_ends_md(name.as_str()) {
        let renamed = rename_md(name);
        let html = convert_markdown(content.as_str());
        from_string(renamed, html)
    } else {
        from_string(name.clone(), content.clone())
    }
}

} // verus!
