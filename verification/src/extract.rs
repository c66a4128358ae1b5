//! Structural extraction from a page body: the first first-level heading
//! (the title), hyperlink targets with trailing fragments stripped, a
//! calendar-date prefix in a file name, and the tag-stripping word count.
//!
//! The two markup patterns recognized here are the parsing contract of the
//! library: a heading is `<h1>` up to the nearest following `</h1>` with at
//! least one character of inner text and no line break inside, and an anchor
//! is the literal `<a href="` followed by a non-empty target that runs up to
//! the first `#` or `"`.
use vstd::prelude::*;
use vstd::string::StrSliceExecFns;
use vstd::string::StringExecFns;

verus! {

/// True when `c` is an ASCII decimal digit.
pub open spec fn is_digit(c: char) -> bool {
    '0' <= c && c <= '9'
}

/// Numeric value of an ASCII decimal digit.
pub open spec fn digit_val(c: char) -> int {
    c as int - '0' as int
}

// --- title extraction ---

/// The opening tag `<h1>` stands at position `i`.
pub open spec fn h1_open_at(s: Seq<char>, i: int) -> bool {
    0 <= i && i + 4 <= s.len() && s[i] == '<' && s[i + 1] == 'h' && s[i + 2] == '1' && s[i + 3]
        == '>'
}

/// The closing tag `</h1>` stands at position `j`.
pub open spec fn h1_close_at(s: Seq<char>, j: int) -> bool {
    0 <= j && j + 5 <= s.len() && s[j] == '<' && s[j + 1] == '/' && s[j + 2] == 'h' && s[j + 3]
        == '1' && s[j + 4] == '>'
}

/// A heading match: `<h1>` at `i`, `</h1>` at `j`, at least one character of
/// inner text between them, and no line break in the inner text.
pub open spec fn title_match_at(s: Seq<char>, i: int, j: int) -> bool {
    h1_open_at(s, i) && h1_close_at(s, j) && i + 5 <= j && (forall|m: int|
        i + 4 <= m < j ==> s[m] != '\n')
}

/// The body contains at least one heading match.
pub open spec fn has_title(s: Seq<char>) -> bool {
    exists|i: int, j: int| title_match_at(s, i, j)
}

/// The first heading match: the earliest opening position, closed by the
/// nearest closing tag (the non-greedy inner text).
pub open spec fn first_title_at(s: Seq<char>, i: int, j: int) -> bool {
    title_match_at(s, i, j) && (forall|i2: int, j2: int| title_match_at(s, i2, j2) ==> i <= i2)
        && (forall|j2: int| title_match_at(s, i, j2) ==> j <= j2)
}

/// The inner text of the first heading match, as the title of the page.
pub open spec fn title_text(s: Seq<char>, i: int, j: int) -> Seq<char> {
    s.subrange(i + 4, j)
}

/// Scans from an opening `<h1>` at `i` for the nearest closing `</h1>`,
/// giving up at a line break or at the end of the body.
fn find_h1_close(s: &str, i: usize) -> (r: Option<usize>)
    requires
        h1_open_at(s@, i as int),
    ensures
        match r {
            Some(j) => title_match_at(s@, i as int, j as int) && (forall|j2: int|
                title_match_at(s@, i as int, j2) ==> j as int <= j2),
            None => forall|j2: int| !title_match_at(s@, i as int, j2),
        },
{
    let l = s.unicode_len();
    let mut p: usize = i + 4;
    loop
        invariant
            i + 4 <= p <= l,
            l == s@.len(),
            h1_open_at(s@, i as int),
            forall|x: int| i + 4 <= x < p ==> s@[x] != '\n',
            forall|x: int| i + 5 <= x < p ==> !h1_close_at(s@, x),
        decreases l - p,
    {
        if p >= l {
            assert forall|j2: int| !(#[trigger] title_match_at(s@, i as int, j2)) by {
                if title_match_at(s@, i as int, j2) {
                    assert(h1_close_at(s@, j2));
                    assert(i + 5 <= j2 < l);
                }
            }
            return None;
        }
        if p >= i + 5 && l - p >= 5 && s.get_char(p) == '<' && s.get_char(p + 1) == '/'
            && s.get_char(p + 2) == 'h' && s.get_char(p + 3) == '1' && s.get_char(p + 4) == '>' {
            assert(title_match_at(s@, i as int, p as int));
            return Some(p);
        }
        if s.get_char(p) == '\n' {
            assert forall|j2: int| !(#[trigger] title_match_at(s@, i as int, j2)) by {
                if title_match_at(s@, i as int, j2) {
                    if j2 > p {
                        assert(s@[p as int] != '\n');
                    } else {
                        assert(h1_close_at(s@, j2) ==> s@[j2] == '<');
                    }
                }
            }
            return None;
        }
        assert(!h1_close_at(s@, p as int) || p < i + 5);
        p = p + 1;
    }
}

/// Locates the first heading match, returning the positions of its opening
/// and closing tags.
pub fn find_title(s: &str) -> (r: Option<(usize, usize)>)
    ensures
        match r {
            Some(p) => first_title_at(s@, p.0 as int, p.1 as int),
            None => !has_title(s@),
        },
{
    let l = s.unicode_len();
    let mut i: usize = 0;
    while l - i >= 4 && i < l
        invariant
            0 <= i <= l,
            l == s@.len(),
            forall|i2: int, j2: int| i2 < i ==> !title_match_at(s@, i2, j2),
        decreases l - i,
    {
        let open = s.get_char(i) == '<' && s.get_char(i + 1) == 'h' && s.get_char(i + 2) == '1'
            && s.get_char(i + 3) == '>';
        if open {
            match find_h1_close(s, i) {
                Some(j) => {
                    return Some((i, j));
                },
                None => {},
            }
        }
        assert(forall|j2: int| !title_match_at(s@, i as int, j2));
        i = i + 1;
    }
    assert forall|i2: int, j2: int| !(#[trigger] title_match_at(s@, i2, j2)) by {
        if title_match_at(s@, i2, j2) {
            assert(h1_open_at(s@, i2));
            assert(i2 + 4 <= l);
            assert(i2 < i);
        }
    }
    None
}

// --- link extraction ---

/// The literal `<a href="` stands at position `i`.
pub open spec fn anchor_at(s: Seq<char>, i: int) -> bool {
    0 <= i && i + 9 <= s.len() && s[i] == '<' && s[i + 1] == 'a' && s[i + 2] == ' ' && s[i + 3]
        == 'h' && s[i + 4] == 'r' && s[i + 5] == 'e' && s[i + 6] == 'f' && s[i + 7] == '=' && s[i
        + 8] == '"'
}

/// A character that ends a link target: the closing quote, or the `#` that
/// begins a fragment identifier.
pub open spec fn is_terminator(c: char) -> bool {
    c == '#' || c == '"'
}

/// An anchor match: `<a href="` at `i` with a non-empty target running up to
/// the first terminator, at position `k`.  A trailing fragment is thereby
/// never part of the target.
pub open spec fn link_match(s: Seq<char>, i: int, k: int) -> bool {
    anchor_at(s, i) && i + 10 <= k && k < s.len() && is_terminator(s[k]) && (forall|m: int|
        i + 9 <= m < k ==> !is_terminator(s[m]))
}

/// `t` is the target of some anchor match in `s`.
pub open spec fn is_link_target(s: Seq<char>, t: Seq<char>) -> bool {
    exists|i: int, k: int| link_match(s, i, k) && t == s.subrange(i + 9, k)
}

/// Whether some string in `v` has the same characters as `t`.
pub fn vec_contains_str(v: &Vec<String>, t: &String) -> (r: bool)
    ensures
        r == exists|idx: int| 0 <= idx < v@.len() && v@[idx]@ == t@,
{
    let mut idx: usize = 0;
    while idx < v.len()
        invariant
            0 <= idx <= v@.len(),
            forall|q: int| 0 <= q < idx ==> v@[q]@ != t@,
        decreases v@.len() - idx,
    {
        if crate::text::str_eq(&v[idx], t) {
            return true;
        }
        idx = idx + 1;
    }
    false
}

/// Extracts every link target of the body, each with any trailing fragment
/// stripped, deduplicated by exact match.
pub fn extract_links(s: &str) -> (r: Vec<String>)
    ensures
        forall|idx: int| 0 <= idx < r@.len() ==> is_link_target(s@, #[trigger] r@[idx]@),
        forall|t: Seq<char>|
            #[trigger] is_link_target(s@, t) ==> exists|idx: int| 0 <= idx < r@.len() && r@[idx]@
                == t,
        forall|idx1: int, idx2: int|
            0 <= idx1 < r@.len() && 0 <= idx2 < r@.len() && idx1 != idx2 ==> r@[idx1]@ != r@[idx2]@,
{
    let l = s.unicode_len();
    let mut r: Vec<String> = Vec::new();
    let mut i: usize = 0;
    while l - i >= 9 && i < l
        invariant
            0 <= i <= l,
            l == s@.len(),
            forall|idx: int| 0 <= idx < r@.len() ==> is_link_target(s@, #[trigger] r@[idx]@),
            forall|i2: int, k2: int|
                #[trigger] link_match(s@, i2, k2) && i2 < i ==> exists|idx: int|
                    0 <= idx < r@.len() && r@[idx]@ == s@.subrange(i2 + 9, k2),
            forall|idx1: int, idx2: int|
                0 <= idx1 < r@.len() && 0 <= idx2 < r@.len() && idx1 != idx2 ==> r@[idx1]@
                    != r@[idx2]@,
        decreases l - i,
    {
        let open = s.get_char(i) == '<' && s.get_char(i + 1) == 'a' && s.get_char(i + 2) == ' '
            && s.get_char(i + 3) == 'h' && s.get_char(i + 4) == 'r' && s.get_char(i + 5) == 'e'
            && s.get_char(i + 6) == 'f' && s.get_char(i + 7) == '=' && s.get_char(i + 8) == '"';
        if open {
            match find_terminator(s, i) {
                Some(k) => {
                    assert(link_match(s@, i as int, k as int));
                    let ghost r0 = r@;
                    let target = String::from_str(s.substring_char(i + 9, k));
                    let dup = vec_contains_str(&r, &target);
                    if !dup {
                        r.push(target);
                    }
                    proof {
                        if !dup {
                            assert(r@.len() == r0.len() + 1);
                            assert(r@[r0.len() as int]@ == s@.subrange(i + 9, k as int));
                            assert(is_link_target(s@, r@[r0.len() as int]@));
                            assert(forall|q: int| 0 <= q < r0.len() ==> r@[q] == r0[q]);
                        } else {
                            assert(r@ == r0);
                        }
                        assert(exists|idx: int|
                            0 <= idx < r@.len() && r@[idx]@ == s@.subrange(i + 9, k as int));
                        assert forall|i2: int, k2: int|
                            #[trigger] link_match(s@, i2, k2) && i2 < i + 1 implies exists|
                            idx: int,
                        | 0 <= idx < r@.len() && r@[idx]@ == s@.subrange(i2 + 9, k2) by {
                            if i2 == i {
                                assert(k2 == k as int);
                            } else {
                                let idx0 = choose|idx: int|
                                    0 <= idx < r0.len() && r0[idx]@ == s@.subrange(i2 + 9, k2);
                                assert(0 <= idx0 < r@.len() && r@[idx0]@ == s@.subrange(
                                    i2 + 9,
                                    k2,
                                ));
                            }
                        }
                    }
                },
                None => {
                    assert(forall|i2: int, k2: int|
                        #[trigger] link_match(s@, i2, k2) && i2 < i + 1 ==> i2 < i);
                },
            }
        } else {
            assert(forall|k2: int| !link_match(s@, i as int, k2));
        }
        assert(forall|i2: int, k2: int|
            #[trigger] link_match(s@, i2, k2) && i2 < i + 1 ==> exists|idx: int|
                0 <= idx < r@.len() && r@[idx]@ == s@.subrange(i2 + 9, k2));
        i = i + 1;
    }
    assert forall|t: Seq<char>| #[trigger] is_link_target(s@, t) implies exists|idx: int|
        0 <= idx < r@.len() && r@[idx]@ == t by {
        let (i2, k2) = choose|i2: int, k2: int|
            link_match(s@, i2, k2) && t == s@.subrange(i2 + 9, k2);
        assert(anchor_at(s@, i2));
        assert(i2 + 9 <= l);
        assert(i2 < i);
        assert(link_match(s@, i2, k2) && i2 < i);
    }
    r
}

/// Scans from an anchor at `i` for the first terminator of its target,
/// returning it only when the target is non-empty.
fn find_terminator(s: &str, i: usize) -> (r: Option<usize>)
    requires
        anchor_at(s@, i as int),
    ensures
        match r {
            Some(k) => link_match(s@, i as int, k as int) && (forall|k2: int|
                link_match(s@, i as int, k2) ==> k2 == k as int),
            None => forall|k2: int| !link_match(s@, i as int, k2),
        },
{
    let l = s.unicode_len();
    let mut k: usize = i + 9;
    loop
        invariant
            i + 9 <= k <= l,
            l == s@.len(),
            anchor_at(s@, i as int),
            forall|x: int| i + 9 <= x < k ==> !is_terminator(s@[x]),
        decreases l - k,
    {
        if k >= l {
            assert forall|k2: int| !(#[trigger] link_match(s@, i as int, k2)) by {
                if link_match(s@, i as int, k2) {
                    assert(!is_terminator(s@[k2]));
                }
            }
            return None;
        }
        let c = s.get_char(k);
        if c == '#' || c == '"' {
            if k > i + 9 {
                assert(link_match(s@, i as int, k as int));
                assert forall|k2: int|
                    #[trigger] link_match(s@, i as int, k2) implies k2 == k as int by {
                    if k2 < k as int {
                        assert(!is_terminator(s@[k2]));
                    } else if k2 > k as int {
                        assert(!is_terminator(s@[k as int]));
                    }
                }
                return Some(k);
            } else {
                assert forall|k2: int| !(#[trigger] link_match(s@, i as int, k2)) by {
                    if link_match(s@, i as int, k2) {
                        assert(!is_terminator(s@[k as int]));
                    }
                }
                return None;
            }
        }
        k = k + 1;
    }
}

// --- date prefix ---

/// The file name begins with a `YYYY-MM-DD-` prefix followed by at least one
/// further character.
pub open spec fn has_date_prefix(n: Seq<char>) -> bool {
    n.len() >= 12 && is_digit(n[0]) && is_digit(n[1]) && is_digit(n[2]) && is_digit(n[3]) && n[4]
        == '-' && is_digit(n[5]) && is_digit(n[6]) && n[7] == '-' && is_digit(n[8]) && is_digit(
    n[9]) && n[10] == '-'
}

pub open spec fn prefix_year(n: Seq<char>) -> int {
    digit_val(n[0]) * 1000 + digit_val(n[1]) * 100 + digit_val(n[2]) * 10 + digit_val(n[3])
}

pub open spec fn prefix_month(n: Seq<char>) -> int {
    digit_val(n[5]) * 10 + digit_val(n[6])
}

pub open spec fn prefix_day(n: Seq<char>) -> int {
    digit_val(n[8]) * 10 + digit_val(n[9])
}

/// A year divisible by four, except century years not divisible by four
/// hundred.
pub open spec fn is_leap_year(y: int) -> bool {
    y % 4 == 0 && (y % 100 != 0 || y % 400 == 0)
}

pub open spec fn days_in_month(y: int, m: int) -> int {
    if m == 2 {
        if is_leap_year(y) {
            29
        } else {
            28
        }
    } else if m == 4 || m == 6 || m == 9 || m == 11 {
        30
    } else {
        31
    }
}

/// A valid date of the proleptic Gregorian calendar.
pub open spec fn valid_ymd(y: int, m: int, d: int) -> bool {
    1 <= m <= 12 && 1 <= d <= days_in_month(y, m)
}

/// The name's date prefix, when present, forms a valid calendar date.
pub open spec fn date_ok(n: Seq<char>) -> bool {
    has_date_prefix(n) ==> valid_ymd(prefix_year(n), prefix_month(n), prefix_day(n))
}

/// Reads the `YYYY-MM-DD-` prefix of a file name, if present.
pub fn parse_date_prefix(n: &str) -> (r: Option<(u32, u32, u32)>)
    ensures
        r is Some <==> has_date_prefix(n@),
        r matches Some(ymd) ==> ymd.0 as int == prefix_year(n@) && ymd.1 as int == prefix_month(n@)
            && ymd.2 as int == prefix_day(n@),
{
    let l = n.unicode_len();
    if l < 12 {
        return None;
    }
    let c0 = n.get_char(0);
    let c1 = n.get_char(1);
    let c2 = n.get_char(2);
    let c3 = n.get_char(3);
    let c5 = n.get_char(5);
    let c6 = n.get_char(6);
    let c8 = n.get_char(8);
    let c9 = n.get_char(9);
    if !(digit(c0) && digit(c1) && digit(c2) && digit(c3) && n.get_char(4) == '-' && digit(c5)
        && digit(c6) && n.get_char(7) == '-' && digit(c8) && digit(c9) && n.get_char(10) == '-') {
        return None;
    }
    let y = dval(c0) * 1000 + dval(c1) * 100 + dval(c2) * 10 + dval(c3);
    let m = dval(c5) * 10 + dval(c6);
    let d = dval(c8) * 10 + dval(c9);
    Some((y, m, d))
}

/// Executable digit test, matching `is_digit`.
pub fn digit(c: char) -> (r: bool)
    ensures
        r == is_digit(c),
{
    '0' <= c && c <= '9'
}

/// Executable digit value, matching `digit_val`.
pub fn dval(c: char) -> (r: u32)
    requires
        is_digit(c),
    ensures
        r as int == digit_val(c),
        r <= 9,
{
    (c as u32) - 48
}

// --- word count ---

/// The whitespace characters of the tokenizer: ASCII space and the ASCII
/// control characters that break lines or fields.
pub open spec fn is_ws(c: char) -> bool {
    c == ' ' || c == '\t' || c == '\n' || c == '\r' || c == '\u{b}' || c == '\u{c}'
}

/// A markup tag: `<` at `i`, the nearest following `>` at `j`, at least one
/// character between them, none of it a line break.
pub open spec fn tag_at(s: Seq<char>, i: int, j: int) -> bool {
    0 <= i && i < s.len() && s[i] == '<' && i + 2 <= j && j < s.len() && s[j] == '>' && (forall|
        m: int,
    |
        i + 1 <= m < j ==> s[m] != '\n') && (forall|m: int| i + 2 <= m < j ==> s[m] != '>')
}

/// A tag begins at position `i`.
pub open spec fn tag_from(s: Seq<char>, i: int) -> bool {
    exists|j: int| tag_at(s, i, j)
}

/// The closing position of the tag beginning at `i`.
pub open spec fn tag_close(s: Seq<char>, i: int) -> int {
    choose|j: int| tag_at(s, i, j)
}

/// The closing position of a tag is unique.
pub proof fn lemma_tag_close_unique(s: Seq<char>, i: int, j: int)
    requires
        tag_at(s, i, j),
    ensures
        tag_close(s, i) == j,
{
    let j2 = tag_close(s, i);
    assert(tag_at(s, i, j2));
    if j < j2 {
        assert(s[j] != '>');
    } else if j2 < j {
        assert(s[j2] != '>');
    }
}

/// The body with each tag replaced by a single space, scanning from `i`.
pub open spec fn strip_tags_from(s: Seq<char>, i: int) -> Seq<char>
    decreases s.len() - i,
{
    if i < 0 || i >= s.len() {
        Seq::empty()
    } else if s[i] == '<' && tag_from(s, i) {
        seq![' '] + strip_tags_from(s, tag_close(s, i) + 1)
    } else {
        seq![s[i]] + strip_tags_from(s, i + 1)
    }
}

/// The number of maximal non-whitespace runs of length at least two in `s`
/// from position `i` onward, with `run` characters of a run already seen.
pub open spec fn wc_from(s: Seq<char>, i: int, run: int) -> int
    decreases s.len() - i,
{
    if i < 0 || i >= s.len() {
        if run >= 2 {
            1
        } else {
            0
        }
    } else if is_ws(s[i]) {
        (if run >= 2 {
            1int
        } else {
            0int
        }) + wc_from(s, i + 1, 0)
    } else {
        wc_from(s, i + 1, run + 1)
    }
}

/// The word count of a body: tags are replaced by spaces, the rest is split
/// on whitespace, and only tokens of two or more characters are counted.
pub open spec fn word_count_of(body: Seq<char>) -> int {
    wc_from(strip_tags_from(body, 0), 0, 0)
}

/// Scans from a `<` at `i` for the nearest `>` that closes a tag, giving up
/// at a line break or at the end of the body.
fn find_tag_close(s: &str, i: usize) -> (r: Option<usize>)
    requires
        0 <= i < s@.len(),
        s@[i as int] == '<',
    ensures
        match r {
            Some(j) => tag_at(s@, i as int, j as int),
            None => !tag_from(s@, i as int),
        },
{
    let l = s.unicode_len();
    let mut p: usize = i + 1;
    loop
        invariant
            i + 1 <= p <= l,
            l == s@.len(),
            s@[i as int] == '<',
            forall|x: int| i + 1 <= x < p ==> s@[x] != '\n',
            forall|x: int| i + 2 <= x < p ==> s@[x] != '>',
        decreases l - p,
    {
        if p >= l {
            assert forall|j: int| !(#[trigger] tag_at(s@, i as int, j)) by {
                if tag_at(s@, i as int, j) {
                    assert(s@[j] != '>');
                }
            }
            return None;
        }
        let d = s.get_char(p);
        if p >= i + 2 && d == '>' {
            assert(tag_at(s@, i as int, p as int));
            return Some(p);
        }
        if d == '\n' {
            assert forall|j: int| !(#[trigger] tag_at(s@, i as int, j)) by {
                if tag_at(s@, i as int, j) {
                    if j > p {
                        assert(s@[p as int] != '\n');
                    } else {
                        assert(j >= i + 2 && s@[j] == '>');
                    }
                }
            }
            return None;
        }
        assert(s@[p as int] != '\n' && (p < i + 2 || s@[p as int] != '>'));
        p = p + 1;
    }
}

/// Replaces every tag of the body by a single space.
pub fn strip_tags(s: &str) -> (r: Vec<char>)
    ensures
        r@ == strip_tags_from(s@, 0),
{
    let l = s.unicode_len();
    let mut out: Vec<char> = Vec::new();
    let mut i: usize = 0;
    while i < l
        invariant
            0 <= i <= l,
            l == s@.len(),
            strip_tags_from(s@, 0) == out@ + strip_tags_from(s@, i as int),
        decreases l - i,
    {
        let c = s.get_char(i);
        if c == '<' {
            match find_tag_close(s, i) {
                Some(j) => {
                    proof {
                        lemma_tag_close_unique(s@, i as int, j as int);
                    }
                    out.push(' ');
                    i = j + 1;
                },
                None => {
                    assert(!tag_from(s@, i as int));
                    out.push(c);
                    i = i + 1;
                },
            }
        } else {
            out.push(c);
            i = i + 1;
        }
    }
    assert(out@ + strip_tags_from(s@, i as int) =~= out@);
    out
}

/// Counts the tokens of two or more characters in already-stripped text.
pub fn count_words(v: &Vec<char>) -> (r: usize)
    ensures
        r as int == wc_from(v@, 0, 0),
{
    let mut count: usize = 0;
    let mut run: usize = 0;
    let mut i: usize = 0;
    while i < v.len()
        invariant
            0 <= i <= v@.len(),
            count + run <= i,
            wc_from(v@, 0, 0) == count + wc_from(v@, i as int, run as int),
        decreases v@.len() - i,
    {
        let c = v[i];
        if c == ' ' || c == '\t' || c == '\n' || c == '\r' || c == '\u{b}' || c == '\u{c}' {
            if run >= 2 {
                count = count + 1;
            }
            run = 0;
        } else {
            run = run + 1;
        }
        i = i + 1;
    }
    if run >= 2 {
        count = count + 1;
    }
    count
}

} // verus!
