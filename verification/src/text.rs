//! Character-level text utilities: lexicographic ordering of character
//! sequences (the order `String` comparison induces on UTF-8 text) and the
//! suffix/prefix tests that classify names and link targets.
use vstd::prelude::*;
use vstd::string::StrSliceExecFns;

verus! {

/// The sequences agree on the prefix of length `i`, after which either `a`
/// ends while `b` continues, or `a`'s next character is smaller.
pub open spec fn lex_lt_at(a: Seq<char>, b: Seq<char>, i: int) -> bool {
    0 <= i <= a.len() && i <= b.len() && (forall|j: int| 0 <= j < i ==> a[j] == b[j]) && ((i
        == a.len() && i < b.len()) || (i < a.len() && i < b.len() && (a[i] as int) < (
    b[i] as int)))
}

/// `a` is strictly before `b` in lexicographic order over character scalar
/// values (the order `String` comparison induces on UTF-8 text).
pub open spec fn lex_lt(a: Seq<char>, b: Seq<char>) -> bool {
    exists|i: int| lex_lt_at(a, b, i)
}

pub open spec fn lex_le(a: Seq<char>, b: Seq<char>) -> bool {
    lex_lt(a, b) || a == b
}

/// Lexicographic order is total: two sequences are ordered or equal.
pub proof fn lemma_lex_trichotomy(a: Seq<char>, b: Seq<char>)
    ensures
        lex_lt(a, b) || lex_lt(b, a) || a == b,
    decreases a.len(),
{
    if a.len() == 0 {
        if b.len() == 0 {
            assert(a =~= b);
        } else {
            assert(lex_lt_at(a, b, 0));
        }
    } else if b.len() == 0 {
        assert(lex_lt_at(b, a, 0));
    } else if (a[0] as int) < (b[0] as int) {
        assert(lex_lt_at(a, b, 0));
    } else if (b[0] as int) < (a[0] as int) {
        assert(lex_lt_at(b, a, 0));
    } else {
        assert(a[0] == b[0]);
        let at = a.drop_first();
        let bt = b.drop_first();
        lemma_lex_trichotomy(at, bt);
        if lex_lt(at, bt) {
            let i = choose|i: int| lex_lt_at(at, bt, i);
            assert(forall|j: int| 0 <= j < i + 1 ==> a[j] == b[j]) by {
                assert(forall|j: int| 1 <= j < i + 1 ==> a[j] == at[j - 1] && b[j] == bt[j - 1]);
            }
            assert(lex_lt_at(a, b, i + 1));
        } else if lex_lt(bt, at) {
            let i = choose|i: int| lex_lt_at(bt, at, i);
            assert(forall|j: int| 0 <= j < i + 1 ==> b[j] == a[j]) by {
                assert(forall|j: int| 1 <= j < i + 1 ==> b[j] == bt[j - 1] && a[j] == at[j - 1]);
            }
            assert(lex_lt_at(b, a, i + 1));
        } else {
            assert(at =~= bt);
            assert(a =~= b) by {
                assert(forall|j: int| 1 <= j < a.len() ==> a[j] == at[j - 1] && b[j] == bt[j - 1]);
            }
        }
    }
}

/// Lexicographic order is transitive.
pub proof fn lemma_lex_transitive(a: Seq<char>, b: Seq<char>, c: Seq<char>)
    requires
        lex_lt(a, b),
        lex_lt(b, c),
    ensures
        lex_lt(a, c),
{
    let i1 = choose|i: int| lex_lt_at(a, b, i);
    let i2 = choose|i: int| lex_lt_at(b, c, i);
    if i1 < i2 {
        assert(forall|j: int| 0 <= j < i1 ==> a[j] == c[j]);
        assert(lex_lt_at(a, c, i1));
    } else if i2 < i1 {
        assert(forall|j: int| 0 <= j < i2 ==> a[j] == c[j]);
        assert(i2 < b.len());
        assert(i2 < a.len() && (a[i2] as int) < (c[i2] as int));
        assert(lex_lt_at(a, c, i2));
    } else {
        assert(forall|j: int| 0 <= j < i1 ==> a[j] == c[j]);
        assert(lex_lt_at(a, c, i1));
    }
}

/// Compares two strings in the order of `lex_lt`.
pub fn str_lt(a: &str, b: &str) -> (r: bool)
    ensures
        r == lex_lt(a@, b@),
{
    let la = a.unicode_len();
    let lb = b.unicode_len();
    let mut i: usize = 0;
    loop
        invariant
            i <= la,
            i <= lb,
            la == a@.len(),
            lb == b@.len(),
            forall|j: int| 0 <= j < i ==> a@[j] == b@[j],
        decreases la - i,
    {
        if i == la {
            if la < lb {
                assert(lex_lt_at(a@, b@, i as int));
                return true;
            } else {
                assert(a@ =~= b@);
                return false;
            }
        }
        if i == lb {
            assert(!lex_lt(a@, b@));
            return false;
        }
        let ca = a.get_char(i);
        let cb = b.get_char(i);
        if (ca as u32) < (cb as u32) {
            assert(lex_lt_at(a@, b@, i as int));
            return true;
        }
        if (cb as u32) < (ca as u32) {
            assert(!lex_lt(a@, b@)) by {
                assert(forall|j: int| 0 <= j < i + 1 ==> !((a@[j] as int) < (b@[j] as int)));
            }
            return false;
        }
        assert(a@[i as int] == b@[i as int]) by {
            assert(ca as u32 == cb as u32);
        }
        i = i + 1;
    }
}

/// Equality of two strings, by their character sequences.
pub fn str_eq(a: &String, b: &String) -> (r: bool)
    ensures
        r == (a@ == b@),
{
    a.eq(b)
}

/// The target begins with the external-scheme prefix `http`.
pub open spec fn starts_http(t: Seq<char>) -> bool {
    t.len() >= 4 && t[0] == 'h' && t[1] == 't' && t[2] == 't' && t[3] == 'p'
}

/// The name or target ends with the native markup extension `.html`.
pub open spec fn ends_html(t: Seq<char>) -> bool {
    t.len() >= 5 && t[t.len() - 5] == '.' && t[t.len() - 4] == 'h' && t[t.len() - 3] == 't'
        && t[t.len() - 2] == 'm' && t[t.len() - 1] == 'l'
}

/// The name ends with the lightweight-markup-source extension `.md`.
pub open spec fn ends_md(t: Seq<char>) -> bool {
    t.len() >= 3 && t[t.len() - 3] == '.' && t[t.len() - 2] == 'm' && t[t.len() - 1] == 'd'
}

/// A link target is internal when it is not scheme-prefixed and names a
/// native markup page.
pub open spec fn is_internal_link(t: Seq<char>) -> bool {
    !starts_http(t) && ends_html(t)
}

/// A file is considered for loading when it carries one of the two content
/// extensions.
pub open spec fn is_content_name(n: Seq<char>) -> bool {
    ends_html(n) || ends_md(n)
}

pub fn str_starts_http(t: &str) -> (r: bool)
    ensures
        r == starts_http(t@),
{
    let l = t.unicode_len();
    l >= 4 && t.get_char(0) == 'h' && t.get_char(1) == 't' && t.get_char(2) == 't' && t.get_char(3)
        == 'p'
}

pub fn str_ends_html(t: &str) -> (r: bool)
    ensures
        r == ends_html(t@),
{
    let l = t.unicode_len();
    l >= 5 && t.get_char(l - 5) == '.' && t.get_char(l - 4) == 'h' && t.get_char(l - 3) == 't'
        && t.get_char(l - 2) == 'm' && t.get_char(l - 1) == 'l'
}

pub fn str_ends_md(t: &str) -> (r: bool)
    ensures
        r == ends_md(t@),
{
    let l = t.unicode_len();
    l >= 3 && t.get_char(l - 3) == '.' && t.get_char(l - 2) == 'm' && t.get_char(l - 1) == 'd'
}

/// Executable internal-link test, matching `is_internal_link`.
pub fn str_is_internal_link(t: &str) -> (r: bool)
    ensures
        r == is_internal_link(t@),
{
    !str_starts_http(t) && str_ends_html(t)
}

/// Executable content-name test, matching `is_content_name`.
pub fn str_is_content_name(n: &str) -> (r: bool)
    ensures
        r == is_content_name(n@),
{
    str_ends_html(n) || str_ends_md(n)
}

} // verus!
