//! The graph builder: takes the full set of extracted pages, resolves every
//! internal link against the page set, fills in the backlink edges, and
//! returns the pages sorted ascending by name.
use crate::extract::is_link_target;
use crate::page::logical_body;
use crate::page::logical_name;
use crate::page::page_extracted;
use crate::page::source_err;
use crate::page::source_ok;
use crate::page::LoadError;
use crate::page::Page;
use crate::page::SourceFile;
use crate::text::is_content_name;
use crate::text::is_internal_link;
use crate::text::lemma_lex_transitive;
use crate::text::lemma_lex_trichotomy;
use crate::text::lex_lt;
use crate::text::str_eq;
use crate::text::str_is_content_name;
use crate::text::str_is_internal_link;
use crate::text::str_lt;
use vstd::prelude::*;

verus! {

/// The files of a listing that carry a content extension, in listing order.
pub open spec fn content_seq(files: Seq<SourceFile>) -> Seq<SourceFile>
    decreases files.len(),
{
    if files.len() == 0 {
        Seq::empty()
    } else {
        let rest = content_seq(files.drop_last());
        if is_content_name(files.last().name@) {
            rest.push(files.last())
        } else {
            rest
        }
    }
}

/// Every considered file extracts successfully.
pub open spec fn sources_ok_of(cs: Seq<SourceFile>) -> bool {
    forall|q: int| 0 <= q < cs.len() ==> source_ok(#[trigger] cs[q].name@, cs[q].content@)
}

/// No two considered files share a logical page name.
pub open spec fn unique_names_of(cs: Seq<SourceFile>) -> bool {
    forall|q1: int, q2: int|
        0 <= q1 < cs.len() && 0 <= q2 < cs.len() && q1 != q2 ==> logical_name(
            #[trigger] cs[q1].name@,
        ) != logical_name(#[trigger] cs[q2].name@)
}

/// Some considered file has `t` as its logical page name.
pub open spec fn resolves_in(cs: Seq<SourceFile>, t: Seq<char>) -> bool {
    exists|p: int| 0 <= p < cs.len() && logical_name(#[trigger] cs[p].name@) == t
}

/// Every internal link target of every considered file resolves to a
/// considered file.  External targets are exempt.
pub open spec fn links_resolve_of(cs: Seq<SourceFile>) -> bool {
    forall|q: int, t: Seq<char>|
        0 <= q < cs.len() && #[trigger] is_link_target(
            logical_body(cs[q].name@, cs[q].content@),
            t,
        ) && is_internal_link(t) ==> resolves_in(cs, t)
}

/// The whole batch loads: every page has a title and a well-formed date,
/// names are unique, and every internal link resolves.
pub open spec fn batch_ok(files: Seq<SourceFile>) -> bool {
    &&& sources_ok_of(content_seq(files))
    &&& unique_names_of(content_seq(files))
    &&& links_resolve_of(content_seq(files))
}

/// The pages stand in strictly ascending lexicographic order of names.
pub open spec fn pages_sorted(pages: Seq<Page>) -> bool {
    forall|a: int, b: int|
        0 <= a < b < pages.len() ==> lex_lt(#[trigger] pages[a].name@, #[trigger] pages[b].name@)
}

/// Page `a` has an internal outbound link resolving to page `t`.
pub open spec fn has_edge(pages: Seq<Page>, a: int, t: int) -> bool {
    exists|k: int|
        0 <= k < pages[a].links@.len() && is_internal_link(#[trigger] pages[a].links@[k]@)
            && pages[a].links@[k]@ == pages[t].name@
}

/// The backlink entry `e` of page `t`, as a pair of character sequences.
pub open spec fn entry_of(pages: Seq<Page>, t: int, e: int) -> (Seq<char>, Seq<char>) {
    (pages[t].backlinks@[e].0@, pages[t].backlinks@[e].1@)
}

/// Every internal link edge is recorded: when `a` links to `t`, page `t`
/// carries a backlink entry with `a`'s name and title.
pub open spec fn backlinks_complete(pages: Seq<Page>) -> bool {
    forall|a: int, t: int|
        0 <= a < pages.len() && 0 <= t < pages.len() && #[trigger] has_edge(pages, a, t)
            ==> exists|e: int|
            0 <= e < pages[t].backlinks@.len() && entry_of(pages, t, e) == (
            pages[a].name@,
            pages[a].title@,
            )
}

/// The backlink entry `e` of page `t` names a real referrer: a page that
/// carries an internal link edge into `t`.
pub open spec fn entry_source(pages: Seq<Page>, t: int, e: int) -> bool {
    exists|a: int|
        0 <= a < pages.len() && entry_of(pages, t, e) == (pages[a].name@, pages[a].title@)
            && #[trigger] has_edge(pages, a, t)
}

/// Every backlink entry comes from a real internal link edge.
pub open spec fn backlinks_sound(pages: Seq<Page>) -> bool {
    forall|t: int, e: int|
        0 <= t < pages.len() && 0 <= e < pages[t].backlinks@.len() ==> #[trigger] entry_source(
            pages,
            t,
            e,
        )
}

/// The backlink entries of each page stand in strictly ascending order of
/// referrer name, so each referrer appears exactly once and the order is
/// reproducible.
pub open spec fn backlinks_sorted(pages: Seq<Page>) -> bool {
    forall|t: int, e1: int, e2: int|
        0 <= t < pages.len() && 0 <= e1 < e2 < pages[t].backlinks@.len() ==> lex_lt(
            (#[trigger] entry_of(pages, t, e1)).0,
            (#[trigger] entry_of(pages, t, e2)).0,
        )
}

/// Some output page is the extraction of the considered file `q`.
pub open spec fn covered_in(files: Seq<SourceFile>, pages: Seq<Page>, q: int) -> bool {
    exists|p: int|
        0 <= p < pages.len() && page_extracted(
            #[trigger] pages[p],
            content_seq(files)[q].name@,
            content_seq(files)[q].content@,
        )
}

/// Every considered file is represented in the output.
pub open spec fn output_covers(files: Seq<SourceFile>, pages: Seq<Page>) -> bool {
    forall|q: int| 0 <= q < content_seq(files).len() ==> #[trigger] covered_in(files, pages, q)
}

/// The output page `p` is the extraction of some considered file.
pub open spec fn comes_from(files: Seq<SourceFile>, pages: Seq<Page>, p: int) -> bool {
    exists|q: int|
        0 <= q < content_seq(files).len() && page_extracted(
            pages[p],
            #[trigger] content_seq(files)[q].name@,
            content_seq(files)[q].content@,
        )
}

/// Every output page is the extraction of some considered file.
pub open spec fn output_from(files: Seq<SourceFile>, pages: Seq<Page>) -> bool {
    forall|p: int| 0 <= p < pages.len() ==> #[trigger] comes_from(files, pages, p)
}

/// Which failures a batch load can be charged with: each error kind names a
/// real offender among the considered files.
pub open spec fn load_err(files: Seq<SourceFile>, e: LoadError) -> bool {
    match e {
        LoadError::MissingTitle { .. } => exists|q: int|
            0 <= q < content_seq(files).len() && source_err(
                e,
                #[trigger] content_seq(files)[q].name@,
                content_seq(files)[q].content@,
            ),
        LoadError::InvalidDate { .. } => exists|q: int|
            0 <= q < content_seq(files).len() && source_err(
                e,
                #[trigger] content_seq(files)[q].name@,
                content_seq(files)[q].content@,
            ),
        LoadError::DuplicateName { name } => exists|q1: int, q2: int|
            0 <= q1 < content_seq(files).len() && 0 <= q2 < content_seq(files).len() && q1 != q2
                && logical_name(#[trigger] content_seq(files)[q1].name@) == name@ && logical_name(
                #[trigger] content_seq(files)[q2].name@,
            ) == name@,
        LoadError::DanglingLink { page, target } => exists|q: int|
            0 <= q < content_seq(files).len() && logical_name(
                #[trigger] content_seq(files)[q].name@,
            ) == page@ && is_link_target(
                logical_body(content_seq(files)[q].name@, content_seq(files)[q].content@),
                target@,
            ) && is_internal_link(target@) && !resolves_in(content_seq(files), target@),
        LoadError::UnreadableFile { .. } => false,
    }
}

/// The pages extracted so far correspond, one to one and in order, to the
/// considered files processed so far.
pub open spec fn pages_match(pages: Seq<Page>, cs: Seq<SourceFile>) -> bool {
    pages.len() == cs.len() && forall|q: int|
        0 <= q < pages.len() ==> page_extracted(
            #[trigger] pages[q],
            cs[q].name@,
            cs[q].content@,
        ) && pages[q].backlinks@.len() == 0
}

/// `x` is one of the first `n` elements of `s`.
pub open spec fn from_first(s: Seq<Page>, n: int, x: Page) -> bool {
    exists|q: int| 0 <= q < n && s[q] == x
}

/// Sorts pages ascending by name with a simple insertion sort; the names
/// must be pairwise distinct, so the order is strict.
#[verifier::rlimit(100)]
fn sort_pages(input: Vec<Page>) -> (r: Vec<Page>)
    requires
        forall|q1: int, q2: int|
            0 <= q1 < input@.len() && 0 <= q2 < input@.len() && q1 != q2 ==> (
            #[trigger] input@[q1].name@) != (#[trigger] input@[q2].name@),
    ensures
        r@.len() == input@.len(),
        forall|p: int|
            0 <= p < r@.len() ==> from_first(input@, input@.len() as int, #[trigger] r@[p]),
        forall|q: int|
            0 <= q < input@.len() ==> from_first(r@, r@.len() as int, #[trigger] input@[q]),
        pages_sorted(r@),
{
    let ghost orig = input@;
    let mut rem = input;
    let mut r: Vec<Page> = Vec::new();
    while rem.len() > 0
        invariant
            r@.len() + rem@.len() == orig.len(),
            rem@ == orig.subrange(r@.len() as int, orig.len() as int),
            forall|q1: int, q2: int|
                0 <= q1 < orig.len() && 0 <= q2 < orig.len() && q1 != q2 ==> (
                #[trigger] orig[q1].name@) != (#[trigger] orig[q2].name@),
            forall|p2: int|
                0 <= p2 < r@.len() ==> from_first(orig, r@.len() as int, #[trigger] r@[p2]),
            forall|q: int|
                0 <= q < r@.len() ==> from_first(r@, r@.len() as int, #[trigger] orig[q]),
            pages_sorted(r@),
        decreases rem@.len(),
    {
        let ghost done = r@.len() as int;
        let p = rem.remove(0);
        proof {
            assert(p == orig[done]);
            assert(rem@ =~= orig.subrange(done + 1, orig.len() as int));
        }
        let mut pos: usize = 0;
        while pos < r.len() && !str_lt(p.name.as_str(), r[pos].name.as_str())
            invariant
                0 <= pos <= r@.len(),
                forall|q: int| 0 <= q < pos ==> !lex_lt(p.name@, (#[trigger] r@[q].name@)),
            decreases r@.len() - pos,
        {
            pos = pos + 1;
        }
        proof {
            assert forall|q: int| 0 <= q < pos implies lex_lt(r@[q].name@, p.name@) by {
                lemma_lex_trichotomy(p.name@, r@[q].name@);
                assert(from_first(orig, done, r@[q]));
                let x = choose|x: int| 0 <= x < done && orig[x] == r@[q];
                assert(orig[x].name@ != orig[done].name@);
            }
        }
        let ghost r_old = r@;
        r.insert(pos, p);
        proof {
            assert(r@ == r_old.insert(pos as int, p));
            assert(forall|q: int| 0 <= q < pos ==> r@[q] == r_old[q]);
            assert(r@[pos as int] == p);
            assert(forall|q: int| pos < q < r@.len() ==> r@[q] == r_old[q - 1]);
            assert forall|a: int, b: int| 0 <= a < b < r@.len() implies lex_lt(
                r@[a].name@,
                r@[b].name@,
            ) by {
                if a == pos {
                    assert(pos < r_old.len());
                    assert(lex_lt(p.name@, r_old[pos as int].name@));
                    if b > pos + 1 {
                        lemma_lex_transitive(p.name@, r_old[pos as int].name@, r_old[b - 1].name@);
                    }
                } else if b == pos {
                    assert(lex_lt(r_old[a].name@, p.name@));
                } else if a < pos && b > pos {
                    assert(lex_lt(r_old[a].name@, r_old[b - 1].name@));
                }
            }
            assert forall|p2: int| 0 <= p2 < r@.len() implies from_first(
                orig,
                done + 1,
                #[trigger] r@[p2],
            ) by {
                if p2 < pos {
                    assert(from_first(orig, done, r_old[p2]));
                    let q0 = choose|q: int| 0 <= q < done && orig[q] == r_old[p2];
                    assert(orig[q0] == r@[p2]);
                } else if p2 == pos {
                    assert(orig[done] == r@[p2]);
                } else {
                    assert(from_first(orig, done, r_old[p2 - 1]));
                    let q0 = choose|q: int| 0 <= q < done && orig[q] == r_old[p2 - 1];
                    assert(orig[q0] == r@[p2]);
                }
            }
            assert forall|q: int| 0 <= q < done + 1 implies from_first(
                r@,
                r@.len() as int,
                #[trigger] orig[q],
            ) by {
                if q == done {
                    assert(r@[pos as int] == orig[q]);
                } else {
                    assert(from_first(r_old, r_old.len() as int, orig[q]));
                    let p0 = choose|p2: int| 0 <= p2 < r_old.len() && r_old[p2] == orig[q];
                    if p0 < pos {
                        assert(r@[p0] == orig[q]);
                    } else {
                        assert(r@[p0 + 1] == orig[q]);
                    }
                }
            }
        }
    }
    proof {
        assert(r@.len() == orig.len());
        assert forall|p: int| 0 <= p < r@.len() implies from_first(
            input@,
            input@.len() as int,
            #[trigger] r@[p],
        ) by {
            assert(from_first(orig, r@.len() as int, r@[p]));
        }
        assert forall|q: int| 0 <= q < input@.len() implies from_first(
            r@,
            r@.len() as int,
            #[trigger] input@[q],
        ) by {
            assert(from_first(r@, r@.len() as int, orig[q]));
        }
    }
    r
}

/// Whether some page of the set carries the given name.
fn find_page(s: &Vec<Page>, t: &String) -> (r: bool)
    ensures
        r == exists|p: int| 0 <= p < s@.len() && (#[trigger] s@[p].name@) == t@,
{
    let mut p: usize = 0;
    while p < s.len()
        invariant
            0 <= p <= s@.len(),
            forall|p2: int| 0 <= p2 < p ==> (#[trigger] s@[p2].name@) != t@,
        decreases s@.len() - p,
    {
        if str_eq(&s[p].name, t) {
            return true;
        }
        p = p + 1;
    }
    false
}

/// Whether the page has an internal outbound link with exactly this target.
fn has_internal_link_to(p: &Page, name: &String) -> (r: bool)
    ensures
        r == exists|k: int|
            0 <= k < p.links@.len() && is_internal_link(#[trigger] p.links@[k]@) && p.links@[k]@
                == name@,
{
    let mut k: usize = 0;
    while k < p.links.len()
        invariant
            0 <= k <= p.links@.len(),
            forall|k2: int|
                0 <= k2 < k ==> !(is_internal_link(#[trigger] p.links@[k2]@) && p.links@[k2]@
                    == name@),
        decreases p.links@.len() - k,
    {
        if str_is_internal_link(p.links[k].as_str()) && str_eq(&p.links[k], name) {
            return true;
        }
        k = k + 1;
    }
    false
}

/// One step of the considered-file sequence: considering one more listed
/// file appends it when it carries a content extension.
proof fn lemma_content_seq_step(files: Seq<SourceFile>, q: int)
    requires
        0 <= q < files.len(),
    ensures
        content_seq(files.take(q + 1)) == if is_content_name(files[q].name@) {
            content_seq(files.take(q)).push(files[q])
        } else {
            content_seq(files.take(q))
        },
{
    assert(files.take(q + 1).drop_last() =~= files.take(q));
    assert(files.take(q + 1).last() == files[q]);
}

/// The considered files of a listing prefix are a prefix of the considered
/// files of the whole listing.
proof fn lemma_content_seq_prefix(files: Seq<SourceFile>, q: int)
    requires
        0 <= q <= files.len(),
    ensures
        content_seq(files.take(q)).len() <= content_seq(files).len(),
        forall|i: int|
            0 <= i < content_seq(files.take(q)).len() ==> content_seq(files.take(q))[i]
                == content_seq(files)[i],
    decreases files.len() - q,
{
    if q == files.len() {
        assert(files.take(q) =~= files);
    } else {
        lemma_content_seq_step(files, q);
        lemma_content_seq_prefix(files, q + 1);
    }
}

/// The fields of `r` that extraction speaks of agree with those of `p`.
pub open spec fn core_eq(r: Page, p: Page) -> bool {
    &&& r.name@ == p.name@
    &&& r.body@ == p.body@
    &&& r.title@ == p.title@
    &&& r.links@.len() == p.links@.len()
    &&& (forall|i: int| 0 <= i < r.links@.len() ==> (#[trigger] r.links@[i]@) == p.links@[i]@)
    &&& r.date == p.date
    &&& (r.date_formatted is Some <==> p.date_formatted is Some)
    &&& (r.date_formatted is Some && p.date_formatted is Some ==> r.date_formatted->0@
        == p.date_formatted->0@)
}

/// The extraction contract only speaks of the core fields, so it carries
/// over to a page with equal core fields.
proof fn lemma_extracted_transfer(p1: Page, p2: Page, n: Seq<char>, c: Seq<char>)
    requires
        page_extracted(p1, n, c),
        core_eq(p2, p1),
    ensures
        page_extracted(p2, n, c),
{
    let body = logical_body(n, c);
    let i0 = choose|i: int, j: int|
        crate::extract::first_title_at(body, i, j) && p1.title@ == crate::extract::title_text(
            body,
            i,
            j,
        );
    assert forall|t: Seq<char>| #[trigger] is_link_target(body, t) implies exists|idx: int|
        0 <= idx < p2.links@.len() && p2.links@[idx]@ == t by {
        let idx0 = choose|idx: int| 0 <= idx < p1.links@.len() && p1.links@[idx]@ == t;
        assert(p2.links@[idx0]@ == t);
    }
}

/// Clones a vector of strings, keeping each character sequence.
fn clone_strings(v: &Vec<String>) -> (r: Vec<String>)
    ensures
        r@.len() == v@.len(),
        forall|i: int| 0 <= i < r@.len() ==> (#[trigger] r@[i]@) == v@[i]@,
{
    let mut r: Vec<String> = Vec::new();
    let mut i: usize = 0;
    while i < v.len()
        invariant
            0 <= i <= v@.len(),
            r@.len() == i,
            forall|q: int| 0 <= q < i ==> (#[trigger] r@[q]@) == v@[q]@,
        decreases v@.len() - i,
    {
        r.push(v[i].clone());
        i = i + 1;
    }
    r
}

/// Rebuilds a page with the same core fields and the given backlinks.
fn with_backlinks(p: &Page, backlinks: Vec<(String, String)>) -> (r: Page)
    ensures
        core_eq(r, *p),
        r.backlinks == backlinks,
{
    let date_formatted = match &p.date_formatted {
        Some(f) => Some(f.clone()),
        None => None,
    };
    Page {
        name: p.name.clone(),
        date: p.date,
        date_formatted,
        body: p.body.clone(),
        title: p.title.clone(),
        links: clone_strings(&p.links),
        backlinks,
    }
}

/// Page sets with equal names and links carry the same edges.
proof fn lemma_edge_bridge(s: Seq<Page>, r: Seq<Page>)
    requires
        r.len() == s.len(),
        forall|x: int| 0 <= x < r.len() ==> core_eq(#[trigger] r[x], s[x]),
    ensures
        forall|a: int, t: int|
            0 <= a < r.len() && 0 <= t < r.len() ==> (#[trigger] has_edge(r, a, t) <==> has_edge(
                s,
                a,
                t,
            )),
{
    assert forall|a: int, t: int| 0 <= a < r.len() && 0 <= t < r.len() implies (
    #[trigger] has_edge(r, a, t) <==> has_edge(s, a, t)) by {
        if has_edge(r, a, t) {
            let k = choose|k: int|
                0 <= k < r[a].links@.len() && is_internal_link(r[a].links@[k]@) && r[a].links@[k]@
                    == r[t].name@;
            assert(is_internal_link(s[a].links@[k]@) && s[a].links@[k]@ == s[t].name@);
            assert(has_edge(s, a, t));
        }
        if has_edge(s, a, t) {
            let k = choose|k: int|
                0 <= k < s[a].links@.len() && is_internal_link(s[a].links@[k]@) && s[a].links@[k]@
                    == s[t].name@;
            assert(is_internal_link(r[a].links@[k]@) && r[a].links@[k]@ == r[t].name@);
            assert(has_edge(r, a, t));
        }
    }
}

/// Entry `e` of `bl` records the edge from referrer `a` into target `t`:
/// it carries `a`'s name and title, and the edge is real.
pub open spec fn entry_for(s: Seq<Page>, bl: Seq<(String, String)>, t: int, e: int, a: int) -> bool {
    bl[e].0@ == s[a].name@ && bl[e].1@ == s[a].title@ && has_edge(s, a, t)
}

/// Every edge into `t` from a referrer among the first `bound` pages is
/// recorded in `bl`.
pub open spec fn bl_complete_at(s: Seq<Page>, bl: Seq<(String, String)>, t: int, bound: int) -> bool {
    forall|a: int|
        0 <= a < bound && #[trigger] has_edge(s, a, t) ==> exists|e: int|
            0 <= e < bl.len() && #[trigger] entry_for(s, bl, t, e, a)
}

/// Entry `e` of `bl` records an edge from some referrer among the first
/// `bound` pages.
pub open spec fn entry_witness(
    s: Seq<Page>,
    bl: Seq<(String, String)>,
    t: int,
    e: int,
    bound: int,
) -> bool {
    exists|a: int| 0 <= a < bound && #[trigger] entry_for(s, bl, t, e, a)
}

/// Every entry of `bl` names a real referrer among the first `bound` pages.
pub open spec fn bl_sound_at(s: Seq<Page>, bl: Seq<(String, String)>, t: int, bound: int) -> bool {
    forall|e: int| 0 <= e < bl.len() ==> #[trigger] entry_witness(s, bl, t, e, bound)
}

/// The entries of `bl` stand in strictly ascending order of first component.
pub open spec fn bl_sorted_of(bl: Seq<(String, String)>) -> bool {
    forall|e1: int, e2: int|
        0 <= e1 < e2 < bl.len() ==> lex_lt((#[trigger] bl[e1]).0@, (#[trigger] bl[e2]).0@)
}

/// Looks for two pages sharing a name, returning their positions.
fn find_duplicate(pages: &Vec<Page>) -> (r: Option<(usize, usize)>)
    ensures
        match r {
            Some(ij) => ij.0 < pages@.len() && ij.1 < pages@.len() && ij.0 != ij.1
                && pages@[ij.0 as int].name@ == pages@[ij.1 as int].name@,
            None => forall|q1: int, q2: int|
                0 <= q1 < pages@.len() && 0 <= q2 < pages@.len() && q1 != q2 ==> (
                #[trigger] pages@[q1].name@) != (#[trigger] pages@[q2].name@),
        },
{
    let mut i: usize = 0;
    while i < pages.len()
        invariant
            0 <= i <= pages@.len(),
            forall|q1: int, q2: int|
                0 <= q2 < q1 < i ==> (#[trigger] pages@[q1].name@) != (#[trigger] pages@[q2].name@),
        decreases pages@.len() - i,
    {
        let mut j: usize = 0;
        while j < i
            invariant
                0 <= j <= i < pages@.len(),
                forall|q2: int| 0 <= q2 < j ==> (#[trigger] pages@[q2].name@) != pages@[i as int].name@,
            decreases i - j,
        {
            if str_eq(&pages[i].name, &pages[j].name) {
                return Some((i, j));
            }
            j = j + 1;
        }
        i = i + 1;
    }
    None
}

/// Looks for an internal link that resolves to no page of the set,
/// returning the referrer and the position of the offending link.
fn find_dangling(s: &Vec<Page>) -> (r: Option<(usize, usize)>)
    ensures
        match r {
            Some(ak) => ak.0 < s@.len() && ak.1 < s@[ak.0 as int].links@.len() && is_internal_link(
                s@[ak.0 as int].links@[ak.1 as int]@,
            ) && !(exists|x: int|
                0 <= x < s@.len() && (#[trigger] s@[x].name@) == s@[ak.0 as int].links@[ak.1 as int]@),
            None => forall|a: int, k: int|
                0 <= a < s@.len() && 0 <= k < s@[a].links@.len() && is_internal_link(
                    #[trigger] s@[a].links@[k]@,
                ) ==> exists|x: int| 0 <= x < s@.len() && (#[trigger] s@[x].name@) == s@[a].links@[k]@,
        },
{
    let mut a: usize = 0;
    while a < s.len()
        invariant
            0 <= a <= s@.len(),
            forall|a2: int, k2: int|
                0 <= a2 < a && 0 <= k2 < s@[a2].links@.len() && is_internal_link(
                    #[trigger] s@[a2].links@[k2]@,
                ) ==> exists|x: int| 0 <= x < s@.len() && (#[trigger] s@[x].name@) == s@[a2].links@[k2]@,
        decreases s@.len() - a,
    {
        let mut k: usize = 0;
        while k < s[a].links.len()
            invariant
                0 <= a < s@.len(),
                0 <= k <= s@[a as int].links@.len(),
                forall|k2: int|
                    0 <= k2 < k && is_internal_link(#[trigger] s@[a as int].links@[k2]@) ==> exists|
                        x: int,
                    | 0 <= x < s@.len() && (#[trigger] s@[x].name@) == s@[a as int].links@[k2]@,
            decreases s@[a as int].links@.len() - k,
        {
            if str_is_internal_link(s[a].links[k].as_str()) {
                if !find_page(s, &s[a].links[k]) {
                    return Some((a, k));
                }
            }
            k = k + 1;
        }
        a = a + 1;
    }
    None
}

/// Builds the backlink edges of every page of an already-sorted set:
/// for each target, the referrers are visited in ascending name order, so
/// each page's backlinks come out strictly sorted by referrer name.
#[verifier::rlimit(100)]
fn build_backlinks(s: &Vec<Page>) -> (r: Vec<Page>)
    requires
        pages_sorted(s@),
    ensures
        r@.len() == s@.len(),
        forall|x: int| 0 <= x < r@.len() ==> core_eq(#[trigger] r@[x], s@[x]),
        forall|x: int|
            0 <= x < r@.len() ==> bl_complete_at(
                s@,
                (#[trigger] r@[x]).backlinks@,
                x,
                s@.len() as int,
            ) && bl_sound_at(s@, r@[x].backlinks@, x, s@.len() as int) && bl_sorted_of(
                r@[x].backlinks@,
            ),
{
    let mut r: Vec<Page> = Vec::new();
    let mut t: usize = 0;
    while t < s.len()
        invariant
            0 <= t <= s@.len(),
            r@.len() == t,
            pages_sorted(s@),
            forall|x: int| 0 <= x < t ==> core_eq(#[trigger] r@[x], s@[x]),
            forall|x: int|
                0 <= x < t ==> bl_complete_at(s@, (#[trigger] r@[x]).backlinks@, x, s@.len() as int)
                    && bl_sound_at(s@, r@[x].backlinks@, x, s@.len() as int) && bl_sorted_of(
                    r@[x].backlinks@,
                ),
        decreases s@.len() - t,
    {
        let mut bl: Vec<(String, String)> = Vec::new();
        let mut a: usize = 0;
        while a < s.len()
            invariant
                0 <= a <= s@.len(),
                0 <= t < s@.len(),
                pages_sorted(s@),
                bl_complete_at(s@, bl@, t as int, a as int),
                bl_sound_at(s@, bl@, t as int, a as int),
                bl_sorted_of(bl@),
            decreases s@.len() - a,
        {
            let linked = has_internal_link_to(&s[a], &s[t].name);
            proof {
                assert(linked == has_edge(s@, a as int, t as int));
            }
            if linked {
                let ghost bl_old = bl@;
                proof {
                    assert forall|e: int| 0 <= e < bl_old.len() implies lex_lt(
                        bl_old[e].0@,
                        s@[a as int].name@,
                    ) by {
                        assert(bl_sound_at(s@, bl_old, t as int, a as int));
                        assert(entry_witness(s@, bl_old, t as int, e, a as int));
                        let a2 = choose|a2: int|
                            0 <= a2 < a as int && #[trigger] entry_for(s@, bl_old, t as int, e, a2);
                        assert(bl_old[e].0@ == s@[a2].name@);
                        assert(lex_lt(s@[a2].name@, s@[a as int].name@));
                    }
                }
                bl.push((s[a].name.clone(), s[a].title.clone()));
                proof {
                    assert(bl@[bl@.len() - 1].0@ == s@[a as int].name@);
                    assert(bl@[bl@.len() - 1].1@ == s@[a as int].title@);
                    assert(forall|e: int| 0 <= e < bl_old.len() ==> bl@[e] == bl_old[e]);
                    assert(entry_for(s@, bl@, t as int, bl@.len() - 1, a as int));
                    assert forall|a2: int| 0 <= a2 < a + 1 && #[trigger] has_edge(
                        s@,
                        a2,
                        t as int,
                    ) implies exists|e: int|
                        0 <= e < bl@.len() && #[trigger] entry_for(s@, bl@, t as int, e, a2) by {
                        if a2 < a {
                            let e0 = choose|e: int|
                                0 <= e < bl_old.len() && #[trigger] entry_for(
                                    s@,
                                    bl_old,
                                    t as int,
                                    e,
                                    a2,
                                );
                            assert(entry_for(s@, bl@, t as int, e0, a2));
                        } else {
                            assert(entry_for(s@, bl@, t as int, bl@.len() - 1, a2));
                        }
                    }
                    assert forall|e: int| 0 <= e < bl@.len() implies #[trigger] entry_witness(
                        s@,
                        bl@,
                        t as int,
                        e,
                        a + 1,
                    ) by {
                        if e < bl@.len() - 1 {
                            assert(bl_sound_at(s@, bl_old, t as int, a as int));
                            assert(entry_witness(s@, bl_old, t as int, e, a as int));
                            let a2 = choose|a2: int|
                                0 <= a2 < a as int && #[trigger] entry_for(
                                    s@,
                                    bl_old,
                                    t as int,
                                    e,
                                    a2,
                                );
                            assert(entry_for(s@, bl@, t as int, e, a2));
                        } else {
                            assert(entry_for(s@, bl@, t as int, e, a as int));
                        }
                    }
                }
            } else {
                proof {
                    assert forall|a2: int| 0 <= a2 < a + 1 && #[trigger] has_edge(
                        s@,
                        a2,
                        t as int,
                    ) implies exists|e: int|
                        0 <= e < bl@.len() && #[trigger] entry_for(s@, bl@, t as int, e, a2) by {
                        assert(a2 < a);
                    }
                    assert forall|e: int| 0 <= e < bl@.len() implies #[trigger] entry_witness(
                        s@,
                        bl@,
                        t as int,
                        e,
                        a + 1,
                    ) by {
                        assert(entry_witness(s@, bl@, t as int, e, a as int));
                        let a2 = choose|a2: int|
                            0 <= a2 < a as int && #[trigger] entry_for(s@, bl@, t as int, e, a2);
                        assert(0 <= a2 < a + 1 && entry_for(s@, bl@, t as int, e, a2));
                    }
                }
            }
            a = a + 1;
        }
        let np = with_backlinks(&s[t], bl);
        r.push(np);
        t = t + 1;
    }
    r
}


/// Loads the whole batch: extracts a page from every considered file,
/// rejects duplicate names and dangling internal links, fills in the
/// backlink edges, and returns the pages sorted ascending by name.
#[verifier::rlimit(100)]
pub fn load_pages(files: Vec<SourceFile>) -> (r: Result<Vec<Page>, LoadError>)
    ensures
        r is Ok <==> batch_ok(files@),
        r matches Ok(pages) ==> {
            &&& pages@.len() == content_seq(files@).len()
            &&& output_covers(files@, pages@)
            &&& output_from(files@, pages@)
            &&& pages_sorted(pages@)
            &&& backlinks_complete(pages@)
            &&& backlinks_sound(pages@)
            &&& backlinks_sorted(pages@)
        },
        r matches Err(e) ==> load_err(files@, e),
{
    let mut pages: Vec<Page> = Vec::new();
    let mut q: usize = 0;
    while q < files.len()
        invariant
            0 <= q <= files@.len(),
            pages_match(pages@, content_seq(files@.take(q as int))),
            sources_ok_of(content_seq(files@.take(q as int))),
        decreases files@.len() - q,
    {
        let ghost cs_old = content_seq(files@.take(q as int));
        proof {
            lemma_content_seq_step(files@, q as int);
        }
        let f = &files[q];
        if str_is_content_name(f.name.as_str()) {
            match crate::page::from_source(&f.name, &f.content) {
                Ok(p) => {
                    let ghost pages_old = pages@;
                    pages.push(p);
                    proof {
                        let cs_new = content_seq(files@.take(q + 1));
                        assert(cs_new == cs_old.push(files@[q as int]));
                        assert forall|q2: int| 0 <= q2 < pages@.len() implies page_extracted(
                            #[trigger] pages@[q2],
                            cs_new[q2].name@,
                            cs_new[q2].content@,
                        ) && pages@[q2].backlinks@.len() == 0 by {
                            if q2 < pages_old.len() {
                                assert(pages@[q2] == pages_old[q2]);
                                assert(cs_new[q2] == cs_old[q2]);
                            } else {
                                assert(pages@[q2] == p);
                                assert(cs_new[q2] == files@[q as int]);
                            }
                        }
                        assert forall|q2: int| 0 <= q2 < cs_new.len() implies source_ok(
                            #[trigger] cs_new[q2].name@,
                            cs_new[q2].content@,
                        ) by {
                            if q2 < cs_old.len() {
                                assert(cs_new[q2] == cs_old[q2]);
                            } else {
                                assert(cs_new[q2] == files@[q as int]);
                            }
                        }
                    }
                },
                Err(e) => {
                    proof {
                        let cs_new = content_seq(files@.take(q + 1));
                        assert(cs_new == cs_old.push(files@[q as int]));
                        lemma_content_seq_prefix(files@, q + 1);
                        let i = cs_old.len() as int;
                        assert(cs_new[i] == files@[q as int]);
                        assert(content_seq(files@)[i] == files@[q as int]);
                        assert(source_err(e, content_seq(files@)[i].name@, content_seq(files@)[i].content@));
                        assert(!source_ok(content_seq(files@)[i].name@, content_seq(files@)[i].content@));
                        assert(!sources_ok_of(content_seq(files@)));
                        assert(load_err(files@, e));
                    }
                    return Err(e);
                },
            }
        } else {
            proof {
                assert(content_seq(files@.take(q + 1)) == cs_old);
            }
        }
        q = q + 1;
    }
    proof {
        assert(files@.take(files@.len() as int) =~= files@);
        assert(pages_match(pages@, content_seq(files@)));
        assert(sources_ok_of(content_seq(files@)));
    }
    let ghost pages0 = pages@;
    match find_duplicate(&pages) {
        Some((i, j)) => {
            let err = LoadError::DuplicateName { name: pages[i].name.clone() };
            proof {
                assert(page_extracted(pages0[i as int], content_seq(files@)[i as int].name@, content_seq(files@)[i as int].content@));
                assert(page_extracted(pages0[j as int], content_seq(files@)[j as int].name@, content_seq(files@)[j as int].content@));
                assert(logical_name(content_seq(files@)[i as int].name@) == pages0[i as int].name@);
                assert(logical_name(content_seq(files@)[j as int].name@) == pages0[j as int].name@);
                assert(!unique_names_of(content_seq(files@))) by {
                    if unique_names_of(content_seq(files@)) {
                        assert(logical_name(content_seq(files@)[i as int].name@) != logical_name(content_seq(files@)[j as int].name@));
                    }
                }
                assert(load_err(files@, err));
            }
            return Err(err);
        },
        None => {},
    }
    proof {
        assert forall|q1: int, q2: int|
            0 <= q1 < pages0.len() && 0 <= q2 < pages0.len() && q1 != q2 implies (
        #[trigger] pages0[q1].name@) != (#[trigger] pages0[q2].name@) by {}
        assert forall|q1: int, q2: int|
            0 <= q1 < content_seq(files@).len() && 0 <= q2 < content_seq(files@).len() && q1 != q2 implies logical_name(
            #[trigger] content_seq(files@)[q1].name@,
        ) != logical_name(#[trigger] content_seq(files@)[q2].name@) by {
            assert(page_extracted(pages0[q1], content_seq(files@)[q1].name@, content_seq(files@)[q1].content@));
            assert(page_extracted(pages0[q2], content_seq(files@)[q2].name@, content_seq(files@)[q2].content@));
            assert(pages0[q1].name@ != pages0[q2].name@);
        }
        assert(unique_names_of(content_seq(files@)));
    }
    let sorted = sort_pages(pages);
    match find_dangling(&sorted) {
        Some((a, k)) => {
            let err = LoadError::DanglingLink {
                page: sorted[a].name.clone(),
                target: sorted[a].links[k].clone(),
            };
            proof {
                let ghost tgt = sorted@[a as int].links@[k as int]@;
                assert(from_first(pages0, pages0.len() as int, sorted@[a as int]));
                let q0 = choose|x: int| 0 <= x < pages0.len() && pages0[x] == sorted@[a as int];
                assert(page_extracted(pages0[q0], content_seq(files@)[q0].name@, content_seq(files@)[q0].content@));
                assert(is_link_target(logical_body(content_seq(files@)[q0].name@, content_seq(files@)[q0].content@), tgt));
                assert(logical_name(content_seq(files@)[q0].name@) == sorted@[a as int].name@);
                assert(!resolves_in(content_seq(files@), tgt)) by {
                    if resolves_in(content_seq(files@), tgt) {
                        let p = choose|p: int|
                            0 <= p < content_seq(files@).len() && logical_name(#[trigger] content_seq(files@)[p].name@) == tgt;
                        assert(page_extracted(pages0[p], content_seq(files@)[p].name@, content_seq(files@)[p].content@));
                        assert(pages0[p].name@ == tgt);
                        assert(from_first(sorted@, sorted@.len() as int, pages0[p]));
                        let x = choose|x: int|
                            0 <= x < sorted@.len() && sorted@[x] == pages0[p];
                        assert((sorted@[x].name@) == tgt);
                    }
                }
                assert(!links_resolve_of(content_seq(files@))) by {
                    if links_resolve_of(content_seq(files@)) {
                        assert(resolves_in(content_seq(files@), tgt));
                    }
                }
                assert(load_err(files@, err));
            }
            return Err(err);
        },
        None => {},
    }
    proof {
        assert forall|q2: int, t2: Seq<char>|
            0 <= q2 < content_seq(files@).len() && #[trigger] is_link_target(
                logical_body(content_seq(files@)[q2].name@, content_seq(files@)[q2].content@),
                t2,
            ) && is_internal_link(t2) implies resolves_in(content_seq(files@), t2) by {
            assert(page_extracted(pages0[q2], content_seq(files@)[q2].name@, content_seq(files@)[q2].content@));
            let idx = choose|idx: int|
                0 <= idx < pages0[q2].links@.len() && pages0[q2].links@[idx]@ == t2;
            assert(from_first(sorted@, sorted@.len() as int, pages0[q2]));
            let x = choose|x: int| 0 <= x < sorted@.len() && sorted@[x] == pages0[q2];
            assert(is_internal_link(sorted@[x].links@[idx]@));
            assert(exists|y: int|
                0 <= y < sorted@.len() && (#[trigger] sorted@[y].name@) == sorted@[x].links@[idx]@);
            let y = choose|y: int|
                0 <= y < sorted@.len() && (#[trigger] sorted@[y].name@) == sorted@[x].links@[idx]@;
            assert(from_first(pages0, pages0.len() as int, sorted@[y]));
            let qy = choose|qq: int| 0 <= qq < pages0.len() && pages0[qq] == sorted@[y];
            assert(page_extracted(pages0[qy], content_seq(files@)[qy].name@, content_seq(files@)[qy].content@));
            assert(logical_name(content_seq(files@)[qy].name@) == t2);
            assert(resolves_in(content_seq(files@), t2));
        }
        assert(links_resolve_of(content_seq(files@)));
        assert(batch_ok(files@));
    }
    let result = build_backlinks(&sorted);
    proof {
        lemma_edge_bridge(sorted@, result@);
        assert forall|a: int, b: int| 0 <= a < b < result@.len() implies lex_lt(
            (#[trigger] result@[a].name@),
            (#[trigger] result@[b].name@),
        ) by {
            assert(core_eq(result@[a], sorted@[a]));
            assert(core_eq(result@[b], sorted@[b]));
            assert(lex_lt(sorted@[a].name@, sorted@[b].name@));
        }
        assert forall|a: int, t: int|
            0 <= a < result@.len() && 0 <= t < result@.len() && #[trigger] has_edge(result@, a, t) implies exists|
            e: int,
        |
            0 <= e < result@[t].backlinks@.len() && entry_of(result@, t, e) == (
            result@[a].name@,
            result@[a].title@,
            ) by {
            assert(has_edge(sorted@, a, t));
            assert(bl_complete_at(sorted@, result@[t].backlinks@, t, sorted@.len() as int));
            let e = choose|e: int|
                0 <= e < result@[t].backlinks@.len() && #[trigger] entry_for(
                    sorted@,
                    result@[t].backlinks@,
                    t,
                    e,
                    a,
                );
            assert(core_eq(result@[a], sorted@[a]));
            assert(entry_of(result@, t, e) == (result@[a].name@, result@[a].title@));
        }
        assert forall|t: int, e: int|
            0 <= t < result@.len() && 0 <= e < result@[t].backlinks@.len()
                implies #[trigger] entry_source(result@, t, e) by {
            assert(bl_sound_at(sorted@, result@[t].backlinks@, t, sorted@.len() as int));
            assert(entry_witness(sorted@, result@[t].backlinks@, t, e, sorted@.len() as int));
            let a = choose|a: int|
                0 <= a < sorted@.len() && #[trigger] entry_for(sorted@, result@[t].backlinks@, t, e, a);
            assert(has_edge(result@, a, t));
            assert(core_eq(result@[a], sorted@[a]));
            assert(entry_of(result@, t, e) == (result@[a].name@, result@[a].title@));
        }
        assert forall|t: int, e1: int, e2: int|
            0 <= t < result@.len() && 0 <= e1 < e2 < result@[t].backlinks@.len() implies lex_lt(
            (#[trigger] entry_of(result@, t, e1)).0,
            (#[trigger] entry_of(result@, t, e2)).0,
        ) by {
            assert(bl_sorted_of(result@[t].backlinks@));
            assert(lex_lt(result@[t].backlinks@[e1].0@, result@[t].backlinks@[e2].0@));
        }
        assert forall|q2: int| 0 <= q2 < content_seq(files@).len() implies #[trigger] covered_in(
            files@,
            result@,
            q2,
        ) by {
            assert(page_extracted(pages0[q2], content_seq(files@)[q2].name@, content_seq(files@)[q2].content@));
            assert(from_first(sorted@, sorted@.len() as int, pages0[q2]));
            let x = choose|x: int| 0 <= x < sorted@.len() && sorted@[x] == pages0[q2];
            lemma_extracted_transfer(sorted@[x], result@[x], content_seq(files@)[q2].name@, content_seq(files@)[q2].content@);
            assert(page_extracted(result@[x], content_seq(files@)[q2].name@, content_seq(files@)[q2].content@));
        }
        assert forall|p: int| 0 <= p < result@.len() implies #[trigger] comes_from(
            files@,
            result@,
            p,
        ) by {
            assert(from_first(pages0, pages0.len() as int, sorted@[p]));
            let q2 = choose|qq: int| 0 <= qq < pages0.len() && pages0[qq] == sorted@[p];
            assert(page_extracted(sorted@[p], content_seq(files@)[q2].name@, content_seq(files@)[q2].content@));
            lemma_extracted_transfer(sorted@[p], result@[p], content_seq(files@)[q2].name@, content_seq(files@)[q2].content@);
            assert(page_extracted(result@[p], content_seq(files@)[q2].name@, content_seq(files@)[q2].content@));
        }
        assert(result@.len() == content_seq(files@).len());
        assert(result@.len() == content_seq(files@).len());
        assert(output_covers(files@, result@));
        assert(output_from(files@, result@));
        assert(pages_sorted(result@));
        assert(backlinks_complete(result@));
        assert(backlinks_sound(result@));
        assert(backlinks_sorted(result@));
    }
    Ok(result)
}


/// A page linking to itself appears in its own backlinks: the self edge is
/// recorded like any other.
pub proof fn lemma_self_link_backlink(pages: Seq<Page>, t: int)
    requires
        0 <= t < pages.len(),
        backlinks_complete(pages),
        has_edge(pages, t, t),
    ensures
        exists|e: int|
            0 <= e < pages[t].backlinks@.len() && entry_of(pages, t, e) == (
            pages[t].name@,
            pages[t].title@,
            ),
{
}

/// An internal link edge yields a backlink entry with multiplicity exactly
/// one: the entry exists, and no two entries share the referrer's name.
pub proof fn lemma_backlink_multiplicity(pages: Seq<Page>, a: int, t: int)
    requires
        0 <= a < pages.len(),
        0 <= t < pages.len(),
        backlinks_complete(pages),
        backlinks_sorted(pages),
        has_edge(pages, a, t),
    ensures
        exists|e: int|
            0 <= e < pages[t].backlinks@.len() && entry_of(pages, t, e) == (
            pages[a].name@,
            pages[a].title@,
            ),
        forall|e1: int, e2: int|
            0 <= e1 < pages[t].backlinks@.len() && 0 <= e2 < pages[t].backlinks@.len() && (
            #[trigger] entry_of(pages, t, e1)).0 == pages[a].name@ && (#[trigger] entry_of(
                pages,
                t,
                e2,
            )).0 == pages[a].name@ ==> e1 == e2,
{
    assert forall|e1: int, e2: int|
        0 <= e1 < pages[t].backlinks@.len() && 0 <= e2 < pages[t].backlinks@.len() && (
        #[trigger] entry_of(pages, t, e1)).0 == pages[a].name@ && (#[trigger] entry_of(
            pages,
            t,
            e2,
        )).0 == pages[a].name@ implies e1 == e2 by {
        if e1 < e2 {
            assert(lex_lt(entry_of(pages, t, e1).0, entry_of(pages, t, e2).0));
        } else if e2 < e1 {
            assert(lex_lt(entry_of(pages, t, e2).0, entry_of(pages, t, e1).0));
        }
    }
}

/// A page whose links to a target are all external contributes no backlink
/// edge to it: only internal links make edges.
pub proof fn lemma_external_link_no_edge(pages: Seq<Page>, a: int, t: int)
    requires
        0 <= a < pages.len(),
        0 <= t < pages.len(),
        forall|k: int|
            0 <= k < pages[a].links@.len() && (#[trigger] pages[a].links@[k]@) == pages[t].name@
                ==> !is_internal_link(pages[a].links@[k]@),
    ensures
        !has_edge(pages, a, t),
{
    if has_edge(pages, a, t) {
        let k = choose|k: int|
            0 <= k < pages[a].links@.len() && is_internal_link(#[trigger] pages[a].links@[k]@)
                && pages[a].links@[k]@ == pages[t].name@;
        assert(!is_internal_link(pages[a].links@[k]@));
    }
}

/// A considered file whose body has no heading makes the whole batch fail.
pub proof fn lemma_missing_title_fatal(files: Seq<SourceFile>, q: int)
    requires
        0 <= q < content_seq(files).len(),
        !crate::extract::has_title(
            logical_body(content_seq(files)[q].name@, content_seq(files)[q].content@),
        ),
    ensures
        !batch_ok(files),
{
    if sources_ok_of(content_seq(files)) {
        assert(source_ok(content_seq(files)[q].name@, content_seq(files)[q].content@));
    }
}

/// An internal link target that no considered file carries makes the whole
/// batch fail.
pub proof fn lemma_dangling_link_fatal(files: Seq<SourceFile>, q: int, t: Seq<char>)
    requires
        0 <= q < content_seq(files).len(),
        is_link_target(logical_body(content_seq(files)[q].name@, content_seq(files)[q].content@), t),
        is_internal_link(t),
        !resolves_in(content_seq(files), t),
    ensures
        !batch_ok(files),
{
    if links_resolve_of(content_seq(files)) {
        assert(resolves_in(content_seq(files), t));
    }
}

} // verus!
