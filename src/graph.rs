//! The link graph of an archive: a page for each ingested article, keyed by
//! the interned article path.

use vstd::prelude::*;
use crate::interner::{Interner, MAX_KEYS};
use crate::page::{anchor_hrefs_of, article_links, page_links, views, Page};
use vstd::utf8::{decode_utf8, valid_utf8};
use crate::persist::{
    decode_graph, decode_vocabulary, encode_graph, encode_vocabulary, entries_view, graph_bytes,
    graph_decoded, vocabulary_bytes, vocabulary_decoded, PersistError, max_artifact,
};
use crate::zim::{entry_matches, url_bytes, DirEntry, ZimReader};

verus! {

#[verifier::external_type_specification]
#[verifier::external_body]
#[verifier::reject_recursive_types(K)]
#[verifier::reject_recursive_types(V)]
#[verifier::reject_recursive_types(S)]
pub struct ExDashMap<K, V, S>(dashmap::DashMap<K, V, S>);

/// The concurrent map from article key to page.
pub type PageMap = dashmap::DashMap<u32, Page>;

/// The links of each page that a map holds, by key.
pub uninterp spec fn stored_pages(m: PageMap) -> Map<u32, Seq<u32>>;

/// Relies on `dashmap::DashMap::new`: an empty map.
#[verifier::external_body]
fn pages_new() -> (r: PageMap)
    ensures
        stored_pages(r).dom() =~= Set::<u32>::empty(),
{
    dashmap::DashMap::new()
}

/// Relies on `dashmap::DashMap::insert`: afterwards `k` holds `p`, and no other
/// key changes.
#[verifier::external_body]
fn pages_insert(m: &mut PageMap, k: u32, p: Page)
    ensures
        stored_pages(*final(m)) == stored_pages(*old(m)).insert(k, p@),
{
    m.insert(k, p);
}

/// Relies on `dashmap::DashMap::get`: the page under `k`, whose links are copied.
#[verifier::external_body]
fn pages_get(m: &PageMap, k: u32) -> (r: Option<Vec<u32>>)
    ensures
        r is Some <==> stored_pages(*m).contains_key(k),
        r matches Some(v) ==> v@ == stored_pages(*m)[k],
{
    m.get(&k).map(|p| p.value().links.clone())
}

/// Relies on `dashmap::DashMap::contains_key`.
#[verifier::external_body]
fn pages_contains(m: &PageMap, k: u32) -> (r: bool)
    ensures
        r == stored_pages(*m).contains_key(k),
{
    m.contains_key(&k)
}

/// Relies on `dashmap::DashMap::len`: the number of keys held.
#[verifier::external_body]
fn pages_len(m: &PageMap) -> (r: usize)
    ensures
        r == stored_pages(*m).dom().len(),
{
    m.len()
}

/// Relies on `dashmap::DashMap::iter`: each key once, with its page's links,
/// in an order that the map does not promise.
#[verifier::external_body]
fn pages_entries(m: &PageMap) -> (r: Vec<(u32, Vec<u32>)>)
    ensures
        forall|i: int| #![trigger r@[i]] 0 <= i < r@.len() ==> stored_pages(*m).contains_key(r@[i].0)
            && stored_pages(*m)[r@[i].0] == r@[i].1@,
        forall|i: int, j: int| 0 <= i < j < r@.len() ==> r@[i].0 != r@[j].0,
        forall|k: u32| #[trigger] stored_pages(*m).contains_key(k) ==> exists|i: int|
            0 <= i < r@.len() && r@[i].0 == k,
{
    m.iter().map(|e| (*e.key(), e.value().links.clone())).collect()
}

/// Every page key and link target is a key of an interner of `n` strings,
/// and no page links twice to one target.
pub open spec fn graph_ok(pages: Map<u32, Seq<u32>>, n: int) -> bool {
    forall|k: u32| #[trigger] pages.contains_key(k) ==> k < n && pages[k].no_duplicates() && (
    forall|j: int| 0 <= j < pages[k].len() ==> pages[k][j] < n)
}

pub proof fn lemma_graph_ok_grow(pages: Map<u32, Seq<u32>>, n: int, m: int)
    requires
        graph_ok(pages, n),
        n <= m,
    ensures
        graph_ok(pages, m),
{
}

/// Relies on `rand::Rng::random_range` over the thread-local generator of
/// `rand::rng`: some index below `n`. It panics only on an empty range.
#[verifier::external_body]
fn random_below(n: u32) -> (r: u32)
    requires
        n > 0,
    ensures
        r < n,
{
    rand::Rng::random_range(&mut rand::rng(), 0..n)
}

/// `e` lists each page of `pages` once, with its links.
pub open spec fn lists_pages(pages: Map<u32, Seq<u32>>, e: Seq<(u32, Seq<u32>)>) -> bool {
    &&& forall|i: int| #![trigger e[i]] 0 <= i < e.len() ==> pages.contains_key(e[i].0) && pages[e[i].0] == e[i].1
    &&& forall|i: int, j: int| 0 <= i < j < e.len() ==> e[i].0 != e[j].0
    &&& forall|k: u32| #[trigger] pages.contains_key(k) ==> exists|i: int| 0 <= i < e.len() && e[i].0 == k
}

/// The keys of `e` are distinct; keys and link targets name strings of a
/// vocabulary of `n`; no page links twice to one target.
pub open spec fn entries_valid(e: Seq<(u32, Seq<u32>)>, n: int) -> bool {
    &&& forall|i: int| #![trigger e[i]] 0 <= i < e.len() ==> e[i].0 < n && e[i].1.no_duplicates() && forall|j: int|
        0 <= j < e[i].1.len() ==> e[i].1[j] < n
    &&& forall|i: int, j: int| 0 <= i < j < e.len() ==> e[i].0 != e[j].0
}

/// The lists of pages that decode to a well-formed graph.
pub proof fn lemma_listed_graph_valid(pages: Map<u32, Seq<u32>>, e: Seq<(u32, Seq<u32>)>, n: int)
    requires
        graph_ok(pages, n),
        lists_pages(pages, e),
    ensures
        entries_valid(e, n),
{
    assert forall|i: int| #![trigger e[i]] 0 <= i < e.len() implies e[i].0 < n && e[i].1.no_duplicates() && forall|j: int|
        0 <= j < e[i].1.len() ==> e[i].1[j] < n by {
        assert(pages.contains_key(e[i].0));
    }
}

/// Interning `m` link strings and one path into `n` strings stays within
/// the key space.
pub open spec fn has_room(n: int, m: int) -> bool {
    n + 1 + m <= MAX_KEYS
}

/// Some string `s` of `strings` has a page.
pub open spec fn has_page(pages: Map<u32, Seq<u32>>, strings: Seq<Seq<char>>, s: Seq<char>) -> bool {
    exists|k: int| 0 <= k < strings.len() && strings[k] == s && #[trigger] pages.contains_key(k as u32)
}

/// The links of a page, read through the vocabulary.
pub open spec fn page_text(p: Seq<u32>, strings: Seq<Seq<char>>) -> Seq<Seq<char>> {
    p.map_values(|k: u32| strings[k as int])
}

/// `w` is `v` with one page added, for `path`, whose links read `links`.
pub open spec fn added_page(v: WikiGraph, w: WikiGraph, path: Seq<char>, links: Seq<Seq<char>>) -> bool {
    &&& v.strings().is_prefix_of(w.strings())
    &&& exists|k: u32| {
        &&& !v.pages().contains_key(k)
        &&& k < w.strings().len()
        &&& w.strings()[k as int] == path
        &&& #[trigger] w.pages().contains_key(k)
        &&& w.pages() == v.pages().insert(k, w.pages()[k])
        &&& page_text(w.pages()[k], w.strings()) == links
    }
}

/// `w` is `v` with the page under `path` set, or added, to one whose links
/// read `links`.
pub open spec fn stored_page(v: WikiGraph, w: WikiGraph, path: Seq<char>, links: Seq<Seq<char>>) -> bool {
    &&& v.strings().is_prefix_of(w.strings())
    &&& exists|k: u32| {
        &&& k < w.strings().len()
        &&& w.strings()[k as int] == path
        &&& #[trigger] w.pages().contains_key(k)
        &&& w.pages() == v.pages().insert(k, w.pages()[k])
        &&& page_text(w.pages()[k], w.strings()) == links
    }
}

/// Some key of `w` names `p` and holds the page of a content article at
/// index `lo` or later whose path is `p`.
pub open spec fn page_from_article(w: WikiGraph, rd: ZimReader, p: Seq<char>, lo: int) -> bool {
    exists|k: u32, j: int, v: Vec<u8>| {
        &&& k < w.strings().len()
        &&& w.strings()[k as int] == p
        &&& #[trigger] w.pages().contains_key(k)
        &&& lo <= j
        &&& #[trigger] article_at(rd, j, v)
        &&& entry_path(rd, j) == p
        &&& page_text(w.pages()[k], w.strings()) == page_links(anchors(v))
    }
}

/// Each page of `w` is as in `v`, or is the page of a content article with
/// its key's path.
pub open spec fn pages_from_articles(v: WikiGraph, w: WikiGraph, rd: ZimReader) -> bool {
    forall|k: u32| #[trigger] w.pages().contains_key(k) ==> (v.pages().contains_key(k) && w.pages()[k] == v.pages()[k])
        || exists|i: int, b: Vec<u8>|
        #[trigger] article_at(rd, i, b) && w.strings()[k as int] == entry_path(rd, i)
            && page_text(w.pages()[k], w.strings()) == page_links(anchors(b))
}

/// One stored page keeps the import's invariants.
pub proof fn lemma_get_all_step(o: WikiGraph, prev: WikiGraph, w: WikiGraph, rd: ZimReader, i: int, b: Vec<u8>)
    requires
        prev.wf(),
        w.wf(),
        o.strings().is_prefix_of(prev.strings()),
        forall|k: u32| o.pages().contains_key(k) ==> #[trigger] prev.pages().contains_key(k),
        pages_from_articles(o, prev, rd),
        forall|j: int, v: Vec<u8>|
            0 <= j < i && #[trigger] article_at(rd, j, v) ==> page_from_article(prev, rd, entry_path(rd, j), j)
                || prev.strings().len() + 1 + anchors(v).len() > MAX_KEYS,
        article_at(rd, i, b),
        forall|v: Vec<u8>| #[trigger] article_at(rd, i, v) ==> anchors(v) == anchors(b),
        stored_page(prev, w, entry_path(rd, i), page_links(anchors(b))),
    ensures
        o.strings().is_prefix_of(w.strings()),
        forall|k: u32| o.pages().contains_key(k) ==> #[trigger] w.pages().contains_key(k),
        pages_from_articles(o, w, rd),
        forall|j: int, v: Vec<u8>|
            0 <= j < i + 1 && #[trigger] article_at(rd, j, v) ==> page_from_article(w, rd, entry_path(rd, j), j)
                || w.strings().len() + 1 + anchors(v).len() > MAX_KEYS,
{
    prev.lemma_wf();
    w.lemma_wf();
    let p = entry_path(rd, i);
    let k0 = choose|k: u32| {
        &&& k < w.strings().len()
        &&& w.strings()[k as int] == p
        &&& #[trigger] w.pages().contains_key(k)
        &&& w.pages() == prev.pages().insert(k, w.pages()[k])
        &&& page_text(w.pages()[k], w.strings()) == page_links(anchors(b))
    };
    assert forall|a: int| 0 <= a < o.strings().len() implies o.strings()[a] == w.strings()[a] by {
        assert(o.strings()[a] == prev.strings()[a]);
    }
    assert forall|k: u32| o.pages().contains_key(k) implies #[trigger] w.pages().contains_key(k) by {
        assert(prev.pages().contains_key(k));
    }
    // A page other than `k0` keeps its links, and its text.
    assert forall|k: u32| #[trigger] prev.pages().contains_key(k) && k != k0 implies w.pages().contains_key(k)
        && w.pages()[k] == prev.pages()[k] && page_text(w.pages()[k], w.strings()) == page_text(prev.pages()[k], prev.strings())
        && w.strings()[k as int] == prev.strings()[k as int] by {
        assert(graph_ok(prev.pages(), prev.strings().len() as int));
        lemma_page_text_prefix(prev.pages()[k], prev.strings(), w.strings());
    }
    assert forall|k: u32| #[trigger] w.pages().contains_key(k) implies (o.pages().contains_key(k) && w.pages()[k] == o.pages()[k])
        || exists|a: int, c: Vec<u8>|
        #[trigger] article_at(rd, a, c) && w.strings()[k as int] == entry_path(rd, a)
            && page_text(w.pages()[k], w.strings()) == page_links(anchors(c)) by {
        if k == k0 {
            assert(article_at(rd, i, b));
        } else {
            assert(prev.pages().contains_key(k));
            if !(o.pages().contains_key(k) && prev.pages()[k] == o.pages()[k]) {
                let (a, c) = choose|a: int, c: Vec<u8>|
                    #[trigger] article_at(rd, a, c) && prev.strings()[k as int] == entry_path(rd, a)
                        && page_text(prev.pages()[k], prev.strings()) == page_links(anchors(c));
                assert(article_at(rd, a, c));
            }
        }
    }
    assert forall|j: int, v: Vec<u8>|
        0 <= j < i + 1 && #[trigger] article_at(rd, j, v) implies page_from_article(w, rd, entry_path(rd, j), j)
            || w.strings().len() + 1 + anchors(v).len() > MAX_KEYS by {
        if j == i || entry_path(rd, j) == p {
            assert(w.pages().contains_key(k0));
            assert(article_at(rd, i, b));
        } else if page_from_article(prev, rd, entry_path(rd, j), j) {
            let (k1, j1, v1) = choose|k1: u32, j1: int, v1: Vec<u8>| {
                &&& k1 < prev.strings().len()
                &&& prev.strings()[k1 as int] == entry_path(rd, j)
                &&& #[trigger] prev.pages().contains_key(k1)
                &&& j <= j1
                &&& #[trigger] article_at(rd, j1, v1)
                &&& entry_path(rd, j1) == entry_path(rd, j)
                &&& page_text(prev.pages()[k1], prev.strings()) == page_links(anchors(v1))
            };
            assert(k1 != k0) by {
                if k1 == k0 {
                    assert(w.strings()[k1 as int] == prev.strings()[k1 as int]);
                }
            }
            assert(w.pages().contains_key(k1));
            assert(w.strings()[k1 as int] == prev.strings()[k1 as int]);
            assert(article_at(rd, j1, v1));
        }
    }
}

/// After one round from `v` to `w`, each target missing in `v` whose first
/// entry reads has a page in `w`, unless its links no longer fit.
pub open spec fn round_done(v: WikiGraph, w: WikiGraph) -> bool {
    forall|t: u32, j: int, b: Vec<u8>| #![trigger is_missing_target(v.pages(), t), readable_at(v.reader(), j, b)]
        is_missing_target(v.pages(), t) && first_with_path(v.reader(), j, v.strings()[t as int]) && readable_at(
            v.reader(),
            j,
            b,
        ) && w.strings().len() + 1 + anchors(b).len() <= MAX_KEYS ==> has_page(
            w.pages(),
            w.strings(),
            v.strings()[t as int],
        )
}

pub proof fn lemma_round_done_grows(v: WikiGraph, w: WikiGraph, x: WikiGraph)
    requires
        round_done(v, w),
        grown(w, x),
    ensures
        round_done(v, x),
{
    assert forall|t: u32, j: int, b: Vec<u8>| #![trigger is_missing_target(v.pages(), t), readable_at(v.reader(), j, b)]
        is_missing_target(v.pages(), t) && first_with_path(v.reader(), j, v.strings()[t as int]) && readable_at(
            v.reader(),
            j,
            b,
        ) && x.strings().len() + 1 + anchors(b).len() <= MAX_KEYS implies has_page(
            x.pages(),
            x.strings(),
            v.strings()[t as int],
        ) by {
        lemma_has_page_grows(w.pages(), w.strings(), x.pages(), x.strings(), v.strings()[t as int]);
    }
}

/// The links of an article body.
pub open spec fn anchors(v: Vec<u8>) -> Seq<Seq<char>> {
    anchor_hrefs_of(decode_utf8(v@))
}

/// Entry `i` is the first of the URL table with path `p`.
pub open spec fn first_with_path(reader: ZimReader, i: int, p: Seq<char>) -> bool {
    reader.index_has_path(i, p) && forall|j: int| 0 <= j < i ==> !#[trigger] reader.index_has_path(j, p)
}

/// Entry `i` reads, and its body `v` reads as UTF-8.
pub open spec fn readable_at(reader: ZimReader, i: int, v: Vec<u8>) -> bool {
    exists|e: DirEntry| #[trigger] reader.entry_result(i, Ok(e)) && reader.blob_read(e, Ok(v)) && valid_utf8(v@)
}

/// `r` is what looking up the key of entry `i`'s path does to `v`, giving
/// `w`: `Some` exactly when the entry reads and the interner is not full,
/// with the key of the path, interned where it was new.
pub open spec fn key_outcome(v: WikiGraph, w: WikiGraph, i: int, r: Option<u32>) -> bool {
    &&& (r is Some <==> (exists|e: DirEntry| #[trigger] v.reader().entry_result(i, Ok(e))) && v.strings().len() < MAX_KEYS)
    &&& r is None ==> w.strings() == v.strings()
    &&& r matches Some(k) ==> {
        &&& k < w.strings().len()
        &&& w.strings()[k as int] == entry_path(v.reader(), i)
        &&& v.strings().contains(entry_path(v.reader(), i)) ==> w.strings() == v.strings()
        &&& !v.strings().contains(entry_path(v.reader(), i)) ==> w.strings() == v.strings().push(entry_path(v.reader(), i))
    }
}

/// `w` keeps every page of `v` as it was, and extends its vocabulary.
pub open spec fn grown(v: WikiGraph, w: WikiGraph) -> bool {
    &&& v.strings().is_prefix_of(w.strings())
    &&& forall|k: u32| #[trigger] v.pages().contains_key(k) ==> w.pages().contains_key(k) && w.pages()[k] == v.pages()[k]
}

pub proof fn lemma_grown_trans(a: WikiGraph, b: WikiGraph, c: WikiGraph)
    requires
        grown(a, b),
        grown(b, c),
    ensures
        grown(a, c),
{
    assert forall|j: int| 0 <= j < a.strings().len() implies a.strings()[j] == c.strings()[j] by {
        assert(a.strings()[j] == b.strings()[j]);
    }
    assert forall|k: u32| #[trigger] a.pages().contains_key(k) implies c.pages().contains_key(k) && c.pages()[k] == a.pages()[k] by {
        assert(b.pages().contains_key(k));
    }
}

/// The outcome of `add_link` on `link` from `v` to `w`, when it returned `added`.
pub open spec fn link_added(v: WikiGraph, w: WikiGraph, link: Seq<char>, added: bool) -> bool {
    &&& (added <==> !has_page(v.pages(), v.strings(), link) && exists|i: int, b: Vec<u8>|
        first_with_path(v.reader(), i, link) && #[trigger] readable_at(v.reader(), i, b)
            && has_room(v.strings().len() as int, anchors(b).len() as int))
    &&& !added ==> w.pages() == v.pages() && w.strings() == v.strings()
    &&& added ==> exists|i: int, b: Vec<u8>|
        first_with_path(v.reader(), i, link) && #[trigger] readable_at(v.reader(), i, b)
            && added_page(v, w, link, page_links(anchors(b)))
}

pub proof fn lemma_add_link_grows(v: WikiGraph, w: WikiGraph, link: Seq<char>, added: bool)
    requires
        link_added(v, w, link, added),
    ensures
        grown(v, w),
        added ==> has_page(w.pages(), w.strings(), link),
{
    if added {
        let (i, b) = choose|i: int, b: Vec<u8>|
            first_with_path(v.reader(), i, link) && #[trigger] readable_at(v.reader(), i, b)
                && added_page(v, w, link, page_links(anchors(b)));
        let k = choose|k: u32| {
            &&& !v.pages().contains_key(k)
            &&& k < w.strings().len()
            &&& w.strings()[k as int] == link
            &&& #[trigger] w.pages().contains_key(k)
            &&& w.pages() == v.pages().insert(k, w.pages()[k])
            &&& page_text(w.pages()[k], w.strings()) == page_links(anchors(b))
        };
        assert(w.pages().contains_key((k as int) as u32));
        assert forall|x: u32| #[trigger] v.pages().contains_key(x) implies w.pages().contains_key(x) && w.pages()[x] == v.pages()[x] by {
            assert(x != k);
        }
    }
}

/// Each of the first `n` seeds whose first entry reads has a page in `w`,
/// unless its links no longer fit in the key space.
pub open spec fn seeds_done(rd: ZimReader, seeds: Seq<String>, n: int, w: WikiGraph) -> bool {
    forall|a: int, j: int, v: Vec<u8>| #![trigger first_with_path(rd, j, seeds[a]@), readable_at(rd, j, v)]
        0 <= a < n && first_with_path(rd, j, seeds[a]@) && readable_at(rd, j, v) ==> has_page(
            w.pages(),
            w.strings(),
            seeds[a]@,
        ) || w.strings().len() + 1 + anchors(v).len() > MAX_KEYS
}

pub proof fn lemma_seeds_done_grows(rd: ZimReader, seeds: Seq<String>, n: int, v: WikiGraph, w: WikiGraph)
    requires
        seeds_done(rd, seeds, n, v),
        grown(v, w),
    ensures
        seeds_done(rd, seeds, n, w),
{
    assert forall|a: int, j: int, b: Vec<u8>| #![trigger first_with_path(rd, j, seeds[a]@), readable_at(rd, j, b)]
        0 <= a < n && first_with_path(rd, j, seeds[a]@) && readable_at(rd, j, b) implies has_page(
            w.pages(),
            w.strings(),
            seeds[a]@,
        ) || w.strings().len() + 1 + anchors(b).len() > MAX_KEYS by {
        if has_page(v.pages(), v.strings(), seeds[a]@) {
            lemma_has_page_grows(v.pages(), v.strings(), w.pages(), w.strings(), seeds[a]@);
        }
    }
}

/// Entry `i` is a content article whose body `v` reads as UTF-8.
pub open spec fn article_at(reader: ZimReader, i: int, v: Vec<u8>) -> bool {
    exists|e: DirEntry| #[trigger] reader.entry_result(i, Ok(e)) && e.spec_is_content() && reader.blob_read(e, Ok(v))
        && valid_utf8(v@)
}

/// The path of entry `i`.
pub open spec fn entry_path(reader: ZimReader, i: int) -> Seq<char> {
    decode_utf8(url_bytes(reader.data(), reader.url_ptr(i)))
}

pub proof fn lemma_has_page_grows(
    p1: Map<u32, Seq<u32>>,
    s1: Seq<Seq<char>>,
    p2: Map<u32, Seq<u32>>,
    s2: Seq<Seq<char>>,
    x: Seq<char>,
)
    requires
        has_page(p1, s1, x),
        forall|k: u32| p1.contains_key(k) ==> #[trigger] p2.contains_key(k),
        s1.is_prefix_of(s2),
    ensures
        has_page(p2, s2, x),
{
    let k = choose|k: int| 0 <= k < s1.len() && s1[k] == x && #[trigger] p1.contains_key(k as u32);
    assert(p2.contains_key(k as u32));
    assert(s2[k] == s1[k]);
}

pub proof fn lemma_page_text_prefix(p: Seq<u32>, s1: Seq<Seq<char>>, s2: Seq<Seq<char>>)
    requires
        forall|j: int| 0 <= j < p.len() ==> p[j] < s1.len(),
        s1.is_prefix_of(s2),
    ensures
        page_text(p, s1) == page_text(p, s2),
{
    assert(page_text(p, s1) =~= page_text(p, s2));
}

/// `t` is the target of some link of `pages` and has no page itself.
pub open spec fn is_missing_target(pages: Map<u32, Seq<u32>>, t: u32) -> bool {
    !pages.contains_key(t) && exists|k: u32| #[trigger] pages.contains_key(k) && pages[k].contains(t)
}

/// The link graph of one archive.
pub struct WikiGraph {
    archive: ZimReader,
    link_to_page: PageMap,
    interner: Interner,
}

/// `s` and `g` are the artifacts that `save_bin` makes of `w`.
pub open spec fn saved_as(w: WikiGraph, s: Seq<u8>, g: Seq<u8>) -> bool {
    &&& s == vocabulary_bytes(w.strings())
    &&& exists|e: Seq<(u32, Seq<u32>)>| #[trigger] graph_bytes(e) == g && lists_pages(w.pages(), e)
}

/// `r` is what `load_bin` makes of the artifacts `s` and `g` over `archive`.
pub open spec fn load_outcome(archive: ZimReader, s: Seq<u8>, g: Seq<u8>, r: Result<WikiGraph, PersistError>) -> bool {
    &&& (r matches Err(PersistError::Vocabulary) <==> !vocabulary_ok(s))
    &&& (r matches Err(PersistError::Graph) <==> vocabulary_ok(s) && !pages_ok(g, vocabulary_decoded(s)->0.len() as int))
    &&& r matches Ok(w) ==> {
        &&& w.wf()
        &&& w.reader() == archive
        &&& w.strings() == vocabulary_decoded(s)->0
        &&& forall|k: u32| #[trigger] w.pages().contains_key(k) <==> exists|i: int|
            0 <= i < graph_decoded(g)->0.len() && graph_decoded(g)->0[i].0 == k
        &&& entries_valid(graph_decoded(g)->0, w.strings().len() as int) ==> lists_pages(w.pages(), graph_decoded(g)->0)
    }
    &&& forall|v: Seq<Seq<char>>, e: Seq<(u32, Seq<u32>)>| #[trigger] artifacts_of(v, e, s, g)
        ==> (r matches Ok(w) && w.strings() == v && lists_pages(w.pages(), e))
}

/// The vocabulary artifact decodes to distinct strings, not too many to intern.
pub open spec fn vocabulary_ok(s: Seq<u8>) -> bool {
    vocabulary_decoded(s) matches Some(v) && v.no_duplicates() && v.len() <= MAX_KEYS
}

/// The graph artifact decodes to pages whose keys and targets are all below `n`.
pub open spec fn pages_ok(g: Seq<u8>, n: int) -> bool {
    graph_decoded(g) is Some && entries_below(graph_decoded(g)->0, n)
}

/// Every key and link target of `e` is below `n`.
pub open spec fn entries_below(e: Seq<(u32, Seq<u32>)>, n: int) -> bool {
    forall|i: int| #![trigger e[i]] 0 <= i < e.len() ==> e[i].0 < n && forall|j: int|
        0 <= j < e[i].1.len() ==> e[i].1[j] < n
}

/// Every list of strings that `s`, within the decodable size, encodes is `v`.
pub open spec fn vocabulary_only(s: Seq<u8>, v: Seq<Seq<char>>) -> bool {
    forall|x: Seq<Seq<char>>| #[trigger] vocabulary_bytes(x) == s && s.len() <= max_artifact() ==> x == v
}

/// Every list of pages that `g`, within the decodable size, encodes is `e`.
pub open spec fn graph_only(g: Seq<u8>, e: Seq<(u32, Seq<u32>)>) -> bool {
    forall|x: Seq<(u32, Seq<u32>)>| #[trigger] graph_bytes(x) == g && g.len() <= max_artifact() ==> x == e
}

/// `s` and `g` encode the vocabulary `v` and the pages `e`, and these form a
/// valid graph.
pub open spec fn artifacts_of(v: Seq<Seq<char>>, e: Seq<(u32, Seq<u32>)>, s: Seq<u8>, g: Seq<u8>) -> bool {
    &&& vocabulary_bytes(v) == s
    &&& graph_bytes(e) == g
    &&& s.len() <= max_artifact()
    &&& g.len() <= max_artifact()
    &&& v.no_duplicates()
    &&& v.len() <= MAX_KEYS
    &&& entries_valid(e, v.len() as int)
}

/// Saving a graph and loading the two artifacts again gives the same
/// vocabulary, so the same keys, and the same pages (for artifacts within the
/// size that decoding accepts).
pub proof fn lemma_round_trip(w: WikiGraph, archive: ZimReader, s: Seq<u8>, g: Seq<u8>, r: Result<WikiGraph, PersistError>)
    requires
        w.wf(),
        saved_as(w, s, g),
        s.len() <= max_artifact(),
        g.len() <= max_artifact(),
        load_outcome(archive, s, g, r),
    ensures
        r matches Ok(w2) && w2.strings() == w.strings() && w2.pages() == w.pages() && w2.reader() == archive,
{
    w.lemma_wf();
    let e = choose|e: Seq<(u32, Seq<u32>)>| #[trigger] graph_bytes(e) == g && lists_pages(w.pages(), e);
    lemma_listed_graph_valid(w.pages(), e, w.strings().len() as int);
    assert(artifacts_of(w.strings(), e, s, g));
    let w2 = r->Ok_0;
    assert(w2.pages() =~= w.pages()) by {
        assert forall|k: u32| w2.pages().contains_key(k) <==> w.pages().contains_key(k) by {
            if w2.pages().contains_key(k) {
                let i = choose|i: int| 0 <= i < e.len() && e[i].0 == k;
                assert(w.pages().contains_key(e[i].0));
            }
            if w.pages().contains_key(k) {
                let i = choose|i: int| 0 <= i < e.len() && e[i].0 == k;
                assert(w2.pages().contains_key(e[i].0));
            }
        }
        assert forall|k: u32| w2.pages().contains_key(k) implies w2.pages()[k] == w.pages()[k] by {
            let i = choose|i: int| 0 <= i < e.len() && e[i].0 == k;
            assert(w2.pages()[e[i].0] == e[i].1);
            assert(w.pages()[e[i].0] == e[i].1);
        }
    }
}

impl WikiGraph {
    pub closed spec fn pages(&self) -> Map<u32, Seq<u32>> {
        stored_pages(self.link_to_page)
    }

    pub closed spec fn strings(&self) -> Seq<Seq<char>> {
        self.interner@
    }

    pub closed spec fn reader(&self) -> ZimReader {
        self.archive
    }

    pub closed spec fn wf(&self) -> bool {
        &&& self.archive.wf()
        &&& self.interner.wf()
        &&& graph_ok(self.pages(), self.strings().len() as int)
    }

    pub proof fn lemma_wf(&self)
        requires
            self.wf(),
        ensures
            self.reader().wf(),
            self.strings().no_duplicates(),
            self.strings().len() <= MAX_KEYS,
            graph_ok(self.pages(), self.strings().len() as int),
    {
    }

    /// An empty graph over `archive`.
    pub fn new(archive: ZimReader) -> (r: WikiGraph)
        requires
            archive.wf(),
        ensures
            r.wf(),
            r.reader() == archive,
            r.pages().dom() =~= Set::<u32>::empty(),
            r.strings() == Seq::<Seq<char>>::empty(),
    {
        WikiGraph { archive, link_to_page: pages_new(), interner: Interner::new() }
    }

    pub fn archive(&self) -> (r: &ZimReader)
        ensures
            *r == self.reader(),
    {
        &self.archive
    }

    /// The string of `key`.
    pub fn resolve(&self, key: u32) -> (r: &str)
        requires
            self.wf(),
            key < self.strings().len(),
        ensures
            r@ == self.strings()[key as int],
    {
        self.interner.resolve(key)
    }

    /// The key of `s`, interned first where it is new; `None` only when the
    /// interner is full.
    pub fn get_or_intern(&mut self, s: &str) -> (r: Option<u32>)
        requires
            old(self).wf(),
        ensures
            final(self).wf(),
            final(self).pages() == old(self).pages(),
            final(self).reader() == old(self).reader(),
            old(self).strings().is_prefix_of(final(self).strings()),
            match r {
                Some(k) => k < final(self).strings().len() && final(self).strings()[k as int] == s@,
                None => old(self).strings().len() == MAX_KEYS,
            },
            r is None <==> old(self).strings().len() == MAX_KEYS,
            r is None ==> final(self).strings() == old(self).strings(),
            r is Some && old(self).strings().contains(s@) ==> final(self).strings() == old(self).strings(),
            r is Some && !old(self).strings().contains(s@) ==> final(self).strings() == old(self).strings().push(s@),
    {
        let r = self.interner.get_or_intern(s);
        proof {
            lemma_graph_ok_grow(self.pages(), old(self).strings().len() as int, self.strings().len() as int);
        }
        r
    }

    /// The key of the path of entry `i` of the URL table, interned first
    /// where it is new; `None` where the entry cannot be read or the interner
    /// is full.
    pub fn article_key(&mut self, i: u32) -> (r: Option<u32>)
        requires
            old(self).wf(),
        ensures
            final(self).wf(),
            final(self).pages() == old(self).pages(),
            final(self).reader() == old(self).reader(),
            key_outcome(*old(self), *final(self), i as int, r),
    {
        match self.archive.entry_by_index(i) {
            Ok(e) => {
                let ghost before = self.strings();
                let r = self.get_or_intern(e.path.as_str());
                proof {
                    assert(self.reader().entry_result(i as int, Ok(e)));
                    if r is None {
                        assert(self.strings() =~= before);
                    }
                }
                r
            },
            Err(e) => {
                proof {
                    assert forall|e2: DirEntry| !#[trigger] self.reader().entry_result(i as int, Ok(e2)) by {}
                }
                None
            },
        }
    }

    /// The key of the path of an entry picked at random from the URL table:
    /// `article_key` of the index drawn. `None` where the archive has no
    /// entry.
    pub fn get_random_article(&mut self) -> (r: Option<u32>)
        requires
            old(self).wf(),
        ensures
            final(self).wf(),
            final(self).pages() == old(self).pages(),
            final(self).reader() == old(self).reader(),
            old(self).reader().head().article_count == 0 ==> r is None && final(self).strings() == old(self).strings(),
            old(self).reader().head().article_count > 0 ==> exists|i: int|
                0 <= i < old(self).reader().head().article_count && #[trigger] key_outcome(*old(self), *final(self), i, r),
    {
        let count = self.archive.header().article_count;
        if count == 0 {
            return None;
        }
        let i = random_below(count);
        let r = self.article_key(i);
        proof {
            assert(key_outcome(*old(self), *self, i as int, r));
        }
        r
    }

    /// Draws random articles, at most `tries` times, until one has a page
    /// that links somewhere; `None` where none of the draws does.
    pub fn linked_random_article(&mut self, tries: usize) -> (r: Option<u32>)
        requires
            old(self).wf(),
        ensures
            final(self).wf(),
            final(self).pages() == old(self).pages(),
            final(self).reader() == old(self).reader(),
            old(self).strings().is_prefix_of(final(self).strings()),
            r matches Some(k) ==> final(self).pages().contains_key(k) && final(self).pages()[k].len() > 0,
            tries == 0 ==> r is None,
    {
        let mut t: usize = 0;
        while t < tries
            invariant
                self.wf(),
                self.pages() == old(self).pages(),
                self.reader() == old(self).reader(),
                old(self).strings().is_prefix_of(self.strings()),
            decreases tries - t,
        {
            let ghost before = self.strings();
            let drawn = self.get_random_article();
            proof {
                assert(old(self).strings().is_prefix_of(self.strings())) by {
                    assert forall|j: int| 0 <= j < old(self).strings().len() implies old(self).strings()[j] == self.strings()[j] by {
                        assert(old(self).strings()[j] == before[j]);
                        if old(self).reader().head().article_count > 0 {
                            let i = choose|i: int| 0 <= i < old(self).reader().head().article_count
                                && #[trigger] key_outcome(*old(self), *self, i, drawn);
                        }
                    }
                }
            }
            match drawn {
                Some(k) => {
                    if self.has_links(k) {
                        return Some(k);
                    }
                },
                None => {},
            }
            t = t + 1;
        }
        None
    }

    /// The number of pages.
    pub fn page_count(&self) -> (r: usize)
        ensures
            r == self.pages().dom().len(),
    {
        pages_len(&self.link_to_page)
    }

    pub fn contains_page(&self, key: u32) -> (r: bool)
        ensures
            r == self.pages().contains_key(key),
    {
        pages_contains(&self.link_to_page, key)
    }

    /// The link targets of the page of `key`, in position order.
    pub fn links_of(&self, key: u32) -> (r: Option<Vec<u32>>)
        ensures
            r is Some <==> self.pages().contains_key(key),
            r matches Some(v) ==> v@ == self.pages()[key],
    {
        pages_get(&self.link_to_page, key)
    }

    /// Whether the page of `key` exists and links somewhere.
    pub fn has_links(&self, key: u32) -> (r: bool)
        ensures
            r == (self.pages().contains_key(key) && self.pages()[key].len() > 0),
    {
        match pages_get(&self.link_to_page, key) {
            Some(v) => v.len() > 0,
            None => false,
        }
    }

    /// Each page as its key and its link targets, in no promised order.
    pub fn pages_list(&self) -> (r: Vec<(u32, Vec<u32>)>)
        ensures
            forall|i: int| #![trigger r@[i]] 0 <= i < r@.len() ==> self.pages().contains_key(r@[i].0)
                && self.pages()[r@[i].0] == r@[i].1@,
            forall|i: int, j: int| 0 <= i < j < r@.len() ==> r@[i].0 != r@[j].0,
            forall|k: u32| #[trigger] self.pages().contains_key(k) ==> exists|i: int|
                0 <= i < r@.len() && r@[i].0 == k,
    {
        pages_entries(&self.link_to_page)
    }

    /// The two artifacts of this graph: its vocabulary, and its pages.
    pub fn save_bin(&self) -> (r: Option<(Vec<u8>, Vec<u8>)>)
        requires
            self.wf(),
        ensures
            r is Some,
            r matches Some(p) ==> saved_as(*self, p.0@, p.1@),
    {
        let n = self.interner.len();
        let mut strings: Vec<String> = Vec::new();
        let mut k: usize = 0;
        while k < n
            invariant
                self.wf(),
                n == self.strings().len(),
                k <= n,
                views(strings@) == self.strings().take(k as int),
            decreases n - k,
        {
            let s = self.resolve(k as u32).to_owned();
            let ghost prev = strings@;
            strings.push(s);
            proof {
                assert(views(strings@) =~= views(prev).push(s@));
                assert(self.strings().take(k + 1) =~= self.strings().take(k as int).push(self.strings()[k as int]));
            }
            k = k + 1;
        }
        assert(self.strings().take(n as int) =~= self.strings());
        let entries = self.pages_list();
        proof {
            let ev = entries_view(entries@);
            assert forall|i: int| #![trigger ev[i]] 0 <= i < ev.len() implies self.pages().contains_key(ev[i].0) && self.pages()[ev[i].0] == ev[i].1 by {
                assert(entries@[i].0 == ev[i].0);
            }
            assert forall|i: int, j: int| 0 <= i < j < ev.len() implies ev[i].0 != ev[j].0 by {
                assert(entries@[i].0 == ev[i].0 && entries@[j].0 == ev[j].0);
            }
            assert forall|k: u32| #[trigger] self.pages().contains_key(k) implies exists|i: int| 0 <= i < ev.len() && ev[i].0 == k by {
                let i = choose|i: int| 0 <= i < entries@.len() && entries@[i].0 == k;
                assert(ev[i].0 == k);
            }
        }
        let v = match encode_vocabulary(&strings) {
            Some(b) => b,
            None => {
                return None;
            },
        };
        let g = match encode_graph(&entries) {
            Some(b) => b,
            None => {
                return None;
            },
        };
        Some((v, g))
    }

    /// Rebuilds a graph over `archive` from the two artifacts: the vocabulary
    /// is interned again in its order, so keys keep their meaning; then the
    /// pages are stored. Fails where the vocabulary does not decode or repeats
    /// a string, or where the pages do not decode or name a key or target
    /// outside the vocabulary.
    pub fn load_bin(archive: ZimReader, strings: &[u8], graph: &[u8]) -> (r: Result<WikiGraph, PersistError>)
        requires
            archive.wf(),
        ensures
            load_outcome(archive, strings@, graph@, r),
    {
        let words = match decode_vocabulary(strings) {
            Some(v) => v,
            None => {
                return Err(PersistError::Vocabulary);
            },
        };
        let ghost wv = views(words@);
        assert(vocabulary_decoded(strings@) == Some(wv));
        assert(vocabulary_only(strings@, wv));
        if words.len() > MAX_KEYS {
            return Err(PersistError::Vocabulary);
        }
        let mut interner = Interner::new();
        let mut i: usize = 0;
        while i < words.len()
            invariant
                vocabulary_decoded(strings@) == Some(wv),
                vocabulary_only(strings@, wv),
                wv == views(words@),
                words@.len() <= MAX_KEYS,
                i <= words@.len(),
                interner.wf(),
                interner@ == wv.take(i as int),
            decreases words@.len() - i,
        {
            match interner.get_or_intern(words[i].as_str()) {
                Some(k) => {
                    if k as usize != i {
                        proof {
                            assert(wv.take(i as int).contains(wv[i as int])) by {
                                if !wv.take(i as int).contains(wv[i as int]) {
                                    assert(k as int == i);
                                }
                            }
                            let j = choose|j: int| 0 <= j < i && wv.take(i as int)[j] == wv[i as int];
                            assert(wv[j] == wv[i as int]);
                        }
                        return Err(PersistError::Vocabulary);
                    }
                    proof {
                        assert(!wv.take(i as int).contains(wv[i as int])) by {
                            if wv.take(i as int).contains(wv[i as int]) {
                                assert(k < i);
                            }
                        }
                        assert(interner@ =~= wv.take(i + 1));
                    }
                },
                None => {
                    return Err(PersistError::Vocabulary);
                },
            }
            i = i + 1;
        }
        assert(wv.take(words@.len() as int) =~= wv);
        assert(vocabulary_ok(strings@));
        let entries = match decode_graph(graph) {
            Some(e) => e,
            None => {
                return Err(PersistError::Graph);
            },
        };
        let ghost ev = entries_view(entries@);
        assert(graph_decoded(graph@) == Some(ev));
        assert(graph_only(graph@, ev));
        let n = interner.len();
        let mut pages = pages_new();
        let mut i: usize = 0;
        while i < entries.len()
            invariant
                graph_decoded(graph@) == Some(ev),
                vocabulary_only(strings@, wv),
                graph_only(graph@, ev),
                vocabulary_ok(strings@),
                vocabulary_decoded(strings@) == Some(wv),
                ev == entries_view(entries@),
                i <= entries@.len(),
                n == interner@.len(),
                n == wv.len(),
                interner.wf(),
                interner@ == wv,
                graph_ok(stored_pages(pages), n as int),
                forall|j: int| #![trigger ev[j]] 0 <= j < i ==> ev[j].0 < n && forall|t: int|
                    0 <= t < ev[j].1.len() ==> ev[j].1[t] < n,
                forall|j: int| #![trigger ev[j]] 0 <= j < i ==> stored_pages(pages).contains_key(ev[j].0),
                entries_valid(ev, n as int) ==> forall|j: int| #![trigger ev[j]] 0 <= j < i ==> stored_pages(pages)[ev[j].0] == ev[j].1,
                forall|k: u32| #[trigger] stored_pages(pages).contains_key(k) ==> exists|j: int| 0 <= j < i && ev[j].0 == k,
            decreases entries@.len() - i,
        {
            let k = entries[i].0;
            let targets = &entries[i].1;
            assert(ev[i as int] == (k, targets@));
            if k as usize >= n {
                proof {
                    assert(!entries_below(ev, n as int)) by {
                        assert(ev[i as int].0 >= n);
                    }
                }
                return Err(PersistError::Graph);
            }
            let mut t: usize = 0;
            while t < targets.len()
                invariant
                    graph_decoded(graph@) == Some(ev),
                    vocabulary_only(strings@, wv),
                    graph_only(graph@, ev),
                    vocabulary_ok(strings@),
                    vocabulary_decoded(strings@) == Some(wv),
                    n == wv.len(),
                    i < ev.len(),
                    ev[i as int] == (k, targets@),
                    t <= targets@.len(),
                    forall|j: int| 0 <= j < t ==> targets@[j] < n,
                decreases targets@.len() - t,
            {
                if targets[t] as usize >= n {
                    proof {
                        assert(!entries_below(ev, n as int)) by {
                            assert(ev[i as int].1[t as int] == targets@[t as int]);
                            assert(ev[i as int].1[t as int] >= n);
                        }
                    }
                    return Err(PersistError::Graph);
                }
                t = t + 1;
            }
            let page = Page::from_targets(targets);
            let ghost before = stored_pages(pages);
            pages_insert(&mut pages, k, page);
            proof {
                let after = stored_pages(pages);
                assert forall|j: int| 0 <= j < page@.len() implies page@[j] < n by {
                    assert(page@.to_set().contains(page@[j]));
                    assert(targets@.to_set().contains(page@[j]));
                }
                assert forall|x: u32| #[trigger] after.contains_key(x) implies x < n && after[x].no_duplicates() && (forall|j: int|
                    0 <= j < after[x].len() ==> after[x][j] < n) by {
                    if x != k {
                        assert(before.contains_key(x));
                    }
                }
                assert forall|j: int| #![trigger ev[j]] 0 <= j < i + 1 implies after.contains_key(ev[j].0) by {
                    if j < i {
                        assert(before.contains_key(ev[j].0));
                    }
                }
                if entries_valid(ev, n as int) {
                    assert(targets@.no_duplicates()) by {
                        assert(ev[i as int].1.no_duplicates());
                    }
                    assert forall|j: int| #![trigger ev[j]] 0 <= j < i + 1 implies after[ev[j].0] == ev[j].1 by {
                        if j < i {
                            assert(ev[j].0 != ev[i as int].0);
                            assert(before[ev[j].0] == ev[j].1);
                        }
                    }
                }
                assert forall|x: u32| #[trigger] after.contains_key(x) implies exists|j: int| 0 <= j < i + 1 && ev[j].0 == x by {
                    if x != k {
                        assert(before.contains_key(x));
                        let j = choose|j: int| 0 <= j < i && ev[j].0 == x;
                        assert(0 <= j < i + 1 && ev[j].0 == x);
                    } else {
                        assert(ev[i as int].0 == x);
                    }
                }
            }
            i = i + 1;
        }
        assert(entries_below(ev, n as int));
        let w = WikiGraph { archive, link_to_page: pages, interner };
        proof {
            assert(w.wf());
            assert forall|k: u32| #[trigger] w.pages().contains_key(k) <==> exists|j: int|
                0 <= j < ev.len() && ev[j].0 == k by {
                if exists|j: int| 0 <= j < ev.len() && ev[j].0 == k {
                    let j = choose|j: int| 0 <= j < ev.len() && ev[j].0 == k;
                    assert(stored_pages(w.link_to_page).contains_key(ev[j].0));
                }
            }
            if entries_valid(ev, n as int) {
                assert(lists_pages(w.pages(), ev));
            }
            assert forall|v: Seq<Seq<char>>, e: Seq<(u32, Seq<u32>)>| #[trigger] artifacts_of(v, e, strings@, graph@)
                implies w.strings() == v && lists_pages(w.pages(), e) by {
                assert(vocabulary_bytes(v) == strings@ && graph_bytes(e) == graph@);
                assert(wv == v);
                assert(ev == e);
            }
        }
        Ok(w)
    }

    /// Stores the page of the article at `path` whose anchors point to
    /// `hrefs`. Returns whether a page was added: not when `path` already has
    /// one, nor when interning the path and the links could overflow the key
    /// space; then nothing changes.
    pub fn insert_page_links(&mut self, path: &str, hrefs: &Vec<String>) -> (r: bool)
        requires
            old(self).wf(),
        ensures
            final(self).wf(),
            final(self).reader() == old(self).reader(),
            r <==> has_room(old(self).strings().len() as int, hrefs@.len() as int) && !has_page(
                old(self).pages(),
                old(self).strings(),
                path@,
            ),
            !r ==> final(self).pages() == old(self).pages() && final(self).strings() == old(self).strings(),
            r ==> added_page(*old(self), *final(self), path@, page_links(views(hrefs@))),
    {
        let n = self.interner.len();
        if n >= MAX_KEYS || hrefs.len() > MAX_KEYS - 1 - n {
            return false;
        }
        match self.interner.get(path) {
            Some(k) => {
                if pages_contains(&self.link_to_page, k) {
                    proof {
                        assert(old(self).pages().contains_key((k as int) as u32));
                        assert(has_page(old(self).pages(), old(self).strings(), path@));
                    }
                    return false;
                }
            },
            None => {},
        }
        proof {
            assert(!has_page(old(self).pages(), old(self).strings(), path@)) by {
                if has_page(old(self).pages(), old(self).strings(), path@) {
                    let k = choose|k: int| 0 <= k < old(self).strings().len() && old(self).strings()[k] == path@
                        && #[trigger] old(self).pages().contains_key(k as u32);
                    assert(old(self).strings().contains(path@));
                }
            }
        }
        let key = match self.interner.get_or_intern(path) {
            Some(k) => k,
            None => {
                return false;
            },
        };
        let ghost mid = self.strings().len() as int;
        let ghost s1 = self.strings();
        proof {
            lemma_graph_ok_grow(self.pages(), n as int, mid);
            assert(!old(self).pages().contains_key(key)) by {
                if old(self).pages().contains_key(key) {
                    assert(old(self).strings().contains(path@)) by {
                        if !old(self).strings().contains(path@) {
                            assert(key as int == n);
                        }
                    }
                }
            }
        }
        let page = Page::from_links(hrefs, &mut self.interner);
        proof {
            lemma_graph_ok_grow(self.pages(), mid, self.strings().len() as int);
            assert(self.strings()[key as int] == path@);
        }
        pages_insert(&mut self.link_to_page, key, page);
        proof {
            assert forall|k: u32| #[trigger] self.pages().contains_key(k) implies k < self.strings().len()
                && self.pages()[k].no_duplicates() && (forall|j: int|
                0 <= j < self.pages()[k].len() ==> self.pages()[k][j] < self.strings().len()) by {
                if k != key {
                    assert(old(self).pages().contains_key(k));
                }
            }
            assert(self.pages()[key] == page@);
            assert(page_text(page@, self.strings()) =~= page@.map_values(|k: u32| self.strings()[k as int]));
            assert(self.pages() =~= old(self).pages().insert(key, self.pages()[key]));
            assert(old(self).strings().is_prefix_of(self.strings())) by {
                assert forall|j: int| 0 <= j < old(self).strings().len() implies old(self).strings()[j] == self.strings()[j] by {
                    assert(old(self).strings()[j] == s1[j]);
                }
            }
            assert(!old(self).pages().contains_key(key));
            assert(key < self.strings().len());
            assert(self.strings()[key as int] == path@);
            assert(self.pages().contains_key(key));
            assert(page_text(self.pages()[key], self.strings()) == page_links(views(hrefs@)));
            assert(added_page(*old(self), *self, path@, page_links(views(hrefs@))));
        }
        true
    }

    /// Stores the page of the article at `path` whose anchors point to
    /// `hrefs`, in place of any page it had. Returns whether it was stored:
    /// not when interning the path and the links could overflow the key
    /// space; then nothing changes.
    pub fn store_page_links(&mut self, path: &str, hrefs: &Vec<String>) -> (r: bool)
        requires
            old(self).wf(),
        ensures
            final(self).wf(),
            final(self).reader() == old(self).reader(),
            r <==> has_room(old(self).strings().len() as int, hrefs@.len() as int),
            !r ==> final(self).pages() == old(self).pages() && final(self).strings() == old(self).strings(),
            r ==> stored_page(*old(self), *final(self), path@, page_links(views(hrefs@))),
    {
        let n = self.interner.len();
        if n >= MAX_KEYS || hrefs.len() > MAX_KEYS - 1 - n {
            return false;
        }
        let key = match self.interner.get_or_intern(path) {
            Some(k) => k,
            None => {
                return false;
            },
        };
        let ghost mid = self.strings().len() as int;
        let ghost s1 = self.strings();
        proof {
            lemma_graph_ok_grow(self.pages(), n as int, mid);
        }
        let page = Page::from_links(hrefs, &mut self.interner);
        proof {
            lemma_graph_ok_grow(self.pages(), mid, self.strings().len() as int);
            assert(self.strings()[key as int] == path@);
        }
        pages_insert(&mut self.link_to_page, key, page);
        proof {
            assert forall|k: u32| #[trigger] self.pages().contains_key(k) implies k < self.strings().len()
                && self.pages()[k].no_duplicates() && (forall|j: int|
                0 <= j < self.pages()[k].len() ==> self.pages()[k][j] < self.strings().len()) by {
                if k != key {
                    assert(old(self).pages().contains_key(k));
                }
            }
            assert(self.pages()[key] == page@);
            assert(page_text(page@, self.strings()) =~= page@.map_values(|k: u32| self.strings()[k as int]));
            assert(self.pages() =~= old(self).pages().insert(key, self.pages()[key]));
            assert(old(self).strings().is_prefix_of(self.strings())) by {
                assert forall|j: int| 0 <= j < old(self).strings().len() implies old(self).strings()[j] == self.strings()[j] by {
                    assert(old(self).strings()[j] == s1[j]);
                }
            }
            assert(key < self.strings().len());
            assert(self.pages().contains_key(key));
            assert(page_text(self.pages()[key], self.strings()) == page_links(views(hrefs@)));
            assert(stored_page(*old(self), *self, path@, page_links(views(hrefs@))));
        }
        true
    }

    /// The link targets of the article `e`: the `href` of each of its anchors,
    /// in document order. `None` where its body cannot be read or is not UTF-8.
    pub fn entry_links(&self, e: &DirEntry) -> (r: Option<Vec<String>>)
        requires
            self.wf(),
        ensures
            r is Some <==> exists|v: Vec<u8>| self.reader().blob_read(*e, Ok(v)) && vstd::utf8::valid_utf8(v@),
            r matches Some(v) ==> exists|b: Vec<u8>|
                self.reader().blob_read(*e, Ok(b)) && views(v@) == crate::page::anchor_hrefs_of(
                    vstd::utf8::decode_utf8(b@),
                ),
    {
        let r = article_links(&self.archive, e);
        proof {
            if r is Some {
                let v = r->Some_0;
                let b = choose|b: Vec<u8>|
                    self.archive.blob_read(*e, Ok(b)) && views(v@) == crate::page::anchor_hrefs_of(
                        vstd::utf8::decode_utf8(b@),
                    );
                assert(self.reader().blob_read(*e, Ok(b)));
            }
        }
        r
    }

    /// The first entry of the URL table, in index order, whose path is `path`.
    pub fn find_entry_by_path(&self, path: &str) -> (r: Option<DirEntry>)
        requires
            self.wf(),
        ensures
            r matches Some(e) ==> e.path@ == path@ && exists|i: int|
                first_with_path(self.reader(), i, path@) && entry_matches(e, self.reader().data(), self.reader().url_ptr(i)),
            r is None ==> forall|i: int| !#[trigger] self.reader().index_has_path(i, path@),
    {
        let wanted = path.to_owned();
        let count = self.archive.header().article_count;
        let mut i: u32 = 0;
        while i < count
            invariant
                self.wf(),
                wanted@ == path@,
                count == self.reader().head().article_count,
                forall|j: int| 0 <= j < i ==> !#[trigger] self.reader().index_has_path(j, path@),
            decreases count - i,
        {
            match self.archive.entry_by_index(i) {
                Ok(e) => {
                    if e.path.eq(&wanted) {
                        assert(self.reader().index_has_path(i as int, path@));
                        assert(first_with_path(self.reader(), i as int, path@));
                        return Some(e);
                    }
                },
                Err(_) => {},
            }
            i = i + 1;
        }
        None
    }

    /// Adds the page of the article at `link`: the first entry of the URL
    /// table with that path. Returns whether a page was added: not when it has
    /// one already, when no entry has that path, when its body cannot be read,
    /// or when interning could overflow the key space; then nothing changes.
    pub fn add_link(&mut self, link: &str) -> (r: bool)
        requires
            old(self).wf(),
        ensures
            final(self).wf(),
            final(self).reader() == old(self).reader(),
            link_added(*old(self), *final(self), link@, r),
    {
        proof {
            self.lemma_wf();
        }
        match self.interner.get(link) {
            Some(k) => {
                if pages_contains(&self.link_to_page, k) {
                    proof {
                        assert(old(self).pages().contains_key((k as int) as u32));
                        assert(has_page(old(self).pages(), old(self).strings(), link@));
                    }
                    return false;
                }
            },
            None => {},
        }
        let ghost no_page = !has_page(old(self).pages(), old(self).strings(), link@);
        proof {
            assert(no_page) by {
                if has_page(old(self).pages(), old(self).strings(), link@) {
                    let k = choose|k: int| 0 <= k < old(self).strings().len() && old(self).strings()[k] == link@
                        && #[trigger] old(self).pages().contains_key(k as u32);
                    assert(old(self).strings().contains(link@));
                }
            }
        }
        let e = match self.find_entry_by_path(link) {
            Some(e) => e,
            None => {
                proof {
                    assert forall|i: int, v: Vec<u8>| #[trigger] readable_at(old(self).reader(), i, v) implies !first_with_path(old(self).reader(), i, link@) by {}
                }
                return false;
            },
        };
        let ghost i0 = choose|i: int|
            first_with_path(self.reader(), i, link@) && entry_matches(e, self.reader().data(), self.reader().url_ptr(i));
        proof {
            assert(self.reader().entry_result(i0, Ok(e)));
            assert forall|i: int| #[trigger] first_with_path(self.reader(), i, link@) implies i == i0 by {
                if i < i0 {
                    assert(!self.reader().index_has_path(i, link@));
                } else if i0 < i {
                    assert(!self.reader().index_has_path(i0, link@));
                }
            }
        }
        let hrefs = match self.entry_links(&e) {
            Some(h) => h,
            None => {
                proof {
                    assert forall|i: int, v: Vec<u8>|
                        first_with_path(old(self).reader(), i, link@) implies !#[trigger] readable_at(old(self).reader(), i, v) by {
                        if readable_at(old(self).reader(), i, v) {
                            let e2 = choose|e2: DirEntry| #[trigger] self.reader().entry_result(i, Ok(e2))
                                && self.reader().blob_read(e2, Ok(v)) && valid_utf8(v@);
                            self.reader().lemma_entry_unique(i, e2, e);
                            self.reader().lemma_blob_read_unique(e2, e, v, v);
                        }
                    }
                }
                return false;
            },
        };
        let ghost b = choose|b: Vec<u8>|
            self.reader().blob_read(e, Ok(b)) && views(hrefs@) == anchor_hrefs_of(decode_utf8(b@));
        proof {
            assert(valid_utf8(b@)) by {
                let v = choose|v: Vec<u8>| self.reader().blob_read(e, Ok(v)) && valid_utf8(v@);
                self.reader().lemma_blob_read_unique(e, e, v, b);
            }
            assert(readable_at(self.reader(), i0, b));
            assert(views(hrefs@).len() == hrefs@.len());
            assert forall|i: int, v: Vec<u8>|
                first_with_path(old(self).reader(), i, link@) && #[trigger] readable_at(old(self).reader(), i, v)
                    implies anchors(v) == anchors(b) by {
                let e2 = choose|e2: DirEntry| #[trigger] self.reader().entry_result(i, Ok(e2))
                    && self.reader().blob_read(e2, Ok(v)) && valid_utf8(v@);
                self.reader().lemma_entry_unique(i, e2, e);
                self.reader().lemma_blob_read_unique(e2, e, v, b);
            }
        }
        let r = self.insert_page_links(link, &hrefs);
        r
    }

    /// Every link target that has no page yet, once each.
    pub fn missing_targets(&self) -> (r: Vec<u32>)
        requires
            self.wf(),
        ensures
            r@.no_duplicates(),
            forall|i: int| 0 <= i < r@.len() ==> is_missing_target(self.pages(), #[trigger] r@[i]),
            forall|t: u32| is_missing_target(self.pages(), t) ==> #[trigger] r@.contains(t),
            forall|i: int| 0 <= i < r@.len() ==> #[trigger] r@[i] < self.strings().len(),
    {
        proof {
            self.lemma_wf();
        }
        let entries = self.pages_list();
        let mut r: Vec<u32> = Vec::new();
        let mut seen: std::collections::HashSet<u32> = std::collections::HashSet::new();
        let mut i: usize = 0;
        while i < entries.len()
            invariant
                self.wf(),
                graph_ok(self.pages(), self.strings().len() as int),
                i <= entries@.len(),
                forall|a: int| #![trigger entries@[a]] 0 <= a < entries@.len() ==> self.pages().contains_key(entries@[a].0)
                    && self.pages()[entries@[a].0] == entries@[a].1@,
                forall|k: u32| #[trigger] self.pages().contains_key(k) ==> exists|a: int|
                    0 <= a < entries@.len() && entries@[a].0 == k,
                r@.no_duplicates(),
                seen@ == r@.to_set(),
                forall|x: int| 0 <= x < r@.len() ==> is_missing_target(self.pages(), #[trigger] r@[x]),
                forall|x: int| 0 <= x < r@.len() ==> #[trigger] r@[x] < self.strings().len(),
                forall|a: int, j: int| 0 <= a < i && 0 <= j < entries@[a].1@.len() && !self.pages().contains_key(entries@[a].1@[j])
                    ==> r@.contains(#[trigger] entries@[a].1@[j]),
            decreases entries@.len() - i,
        {
            let targets = &entries[i].1;
            let ghost ki = entries@[i as int].0;
            let mut j: usize = 0;
            while j < targets.len()
                invariant
                    self.wf(),
                    graph_ok(self.pages(), self.strings().len() as int),
                    i < entries@.len(),
                    targets@ == entries@[i as int].1@,
                    self.pages().contains_key(ki),
                    self.pages()[ki] == targets@,
                    j <= targets@.len(),
                    r@.no_duplicates(),
                    seen@ == r@.to_set(),
                    forall|x: int| 0 <= x < r@.len() ==> is_missing_target(self.pages(), #[trigger] r@[x]),
                    forall|x: int| 0 <= x < r@.len() ==> #[trigger] r@[x] < self.strings().len(),
                    forall|a: int, b: int| 0 <= a < i && 0 <= b < entries@[a].1@.len() && !self.pages().contains_key(entries@[a].1@[b])
                        ==> r@.contains(#[trigger] entries@[a].1@[b]),
                    forall|b: int| 0 <= b < j && !self.pages().contains_key(targets@[b]) ==> r@.contains(#[trigger] targets@[b]),
                decreases targets@.len() - j,
            {
                let t = targets[j];
                if !self.contains_page(t) {
                    if seen.insert(t) {
                        let ghost before = r@;
                        r.push(t);
                        proof {
                            assert(!before.contains(t)) by {
                                if before.contains(t) {
                                    assert(before.to_set().contains(t));
                                }
                            }
                            assert forall|x: int, y: int| 0 <= x < r@.len() && 0 <= y < r@.len() && x != y implies r@[x] != r@[y] by {
                                if x == r@.len() - 1 {
                                    assert(before[y] == r@[y]);
                                } else if y == r@.len() - 1 {
                                    assert(before[x] == r@[x]);
                                }
                            }
                            assert(r@ == before.push(t));
                            before.lemma_push_to_set_commute(t);
                            assert(r@.to_set() =~= before.to_set().insert(t));
                            assert(self.pages()[ki].contains(t)) by {
                                assert(targets@[j as int] == t);
                            }
                            assert(is_missing_target(self.pages(), t));
                            assert(t < self.strings().len()) by {
                                assert(targets@[j as int] == t);
                            }
                            assert forall|x: int| 0 <= x < r@.len() implies is_missing_target(self.pages(), #[trigger] r@[x]) by {
                                if x < before.len() {
                                    assert(r@[x] == before[x]);
                                }
                            }
                            assert forall|x: u32| before.contains(x) implies r@.contains(x) by {
                                let y = choose|y: int| 0 <= y < before.len() && before[y] == x;
                                assert(r@[y] == x);
                            }
                            assert(r@[r@.len() - 1] == t);
                        }
                    } else {
                        proof {
                            assert(r@.to_set().contains(t));
                        }
                    }
                }
                j = j + 1;
            }
            i = i + 1;
        }
        proof {
            assert forall|t: u32| is_missing_target(self.pages(), t) implies #[trigger] r@.contains(t) by {
                let k = choose|k: u32| #[trigger] self.pages().contains_key(k) && self.pages()[k].contains(t);
                let a = choose|a: int| 0 <= a < entries@.len() && entries@[a].0 == k;
                let b = choose|b: int| 0 <= b < self.pages()[k].len() && self.pages()[k][b] == t;
                assert(entries@[a].1@[b] == t);
            }
        }
        r
    }

    /// One round of frontier expansion: adds the page of every link target
    /// that has none yet. Returns whether there was such a target.
    pub fn expand_round(&mut self) -> (r: bool)
        requires
            old(self).wf(),
        ensures
            final(self).wf(),
            final(self).reader() == old(self).reader(),
            grown(*old(self), *final(self)),
            round_done(*old(self), *final(self)),
            r <==> exists|t: u32| #[trigger] is_missing_target(old(self).pages(), t),
            !r ==> final(self).pages() == old(self).pages() && final(self).strings() == old(self).strings(),
    {
        let ghost rd = self.reader();
        let ghost s0 = self.strings();
        let pending = self.missing_targets();
        if pending.len() == 0 {
            proof {
                assert forall|t: u32| !#[trigger] is_missing_target(self.pages(), t) by {
                    if is_missing_target(self.pages(), t) {
                        assert(pending@.contains(t));
                    }
                }
                assert(self.strings().is_prefix_of(self.strings()));
            }
            return false;
        }
        proof {
            assert(is_missing_target(self.pages(), pending@[0]));
        }
        let mut j: usize = 0;
        while j < pending.len()
            invariant
                self.wf(),
                self.reader() == rd,
                rd == old(self).reader(),
                s0 == old(self).strings(),
                grown(*old(self), *self),
                j <= pending@.len(),
                forall|x: int| 0 <= x < pending@.len() ==> #[trigger] pending@[x] < s0.len(),
                forall|t: u32| is_missing_target(old(self).pages(), t) ==> #[trigger] pending@.contains(t),
                forall|x: int, a: int, b: Vec<u8>| #![trigger pending@[x], readable_at(rd, a, b)]
                    0 <= x < j && first_with_path(rd, a, s0[pending@[x] as int]) && readable_at(rd, a, b)
                        ==> has_page(self.pages(), self.strings(), s0[pending@[x] as int])
                        || self.strings().len() + 1 + anchors(b).len() > MAX_KEYS,
            decreases pending@.len() - j,
        {
            let name = self.resolve(pending[j]).to_owned();
            let ghost prev = *self;
            proof {
                assert(s0[pending@[j as int] as int] == self.strings()[pending@[j as int] as int]);
            }
            let added = self.add_link(name.as_str());
            proof {
                lemma_add_link_grows(prev, *self, name@, added);
                lemma_grown_trans(*old(self), prev, *self);
                assert forall|x: int, a: int, b: Vec<u8>| #![trigger pending@[x], readable_at(rd, a, b)]
                    0 <= x < j + 1 && first_with_path(rd, a, s0[pending@[x] as int]) && readable_at(rd, a, b)
                        implies has_page(self.pages(), self.strings(), s0[pending@[x] as int])
                        || self.strings().len() + 1 + anchors(b).len() > MAX_KEYS by {
                    let q = s0[pending@[x] as int];
                    if has_page(prev.pages(), prev.strings(), q) {
                        lemma_has_page_grows(prev.pages(), prev.strings(), self.pages(), self.strings(), q);
                    } else if x == j && !added {
                        assert(readable_at(prev.reader(), a, b));
                        assert(!has_room(prev.strings().len() as int, anchors(b).len() as int));
                    }
                }
            }
            j = j + 1;
        }
        proof {
            assert forall|t: u32, a: int, b: Vec<u8>| #![trigger is_missing_target(old(self).pages(), t), readable_at(old(self).reader(), a, b)]
                is_missing_target(old(self).pages(), t) && first_with_path(old(self).reader(), a, old(self).strings()[t as int])
                    && readable_at(old(self).reader(), a, b) && self.strings().len() + 1 + anchors(b).len() <= MAX_KEYS
                    implies has_page(self.pages(), self.strings(), old(self).strings()[t as int]) by {
                assert(pending@.contains(t));
                let x = choose|x: int| 0 <= x < pending@.len() && pending@[x] == t;
                assert(readable_at(rd, a, b));
            }
        }
        true
    }

    /// Grows the graph around `seeds`: adds their pages, then, at most `steps`
    /// times, runs a round of `expand_round`, stopping once no link target
    /// lacks a page. Returns the number of rounds run.
    pub fn expand_from(&mut self, seeds: &Vec<String>, steps: usize) -> (r: usize)
        requires
            old(self).wf(),
        ensures
            final(self).wf(),
            final(self).reader() == old(self).reader(),
            grown(*old(self), *final(self)),
            r <= steps,
            r < steps ==> forall|t: u32| !#[trigger] is_missing_target(final(self).pages(), t),
            forall|i: int, j: int, v: Vec<u8>| #![trigger first_with_path(old(self).reader(), j, seeds@[i]@), readable_at(old(self).reader(), j, v)]
                0 <= i < seeds@.len() && first_with_path(old(self).reader(), j, seeds@[i]@) && readable_at(
                    old(self).reader(),
                    j,
                    v,
                ) && final(self).strings().len() + 1 + anchors(v).len() <= MAX_KEYS ==> has_page(
                    final(self).pages(),
                    final(self).strings(),
                    seeds@[i]@,
                ),
            steps > 0 ==> exists|p1: WikiGraph| {
                &&& p1.reader() == old(self).reader()
                &&& grown(*old(self), p1)
                &&& grown(p1, *final(self))
                &&& #[trigger] seeds_done(old(self).reader(), seeds@, seeds@.len() as int, p1)
                &&& round_done(p1, *final(self))
            },
    {
        let ghost rd = self.reader();
        let mut i: usize = 0;
        while i < seeds.len()
            invariant
                self.wf(),
                self.reader() == rd,
                rd == old(self).reader(),
                grown(*old(self), *self),
                i <= seeds@.len(),
                seeds_done(rd, seeds@, i as int, *self),
            decreases seeds@.len() - i,
        {
            let ghost prev = *self;
            let added = self.add_link(seeds[i].as_str());
            proof {
                lemma_add_link_grows(prev, *self, seeds@[i as int]@, added);
                lemma_grown_trans(*old(self), prev, *self);
                lemma_seeds_done_grows(rd, seeds@, i as int, prev, *self);
                assert forall|a: int, j: int, v: Vec<u8>| #![trigger first_with_path(rd, j, seeds@[a]@), readable_at(rd, j, v)]
                    0 <= a < i + 1 && first_with_path(rd, j, seeds@[a]@) && readable_at(rd, j, v)
                        implies has_page(self.pages(), self.strings(), seeds@[a]@)
                        || self.strings().len() + 1 + anchors(v).len() > MAX_KEYS by {
                    if a == i && !added && !has_page(prev.pages(), prev.strings(), seeds@[a]@) {
                        assert(!has_room(prev.strings().len() as int, anchors(v).len() as int));
                    }
                    if a == i && has_page(prev.pages(), prev.strings(), seeds@[a]@) {
                        lemma_has_page_grows(prev.pages(), prev.strings(), self.pages(), self.strings(), seeds@[a]@);
                    }
                }
            }
            i = i + 1;
        }
        let ghost p1 = *self;
        let mut step: usize = 0;
        while step < steps
            invariant
                self.wf(),
                self.reader() == rd,
                rd == old(self).reader(),
                p1.reader() == rd,
                grown(*old(self), p1),
                grown(p1, *self),
                grown(*old(self), *self),
                step <= steps,
                seeds_done(rd, seeds@, seeds@.len() as int, p1),
                seeds_done(rd, seeds@, seeds@.len() as int, *self),
                step > 0 ==> round_done(p1, *self),
                step == 0 ==> *self == p1,
            decreases steps - step,
        {
            let ghost prev = *self;
            let more = self.expand_round();
            proof {
                lemma_grown_trans(*old(self), prev, *self);
                lemma_grown_trans(p1, prev, *self);
                lemma_seeds_done_grows(rd, seeds@, seeds@.len() as int, prev, *self);
                if step > 0 {
                    lemma_round_done_grows(p1, prev, *self);
                } else {
                    assert(prev == p1);
                }
            }
            if !more {
                proof {
                    assert forall|t: u32| !#[trigger] is_missing_target(self.pages(), t) by {
                        if is_missing_target(self.pages(), t) {
                            assert(is_missing_target(prev.pages(), t));
                        }
                    }
                }
                return step + 1;
            }
            step = step + 1;
        }
        step
    }

    /// Stores the page of every content entry of the archive, in URL order,
    /// in place of any page its path had. Entries that cannot be read, and
    /// redirects, are passed over, and so is an entry whose links no longer
    /// fit in the key space. Where two entries share a path, the later one's
    /// page stays.
    #[verifier::rlimit(100)]
    #[verifier::spinoff_prover]
    pub fn get_all(&mut self)
        requires
            old(self).wf(),
        ensures
            final(self).wf(),
            final(self).reader() == old(self).reader(),
            old(self).strings().is_prefix_of(final(self).strings()),
            forall|k: u32| old(self).pages().contains_key(k) ==> #[trigger] final(self).pages().contains_key(k),
            pages_from_articles(*old(self), *final(self), old(self).reader()),
            forall|i: int, v: Vec<u8>|
                0 <= i < old(self).reader().head().article_count && #[trigger] article_at(old(self).reader(), i, v)
                    && final(self).strings().len() + 1 + anchors(v).len() <= MAX_KEYS ==> page_from_article(
                    *final(self),
                    old(self).reader(),
                    entry_path(old(self).reader(), i),
                    i,
                ),
    {
        let count = self.archive.header().article_count;
        let ghost rd = self.reader();
        let mut i: u32 = 0;
        while i < count
            invariant
                self.wf(),
                self.reader() == rd,
                rd == old(self).reader(),
                count == rd.head().article_count,
                i <= count,
                old(self).strings().is_prefix_of(self.strings()),
                forall|k: u32| old(self).pages().contains_key(k) ==> #[trigger] self.pages().contains_key(k),
                pages_from_articles(*old(self), *self, rd),
                forall|j: int, v: Vec<u8>|
                    0 <= j < i && #[trigger] article_at(rd, j, v) ==> page_from_article(*self, rd, entry_path(rd, j), j)
                        || self.strings().len() + 1 + anchors(v).len() > MAX_KEYS,
            decreases count - i,
        {
            let ghost prev = *self;
            proof {
                self.lemma_wf();
            }
            match self.archive.entry_by_index(i) {
                Ok(e) => {
                    if e.is_content() {
                        match self.entry_links(&e) {
                            Some(hrefs) => {
                                let ghost b = choose|b: Vec<u8>|
                                    rd.blob_read(e, Ok(b)) && views(hrefs@) == anchor_hrefs_of(decode_utf8(b@));
                                proof {
                                    assert(valid_utf8(b@)) by {
                                        let v = choose|v: Vec<u8>| rd.blob_read(e, Ok(v)) && valid_utf8(v@);
                                        rd.lemma_blob_read_unique(e, e, v, b);
                                    }
                                    assert(article_at(rd, i as int, b));
                                    assert(views(hrefs@).len() == hrefs@.len());
                                    assert(e.path@ == entry_path(rd, i as int));
                                    assert forall|v: Vec<u8>| #[trigger] article_at(rd, i as int, v) implies anchors(v) == anchors(b) by {
                                        let e2 = choose|e2: DirEntry| #[trigger] rd.entry_result(i as int, Ok(e2))
                                            && e2.spec_is_content() && rd.blob_read(e2, Ok(v)) && valid_utf8(v@);
                                        rd.lemma_entry_unique(i as int, e2, e);
                                        rd.lemma_blob_read_unique(e2, e, v, b);
                                    }
                                }
                                let stored = self.store_page_links(e.path.as_str(), &hrefs);
                                proof {
                                    if stored {
                                        lemma_get_all_step(*old(self), prev, *self, rd, i as int, b);
                                    }
                                }
                            },
                            None => {
                                proof {
                                    assert forall|v: Vec<u8>| !#[trigger] article_at(rd, i as int, v) by {
                                        if article_at(rd, i as int, v) {
                                            let e2 = choose|e2: DirEntry| #[trigger] rd.entry_result(i as int, Ok(e2))
                                                && e2.spec_is_content() && rd.blob_read(e2, Ok(v)) && valid_utf8(v@);
                                            rd.lemma_entry_unique(i as int, e2, e);
                                            rd.lemma_blob_read_unique(e2, e, v, v);
                                        }
                                    }
                                }
                            },
                        }
                    } else {
                        proof {
                            assert forall|v: Vec<u8>| !#[trigger] article_at(rd, i as int, v) by {
                                if article_at(rd, i as int, v) {
                                    let e2 = choose|e2: DirEntry| #[trigger] rd.entry_result(i as int, Ok(e2))
                                        && e2.spec_is_content() && rd.blob_read(e2, Ok(v)) && valid_utf8(v@);
                                    rd.lemma_entry_unique(i as int, e2, e);
                                }
                            }
                        }
                    }
                },
                Err(_) => {
                    proof {
                        assert forall|v: Vec<u8>| !#[trigger] article_at(rd, i as int, v) by {
                            if article_at(rd, i as int, v) {
                                let e2 = choose|e2: DirEntry| #[trigger] rd.entry_result(i as int, Ok(e2))
                                    && e2.spec_is_content() && rd.blob_read(e2, Ok(v)) && valid_utf8(v@);
                            }
                        }
                    }
                },
            }
            i = i + 1;
        }
    }
}

} // verus!
