//! Pages of the link graph: the distinct internal links of one article, in
//! order of first appearance, each weighted by its position.

use vstd::prelude::*;
use vstd::string::StrSliceExecFns;
use crate::interner::Interner;
pub use crate::zim::views;
use crate::zim::{DirEntry, ZimReader};

verus! {

broadcast use vstd::std_specs::hash::group_hash_axioms, vstd::seq::Seq::lemma_push_to_set_commute;

/// The weight 1.0 in the fixed-point unit that weights and distances use.
pub const WEIGHT_ONE: u64 = 4294967296;

/// The weight of the link at `index` among `total` distinct links:
/// `(index + 1) / total`, rounded up to the fixed-point unit.
pub open spec fn weight_of(index: int, total: int) -> int {
    ((index + 1) * WEIGHT_ONE + total - 1) / total
}

/// `(i / total)` in the fixed-point unit, rounded up, for `0 < i <= total`.
pub fn linear_distance(i: usize, total: usize) -> (r: u64)
    requires
        0 < i <= total,
    ensures
        r as int == weight_of(i - 1, total as int),
        0 < r <= WEIGHT_ONE,
{
    assert(i as int * WEIGHT_ONE <= 18446744073709551615 * 4294967296) by (nonlinear_arith)
        requires
            i <= 18446744073709551615,
    ;
    let num: u128 = i as u128 * WEIGHT_ONE as u128 + total as u128 - 1;
    let q: u128 = num / total as u128;
    proof {
        lemma_weight_range(i - 1, total as int);
    }
    q as u64
}

/// Every weight lies in `(0, 1]`.
pub proof fn lemma_weight_range(index: int, total: int)
    requires
        0 <= index < total,
    ensures
        0 < weight_of(index, total) <= WEIGHT_ONE,
{
    let a = (index + 1) * WEIGHT_ONE + total - 1;
    assert((index + 1) * WEIGHT_ONE <= total * WEIGHT_ONE) by (nonlinear_arith)
        requires
            index + 1 <= total,
    ;
    vstd::arithmetic::div_mod::lemma_div_is_ordered(total, a, total);
    vstd::arithmetic::div_mod::lemma_div_is_ordered(a, total * WEIGHT_ONE + total - 1, total);
    vstd::arithmetic::div_mod::lemma_div_by_self(total);
    vstd::arithmetic::div_mod::lemma_hoist_over_denominator(total - 1, WEIGHT_ONE as int, total as nat);
    vstd::arithmetic::div_mod::lemma_basic_div(total - 1, total);
    assert(WEIGHT_ONE * total == total * WEIGHT_ONE) by (nonlinear_arith);
}

/// Weights grow strictly with position and lie in `(0, 1]`, on every page of
/// at most `WEIGHT_ONE` links (beyond that, rounding would merge neighbours).
pub proof fn lemma_weight_monotonic(i: int, j: int, total: int)
    requires
        0 <= i < j < total,
        total <= WEIGHT_ONE,
    ensures
        weight_of(i, total) < weight_of(j, total),
        0 < weight_of(i, total) <= WEIGHT_ONE,
        0 < weight_of(j, total) <= WEIGHT_ONE,
{
    lemma_weight_range(i, total);
    lemma_weight_range(j, total);
    let a = (i + 1) * WEIGHT_ONE + total - 1;
    let b = (j + 1) * WEIGHT_ONE + total - 1;
    assert(b >= a + total) by (nonlinear_arith)
        requires
            i + 1 <= j,
            total <= WEIGHT_ONE,
            a == (i + 1) * WEIGHT_ONE + total - 1,
            b == (j + 1) * WEIGHT_ONE + total - 1,
    ;
    vstd::arithmetic::div_mod::lemma_div_is_ordered(a + total, b, total);
    vstd::arithmetic::div_mod::lemma_hoist_over_denominator(a, 1, total as nat);
}

/// `s` begins with `p`.
pub open spec fn has_prefix(s: Seq<char>, p: Seq<char>) -> bool {
    p.len() <= s.len() && s.subrange(0, p.len() as int) == p
}

pub fn starts_with(s: &str, p: &str) -> (r: bool)
    ensures
        r == has_prefix(s@, p@),
{
    let n = s.unicode_len();
    let m = p.unicode_len();
    if m > n {
        return false;
    }
    let mut i: usize = 0;
    while i < m
        invariant
            m <= n,
            n == s@.len(),
            m == p@.len(),
            i <= m,
            forall|k: int| 0 <= k < i ==> s@[k] == p@[k],
        decreases m - i,
    {
        if s.get_char(i) != p.get_char(i) {
            assert(s@.subrange(0, m as int)[i as int] != p@[i as int]);
            return false;
        }
        i = i + 1;
    }
    assert(s@.subrange(0, m as int) =~= p@);
    true
}

/// A link target inside the archive: not an absolute URL, not a fragment of
/// the same page, not a parent-relative path and not a shared asset.
pub open spec fn is_internal_link(h: Seq<char>) -> bool {
    &&& !has_prefix(h, "http"@)
    &&& !has_prefix(h, "#"@)
    &&& !has_prefix(h, "../"@)
    &&& !has_prefix(h, "_assets"@)
}

pub fn is_internal(h: &str) -> (r: bool)
    ensures
        r == is_internal_link(h@),
{
    !starts_with(h, "http") && !starts_with(h, "#") && !starts_with(h, "../") && !starts_with(
        h,
        "_assets",
    )
}

/// The distinct internal links among `hs`, in order of first appearance.
pub open spec fn page_links(hs: Seq<Seq<char>>) -> Seq<Seq<char>>
    decreases hs.len(),
{
    if hs.len() == 0 {
        Seq::empty()
    } else {
        let d = page_links(hs.drop_last());
        let h = hs.last();
        if is_internal_link(h) && !d.contains(h) {
            d.push(h)
        } else {
            d
        }
    }
}

/// The links of a page are distinct.
pub proof fn lemma_page_links_distinct(hs: Seq<Seq<char>>)
    ensures
        page_links(hs).no_duplicates(),
        forall|h: Seq<char>| #[trigger] page_links(hs).contains(h) ==> is_internal_link(h) && hs.contains(h),
    decreases hs.len(),
{
    if hs.len() > 0 {
        lemma_page_links_distinct(hs.drop_last());
        let d = page_links(hs.drop_last());
        assert forall|h: Seq<char>| #[trigger] page_links(hs).contains(h) implies is_internal_link(h) && hs.contains(h) by {
            if d.contains(h) {
                assert(hs.drop_last().contains(h));
                let k = choose|k: int| 0 <= k < hs.drop_last().len() && hs.drop_last()[k] == h;
                assert(hs[k] == h);
            } else {
                assert(h == hs.last());
                assert(hs[hs.len() - 1] == h);
            }
        }
    }
}

/// The links of a prefix of `hs` come first among the links of `hs`.
pub proof fn lemma_page_links_prefix(hs: Seq<Seq<char>>, i: int)
    requires
        0 <= i <= hs.len(),
    ensures
        page_links(hs.take(i)).len() <= page_links(hs).len(),
        page_links(hs.take(i)) == page_links(hs).take(page_links(hs.take(i)).len() as int),
    decreases hs.len() - i,
{
    if i < hs.len() {
        lemma_page_links_prefix(hs, i + 1);
        assert(hs.take(i + 1).drop_last() =~= hs.take(i));
        let d = page_links(hs.take(i));
        let e = page_links(hs.take(i + 1));
        assert(d == e.take(d.len() as int)) by {
            assert(d =~= e.take(d.len() as int));
        }
        assert(e.take(d.len() as int) =~= page_links(hs).take(d.len() as int));
    } else {
        assert(hs.take(i) =~= hs);
        assert(page_links(hs).take(page_links(hs).len() as int) =~= page_links(hs));
    }
}

/// An internal link repeated any number of times appears once, at the
/// position of its first occurrence among the distinct links.
pub proof fn lemma_first_occurrence(hs: Seq<Seq<char>>, i: int)
    requires
        0 <= i < hs.len(),
        is_internal_link(hs[i]),
        !hs.take(i).contains(hs[i]),
    ensures
        page_links(hs.take(i)).len() < page_links(hs).len(),
        page_links(hs)[page_links(hs.take(i)).len() as int] == hs[i],
        page_links(hs).no_duplicates(),
{
    lemma_page_links_distinct(hs.take(i));
    lemma_page_links_distinct(hs);
    lemma_page_links_prefix(hs, i + 1);
    assert(hs.take(i + 1).drop_last() =~= hs.take(i));
    assert(hs.take(i + 1).last() == hs[i]);
    let d = page_links(hs.take(i));
    assert(!d.contains(hs[i]));
    let e = page_links(hs.take(i + 1));
    assert(e == d.push(hs[i]));
    assert(e[d.len() as int] == hs[i]);
}

/// The `href` values of the anchors of an HTML document, in document order.
pub uninterp spec fn anchor_hrefs_of(html: Seq<char>) -> Seq<Seq<char>>;

/// Relies on `scraper`: `Html::parse_document`, then the `href` attribute of
/// each element that the selector `a[href]` picks, in document order. The
/// result depends on the text alone.
#[verifier::external_body]
pub(crate) fn anchor_hrefs(html: &str) -> (r: Vec<String>)
    ensures
        views(r@) == anchor_hrefs_of(html@),
{
    match scraper::Selector::parse("a[href]") {
        Ok(sel) => scraper::Html::parse_document(html)
            .select(&sel)
            .filter_map(|e| e.value().attr("href"))
            .map(|h| h.to_string())
            .collect(),
        Err(_) => Vec::new(),
    }
}

/// The anchor targets of the article `e` of `reader`, in document order;
/// `None` where its body cannot be read or is not UTF-8.
pub fn article_links(reader: &ZimReader, e: &DirEntry) -> (r: Option<Vec<String>>)
    requires
        reader.wf(),
    ensures
        r is Some <==> exists|v: Vec<u8>| reader.blob_read(*e, Ok(v)) && vstd::utf8::valid_utf8(v@),
        r matches Some(v) ==> exists|b: Vec<u8>|
            reader.blob_read(*e, Ok(b)) && views(v@) == anchor_hrefs_of(vstd::utf8::decode_utf8(b@)),
{
    match reader.get_article_html(e) {
        Ok(html) => Some(anchor_hrefs(html.as_str())),
        Err(_) => None,
    }
}

/// The distinct values of `s`, in order of first appearance.
pub open spec fn first_occurrences(s: Seq<u32>) -> Seq<u32>
    decreases s.len(),
{
    if s.len() == 0 {
        Seq::empty()
    } else {
        let d = first_occurrences(s.drop_last());
        if d.contains(s.last()) {
            d
        } else {
            d.push(s.last())
        }
    }
}

/// Position and weight of one outgoing link.
#[derive(Clone, Copy, Debug, PartialEq, Eq)]
pub struct LinkInfo {
    pub index: usize,
    pub weight: u64,
}

/// The outgoing links of one article: distinct target keys, in order of
/// first appearance.
#[derive(Clone, Debug)]
pub struct Page {
    pub(crate) links: Vec<u32>,
}

impl View for Page {
    type V = Seq<u32>;

    closed spec fn view(&self) -> Seq<u32> {
        self.links@
    }
}

impl Page {
    pub open spec fn wf(&self) -> bool {
        self@.no_duplicates()
    }

    /// On every page, link weights grow strictly with position and lie in
    /// `(0, 1]`.
    pub proof fn lemma_weights_increase(&self, i: int, j: int)
        requires
            self.wf(),
            0 <= i < j < self@.len(),
        ensures
            weight_of(i, self@.len() as int) < weight_of(j, self@.len() as int),
            0 < weight_of(i, self@.len() as int) <= WEIGHT_ONE,
            0 < weight_of(j, self@.len() as int) <= WEIGHT_ONE,
    {
        self@.unique_seq_to_set();
        crate::search::lemma_u32_set_bound(self@.to_set());
        lemma_weight_monotonic(i, j, self@.len() as int);
    }

    /// Builds a page from its targets in order; repeated targets after the
    /// first are dropped.
    pub fn from_targets(targets: &Vec<u32>) -> (r: Page)
        ensures
            r.wf(),
            r@ == first_occurrences(targets@),
            r@.to_set() == targets@.to_set(),
            targets@.no_duplicates() ==> r@ == targets@,
    {
        let mut links: Vec<u32> = Vec::new();
        let mut seen: std::collections::HashSet<u32> = std::collections::HashSet::new();
        let mut i: usize = 0;
        while i < targets.len()
            invariant
                i <= targets@.len(),
                links@.no_duplicates(),
                seen@ == links@.to_set(),
                links@ == first_occurrences(targets@.take(i as int)),
                links@.to_set() == targets@.take(i as int).to_set(),
                targets@.no_duplicates() ==> links@ == targets@.take(i as int),
            decreases targets@.len() - i,
        {
            let t = targets[i];
            let ghost before = links@;
            assert(targets@.take(i + 1) =~= targets@.take(i as int).push(t));
            assert(targets@.take(i + 1).drop_last() =~= targets@.take(i as int));
            if seen.insert(t) {
                links.push(t);
                proof {
                    assert(!before.contains(t)) by {
                        if before.contains(t) {
                            assert(before.to_set().contains(t));
                        }
                    }
                    assert forall|a: int, b: int|
                        0 <= a < links@.len() && 0 <= b < links@.len() && a != b implies links@[a]
                        != links@[b] by {
                        if a == links@.len() - 1 {
                            assert(before[b] == links@[b]);
                        } else if b == links@.len() - 1 {
                            assert(before[a] == links@[a]);
                        }
                    }
                    assert(links@.to_set() =~= before.to_set().insert(t));
                    assert(links@.to_set() =~= targets@.take(i + 1).to_set());
                }
            } else {
                proof {
                    assert(before.to_set().contains(t));
                    assert(before.contains(t));
                    assert(targets@.take(i + 1).to_set() =~= targets@.take(i as int).to_set().insert(t));
                    assert(links@.to_set() =~= targets@.take(i + 1).to_set());
                    if targets@.no_duplicates() {
                        assert(before.to_set().contains(t));
                        let k = choose|k: int| 0 <= k < before.len() && before[k] == t;
                        assert(targets@[k] == targets@[i as int]);
                    }
                }
            }
            i = i + 1;
        }
        assert(targets@.take(targets@.len() as int) =~= targets@);
        Page { links }
    }

    pub fn link_count(&self) -> (r: usize)
        ensures
            r == self@.len(),
    {
        self.links.len()
    }

    pub fn target(&self, i: usize) -> (r: u32)
        requires
            i < self@.len(),
        ensures
            r == self@[i as int],
    {
        self.links[i]
    }

    /// The weight of the link at position `i`.
    pub fn weight(&self, i: usize) -> (r: u64)
        requires
            i < self@.len(),
        ensures
            r as int == weight_of(i as int, self@.len() as int),
    {
        let n = self.links.len();
        linear_distance(i + 1, n)
    }

    /// Position and weight of the link to `key`, if the page has one.
    pub fn get(&self, key: u32) -> (r: Option<LinkInfo>)
        requires
            self.wf(),
        ensures
            r is Some <==> self@.contains(key),
            r matches Some(info) ==> info.index < self@.len() && self@[info.index as int] == key
                && info.weight as int == weight_of(info.index as int, self@.len() as int),
    {
        let mut i: usize = 0;
        while i < self.links.len()
            invariant
                i <= self@.len(),
                forall|k: int| 0 <= k < i ==> self@[k] != key,
            decreases self@.len() - i,
        {
            if self.links[i] == key {
                return Some(LinkInfo { index: i, weight: self.weight(i) });
            }
            i = i + 1;
        }
        None
    }

    /// The page of an article whose anchors point to `hrefs`, in document
    /// order: its distinct internal links, interned in order.
    pub fn from_links(hrefs: &Vec<String>, interner: &mut Interner) -> (r: Page)
        requires
            old(interner).wf(),
            old(interner)@.len() + hrefs@.len() <= crate::interner::MAX_KEYS,
        ensures
            final(interner).wf(),
            r.wf(),
            old(interner)@.is_prefix_of(final(interner)@),
            final(interner)@.len() <= old(interner)@.len() + hrefs@.len(),
            forall|k: int| 0 <= k < r@.len() ==> r@[k] < final(interner)@.len(),
            r@.map_values(|k: u32| final(interner)@[k as int]) == page_links(views(hrefs@)),
    {
        let ghost hv = views(hrefs@);
        let mut links: Vec<u32> = Vec::new();
        let mut seen: std::collections::HashSet<u32> = std::collections::HashSet::new();
        let mut i: usize = 0;
        while i < hrefs.len()
            invariant
                hv == views(hrefs@),
                i <= hrefs@.len(),
                interner.wf(),
                old(interner)@.is_prefix_of(interner@),
                interner@.len() <= old(interner)@.len() + i,
                links@.no_duplicates(),
                seen@ == links@.to_set(),
                forall|k: int| 0 <= k < links@.len() ==> links@[k] < interner@.len(),
                old(interner)@.len() + hrefs@.len() <= crate::interner::MAX_KEYS ==> (
                links@.map_values(|k: u32| interner@[k as int]) == page_links(hv.take(i as int))),
            decreases hrefs@.len() - i,
        {
            let h = hrefs[i].as_str();
            let ghost before = links@;
            let ghost inter_before = interner@;
            assert(hv.take(i + 1).drop_last() =~= hv.take(i as int));
            assert(hv.take(i + 1).last() == h@);
            if is_internal(h) {
                match interner.get_or_intern(h) {
                    Some(k) => {
                        proof {
                            assert(inter_before.is_prefix_of(interner@));
                            assert forall|j: int| 0 <= j < before.len() implies #[trigger] interner@[before[j] as int] == inter_before[before[j] as int] by {}
                        }
                        if seen.insert(k) {
                            links.push(k);
                            proof {
                                assert(!before.contains(k)) by {
                                    if before.contains(k) {
                                        assert(before.to_set().contains(k));
                                    }
                                }
                                assert forall|a: int, b: int|
                                    0 <= a < links@.len() && 0 <= b < links@.len() && a != b implies links@[a]
                                    != links@[b] by {
                                    if a == links@.len() - 1 {
                                        assert(before[b] == links@[b]);
                                    } else if b == links@.len() - 1 {
                                        assert(before[a] == links@[a]);
                                    }
                                }
                                assert(links@.to_set() =~= before.to_set().insert(k));
                                if old(interner)@.len() + hrefs@.len() <= crate::interner::MAX_KEYS {
                                    let d = page_links(hv.take(i as int));
                                    assert(before.map_values(|x: u32| inter_before[x as int]) == d);
                                    assert(!d.contains(h@)) by {
                                        if d.contains(h@) {
                                            let j = choose|j: int| 0 <= j < d.len() && d[j] == h@;
                                            assert(interner@[before[j] as int] == h@);
                                            assert(interner@[k as int] == h@);
                                            assert(before[j] == k);
                                        }
                                    }
                                    assert(links@.map_values(|x: u32| interner@[x as int]) =~= d.push(h@));
                                }
                            }
                        } else {
                            proof {
                                if old(interner)@.len() + hrefs@.len() <= crate::interner::MAX_KEYS {
                                    let d = page_links(hv.take(i as int));
                                    assert(before.to_set().contains(k));
                                    let j = choose|j: int| 0 <= j < before.len() && before[j] == k;
                                    assert(d[j] == h@);
                                    assert(d.contains(h@));
                                    assert(links@.map_values(|x: u32| interner@[x as int]) =~= d);
                                }
                            }
                        }
                    },
                    None => {},
                }
            } else {
                proof {
                    if old(interner)@.len() + hrefs@.len() <= crate::interner::MAX_KEYS {
                        assert(links@.map_values(|x: u32| interner@[x as int]) =~= page_links(hv.take(i as int)));
                    }
                }
            }
            i = i + 1;
        }
        assert(hv.take(hrefs@.len() as int) =~= hv);
        Page { links }
    }

    /// The page of the article `e` of `reader`; `None` where its body cannot be
    /// read or is not UTF-8, or where interning its links could overflow the
    /// key space. Then the interner is left as it was.
    pub fn from_entry(reader: &ZimReader, e: &DirEntry, interner: &mut Interner) -> (r: Option<Page>)
        requires
            reader.wf(),
            old(interner).wf(),
        ensures
            final(interner).wf(),
            old(interner)@.is_prefix_of(final(interner)@),
            r is Some <==> exists|v: Vec<u8>|
                reader.blob_read(*e, Ok(v)) && vstd::utf8::valid_utf8(v@) && old(interner)@.len()
                    + anchor_hrefs_of(vstd::utf8::decode_utf8(v@)).len() <= crate::interner::MAX_KEYS,
            r is None ==> final(interner)@ == old(interner)@,
            r matches Some(p) ==> p.wf() && (forall|k: int| 0 <= k < p@.len() ==> p@[k] < final(interner)@.len())
                && exists|v: Vec<u8>|
                reader.blob_read(*e, Ok(v)) && p@.map_values(|k: u32| final(interner)@[k as int]) == page_links(
                    anchor_hrefs_of(vstd::utf8::decode_utf8(v@)),
                ),
    {
        let n = interner.len();
        match article_links(reader, e) {
            Some(hrefs) => {
                let ghost b = choose|b: Vec<u8>|
                    reader.blob_read(*e, Ok(b)) && views(hrefs@) == anchor_hrefs_of(vstd::utf8::decode_utf8(b@));
                proof {
                    assert forall|v: Vec<u8>| reader.blob_read(*e, Ok(v)) implies v@ == b@ by {
                        reader.lemma_blob_read_unique(*e, *e, b, v);
                    }
                    assert(views(hrefs@).len() == hrefs@.len());
                }
                if hrefs.len() > crate::interner::MAX_KEYS - n {
                    return None;
                }
                let p = Page::from_links(&hrefs, interner);
                proof {
                    assert(reader.blob_read(*e, Ok(b)) && vstd::utf8::valid_utf8(b@));
                }
                Some(p)
            },
            None => None,
        }
    }
}

} // verus!
