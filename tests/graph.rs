use wiki_graph::graph::WikiGraph;
use wiki_graph::interner::Interner;
use wiki_graph::page::{is_internal, linear_distance, starts_with, LinkInfo, Page, WEIGHT_ONE};
use wiki_graph::persist::PersistError;
use wiki_graph::zim::ZimReader;

/// One directory entry of a synthetic archive.
struct Ent {
    path: &'static str,
    title: &'static str,
    ns: u8,
    cluster: u32,
    blob: u32,
    redirect: Option<u32>,
}

fn content(path: &'static str, title: &'static str, cluster: u32, blob: u32) -> Ent {
    Ent { path, title, ns: b'C', cluster, blob, redirect: None }
}

fn stored_cluster(blobs: &[&[u8]]) -> Vec<u8> {
    let mut c = vec![1u8];
    let n = blobs.len() as u32;
    let mut off = 4 * (n + 1);
    c.extend_from_slice(&off.to_le_bytes());
    for b in blobs {
        off += b.len() as u32;
        c.extend_from_slice(&off.to_le_bytes());
    }
    for b in blobs {
        c.extend_from_slice(b);
    }
    c
}

fn dirent_bytes(e: &Ent) -> Vec<u8> {
    let mut d = Vec::new();
    match e.redirect {
        Some(t) => {
            d.extend_from_slice(&0xffffu16.to_le_bytes());
            d.push(0);
            d.push(e.ns);
            d.extend_from_slice(&0u32.to_le_bytes());
            d.extend_from_slice(&t.to_le_bytes());
        }
        None => {
            d.extend_from_slice(&0u16.to_le_bytes());
            d.push(0);
            d.push(e.ns);
            d.extend_from_slice(&0u32.to_le_bytes());
            d.extend_from_slice(&e.cluster.to_le_bytes());
            d.extend_from_slice(&e.blob.to_le_bytes());
        }
    }
    d.extend_from_slice(e.path.as_bytes());
    d.push(0);
    d.extend_from_slice(e.title.as_bytes());
    d.push(0);
    d
}

/// Lays out a whole archive: header, mimetype list, URL and title pointer
/// lists, directory entries, cluster pointers, clusters and a checksum.
fn build(magic: u32, major: u16, entries: &[Ent], clusters: &[Vec<u8>]) -> Vec<u8> {
    let mime = b"text/html\0\0";
    let mime_pos = 80u64;
    let url_pos = mime_pos + mime.len() as u64;
    let n = entries.len() as u64;
    let title_pos = url_pos + 8 * n;
    let dir_pos = title_pos + 4 * n;
    let dirents: Vec<Vec<u8>> = entries.iter().map(dirent_bytes).collect();
    let mut offsets = Vec::new();
    let mut p = dir_pos;
    for d in &dirents {
        offsets.push(p);
        p += d.len() as u64;
    }
    let cluster_ptr_pos = p;
    let mut cp = cluster_ptr_pos + 8 * clusters.len() as u64;
    let mut cluster_offsets = Vec::new();
    for c in clusters {
        cluster_offsets.push(cp);
        cp += c.len() as u64;
    }
    let checksum_pos = cp;
    let mut order: Vec<usize> = (0..entries.len()).collect();
    order.sort_by_key(|&i| if entries[i].title.is_empty() { entries[i].path } else { entries[i].title });

    let mut b = Vec::new();
    b.extend_from_slice(&magic.to_le_bytes());
    b.extend_from_slice(&major.to_le_bytes());
    b.extend_from_slice(&1u16.to_le_bytes());
    b.extend_from_slice(&[7u8; 16]);
    b.extend_from_slice(&(n as u32).to_le_bytes());
    b.extend_from_slice(&(clusters.len() as u32).to_le_bytes());
    b.extend_from_slice(&url_pos.to_le_bytes());
    b.extend_from_slice(&title_pos.to_le_bytes());
    b.extend_from_slice(&cluster_ptr_pos.to_le_bytes());
    b.extend_from_slice(&mime_pos.to_le_bytes());
    b.extend_from_slice(&0u32.to_le_bytes());
    b.extend_from_slice(&0xffff_ffffu32.to_le_bytes());
    b.extend_from_slice(&checksum_pos.to_le_bytes());
    assert_eq!(b.len(), 80);
    b.extend_from_slice(mime);
    for o in &offsets {
        b.extend_from_slice(&o.to_le_bytes());
    }
    for i in &order {
        b.extend_from_slice(&(*i as u32).to_le_bytes());
    }
    for d in &dirents {
        b.extend_from_slice(d);
    }
    for o in &cluster_offsets {
        b.extend_from_slice(&o.to_le_bytes());
    }
    for c in clusters {
        b.extend_from_slice(c);
    }
    b.extend_from_slice(&[0u8; 16]);
    b
}

const MAGIC: u32 = 72173914;


fn empty_graph() -> WikiGraph {
    WikiGraph::new(ZimReader::open(build(MAGIC, 5, &[], &[])).ok().unwrap())
}

fn strings(v: &[&str]) -> Vec<String> {
    v.iter().map(|s| s.to_string()).collect()
}

fn key(g: &mut WikiGraph, s: &str) -> u32 {
    g.get_or_intern(s).unwrap()
}

fn html(links: &[&str]) -> Vec<u8> {
    let mut s = String::from("<html><body>");
    for l in links {
        s.push_str(&format!("<a href=\"{}\">x</a>", l));
    }
    s.push_str("<a>no href</a></body></html>");
    s.into_bytes()
}

#[test]
fn weights_exact_values() {
    assert_eq!(WEIGHT_ONE, 4294967296);
    assert_eq!(linear_distance(1, 2), 2147483648);
    assert_eq!(linear_distance(2, 2), WEIGHT_ONE);
    assert_eq!(linear_distance(9, 10), 3865470567);
    assert_eq!(linear_distance(1, 3), 1431655766);
    assert_eq!(linear_distance(1, 1), WEIGHT_ONE);
}

#[test]
fn weights_grow_with_position() {
    let total = 7;
    let w: Vec<u64> = (1..=total).map(|i| linear_distance(i, total)).collect();
    for i in 0..w.len() {
        assert!(w[i] > 0 && w[i] <= WEIGHT_ONE);
        if i > 0 {
            assert!(w[i - 1] < w[i]);
        }
    }
}

#[test]
fn prefix_and_link_filter() {
    assert!(starts_with("http://x", "http"));
    assert!(!starts_with("htt", "http"));
    assert!(!is_internal("https://example.org"));
    assert!(!is_internal("#section"));
    assert!(!is_internal("../up"));
    assert!(!is_internal("_assets/style.css"));
    assert!(is_internal("Some_Page"));
    assert!(is_internal("a#b"));
}

#[test]
fn repeated_href_kept_once_at_first_position() {
    let mut interner = Interner::new();
    let hrefs = strings(&["Alpha", "http://out", "Beta", "Alpha", "#top", "Alpha", "Gamma", "Beta"]);
    let p = Page::from_links(&hrefs, &mut interner);
    assert_eq!(p.link_count(), 3);
    let names: Vec<&str> = (0..3).map(|i| interner.resolve(p.target(i))).collect();
    assert_eq!(names, vec!["Alpha", "Beta", "Gamma"]);
    let alpha = p.target(0);
    assert_eq!(p.get(alpha), Some(LinkInfo { index: 0, weight: linear_distance(1, 3) }));
    assert_eq!(p.weight(2), WEIGHT_ONE);
    assert_eq!(interner.len(), 3);
}

#[test]
fn same_href_many_times() {
    let mut interner = Interner::new();
    let hrefs = strings(&["Same"; 5]);
    let p = Page::from_links(&hrefs, &mut interner);
    assert_eq!(p.link_count(), 1);
    assert_eq!(p.weight(0), WEIGHT_ONE);
    assert!(p.get(p.target(0) + 1).is_none());
}

#[test]
fn page_from_targets_drops_repeats() {
    let p = Page::from_targets(&vec![3, 1, 3, 2, 1]);
    assert_eq!(p.link_count(), 3);
    assert_eq!((p.target(0), p.target(1), p.target(2)), (3, 1, 2));
}

#[test]
fn interner_keys_are_dense() {
    let mut i = Interner::new();
    assert_eq!(i.get_or_intern("a"), Some(0));
    assert_eq!(i.get_or_intern("b"), Some(1));
    assert_eq!(i.get_or_intern("a"), Some(0));
    assert_eq!(i.len(), 2);
    assert_eq!(i.resolve(1), "b");
}

/// A, B, D, C with A -> [B, D], B -> [C], D -> [C], C -> [A], and E isolated.
fn diamond() -> WikiGraph {
    let mut g = empty_graph();
    assert!(g.insert_page_links("A", &strings(&["B", "D"])));
    assert!(g.insert_page_links("B", &strings(&["C"])));
    assert!(g.insert_page_links("D", &strings(&["C"])));
    assert!(g.insert_page_links("C", &strings(&["A"])));
    assert!(g.insert_page_links("E", &strings(&[])));
    g
}

#[test]
fn insert_page_only_once() {
    let mut g = diamond();
    assert!(!g.insert_page_links("A", &strings(&["C"])));
    assert_eq!(g.page_count(), 5);
    let a = key(&mut g, "A");
    let b = key(&mut g, "B");
    let d = key(&mut g, "D");
    assert_eq!(g.links_of(a), Some(vec![b, d]));
    assert!(g.has_links(a));
    let e = key(&mut g, "E");
    assert!(!g.has_links(e));
    assert!(g.contains_page(e));
    assert_eq!(g.resolve(d), "D");
}

#[test]
fn shortest_path_prefers_cheaper_links() {
    let mut g = diamond();
    let a = key(&mut g, "A");
    let b = key(&mut g, "B");
    let c = key(&mut g, "C");
    assert_eq!(g.find_shortest_path(a, c), Some(vec![a, b, c]));
    assert_eq!(g.find_shortest_path(a, a), Some(vec![a]));
}

#[test]
fn shortest_path_none_when_unreachable() {
    let mut g = diamond();
    let a = key(&mut g, "A");
    let e = key(&mut g, "E");
    let z = key(&mut g, "Nowhere");
    assert_eq!(g.find_shortest_path(a, e), None);
    assert_eq!(g.find_shortest_path(e, a), None);
    assert_eq!(g.find_shortest_path(a, z), None);
}

#[test]
fn traversal_settles_in_cost_order() {
    let mut g = diamond();
    let a = key(&mut g, "A");
    let mut it = g.iter_close_titles(a, 0, None);
    let mut got = Vec::new();
    while let Some(p) = it.next() {
        got.push((p.distance, p.path.len()));
    }
    let half = WEIGHT_ONE / 2;
    assert_eq!(
        got,
        vec![
            (0, 1),
            (half + WEIGHT_ONE, 2),
            (2 * WEIGHT_ONE, 2),
            (half + 3 * WEIGHT_ONE, 3),
        ]
    );
    // C links back to A, which is settled already: nothing more comes out.
    assert!(it.next().is_none());
}

#[test]
fn bounded_traversal_stays_under_max() {
    let mut g = diamond();
    let a = key(&mut g, "A");
    let max = 2 * WEIGHT_ONE;
    let all = g.collect_close_titles(a, 0, max);
    assert_eq!(all.len(), 3);
    for p in &all {
        assert!(p.distance <= max);
    }
    let some = g.collect_close_titles(a, WEIGHT_ONE, max);
    let mut d: Vec<u64> = some.iter().map(|p| p.distance).collect();
    d.sort();
    assert_eq!(d, vec![WEIGHT_ONE + WEIGHT_ONE / 2, 2 * WEIGHT_ONE]);
}

#[test]
fn close_titles_sample_size() {
    let mut g = diamond();
    let a = key(&mut g, "A");
    let r = g.get_close_titles(a, 2, WEIGHT_ONE, 10 * WEIGHT_ONE);
    assert_eq!(r.len(), 2);
    for p in &r {
        assert!(p.distance >= WEIGHT_ONE && p.distance <= 10 * WEIGHT_ONE);
    }
    assert_ne!(r[0].path.last(), r[1].path.last());
    let r = g.get_close_titles(a, 10, WEIGHT_ONE, 10 * WEIGHT_ONE);
    assert_eq!(r.len(), 3);
    let r = g.get_close_titles(a, 0, 0, 10 * WEIGHT_ONE);
    assert!(r.is_empty());
}

#[test]
fn save_then_load_gives_same_graph() {
    let mut g = diamond();
    let (s, gr) = g.save_bin().unwrap();
    let archive = ZimReader::open(build(MAGIC, 5, &[], &[])).ok().unwrap();
    let mut h = WikiGraph::load_bin(archive, &s, &gr).ok().unwrap();
    assert_eq!(h.page_count(), g.page_count());
    for name in ["A", "B", "C", "D", "E"] {
        let k1 = key(&mut g, name);
        let k2 = key(&mut h, name);
        assert_eq!(k1, k2);
        assert_eq!(h.resolve(k2), name);
        assert_eq!(g.links_of(k1), h.links_of(k2));
    }
    let a = key(&mut h, "A");
    let c = key(&mut h, "C");
    assert_eq!(h.find_shortest_path(a, c), g.find_shortest_path(a, c));
}

#[test]
fn load_rejects_bad_artifacts() {
    let g = diamond();
    let (s, gr) = g.save_bin().unwrap();
    let open = || ZimReader::open(build(MAGIC, 5, &[], &[])).ok().unwrap();
    assert!(matches!(WikiGraph::load_bin(open(), &[0xff, 0xff, 0xff], &gr), Err(PersistError::Vocabulary)));
    assert!(matches!(WikiGraph::load_bin(open(), &s, &[0xff, 0xff, 0xff]), Err(PersistError::Graph)));
    let other = empty_graph();
    let (s0, _) = other.save_bin().unwrap();
    assert!(matches!(WikiGraph::load_bin(open(), &s0, &gr), Err(PersistError::Graph)));
}

/// Three clusters, one article each. A has ten links, B at position 5 and C
/// at position 9 of 10; B links to C alone.
fn three_cluster_archive() -> Vec<u8> {
    let a_links = ["X0", "X1", "X2", "X3", "B", "X5", "X6", "X7", "C", "X9"];
    let entries = [content("A", "A", 0, 0), content("B", "B", 1, 0), content("C", "C", 2, 0)];
    let clusters = [
        stored_cluster(&[&html(&a_links)]),
        stored_cluster(&[&html(&["C", "http://elsewhere", "#self"])]),
        stored_cluster(&[&html(&[])]),
    ];
    build(MAGIC, 5, &entries, &clusters)
}

#[test]
fn end_to_end_three_clusters() {
    let z = ZimReader::open(three_cluster_archive()).ok().unwrap();
    let mut g = WikiGraph::new(z);
    g.get_all();
    assert_eq!(g.page_count(), 3);
    let a = key(&mut g, "A");
    let b = key(&mut g, "B");
    let c = key(&mut g, "C");
    let pa = g.links_of(a).unwrap();
    assert_eq!(pa.len(), 10);
    assert_eq!(pa[4], b);
    assert_eq!(pa[8], c);
    assert_eq!(g.links_of(b), Some(vec![c]));
    assert_eq!(g.links_of(c), Some(vec![]));
    // Direct: 0.9 + 1. Through B: (0.5 + 1) + (1.0 + 1).
    assert_eq!(g.find_shortest_path(a, c), Some(vec![a, c]));
    let mut it = g.iter_close_titles(a, 0, None);
    let mut to_c = None;
    while let Some(p) = it.next() {
        if p.path.last() == Some(&c) {
            to_c = Some(p);
            break;
        }
    }
    let p = to_c.unwrap();
    assert_eq!(p.distance, 3865470567 + WEIGHT_ONE);
    assert_eq!(p.path, vec![a, c]);
}

#[test]
fn add_link_reads_one_article() {
    let z = ZimReader::open(three_cluster_archive()).ok().unwrap();
    let mut g = WikiGraph::new(z);
    assert!(g.add_link("B"));
    assert!(!g.add_link("B"));
    assert!(!g.add_link("Missing"));
    assert_eq!(g.page_count(), 1);
    let b = key(&mut g, "B");
    let c = key(&mut g, "C");
    assert_eq!(g.links_of(b), Some(vec![c]));
    let e = g.archive().entry_by_index(0).ok().unwrap();
    let hrefs = g.entry_links(&e).unwrap();
    assert_eq!(hrefs.len(), 10);
    assert_eq!(hrefs[4], "B");
}

#[test]
fn random_article_is_an_entry() {
    let z = ZimReader::open(three_cluster_archive()).ok().unwrap();
    let mut g = WikiGraph::new(z);
    let k = g.get_random_article().unwrap();
    let name = g.resolve(k).to_string();
    assert!(name == "A" || name == "B" || name == "C");
    assert!(empty_graph().get_random_article().is_none());
}

#[test]
fn article_key_of_each_index() {
    let z = ZimReader::open(three_cluster_archive()).ok().unwrap();
    let mut g = WikiGraph::new(z);
    let k = g.article_key(1).unwrap();
    assert_eq!(g.resolve(k), "B");
    assert_eq!(g.article_key(1), Some(k));
    assert_eq!(g.article_key(3), None);
}

#[test]
fn add_link_after_failure_still_fails() {
    let z = ZimReader::open(three_cluster_archive()).ok().unwrap();
    let mut g = WikiGraph::new(z);
    assert!(!g.add_link("Missing"));
    assert!(!g.add_link("Missing"));
    assert_eq!(g.page_count(), 0);
}

#[test]
fn find_entry_by_path_scans_urls() {
    let z = ZimReader::open(three_cluster_archive()).ok().unwrap();
    let g = WikiGraph::new(z);
    assert_eq!(g.find_entry_by_path("C").unwrap().cluster, 2);
    assert!(g.find_entry_by_path("D").is_none());
}

#[test]
fn missing_targets_once_each() {
    let mut g = empty_graph();
    g.insert_page_links("A", &strings(&["B", "C", "B"]));
    g.insert_page_links("B", &strings(&["C", "A"]));
    let c = key(&mut g, "C");
    assert_eq!(g.missing_targets(), vec![c]);
}

#[test]
fn expand_from_seed() {
    let z = ZimReader::open(three_cluster_archive()).ok().unwrap();
    let mut g = WikiGraph::new(z);
    assert_eq!(g.expand_from(&strings(&["B"]), 0), 0);
    assert_eq!(g.page_count(), 1);
    assert_eq!(g.expand_from(&strings(&[]), 1), 1);
    assert_eq!(g.page_count(), 2);
    let c = key(&mut g, "C");
    assert!(g.contains_page(c));
    // The first round finds no target without a page, and is the last.
    assert_eq!(g.expand_from(&strings(&[]), 3), 1);
    // A's other links name no entry, so they stay missing every round.
    assert_eq!(g.expand_from(&strings(&["A"]), 5), 5);
    assert_eq!(g.page_count(), 3);
}

#[test]
fn get_all_replaces_an_existing_page() {
    let z = ZimReader::open(three_cluster_archive()).ok().unwrap();
    let mut g = WikiGraph::new(z);
    assert!(g.insert_page_links("B", &strings(&["A", "X0"])));
    g.get_all();
    let b = key(&mut g, "B");
    let c = key(&mut g, "C");
    assert_eq!(g.links_of(b), Some(vec![c]));
    assert_eq!(g.page_count(), 3);
}

#[test]
fn store_page_links_replaces() {
    let mut g = diamond();
    assert!(g.store_page_links("A", &strings(&["E"])));
    let a = key(&mut g, "A");
    let e = key(&mut g, "E");
    assert_eq!(g.links_of(a), Some(vec![e]));
    assert_eq!(g.page_count(), 5);
}

#[test]
fn expand_round_fetches_missing_targets() {
    let z = ZimReader::open(three_cluster_archive()).ok().unwrap();
    let mut g = WikiGraph::new(z);
    assert!(g.add_link("A"));
    assert!(g.expand_round());
    let b = key(&mut g, "B");
    let c = key(&mut g, "C");
    assert!(g.contains_page(b) && g.contains_page(c));
    let mut h = diamond();
    assert!(!h.expand_round());
}

#[test]
fn linked_random_article_has_links() {
    let z = ZimReader::open(three_cluster_archive()).ok().unwrap();
    let mut g = WikiGraph::new(z);
    g.get_all();
    let k = g.linked_random_article(200).unwrap();
    assert!(g.has_links(k));
    assert_eq!(g.linked_random_article(0), None);
}
