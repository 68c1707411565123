use wiki_graph::zim::{parse_dir_entry, parse_header, DirEntry, ZimError, ZimReader};

/// One directory entry of a synthetic archive.
struct Ent {
    path: &'static str,
    title: &'static str,
    ns: u8,
    cluster: u32,
    blob: u32,
    redirect: Option<u32>,
}

fn content(path: &'static str, title: &'static str, cluster: u32, blob: u32) -> Ent {
    Ent { path, title, ns: b'C', cluster, blob, redirect: None }
}

fn stored_cluster(blobs: &[&[u8]]) -> Vec<u8> {
    let mut c = vec![1u8];
    let n = blobs.len() as u32;
    let mut off = 4 * (n + 1);
    c.extend_from_slice(&off.to_le_bytes());
    for b in blobs {
        off += b.len() as u32;
        c.extend_from_slice(&off.to_le_bytes());
    }
    for b in blobs {
        c.extend_from_slice(b);
    }
    c
}

fn dirent_bytes(e: &Ent) -> Vec<u8> {
    let mut d = Vec::new();
    match e.redirect {
        Some(t) => {
            d.extend_from_slice(&0xffffu16.to_le_bytes());
            d.push(0);
            d.push(e.ns);
            d.extend_from_slice(&0u32.to_le_bytes());
            d.extend_from_slice(&t.to_le_bytes());
        }
        None => {
            d.extend_from_slice(&0u16.to_le_bytes());
            d.push(0);
            d.push(e.ns);
            d.extend_from_slice(&0u32.to_le_bytes());
            d.extend_from_slice(&e.cluster.to_le_bytes());
            d.extend_from_slice(&e.blob.to_le_bytes());
        }
    }
    d.extend_from_slice(e.path.as_bytes());
    d.push(0);
    d.extend_from_slice(e.title.as_bytes());
    d.push(0);
    d
}

/// Lays out a whole archive: header, mimetype list, URL and title pointer
/// lists, directory entries, cluster pointers, clusters and a checksum.
fn build(magic: u32, major: u16, entries: &[Ent], clusters: &[Vec<u8>]) -> Vec<u8> {
    let mime = b"text/html\0\0";
    let mime_pos = 80u64;
    let url_pos = mime_pos + mime.len() as u64;
    let n = entries.len() as u64;
    let title_pos = url_pos + 8 * n;
    let dir_pos = title_pos + 4 * n;
    let dirents: Vec<Vec<u8>> = entries.iter().map(dirent_bytes).collect();
    let mut offsets = Vec::new();
    let mut p = dir_pos;
    for d in &dirents {
        offsets.push(p);
        p += d.len() as u64;
    }
    let cluster_ptr_pos = p;
    let mut cp = cluster_ptr_pos + 8 * clusters.len() as u64;
    let mut cluster_offsets = Vec::new();
    for c in clusters {
        cluster_offsets.push(cp);
        cp += c.len() as u64;
    }
    let checksum_pos = cp;
    let mut order: Vec<usize> = (0..entries.len()).collect();
    order.sort_by_key(|&i| if entries[i].title.is_empty() { entries[i].path } else { entries[i].title });

    let mut b = Vec::new();
    b.extend_from_slice(&magic.to_le_bytes());
    b.extend_from_slice(&major.to_le_bytes());
    b.extend_from_slice(&1u16.to_le_bytes());
    b.extend_from_slice(&[7u8; 16]);
    b.extend_from_slice(&(n as u32).to_le_bytes());
    b.extend_from_slice(&(clusters.len() as u32).to_le_bytes());
    b.extend_from_slice(&url_pos.to_le_bytes());
    b.extend_from_slice(&title_pos.to_le_bytes());
    b.extend_from_slice(&cluster_ptr_pos.to_le_bytes());
    b.extend_from_slice(&mime_pos.to_le_bytes());
    b.extend_from_slice(&0u32.to_le_bytes());
    b.extend_from_slice(&0xffff_ffffu32.to_le_bytes());
    b.extend_from_slice(&checksum_pos.to_le_bytes());
    assert_eq!(b.len(), 80);
    b.extend_from_slice(mime);
    for o in &offsets {
        b.extend_from_slice(&o.to_le_bytes());
    }
    for i in &order {
        b.extend_from_slice(&(*i as u32).to_le_bytes());
    }
    for d in &dirents {
        b.extend_from_slice(d);
    }
    for o in &cluster_offsets {
        b.extend_from_slice(&o.to_le_bytes());
    }
    for c in clusters {
        b.extend_from_slice(c);
    }
    b.extend_from_slice(&[0u8; 16]);
    b
}

const MAGIC: u32 = 72173914;

fn sample() -> Vec<u8> {
    let entries = [
        content("Apple", "Apple", 0, 0),
        content("Banana", "", 0, 1),
        Ent { path: "Fruit", title: "Fruit", ns: b'C', cluster: 0, blob: 0, redirect: Some(0) },
        content("Cherry", "Cherry", 1, 0),
    ];
    let clusters = [
        stored_cluster(&[b"<p>apple</p>", b"<p>banana</p>"]),
        stored_cluster(&[b"cherry body"]),
    ];
    build(MAGIC, 5, &entries, &clusters)
}

#[test]
fn open_empty_bytes() {
    let r = ZimReader::open(Vec::new());
    assert!(matches!(r, Err(ZimError::Unsupported)));
}

#[test]
fn header_bad_magic_is_invalid_format() {
    let b = build(0x1234_5678, 5, &[], &[]);
    assert!(matches!(parse_header(&b), Err(ZimError::InvalidMagic)));
    assert!(matches!(ZimReader::open(b), Err(ZimError::InvalidMagic)));
}

#[test]
fn header_supported_versions_parse() {
    for major in [5u16, 6u16] {
        let b = build(MAGIC, major, &[], &[]);
        let h = parse_header(&b).ok().unwrap();
        assert_eq!(h.major_version, major);
        assert_eq!(h.minor_version, 1);
        assert_eq!(h.uuid, [7u8; 16]);
        assert_eq!(h.article_count, 0);
        assert_eq!(h.mime_list_pos, 80);
        assert_eq!(h.layout_page, 0xffff_ffff);
    }
}

#[test]
fn header_unsupported_version() {
    let b = build(MAGIC, 7, &[], &[]);
    assert!(matches!(parse_header(&b), Err(ZimError::UnsupportedVersion(7))));
    let b = build(MAGIC, 4, &[], &[]);
    assert!(matches!(ZimReader::open(b), Err(ZimError::UnsupportedVersion(4))));
}

#[test]
fn header_short_file() {
    let b = build(MAGIC, 5, &[], &[]);
    assert!(matches!(parse_header(&b[..79]), Err(ZimError::Unsupported)));
}

#[test]
fn header_fields_from_sample() {
    let z = ZimReader::open(sample()).ok().unwrap();
    let h = z.header();
    assert_eq!(h.article_count, 4);
    assert_eq!(h.cluster_count, 2);
    assert_eq!(z.article_count(), 4);
}

#[test]
fn entries_by_index() {
    let z = ZimReader::open(sample()).ok().unwrap();
    let a = z.entry_by_index(0).ok().unwrap();
    assert_eq!(a.path, "Apple");
    assert_eq!(a.title, "Apple");
    assert_eq!(a.namespace, b'C');
    assert_eq!(a.cluster, 0);
    assert_eq!(a.blob_index, 0);
    assert!(!a.is_redirect());
    let b = z.entry_by_index(1).ok().unwrap();
    assert_eq!(b.title, "Banana");
    assert_eq!(b.blob_index, 1);
    let r = z.entry_by_index(2).ok().unwrap();
    assert!(r.is_redirect());
    assert_eq!(r.redirect_index, 0);
    assert_eq!(r.cluster, 0);
    assert!(matches!(z.entry_by_index(4), Err(ZimError::OutOfRange)));
}

#[test]
fn entries_by_title_rank() {
    let z = ZimReader::open(sample()).ok().unwrap();
    let titles: Vec<String> = (0..4).map(|k| z.entry_by_title_rank(k).ok().unwrap().title).collect();
    assert_eq!(titles, vec!["Apple", "Banana", "Cherry", "Fruit"]);
    assert!(matches!(z.entry_by_title_rank(4), Err(ZimError::OutOfRange)));
}

#[test]
fn find_by_title_exact() {
    let z = ZimReader::open(sample()).ok().unwrap();
    let c = z.find_article_by_title("Cherry").ok().unwrap().unwrap();
    assert_eq!(c.path, "Cherry");
    assert!(z.find_article_by_title("Cher").ok().unwrap().is_none());
    assert!(z.find_article_by_title("cherry").ok().unwrap().is_none());
}

#[test]
fn dir_entry_truncated_and_bad_utf8() {
    let mut d = vec![0u8; 16];
    d.extend_from_slice(b"abc");
    assert!(matches!(parse_dir_entry(&d, 0), Err(ZimError::EntryParse)));
    assert!(matches!(parse_dir_entry(&d, 100), Err(ZimError::EntryParse)));
    let mut d = vec![0u8; 16];
    d.extend_from_slice(&[0xff, 0xfe, 0, b'x', 0]);
    assert!(matches!(parse_dir_entry(&d, 0), Err(ZimError::Utf8)));
    let mut d = vec![0u8; 16];
    d.extend_from_slice(b"p\0t\0");
    let e: DirEntry = parse_dir_entry(&d, 0).ok().unwrap();
    assert_eq!(e.path, "p");
    assert_eq!(e.title, "t");
    assert_eq!(e.offset, 0);
}

#[test]
fn blobs_of_stored_clusters() {
    let z = ZimReader::open(sample()).ok().unwrap();
    let a = z.entry_by_index(0).ok().unwrap();
    assert_eq!(z.read_blob(&a).ok().unwrap(), b"<p>apple</p>".to_vec());
    let b = z.entry_by_index(1).ok().unwrap();
    assert_eq!(z.get_article_html(&b).ok().unwrap(), "<p>banana</p>");
    let c = z.entry_by_index(3).ok().unwrap();
    assert_eq!(z.get_article_html(&c).ok().unwrap(), "cherry body");
}

#[test]
fn blob_index_past_count_is_invalid_entry() {
    let z = ZimReader::open(sample()).ok().unwrap();
    let mut a = z.entry_by_index(0).ok().unwrap();
    a.blob_index = 2;
    assert!(matches!(z.read_blob(&a), Err(ZimError::InvalidEntry)));
    a.blob_index = 0xffff_ffff;
    assert!(matches!(z.read_blob(&a), Err(ZimError::InvalidEntry)));
    a.blob_index = 0;
    a.cluster = 9;
    assert!(matches!(z.read_blob(&a), Err(ZimError::InvalidEntry)));
}

#[test]
fn redirect_has_no_blob() {
    let z = ZimReader::open(sample()).ok().unwrap();
    let r = z.entry_by_index(2).ok().unwrap();
    assert!(matches!(z.read_blob(&r), Err(ZimError::InvalidEntry)));
}

#[test]
fn zstd_cluster_is_unsupported() {
    let mut c = stored_cluster(&[b"x"]);
    c[0] = 5;
    let b = build(MAGIC, 5, &[content("X", "X", 0, 0)], &[c]);
    let z = ZimReader::open(b).ok().unwrap();
    let e = z.entry_by_index(0).ok().unwrap();
    assert!(matches!(z.read_blob(&e), Err(ZimError::UnsupportedCompression(5))));
}

#[test]
fn xz_cluster_decodes() {
    let plain = stored_cluster(&[b"first", b"second blob"]);
    let mut enc = xz2::write::XzEncoder::new(Vec::new(), 6);
    std::io::Write::write_all(&mut enc, &plain[1..]).unwrap();
    let mut c = vec![4u8];
    c.extend_from_slice(&enc.finish().unwrap());
    let b = build(MAGIC, 5, &[content("X", "X", 0, 1)], &[c]);
    let z = ZimReader::open(b).ok().unwrap();
    let e = z.entry_by_index(0).ok().unwrap();
    assert_eq!(z.get_article_html(&e).ok().unwrap(), "second blob");
}

#[test]
fn xz_garbage_fails_to_decompress() {
    let c = vec![4u8, 1, 2, 3, 4, 5, 6, 7, 8];
    let b = build(MAGIC, 5, &[content("X", "X", 0, 0)], &[c]);
    let z = ZimReader::open(b).ok().unwrap();
    let e = z.entry_by_index(0).ok().unwrap();
    assert!(matches!(z.read_blob(&e), Err(ZimError::Decompress(_))));
}

#[test]
fn extended_offsets_cluster() {
    let mut c = vec![0x11u8];
    let body: [&[u8]; 2] = [b"aa", b"bbb"];
    let mut off = 8u64 * 3;
    c.extend_from_slice(&off.to_le_bytes());
    for x in body {
        off += x.len() as u64;
        c.extend_from_slice(&off.to_le_bytes());
    }
    for x in body {
        c.extend_from_slice(x);
    }
    let b = build(MAGIC, 6, &[content("X", "X", 0, 1)], &[c]);
    let z = ZimReader::open(b).ok().unwrap();
    let e = z.entry_by_index(0).ok().unwrap();
    assert_eq!(z.read_blob(&e).ok().unwrap(), b"bbb".to_vec());
}

#[test]
fn non_utf8_blob() {
    let c = stored_cluster(&[&[0xff, 0xfe]]);
    let b = build(MAGIC, 5, &[content("X", "X", 0, 0)], &[c]);
    let z = ZimReader::open(b).ok().unwrap();
    let e = z.entry_by_index(0).ok().unwrap();
    assert!(matches!(z.get_article_html(&e), Err(ZimError::Utf8)));
}

#[test]
fn error_messages() {
    assert_eq!(ZimError::InvalidMagic.message(), "invalid magic");
    assert_eq!(ZimError::EntryParse.message(), "entry parse error");
}

#[test]
fn articles_in_title_order() {
    let z = ZimReader::open(sample()).ok().unwrap();
    let names: Vec<String> = z.list_articles().into_iter().map(|e| e.title).collect();
    assert_eq!(names, vec!["Apple", "Banana", "Cherry"]);
}

#[test]
fn mimetype_list() {
    let z = ZimReader::open(sample()).ok().unwrap();
    assert_eq!(z.mime_types(), &vec!["text/html".to_string()]);
}

#[test]
fn other_magic_values_are_invalid() {
    for magic in [0x004D495Au32, 0x5A494D00u32] {
        let b = build(magic, 5, &[], &[]);
        assert!(matches!(parse_header(&b), Err(ZimError::InvalidMagic)));
        assert!(matches!(ZimReader::open(b), Err(ZimError::InvalidMagic)));
    }
}

#[test]
fn mimetype_list_not_utf8() {
    let mut b = sample();
    b[80] = 0xff;
    assert!(matches!(ZimReader::open(b), Err(ZimError::Utf8)));
}

#[test]
fn mimetype_list_outside_file() {
    let mut b = sample();
    b[56..64].copy_from_slice(&u64::MAX.to_le_bytes());
    assert!(matches!(ZimReader::open(b), Err(ZimError::EntryParse)));
}

#[test]
fn mimetype_list_without_end() {
    let entries: [Ent; 0] = [];
    let mut b = build(MAGIC, 5, &entries, &[]);
    let n = b.len() as u64;
    b.extend_from_slice(b"abc");
    b[56..64].copy_from_slice(&n.to_le_bytes());
    assert!(matches!(ZimReader::open(b), Err(ZimError::EntryParse)));
}

#[test]
fn content_predicate() {
    let z = ZimReader::open(sample()).ok().unwrap();
    assert!(z.entry_by_index(0).ok().unwrap().is_content());
    assert!(!z.entry_by_index(2).ok().unwrap().is_content());
}
