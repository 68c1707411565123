//! The ZIM container: header, pointer tables, directory entries and
//! cluster blobs, read from the bytes of an archive file.

use vstd::prelude::*;
use vstd::utf8::{decode_utf8, valid_utf8};
use crate::bytes::{
    copy_range, find_nul, first_nul, le_u16, le_u32, le_u64, no_nul_from, read_u16, read_u32,
    read_u64,
};

verus! {

/// Size in bytes of the fixed archive header.
pub const HEADER_LEN: usize = 80;

/// The magic number at the start of every archive.
pub const ZIM_MAGIC: u32 = 72173914;

/// Oldest and newest supported major versions.
pub const MIN_MAJOR_VERSION: u16 = 5;

pub const MAX_MAJOR_VERSION: u16 = 6;

/// Mimetype value that marks a redirect entry.
pub const REDIRECT_MIMETYPE: u16 = 65535;

/// Codec numbers of the low nibble of a cluster's first byte.
pub const CODEC_STORED: u8 = 1;

pub const CODEC_STORED_OLD: u8 = 0;

pub const CODEC_XZ: u8 = 4;

pub const CODEC_ZSTD: u8 = 5;

/// Flag bit of a cluster's first byte that selects 8-byte blob offsets.
pub const CLUSTER_EXTENDED: u8 = 16;

pub enum ZimError {
    Io(String),
    Utf8,
    InvalidMagic,
    UnsupportedVersion(u16),
    Unsupported,
    UnsupportedCompression(u8),
    Decompress(String),
    EntryParse,
    OutOfRange,
    InvalidEntry,
}

impl ZimError {
    /// A one-line description of the error.
    pub fn message(&self) -> String {
        match self {
            ZimError::Io(m) => m.clone(),
            ZimError::Utf8 => String::from_str("utf8 error"),
            ZimError::InvalidMagic => String::from_str("invalid magic"),
            ZimError::UnsupportedVersion(_) => String::from_str("unsupported major version"),
            ZimError::Unsupported => String::from_str("unsupported / unexpected format"),
            ZimError::UnsupportedCompression(_) => String::from_str("unsupported compression"),
            ZimError::Decompress(m) => m.clone(),
            ZimError::EntryParse => String::from_str("entry parse error"),
            ZimError::OutOfRange => String::from_str("entry index out of range"),
            ZimError::InvalidEntry => String::from_str("invalid entry"),
        }
    }
}

/// The fixed header of an archive.
#[derive(Clone, Copy, Debug)]
pub struct ZimHeader {
    pub major_version: u16,
    pub minor_version: u16,
    pub uuid: [u8; 16],
    pub article_count: u32,
    pub cluster_count: u32,
    pub url_ptr_pos: u64,
    pub title_ptr_pos: u64,
    pub cluster_ptr_pos: u64,
    pub mime_list_pos: u64,
    pub main_page: u32,
    pub layout_page: u32,
    pub checksum_pos: u64,
}

pub open spec fn magic_ok(m: int) -> bool {
    m == ZIM_MAGIC as int
}

pub open spec fn version_ok(major: int) -> bool {
    MIN_MAJOR_VERSION as int <= major <= MAX_MAJOR_VERSION as int
}

/// The header fields as the first bytes of `b` give them.
pub open spec fn header_matches(h: ZimHeader, b: Seq<u8>) -> bool {
    &&& h.major_version as int == le_u16(b, 4)
    &&& h.minor_version as int == le_u16(b, 6)
    &&& h.uuid@ == b.subrange(8, 24)
    &&& h.article_count as int == le_u32(b, 24)
    &&& h.cluster_count as int == le_u32(b, 28)
    &&& h.url_ptr_pos as int == le_u64(b, 32)
    &&& h.title_ptr_pos as int == le_u64(b, 40)
    &&& h.cluster_ptr_pos as int == le_u64(b, 48)
    &&& h.mime_list_pos as int == le_u64(b, 56)
    &&& h.main_page as int == le_u32(b, 64)
    &&& h.layout_page as int == le_u32(b, 68)
    &&& h.checksum_pos as int == le_u64(b, 72)
}

/// Parses the fixed header at the start of `b`.
pub fn parse_header(b: &[u8]) -> (r: Result<ZimHeader, ZimError>)
    ensures
        b@.len() < HEADER_LEN ==> r matches Err(ZimError::Unsupported),
        b@.len() >= HEADER_LEN && !magic_ok(le_u32(b@, 0)) ==> r matches Err(ZimError::InvalidMagic),
        b@.len() >= HEADER_LEN && magic_ok(le_u32(b@, 0)) && !version_ok(le_u16(b@, 4)) ==> (
        r matches Err(ZimError::UnsupportedVersion(v)) && v as int == le_u16(b@, 4)),
        b@.len() >= HEADER_LEN && magic_ok(le_u32(b@, 0)) && version_ok(le_u16(b@, 4)) ==> (
        r matches Ok(h) && header_matches(h, b@)),
{
    if b.len() < HEADER_LEN {
        return Err(ZimError::Unsupported);
    }
    let magic = read_u32(b, 0);
    if magic != ZIM_MAGIC {
        return Err(ZimError::InvalidMagic);
    }
    let major = read_u16(b, 4);
    if major < MIN_MAJOR_VERSION || major > MAX_MAJOR_VERSION {
        return Err(ZimError::UnsupportedVersion(major));
    }
    let uuid: [u8; 16] = [
        b[8], b[9], b[10], b[11], b[12], b[13], b[14], b[15],
        b[16], b[17], b[18], b[19], b[20], b[21], b[22], b[23],
    ];
    assert(uuid@ =~= b@.subrange(8, 24));
    Ok(ZimHeader {
        major_version: major,
        minor_version: read_u16(b, 6),
        uuid,
        article_count: read_u32(b, 24),
        cluster_count: read_u32(b, 28),
        url_ptr_pos: read_u64(b, 32),
        title_ptr_pos: read_u64(b, 40),
        cluster_ptr_pos: read_u64(b, 48),
        mime_list_pos: read_u64(b, 56),
        main_page: read_u32(b, 64),
        layout_page: read_u32(b, 68),
        checksum_pos: read_u64(b, 72),
    })
}


/// The xz decoding of `b`, or `None` where `b` is no valid xz stream.
pub uninterp spec fn xz_decoded(b: Seq<u8>) -> Option<Seq<u8>>;

/// Relies on `xz2::read::XzDecoder`: reading it to the end decodes the xz
/// stream in `b`; what comes out depends on the bytes of `b` alone.
#[verifier::external_body]
fn xz_decompress(b: &[u8]) -> (r: Result<Vec<u8>, String>)
    ensures
        r is Ok <==> xz_decoded(b@) is Some,
        r matches Ok(v) ==> xz_decoded(b@) == Some(v@),
{
    let mut out = Vec::new();
    match std::io::Read::read_to_end(&mut xz2::read::XzDecoder::new(b), &mut out) {
        Ok(_) => Ok(out),
        Err(e) => Err(e.to_string()),
    }
}

/// Relies on `String::from_utf8`: it accepts exactly the valid UTF-8 byte
/// sequences, and decodes them.
#[verifier::external_body]
pub(crate) fn utf8_string(v: Vec<u8>) -> (r: Option<String>)
    ensures
        r is Some <==> valid_utf8(v@),
        r matches Some(s) ==> s@ == decode_utf8(v@),
{
    String::from_utf8(v).ok()
}

/// `r` holds, in order, the `width`-byte values of the table at `pos`: `count`
/// of them, or as many as fit before the end of `b`.
pub open spec fn ptr_table(r: Seq<int>, b: Seq<u8>, pos: int, count: int, width: int) -> bool {
    &&& r.len() <= count
    &&& forall|i: int|
        0 <= i < r.len() ==> pos + width * (i + 1) <= b.len() && #[trigger] r[i] == (if width == 8 {
            le_u64(b, pos + 8 * i)
        } else {
            le_u32(b, pos + 4 * i)
        })
    &&& r.len() == count || pos + width * (r.len() + 1) > b.len()
}

/// Reads the table of 4-byte entries at `pos` (the title pointer list).
pub fn read_ptr_list(b: &[u8], pos: u64, count: u64) -> (r: Vec<u32>)
    ensures
        ptr_table(r@.map_values(|v: u32| v as int), b@, pos as int, count as int, 4),
{
    let n = b.len();
    let mut r: Vec<u32> = Vec::new();
    if pos > n as u64 {
        return r;
    }
    let start = pos as usize;
    let mut p: usize = start;
    let mut i: u64 = 0;
    while i < count && n - p >= 4
        invariant
            n == b@.len(),
            start == pos,
            start <= p <= n,
            p == start + 4 * i,
            i <= count,
            r@.len() == i,
            forall|k: int|
                0 <= k < i ==> pos + 4 * (k + 1) <= b@.len() && r@[k] as int == le_u32(
                    b@,
                    pos + 4 * k,
                ),
        decreases count - i,
    {
        r.push(read_u32(b, p));
        p = p + 4;
        i = i + 1;
    }
    assert(ptr_table(r@.map_values(|v: u32| v as int), b@, pos as int, count as int, 4));
    r
}

/// Reads the table of 8-byte entries at `pos` (the cluster pointer list).
pub fn read_ptr_list_u64(b: &[u8], pos: u64, count: u64) -> (r: Vec<u64>)
    ensures
        ptr_table(r@.map_values(|v: u64| v as int), b@, pos as int, count as int, 8),
{
    let n = b.len();
    let mut r: Vec<u64> = Vec::new();
    if pos > n as u64 {
        return r;
    }
    let start = pos as usize;
    let mut p: usize = start;
    let mut i: u64 = 0;
    while i < count && n - p >= 8
        invariant
            n == b@.len(),
            start == pos,
            start <= p <= n,
            p == start + 8 * i,
            i <= count,
            r@.len() == i,
            forall|k: int|
                0 <= k < i ==> pos + 8 * (k + 1) <= b@.len() && r@[k] as int == le_u64(
                    b@,
                    pos + 8 * k,
                ),
        decreases count - i,
    {
        r.push(read_u64(b, p));
        p = p + 8;
        i = i + 1;
    }
    assert(ptr_table(r@.map_values(|v: u64| v as int), b@, pos as int, count as int, 8));
    r
}


/// One directory entry: an article, a resource, or a redirect.
#[derive(Clone, Debug)]
pub struct DirEntry {
    /// The URL path of the entry.
    pub path: String,
    /// The title; the path where the record gives none.
    pub title: String,
    /// Index into the mimetype list, or `REDIRECT_MIMETYPE`.
    pub mimetype: u16,
    /// The namespace byte (`C` or `A` for content).
    pub namespace: u8,
    /// Cluster that holds the blob (zero for a redirect).
    pub cluster: u32,
    /// Blob index inside the cluster (zero for a redirect).
    pub blob_index: u32,
    /// URL-table index of the redirect target (zero for content).
    pub redirect_index: u32,
    /// File offset of the record.
    pub offset: u64,
}

impl DirEntry {
    pub open spec fn spec_is_redirect(&self) -> bool {
        self.mimetype == REDIRECT_MIMETYPE
    }

    /// A content article: namespace `C` (or `A` in older archives), not a redirect.
    pub open spec fn spec_is_content(&self) -> bool {
        (self.namespace == 67u8 || self.namespace == 65u8) && self.mimetype != REDIRECT_MIMETYPE
    }

    #[verifier::when_used_as_spec(spec_is_content)]
    pub fn is_content(&self) -> (r: bool)
        ensures
            r == self.spec_is_content(),
    {
        (self.namespace == 67u8 || self.namespace == 65u8) && self.mimetype != REDIRECT_MIMETYPE
    }

    #[verifier::when_used_as_spec(spec_is_redirect)]
    pub fn is_redirect(&self) -> (r: bool)
        ensures
            r == self.spec_is_redirect(),
    {
        self.mimetype == REDIRECT_MIMETYPE
    }
}

/// The views of a sequence of strings.
pub open spec fn views(v: Seq<String>) -> Seq<Seq<char>> {
    v.map_values(|s: String| s@)
}

/// The non-empty record from `s` to the NUL before `t` is the UTF-8 text `name`.
pub open spec fn record_at(b: Seq<u8>, s: int, t: int, name: Seq<char>) -> bool {
    &&& s < t - 1
    &&& first_nul(b, s, t - 1)
    &&& valid_utf8(b.subrange(s, t - 1))
    &&& name == decode_utf8(b.subrange(s, t - 1))
}

/// `names` are the records of the list at `pos`, which begin at `starts`;
/// an empty record ends the list.
pub open spec fn mime_list_at(b: Seq<u8>, pos: int, names: Seq<Seq<char>>, starts: Seq<int>) -> bool {
    &&& starts.len() == names.len() + 1
    &&& starts[0] == pos
    &&& forall|i: int| 0 <= i < names.len() ==> #[trigger] record_at(b, starts[i], starts[i + 1], names[i])
    &&& first_nul(b, starts[names.len() as int], starts[names.len() as int])
}

/// `names` is the mimetype list at `pos`.
pub open spec fn mime_list_is(b: Seq<u8>, pos: int, names: Seq<Seq<char>>) -> bool {
    exists|starts: Seq<int>| #[trigger] mime_list_at(b, pos, names, starts)
}

/// A well-formed mimetype list stands at `pos`.
pub open spec fn mime_list_ok(b: Seq<u8>, pos: int) -> bool {
    exists|names: Seq<Seq<char>>, starts: Seq<int>| #[trigger] mime_list_at(b, pos, names, starts)
}

/// The first `starts.len() - 1` records from `pos` are non-empty and UTF-8;
/// the next begins at `starts.last()`.
pub open spec fn mime_walk(b: Seq<u8>, pos: int, starts: Seq<int>) -> bool {
    &&& starts.len() >= 1
    &&& starts[0] == pos
    &&& forall|i: int| 0 <= i < starts.len() - 1 ==> #[trigger] record_at(
        b,
        starts[i],
        starts[i + 1],
        decode_utf8(b.subrange(starts[i], starts[i + 1] - 1)),
    )
}

/// A walk of the mimetype list follows the records of any well-formed list.
pub proof fn lemma_mime_walk_agrees(b: Seq<u8>, pos: int, starts: Seq<int>, names: Seq<Seq<char>>, st2: Seq<int>)
    requires
        mime_walk(b, pos, starts),
        mime_list_at(b, pos, names, st2),
    ensures
        starts.len() - 1 <= names.len(),
        starts == st2.take(starts.len() as int),
    decreases starts.len(),
{
    let k = starts.len() - 1;
    if k == 0 {
        assert(starts =~= st2.take(1));
    } else {
        let pre = starts.drop_last();
        assert forall|i: int| 0 <= i < pre.len() - 1 implies #[trigger] record_at(
            b,
            pre[i],
            pre[i + 1],
            decode_utf8(b.subrange(pre[i], pre[i + 1] - 1)),
        ) by {
            assert(record_at(b, starts[i], starts[i + 1], decode_utf8(b.subrange(starts[i], starts[i + 1] - 1))));
        }
        lemma_mime_walk_agrees(b, pos, pre, names, st2);
        let s0 = starts[k - 1];
        assert(pre[k - 1] == starts[k - 1]);
        assert(st2.take(k)[k - 1] == st2[k - 1]);
        assert(s0 == st2[k - 1]);
        let i = k - 1;
        assert(record_at(b, starts[i], starts[i + 1], decode_utf8(b.subrange(starts[i], starts[i + 1] - 1))));
        if k - 1 == names.len() {
            assert(first_nul(b, s0, s0));
            assert(b[s0] == 0);
        } else {
            assert(record_at(b, st2[i], st2[i + 1], names[i]));
            lemma_nul_index(b, s0, starts[k] - 1);
            lemma_nul_index(b, s0, st2[k] - 1);
        }
        assert(starts =~= st2.take(starts.len() as int));
    }
}

/// Reads the mimetype list at `pos`: NUL-terminated names up to the empty
/// one. `EntryParse` where a record has no NUL before the end of `b`, `Utf8`
/// where a name is not UTF-8.
pub fn read_mime_list(b: &[u8], pos: u64) -> (r: Result<Vec<String>, ZimError>)
    ensures
        r is Ok <==> mime_list_ok(b@, pos as int),
        r matches Ok(v) ==> mime_list_is(b@, pos as int, views(v@)),
        r matches Err(ZimError::EntryParse) ==> pos >= b@.len() || exists|starts: Seq<int>|
            #[trigger] mime_walk(b@, pos as int, starts) && no_nul_from(b@, starts.last()),
        r matches Err(ZimError::Utf8) ==> exists|starts: Seq<int>, e: int|
            #![trigger mime_walk(b@, pos as int, starts), first_nul(b@, starts.last(), e)]
            mime_walk(b@, pos as int, starts) && first_nul(b@, starts.last(), e) && e > starts.last()
                && !valid_utf8(b@.subrange(starts.last(), e)),
        r is Err ==> (r matches Err(ZimError::EntryParse) || r matches Err(ZimError::Utf8)),
{
    let n = b.len();
    if pos >= n as u64 {
        proof {
            if mime_list_ok(b@, pos as int) {
                let (names, st2) = choose|names: Seq<Seq<char>>, starts: Seq<int>| #[trigger] mime_list_at(b@, pos as int, names, starts);
                assert(first_nul(b@, st2[names.len() as int], st2[names.len() as int]) || names.len() > 0);
                if names.len() > 0 {
                    let i = 0int;
                    assert(record_at(b@, st2[i], st2[i + 1], names[i]));
                }
            }
        }
        return Err(ZimError::EntryParse);
    }
    let mut p: usize = pos as usize;
    let mut v: Vec<String> = Vec::new();
    let ghost mut starts: Seq<int> = seq![pos as int];
    loop
        invariant
            n == b@.len(),
            p <= n,
            starts.len() == v@.len() + 1,
            starts[0] == pos as int,
            starts.last() == p as int,
            mime_walk(b@, pos as int, starts),
            forall|i: int| 0 <= i < v@.len() ==> #[trigger] record_at(b@, starts[i], starts[i + 1], views(v@)[i]),
        decreases n - p,
    {
        let e = match find_nul(b, p) {
            Some(e) => e,
            None => {
                proof {
                    if mime_list_ok(b@, pos as int) {
                        let (names, st2) = choose|names: Seq<Seq<char>>, st: Seq<int>| #[trigger] mime_list_at(b@, pos as int, names, st);
                        lemma_mime_walk_agrees(b@, pos as int, starts, names, st2);
                        let k = v@.len() as int;
                        assert(starts[k] == st2[k]);
                        if k == names.len() {
                            assert(b@[p as int] == 0);
                        } else {
                            assert(record_at(b@, st2[k], st2[k + 1], names[k]));
                            assert(b@[st2[k + 1] - 1] == 0);
                        }
                    }
                }
                return Err(ZimError::EntryParse);
            },
        };
        if e == p {
            proof {
                assert(views(v@).len() == v@.len());
                assert(starts[views(v@).len() as int] == p);
                assert(first_nul(b@, p as int, p as int));
                assert(mime_list_at(b@, pos as int, views(v@), starts));
                assert(mime_list_ok(b@, pos as int));
                assert(mime_list_is(b@, pos as int, views(v@)));
            }
            return Ok(v);
        }
        let name = match utf8_string(copy_range(b, p, e)) {
            Some(t) => t,
            None => {
                proof {
                    if mime_list_ok(b@, pos as int) {
                        let (names, st2) = choose|names: Seq<Seq<char>>, st: Seq<int>| #[trigger] mime_list_at(b@, pos as int, names, st);
                        lemma_mime_walk_agrees(b@, pos as int, starts, names, st2);
                        let k = v@.len() as int;
                        assert(starts[k] == st2[k]);
                        if k == names.len() {
                            lemma_nul_index(b@, p as int, p as int);
                            lemma_nul_index(b@, p as int, e as int);
                        } else {
                            assert(record_at(b@, st2[k], st2[k + 1], names[k]));
                            lemma_nul_index(b@, p as int, st2[k + 1] - 1);
                            lemma_nul_index(b@, p as int, e as int);
                        }
                    }
                }
                return Err(ZimError::Utf8);
            },
        };
        let ghost before = v@;
        let ghost sb = starts;
        v.push(name);
        proof {
            starts = starts.push(e + 1);
            assert(views(v@) =~= views(before).push(name@));
            assert forall|i: int| 0 <= i < v@.len() implies #[trigger] record_at(b@, starts[i], starts[i + 1], views(v@)[i]) by {
                if i < before.len() {
                    assert(views(v@)[i] == views(before)[i]);
                    assert(starts[i] == sb[i] && starts[i + 1] == sb[i + 1]);
                }
            }
            assert forall|i: int| 0 <= i < starts.len() - 1 implies #[trigger] record_at(
                b@,
                starts[i],
                starts[i + 1],
                decode_utf8(b@.subrange(starts[i], starts[i + 1] - 1)),
            ) by {
                if i < sb.len() - 1 {
                    assert(starts[i] == sb[i] && starts[i + 1] == sb[i + 1]);
                    assert(record_at(b@, sb[i], sb[i + 1], decode_utf8(b@.subrange(sb[i], sb[i + 1] - 1))));
                }
            }
        }
        p = e + 1;
    }
}

/// The first NUL byte at or after `s`.
pub open spec fn nul_index(b: Seq<u8>, s: int) -> int {
    choose|e: int| first_nul(b, s, e)
}

pub open spec fn has_nul(b: Seq<u8>, s: int) -> bool {
    exists|e: int| first_nul(b, s, e)
}

pub proof fn lemma_nul_index(b: Seq<u8>, s: int, e: int)
    requires
        first_nul(b, s, e),
    ensures
        has_nul(b, s),
        nul_index(b, s) == e,
{
    let c = nul_index(b, s);
    assert(first_nul(b, s, c));
    if c < e {
        assert(b[c] != 0);
    } else if e < c {
        assert(b[e] != 0);
    }
}

/// Where the path string of the record at `o` begins.
pub open spec fn strings_start(b: Seq<u8>, o: int) -> int {
    if le_u16(b, o) == REDIRECT_MIMETYPE as int {
        o + 12
    } else {
        o + 16
    }
}

pub open spec fn url_end(b: Seq<u8>, o: int) -> int {
    nul_index(b, strings_start(b, o))
}

pub open spec fn title_end(b: Seq<u8>, o: int) -> int {
    nul_index(b, url_end(b, o) + 1)
}

/// The record at `o` has its fixed fields and both NUL-terminated strings in `b`.
pub open spec fn record_complete(b: Seq<u8>, o: int) -> bool {
    &&& 0 <= o
    &&& o + 8 <= b.len()
    &&& strings_start(b, o) <= b.len()
    &&& has_nul(b, strings_start(b, o))
    &&& has_nul(b, url_end(b, o) + 1)
}

pub open spec fn url_bytes(b: Seq<u8>, o: int) -> Seq<u8> {
    b.subrange(strings_start(b, o), url_end(b, o))
}

pub open spec fn title_bytes(b: Seq<u8>, o: int) -> Seq<u8> {
    b.subrange(url_end(b, o) + 1, title_end(b, o))
}

pub open spec fn record_text_ok(b: Seq<u8>, o: int) -> bool {
    valid_utf8(url_bytes(b, o)) && valid_utf8(title_bytes(b, o))
}

/// `e` is the entry that the record at `o` describes.
pub open spec fn entry_matches(e: DirEntry, b: Seq<u8>, o: int) -> bool {
    &&& e.offset as int == o
    &&& e.mimetype as int == le_u16(b, o)
    &&& e.namespace == b[o + 3]
    &&& if e.mimetype == REDIRECT_MIMETYPE {
        e.redirect_index as int == le_u32(b, o + 8) && e.cluster == 0 && e.blob_index == 0
    } else {
        e.cluster as int == le_u32(b, o + 8) && e.blob_index as int == le_u32(b, o + 12)
            && e.redirect_index == 0
    }
    &&& e.path@ == decode_utf8(url_bytes(b, o))
    &&& e.title@ == title_text(b, o)
}

/// The title of the record at `o`: its path where the title string is empty.
pub open spec fn title_text(b: Seq<u8>, o: int) -> Seq<char> {
    if title_bytes(b, o).len() == 0 {
        decode_utf8(url_bytes(b, o))
    } else {
        decode_utf8(title_bytes(b, o))
    }
}

/// `r` is the outcome of reading the record at `o`.
pub open spec fn parsed_at(r: Result<DirEntry, ZimError>, b: Seq<u8>, o: int) -> bool {
    if !record_complete(b, o) {
        r matches Err(ZimError::EntryParse)
    } else if !record_text_ok(b, o) {
        r matches Err(ZimError::Utf8)
    } else {
        r matches Ok(e) && entry_matches(e, b, o)
    }
}

/// Reads the directory entry record at file offset `offset`.
pub fn parse_dir_entry(b: &[u8], offset: u64) -> (r: Result<DirEntry, ZimError>)
    ensures
        parsed_at(r, b@, offset as int),
{
    let n = b.len();
    if offset >= n as u64 || n - (offset as usize) < 8 {
        return Err(ZimError::EntryParse);
    }
    let o = offset as usize;
    let mimetype = read_u16(b, o);
    let namespace = b[o + 3];
    let fixed: usize = if mimetype == REDIRECT_MIMETYPE { 12 } else { 16 };
    if n - o < fixed {
        return Err(ZimError::EntryParse);
    }
    let (cluster, blob_index, redirect_index) = if mimetype == REDIRECT_MIMETYPE {
        (0u32, 0u32, read_u32(b, o + 8))
    } else {
        (read_u32(b, o + 8), read_u32(b, o + 12), 0u32)
    };
    let s = o + fixed;
    let ue = match find_nul(b, s) {
        Some(e) => e,
        None => {
            return Err(ZimError::EntryParse);
        },
    };
    proof {
        lemma_nul_index(b@, s as int, ue as int);
    }
    let te = match find_nul(b, ue + 1) {
        Some(e) => e,
        None => {
            assert(!has_nul(b@, ue + 1)) by {
                if has_nul(b@, ue + 1) {
                    let c = nul_index(b@, ue + 1);
                    assert(first_nul(b@, ue + 1, c));
                }
            }
            return Err(ZimError::EntryParse);
        },
    };
    proof {
        lemma_nul_index(b@, ue + 1, te as int);
    }
    let path = match utf8_string(copy_range(b, s, ue)) {
        Some(t) => t,
        None => {
            return Err(ZimError::Utf8);
        },
    };
    let title = if te == ue + 1 {
        path.clone()
    } else {
        match utf8_string(copy_range(b, ue + 1, te)) {
            Some(t) => t,
            None => {
                return Err(ZimError::Utf8);
            },
        }
    };
    proof {
        if te == ue + 1 {
            assert(title_bytes(b@, o as int) =~= Seq::<u8>::empty());
            assert(valid_utf8(Seq::<u8>::empty())) by {
                reveal_with_fuel(valid_utf8, 2);
            }
        }
    }
    Ok(DirEntry { path, title, mimetype, namespace, cluster, blob_index, redirect_index, offset })
}


/// The offset of blob boundary `k` in a decompressed cluster with `w`-byte offsets.
pub open spec fn blob_offset(d: Seq<u8>, w: int, k: int) -> int {
    if w == 8 {
        le_u64(d, 8 * k)
    } else {
        le_u32(d, 4 * k)
    }
}

/// Blob `i` of the decompressed cluster `d`, or `None` where the offset table
/// has no such blob or its range leaves `d`.
pub open spec fn blob_in(d: Seq<u8>, w: int, i: int) -> Option<Seq<u8>> {
    if w * (i + 2) > d.len() || i + 1 >= blob_offset(d, w, 0) / w {
        None
    } else {
        let s = blob_offset(d, w, i);
        let e = blob_offset(d, w, i + 1);
        if s <= e <= d.len() {
            Some(d.subrange(s, e))
        } else {
            None
        }
    }
}

/// `r` is `Ok` with the bytes of `o`, or the invalid-entry failure where `o` is `None`.
pub open spec fn blob_result(o: Option<Seq<u8>>, r: Result<Vec<u8>, ZimError>) -> bool {
    match o {
        Some(s) => r matches Ok(v) && v@ == s,
        None => r matches Err(ZimError::InvalidEntry),
    }
}

/// Extracts blob `i` from a decompressed cluster whose offsets are `w` bytes wide.
pub fn blob_from_cluster(d: &[u8], extended: bool, i: u32) -> (r: Result<Vec<u8>, ZimError>)
    ensures
        blob_result(blob_in(d@, if extended { 8 } else { 4 }, i as int), r),
{
    let n = d.len();
    let w: usize = if extended { 8 } else { 4 };
    let k = i as usize;
    if ((n / w) as u64) < i as u64 + 2 {
        proof {
            let q = n as int / w as int;
            let m = n as int % w as int;
            vstd::arithmetic::div_mod::lemma_fundamental_div_mod(n as int, w as int);
            assert(w * (k + 2) > n) by (nonlinear_arith)
                requires
                    n == w * q + m,
                    0 <= m < w,
                    q < k + 2,
                    w > 0,
            ;
        }
        return Err(ZimError::InvalidEntry);
    }
    proof {
        let q = n as int / w as int;
        vstd::arithmetic::div_mod::lemma_fundamental_div_mod(n as int, w as int);
        assert(w * (k + 2) <= n) by (nonlinear_arith)
            requires
                n == w * q + n as int % w as int,
                0 <= n as int % w as int,
                q >= k + 2,
                w > 0,
        ;
    }
    let (first, s, e) = if extended {
        (read_u64(d, 0), read_u64(d, 8 * k), read_u64(d, 8 * k + 8))
    } else {
        (read_u32(d, 0) as u64, read_u32(d, 4 * k) as u64, read_u32(d, 4 * k + 4) as u64)
    };
    if k as u64 + 1 >= first / (w as u64) {
        return Err(ZimError::InvalidEntry);
    }
    if s > e || e > n as u64 {
        return Err(ZimError::InvalidEntry);
    }
    Ok(copy_range(d, s as usize, e as usize))
}

/// An opened archive: its bytes, header, title index and cluster pointers.
pub struct ZimReader {
    data: Vec<u8>,
    header: ZimHeader,
    title_index: Vec<u32>,
    cluster_ptrs: Vec<u64>,
    mime_types: Vec<String>,
}

impl ZimReader {
    /// The bytes of the archive file.
    pub closed spec fn data(&self) -> Seq<u8> {
        self.data@
    }

    pub closed spec fn head(&self) -> ZimHeader {
        self.header
    }

    /// The title pointer list: URL-table indices in title order.
    pub closed spec fn titles(&self) -> Seq<u32> {
        self.title_index@
    }

    /// The cluster pointer list.
    pub closed spec fn clusters(&self) -> Seq<u64> {
        self.cluster_ptrs@
    }

    /// The mimetype list.
    pub closed spec fn mimes(&self) -> Seq<Seq<char>> {
        views(self.mime_types@)
    }

    pub open spec fn wf(&self) -> bool {
        &&& self.data().len() >= HEADER_LEN
        &&& header_matches(self.head(), self.data())
        &&& ptr_table(
            self.titles().map_values(|v: u32| v as int),
            self.data(),
            self.head().title_ptr_pos as int,
            self.head().article_count as int,
            4,
        )
        &&& ptr_table(
            self.clusters().map_values(|v: u64| v as int),
            self.data(),
            self.head().cluster_ptr_pos as int,
            self.head().cluster_count as int,
            8,
        )
        &&& mime_list_is(self.data(), self.head().mime_list_pos as int, self.mimes())
    }

    /// The URL pointer of entry `i` lies inside the file.
    pub open spec fn url_ptr_ok(&self, i: int) -> bool {
        self.head().url_ptr_pos + 8 * (i + 1) <= self.data().len()
    }

    /// The file offset of entry `i`'s record.
    pub open spec fn url_ptr(&self, i: int) -> int {
        le_u64(self.data(), self.head().url_ptr_pos + 8 * i)
    }

    /// `r` is the outcome of looking up entry `i` of the URL table.
    pub open spec fn entry_result(&self, i: int, r: Result<DirEntry, ZimError>) -> bool {
        if i >= self.head().article_count {
            r matches Err(ZimError::OutOfRange)
        } else if !self.url_ptr_ok(i) {
            r matches Err(ZimError::EntryParse)
        } else {
            parsed_at(r, self.data(), self.url_ptr(i))
        }
    }

    /// Entry `i` of the URL table reads cleanly and has path `p`.
    pub open spec fn index_has_path(&self, i: int, p: Seq<char>) -> bool {
        &&& 0 <= i < self.head().article_count
        &&& self.url_ptr_ok(i)
        &&& record_complete(self.data(), self.url_ptr(i))
        &&& record_text_ok(self.data(), self.url_ptr(i))
        &&& decode_utf8(url_bytes(self.data(), self.url_ptr(i))) == p
    }

    /// The entry of title rank `k` reads cleanly and has title `t`.
    pub open spec fn rank_has_title(&self, k: int, t: Seq<char>) -> bool {
        let i = self.titles()[k] as int;
        &&& i < self.head().article_count
        &&& self.url_ptr_ok(i)
        &&& record_complete(self.data(), self.url_ptr(i))
        &&& record_text_ok(self.data(), self.url_ptr(i))
        &&& title_text(self.data(), self.url_ptr(i)) == t
    }

    /// Opens an archive from the bytes of its file.
    pub fn open(data: Vec<u8>) -> (r: Result<ZimReader, ZimError>)
        ensures
            data@.len() < HEADER_LEN ==> r matches Err(ZimError::Unsupported),
            data@.len() >= HEADER_LEN && !magic_ok(le_u32(data@, 0)) ==> r matches Err(
                ZimError::InvalidMagic,
            ),
            data@.len() >= HEADER_LEN && magic_ok(le_u32(data@, 0)) && !version_ok(
                le_u16(data@, 4),
            ) ==> (r matches Err(ZimError::UnsupportedVersion(v)) && v as int == le_u16(
                data@,
                4,
            )),
            data@.len() >= HEADER_LEN && magic_ok(le_u32(data@, 0)) && version_ok(
                le_u16(data@, 4),
            ) ==> (r is Ok <==> mime_list_ok(data@, le_u64(data@, 56))),
            data@.len() >= HEADER_LEN && magic_ok(le_u32(data@, 0)) && version_ok(
                le_u16(data@, 4),
            ) && !mime_list_ok(data@, le_u64(data@, 56)) ==> (r matches Err(ZimError::EntryParse) || r matches Err(
                ZimError::Utf8,
            )),
            r matches Ok(z) ==> z.wf() && z.data() == data@,
    {
        let header = match parse_header(data.as_slice()) {
            Ok(h) => h,
            Err(e) => {
                return Err(e);
            },
        };
        let title_index = read_ptr_list(data.as_slice(), header.title_ptr_pos, header.article_count as u64);
        let cluster_ptrs = read_ptr_list_u64(
            data.as_slice(),
            header.cluster_ptr_pos,
            header.cluster_count as u64,
        );
        let mime_types = match read_mime_list(data.as_slice(), header.mime_list_pos) {
            Ok(m) => m,
            Err(e) => {
                return Err(e);
            },
        };
        let z = ZimReader { data, header, title_index, cluster_ptrs, mime_types };
        proof {
            assert(mime_list_is(z.data(), z.head().mime_list_pos as int, z.mimes()));
        }
        Ok(z)
    }

    /// The mimetype list, read when the archive was opened.
    pub fn mime_types(&self) -> (r: &Vec<String>)
        requires
            self.wf(),
        ensures
            mime_list_is(self.data(), self.head().mime_list_pos as int, views(r@)),
    {
        &self.mime_types
    }

    pub fn header(&self) -> (r: ZimHeader)
        ensures
            r == self.head(),
    {
        self.header
    }

    /// The number of entries: the header's entry count.
    pub fn article_count(&self) -> (r: usize)
        ensures
            r == self.head().article_count,
    {
        self.header.article_count as usize
    }

    /// Reads entry `i` of the URL table.
    pub fn entry_by_index(&self, i: u32) -> (r: Result<DirEntry, ZimError>)
        requires
            self.wf(),
        ensures
            self.entry_result(i as int, r),
    {
        if i >= self.header.article_count {
            return Err(ZimError::OutOfRange);
        }
        let n = self.data.len();
        let pos = self.header.url_ptr_pos;
        if pos > n as u64 || ((n - pos as usize) as u64) / 8 < i as u64 + 1 {
            return Err(ZimError::EntryParse);
        }
        let p = pos as usize + 8 * (i as usize);
        let off = read_u64(self.data.as_slice(), p);
        parse_dir_entry(self.data.as_slice(), off)
    }

    /// Reads the entry of title rank `k`.
    pub fn entry_by_title_rank(&self, k: usize) -> (r: Result<DirEntry, ZimError>)
        requires
            self.wf(),
        ensures
            k >= self.titles().len() ==> r matches Err(ZimError::OutOfRange),
            k < self.titles().len() ==> self.entry_result(self.titles()[k as int] as int, r),
    {
        if k >= self.title_index.len() {
            return Err(ZimError::OutOfRange);
        }
        self.entry_by_index(self.title_index[k])
    }

    /// Finds the first entry in title order whose title is exactly `title`.
    /// Entries that cannot be read are passed over.
    pub fn find_article_by_title(&self, title: &str) -> (r: Result<Option<DirEntry>, ZimError>)
        requires
            self.wf(),
        ensures
            r is Ok,
            r matches Ok(None) ==> forall|k: int|
                0 <= k < self.titles().len() ==> !self.rank_has_title(k, title@),
            r matches Ok(Some(e)) ==> exists|k: int|
                0 <= k < self.titles().len() && self.rank_has_title(k, title@) && entry_matches(
                    e,
                    self.data(),
                    self.url_ptr(self.titles()[k] as int),
                ) && forall|j: int| 0 <= j < k ==> !#[trigger] self.rank_has_title(j, title@),
    {
        let wanted = title.to_owned();
        let mut k: usize = 0;
        while k < self.title_index.len()
            invariant
                self.wf(),
                wanted@ == title@,
                k <= self.titles().len(),
                forall|j: int| 0 <= j < k ==> !self.rank_has_title(j, title@),
            decreases self.titles().len() - k,
        {
            match self.entry_by_title_rank(k) {
                Ok(e) => {
                    if e.title.eq(&wanted) {
                        assert(self.rank_has_title(k as int, title@));
                        return Ok(Some(e));
                    }
                },
                Err(_) => {},
            }
            k = k + 1;
        }
        Ok(None)
    }

    /// The entry of title rank `k` reads cleanly and is a content article:
    /// namespace `C` or `A`, and no redirect.
    pub open spec fn rank_is_article(&self, k: int) -> bool {
        let i = self.titles()[k] as int;
        let o = self.url_ptr(i);
        &&& i < self.head().article_count
        &&& self.url_ptr_ok(i)
        &&& record_complete(self.data(), o)
        &&& record_text_ok(self.data(), o)
        &&& (self.data()[o + 3] == 67u8 || self.data()[o + 3] == 65u8)
        &&& le_u16(self.data(), o) != REDIRECT_MIMETYPE as int
    }

    /// The content articles in title order; entries that cannot be read are
    /// passed over.
    pub fn list_articles(&self) -> (r: Vec<DirEntry>)
        requires
            self.wf(),
        ensures
            exists|ks: Seq<int>| {
                &&& #[trigger] ks.len() == r@.len()
                &&& forall|i: int, j: int| 0 <= i < j < ks.len() ==> ks[i] < ks[j]
                &&& forall|i: int| #![trigger ks[i]] 0 <= i < ks.len() ==> 0 <= ks[i] < self.titles().len()
                    && self.rank_is_article(ks[i]) && entry_matches(
                    r@[i],
                    self.data(),
                    self.url_ptr(self.titles()[ks[i]] as int),
                )
                &&& forall|k: int| 0 <= k < self.titles().len() && #[trigger] self.rank_is_article(k) ==> ks.contains(k)
            },
    {
        let mut r: Vec<DirEntry> = Vec::new();
        let ghost mut ks: Seq<int> = Seq::empty();
        let mut k: usize = 0;
        while k < self.title_index.len()
            invariant
                self.wf(),
                k <= self.titles().len(),
                ks.len() == r@.len(),
                forall|i: int, j: int| 0 <= i < j < ks.len() ==> ks[i] < ks[j],
                forall|i: int| #![trigger ks[i]] 0 <= i < ks.len() ==> 0 <= ks[i] < k
                    && self.rank_is_article(ks[i]) && entry_matches(
                    r@[i],
                    self.data(),
                    self.url_ptr(self.titles()[ks[i]] as int),
                ),
                forall|j: int| 0 <= j < k && #[trigger] self.rank_is_article(j) ==> ks.contains(j),
            decreases self.titles().len() - k,
        {
            match self.entry_by_title_rank(k) {
                Ok(e) => {
                    if e.is_content() {
                        let ghost before = ks;
                        r.push(e);
                        proof {
                            ks = ks.push(k as int);
                            assert(self.rank_is_article(k as int));
                            assert forall|j: int| 0 <= j < k + 1 && #[trigger] self.rank_is_article(j) implies ks.contains(j) by {
                                if j < k {
                                    let t = choose|t: int| 0 <= t < before.len() && before[t] == j;
                                    assert(ks[t] == j);
                                } else {
                                    assert(ks[ks.len() - 1] == j);
                                }
                            }
                            assert forall|i: int| #![trigger ks[i]] 0 <= i < ks.len() implies 0 <= ks[i] < k + 1
                                && self.rank_is_article(ks[i]) && entry_matches(
                                r@[i],
                                self.data(),
                                self.url_ptr(self.titles()[ks[i]] as int),
                            ) by {
                                if i < before.len() {
                                    assert(ks[i] == before[i]);
                                }
                            }
                        }
                    }
                },
                Err(_) => {},
            }
            k = k + 1;
        }
        r
    }

    /// The end of cluster `c`: the next cluster's start, or the checksum for the last.
    pub open spec fn cluster_end(&self, c: int) -> int {
        if c + 1 < self.clusters().len() {
            self.clusters()[c + 1] as int
        } else {
            self.head().checksum_pos as int
        }
    }

    /// `r` is the outcome of reading the blob of `entry`.
    pub open spec fn blob_read(&self, entry: DirEntry, r: Result<Vec<u8>, ZimError>) -> bool {
        let c = entry.cluster as int;
        if entry.mimetype == REDIRECT_MIMETYPE || c >= self.clusters().len() {
            r matches Err(ZimError::InvalidEntry)
        } else {
            let start = self.clusters()[c] as int;
            let end = self.cluster_end(c);
            if !(start < end <= self.data().len()) {
                r matches Err(ZimError::InvalidEntry)
            } else {
                let flags = self.data()[start];
                let codec = flags % 16;
                let w = if (flags / 16) % 2 == 1 { 8int } else { 4int };
                let body = self.data().subrange(start + 1, end);
                if codec == CODEC_STORED || codec == CODEC_STORED_OLD {
                    blob_result(blob_in(body, w, entry.blob_index as int), r)
                } else if codec == CODEC_XZ {
                    match xz_decoded(body) {
                        Some(d) => blob_result(blob_in(d, w, entry.blob_index as int), r),
                        None => r matches Err(ZimError::Decompress(_)),
                    }
                } else {
                    r matches Err(ZimError::UnsupportedCompression(k)) && k == codec
                }
            }
        }
    }

    /// A blob index at or past the blob count of its cluster gives the
    /// invalid-entry failure, and no bytes are read outside the cluster.
    pub proof fn lemma_blob_bounds(&self, entry: DirEntry, d: Seq<u8>, w: int, r: Result<Vec<u8>, ZimError>)
        requires
            w == 4 || w == 8,
            d.len() >= w,
            entry.blob_index + 1 >= blob_offset(d, w, 0) / w,
        ensures
            blob_in(d, w, entry.blob_index as int) is None,
            blob_result(blob_in(d, w, entry.blob_index as int), r) ==> r matches Err(ZimError::InvalidEntry),
    {
    }

    /// The blob of an entry depends on its mimetype, cluster and blob index
    /// alone, and is one byte sequence.
    pub proof fn lemma_blob_read_unique(&self, e1: DirEntry, e2: DirEntry, v1: Vec<u8>, v2: Vec<u8>)
        requires
            e1.mimetype == e2.mimetype,
            e1.cluster == e2.cluster,
            e1.blob_index == e2.blob_index,
            self.blob_read(e1, Ok(v1)),
        ensures
            self.blob_read(e2, Ok(v1)),
            self.blob_read(e2, Ok(v2)) ==> v1@ == v2@,
    {
    }

    /// Two reads of one entry of the URL table agree.
    pub proof fn lemma_entry_unique(&self, i: int, e1: DirEntry, e2: DirEntry)
        requires
            self.entry_result(i, Ok(e1)),
            self.entry_result(i, Ok(e2)),
        ensures
            e1.mimetype == e2.mimetype,
            e1.cluster == e2.cluster,
            e1.blob_index == e2.blob_index,
            e1.namespace == e2.namespace,
            e1.path@ == e2.path@,
    {
    }

    /// Reads the bytes of the blob that `entry` points to.
    pub fn read_blob(&self, entry: &DirEntry) -> (r: Result<Vec<u8>, ZimError>)
        requires
            self.wf(),
        ensures
            self.blob_read(*entry, r),
    {
        if entry.mimetype == REDIRECT_MIMETYPE {
            return Err(ZimError::InvalidEntry);
        }
        let c = entry.cluster as usize;
        if c >= self.cluster_ptrs.len() {
            return Err(ZimError::InvalidEntry);
        }
        let start = self.cluster_ptrs[c];
        let end = if c + 1 < self.cluster_ptrs.len() {
            self.cluster_ptrs[c + 1]
        } else {
            self.header.checksum_pos
        };
        let n = self.data.len();
        if start >= end || end > n as u64 {
            return Err(ZimError::InvalidEntry);
        }
        let flags = self.data[start as usize];
        let codec = flags % 16;
        let extended = (flags / 16) % 2 == 1;
        let body = &self.data.as_slice()[start as usize + 1..end as usize];
        assert(body@ =~= self.data().subrange(start + 1, end as int));
        if codec == CODEC_STORED || codec == CODEC_STORED_OLD {
            blob_from_cluster(body, extended, entry.blob_index)
        } else if codec == CODEC_XZ {
            match xz_decompress(body) {
                Ok(d) => blob_from_cluster(d.as_slice(), extended, entry.blob_index),
                Err(m) => Err(ZimError::Decompress(m)),
            }
        } else {
            Err(ZimError::UnsupportedCompression(codec))
        }
    }

    /// Reads the blob of `entry` as UTF-8 text.
    pub fn get_article_html(&self, entry: &DirEntry) -> (r: Result<String, ZimError>)
        requires
            self.wf(),
        ensures
            match r {
                Ok(s) => exists|v: Vec<u8>|
                    self.blob_read(*entry, Ok(v)) && valid_utf8(v@) && s@ == decode_utf8(v@),
                Err(ZimError::Utf8) => exists|v: Vec<u8>|
                    self.blob_read(*entry, Ok(v)) && !valid_utf8(v@),
                Err(e) => self.blob_read(*entry, Err(e)),
            },
    {
        match self.read_blob(entry) {
            Ok(v) => {
                match utf8_string(v) {
                    Some(s) => Ok(s),
                    None => Err(ZimError::Utf8),
                }
            },
            Err(e) => Err(e),
        }
    }
}

} // verus!
