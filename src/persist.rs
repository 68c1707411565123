//! The two persisted artifacts of a session, in bincode's standard encoding:
//! the interned vocabulary as a list of strings, and the pages as a list of
//! key and link targets.

use vstd::prelude::*;
use crate::page::views;

verus! {

/// The bytes that encode a list of strings.
pub uninterp spec fn vocabulary_bytes(v: Seq<Seq<char>>) -> Seq<u8>;

/// The bytes that encode a list of pages, each a key and its link targets.
pub uninterp spec fn graph_bytes(e: Seq<(u32, Seq<u32>)>) -> Seq<u8>;

pub open spec fn entries_view(e: Seq<(u32, Vec<u32>)>) -> Seq<(u32, Seq<u32>)> {
    e.map_values(|x: (u32, Vec<u32>)| (x.0, x.1@))
}

/// What the bytes `b` decode to as a list of strings, if anything.
pub uninterp spec fn vocabulary_decoded(b: Seq<u8>) -> Option<Seq<Seq<char>>>;

/// What the bytes `b` decode to as a list of pages, if anything.
pub uninterp spec fn graph_decoded(b: Seq<u8>) -> Option<Seq<(u32, Seq<u32>)>>;

/// The largest artifact that is sure to decode: 4 GiB. The decoders hold what
/// they allocate to 1 TiB, which decoding an encoding of at most this size
/// never claims.
pub open spec fn max_artifact() -> int {
    4294967296
}

/// `r` is what `b` decodes to; where `b`, of at most `max_artifact()` bytes, is
/// the encoding of a list of strings, that list.
pub open spec fn decodes_vocabulary(b: Seq<u8>, r: Option<Vec<String>>) -> bool {
    forall|v: Seq<Seq<char>>| #[trigger] vocabulary_bytes(v) == b && b.len() <= max_artifact()
        ==> (r matches Some(x) && views(x@) == v)
}

/// `r` is what `b` decodes to; where `b`, of at most `max_artifact()` bytes, is
/// the encoding of a list of pages, that list.
pub open spec fn decodes_graph(b: Seq<u8>, r: Option<Vec<(u32, Vec<u32>)>>) -> bool {
    forall|e: Seq<(u32, Seq<u32>)>| #[trigger] graph_bytes(e) == b && b.len() <= max_artifact()
        ==> (r matches Some(x) && entries_view(x@) == e)
}

/// Relies on `bincode::encode_to_vec` with `bincode::config::standard()`:
/// strings, `u32` values and vectors of them encode into a growing `Vec`
/// without error.
#[verifier::external_body]
pub(crate) fn encode_vocabulary(v: &Vec<String>) -> (r: Option<Vec<u8>>)
    ensures
        r is Some,
        r matches Some(b) ==> b@ == vocabulary_bytes(views(v@)),
{
    bincode::encode_to_vec(v, bincode::config::standard()).ok()
}

/// Relies on `bincode::decode_from_slice` with `bincode::config::standard()`
/// and a limit of 1 TiB: the result depends on the bytes
/// alone; a claimed length past the limit is an error, not an allocation;
/// what `encode_to_vec` made of a list of strings decodes to that list.
#[verifier::external_body]
pub(crate) fn decode_vocabulary(b: &[u8]) -> (r: Option<Vec<String>>)
    ensures
        r is Some <==> vocabulary_decoded(b@) is Some,
        r matches Some(x) ==> vocabulary_decoded(b@) == Some(views(x@)),
        decodes_vocabulary(b@, r),
{
    let config = bincode::config::standard().with_limit::<1099511627776>();
    bincode::decode_from_slice::<Vec<String>, _>(b, config).ok().map(|d| d.0)
}

/// Relies on `bincode::encode_to_vec` with `bincode::config::standard()`:
/// strings, `u32` values and vectors of them encode into a growing `Vec`
/// without error.
#[verifier::external_body]
pub(crate) fn encode_graph(e: &Vec<(u32, Vec<u32>)>) -> (r: Option<Vec<u8>>)
    ensures
        r is Some,
        r matches Some(b) ==> b@ == graph_bytes(entries_view(e@)),
{
    bincode::encode_to_vec(e, bincode::config::standard()).ok()
}

/// Relies on `bincode::decode_from_slice` with `bincode::config::standard()`
/// and a limit of 1 TiB: the result depends on the bytes
/// alone; a claimed length past the limit is an error, not an allocation;
/// what `encode_to_vec` made of a list of pages decodes to that list.
#[verifier::external_body]
pub(crate) fn decode_graph(b: &[u8]) -> (r: Option<Vec<(u32, Vec<u32>)>>)
    ensures
        r is Some <==> graph_decoded(b@) is Some,
        r matches Some(x) ==> graph_decoded(b@) == Some(entries_view(x@)),
        decodes_graph(b@, r),
{
    let config = bincode::config::standard().with_limit::<1099511627776>();
    bincode::decode_from_slice::<Vec<(u32, Vec<u32>)>, _>(b, config).ok().map(|d| d.0)
}

/// Why persisted artifacts could not be loaded.
pub enum PersistError {
    /// The vocabulary does not decode, or repeats a string.
    Vocabulary,
    /// The pages do not decode, or name a key the vocabulary lacks.
    Graph,
}

} // verus!
