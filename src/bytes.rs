//! Little-endian integers and NUL-terminated records in a byte buffer.

use vstd::prelude::*;

verus! {

/// The value of the two bytes at `p`, least significant first.
pub open spec fn le_u16(b: Seq<u8>, p: int) -> int {
    b[p] as int + b[p + 1] as int * 256
}

/// The value of the four bytes at `p`, least significant first.
pub open spec fn le_u32(b: Seq<u8>, p: int) -> int {
    le_u16(b, p) + le_u16(b, p + 2) * 65536
}

/// The value of the eight bytes at `p`, least significant first.
pub open spec fn le_u64(b: Seq<u8>, p: int) -> int {
    le_u32(b, p) + le_u32(b, p + 4) * 4294967296
}

/// `e` is the first NUL byte at or after `s`.
pub open spec fn first_nul(b: Seq<u8>, s: int, e: int) -> bool {
    &&& 0 <= s <= e < b.len()
    &&& b[e] == 0
    &&& forall|k: int| s <= k < e ==> b[k] != 0
}

/// No NUL byte stands at or after `s`.
pub open spec fn no_nul_from(b: Seq<u8>, s: int) -> bool {
    forall|k: int| s <= k < b.len() ==> b[k] != 0
}

pub fn read_u16(b: &[u8], p: usize) -> (r: u16)
    requires
        p + 2 <= b@.len(),
    ensures
        r as int == le_u16(b@, p as int),
{
    b[p] as u16 + b[p + 1] as u16 * 256
}

pub fn read_u32(b: &[u8], p: usize) -> (r: u32)
    requires
        p + 4 <= b@.len(),
    ensures
        r as int == le_u32(b@, p as int),
{
    let n = b.len();
    assert(p + 2 <= n);
    let lo = read_u16(b, p);
    let hi = read_u16(b, p + 2);
    lo as u32 + hi as u32 * 65536
}

pub fn read_u64(b: &[u8], p: usize) -> (r: u64)
    requires
        p + 8 <= b@.len(),
    ensures
        r as int == le_u64(b@, p as int),
{
    let n = b.len();
    assert(p + 4 <= n);
    let lo = read_u32(b, p);
    let hi = read_u32(b, p + 4);
    lo as u64 + hi as u64 * 4294967296
}

/// Finds the NUL byte that ends the record starting at `s`.
pub fn find_nul(b: &[u8], s: usize) -> (r: Option<usize>)
    requires
        s <= b@.len(),
    ensures
        match r {
            Some(e) => first_nul(b@, s as int, e as int),
            None => no_nul_from(b@, s as int),
        },
{
    let mut e: usize = s;
    while e < b.len()
        invariant
            s <= e <= b@.len(),
            forall|k: int| s <= k < e ==> b@[k] != 0,
        decreases b@.len() - e,
    {
        if b[e] == 0 {
            return Some(e);
        }
        e = e + 1;
    }
    None
}

/// Copies `b[s..e]` into a new vector.
pub fn copy_range(b: &[u8], s: usize, e: usize) -> (r: Vec<u8>)
    requires
        s <= e <= b@.len(),
    ensures
        r@ == b@.subrange(s as int, e as int),
{
    let mut r: Vec<u8> = Vec::with_capacity(e - s);
    let mut i: usize = s;
    while i < e
        invariant
            s <= i <= e <= b@.len(),
            r@ == b@.subrange(s as int, i as int),
        decreases e - i,
    {
        r.push(b[i]);
        i = i + 1;
    }
    r
}

} // verus!
