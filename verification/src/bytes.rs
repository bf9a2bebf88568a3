//! Fixed-width integers in byte sequences.
use vstd::prelude::*;

verus! {

/// The little-endian value of the two bytes at `p`.
pub open spec fn le16(b: Seq<u8>, p: int) -> int {
    b[p] + 0x100 * b[p + 1]
}

/// The little-endian value of the four bytes at `p`.
pub open spec fn le32(b: Seq<u8>, p: int) -> int {
    le16(b, p) + 0x1_0000 * le16(b, p + 2)
}

/// The little-endian value of the eight bytes at `p`.
pub open spec fn le64(b: Seq<u8>, p: int) -> int {
    le32(b, p) + 0x1_0000_0000 * le32(b, p + 4)
}

/// The big-endian value of the four bytes at `p`.
pub open spec fn be32(b: Seq<u8>, p: int) -> int {
    0x100_0000 * b[p] + 0x1_0000 * b[p + 1] + 0x100 * b[p + 2] + b[p + 3]
}

/// The big-endian value of the eight bytes at `p`.
pub open spec fn be64(b: Seq<u8>, p: int) -> int {
    0x1_0000_0000 * be32(b, p) + be32(b, p + 4)
}

/// The two little-endian bytes of `v`.
pub open spec fn le16_bytes(v: u16) -> Seq<u8> {
    seq![(v % 0x100) as u8, (v / 0x100) as u8]
}

/// The four little-endian bytes of `v`.
pub open spec fn le32_bytes(v: u32) -> Seq<u8> {
    le16_bytes((v % 0x1_0000) as u16) + le16_bytes((v / 0x1_0000) as u16)
}

/// The eight little-endian bytes of `v`.
pub open spec fn le64_bytes(v: u64) -> Seq<u8> {
    le32_bytes((v % 0x1_0000_0000) as u32) + le32_bytes((v / 0x1_0000_0000) as u32)
}

pub fn get_le16(b: &[u8], p: usize) -> (r: u16)
    requires
        p + 2 <= b.len(),
    ensures
        r == le16(b@, p as int),
{
    b[p] as u16 + 0x100 * b[p + 1] as u16
}

pub fn get_le32(b: &[u8], p: usize) -> (r: u32)
    requires
        p + 4 <= b.len(),
    ensures
        r == le32(b@, p as int),
{
    get_le16(b, p) as u32 + 0x1_0000 * get_le16(b, p + 2) as u32
}

pub fn get_le64(b: &[u8], p: usize) -> (r: u64)
    requires
        p + 8 <= b.len(),
    ensures
        r == le64(b@, p as int),
{
    get_le32(b, p) as u64 + 0x1_0000_0000 * get_le32(b, p + 4) as u64
}

pub fn get_be32(b: &[u8], p: usize) -> (r: u32)
    requires
        p + 4 <= b.len(),
    ensures
        r == be32(b@, p as int),
{
    0x100_0000 * b[p] as u32 + 0x1_0000 * b[p + 1] as u32 + 0x100 * b[p + 2] as u32 + b[p
        + 3] as u32
}

pub fn get_be64(b: &[u8], p: usize) -> (r: u64)
    requires
        p + 8 <= b.len(),
    ensures
        r == be64(b@, p as int),
{
    0x1_0000_0000 * get_be32(b, p) as u64 + get_be32(b, p + 4) as u64
}

pub fn put_le16(v: u16) -> (r: Vec<u8>)
    ensures
        r@ == le16_bytes(v),
{
    let mut r: Vec<u8> = Vec::new();
    r.push((v % 0x100) as u8);
    r.push((v / 0x100) as u8);
    assert(r@ =~= le16_bytes(v));
    r
}

pub fn put_le32(v: u32) -> (r: Vec<u8>)
    ensures
        r@ == le32_bytes(v),
{
    let mut r: Vec<u8> = put_le16((v % 0x1_0000) as u16);
    let mut high: Vec<u8> = put_le16((v / 0x1_0000) as u16);
    r.append(&mut high);
    r
}

pub fn put_le64(v: u64) -> (r: Vec<u8>)
    ensures
        r@ == le64_bytes(v),
{
    let mut r: Vec<u8> = put_le32((v % 0x1_0000_0000) as u32);
    let mut high: Vec<u8> = put_le32((v / 0x1_0000_0000) as u32);
    r.append(&mut high);
    r
}

/// Reading back what was encoded gives the value, for each width.
pub proof fn decode_inverts_encode(a: u16, b: u32, c: u64)
    ensures
        le16(le16_bytes(a), 0) == a,
        le32(le32_bytes(b), 0) == b,
        le64(le64_bytes(c), 0) == c,
{
    let lo = (c % 0x1_0000_0000) as u32;
    let hi = (c / 0x1_0000_0000) as u32;
    assert(forall|v: u32|
        #![trigger le32_bytes(v)]
        le32(le32_bytes(v), 0) == v && le32_bytes(v).len() == 4);
    assert(le64_bytes(c).subrange(0, 4) =~= le32_bytes(lo));
    assert(le64_bytes(c).subrange(4, 8) =~= le32_bytes(hi));
    assert forall|i: int| 0 <= i < 4 implies le64_bytes(c)[i] == le32_bytes(lo)[i]
        && le64_bytes(c)[i + 4] == le32_bytes(hi)[i] by {
        assert(le64_bytes(c).subrange(0, 4)[i] == le32_bytes(lo)[i]);
        assert(le64_bytes(c).subrange(4, 8)[i] == le32_bytes(hi)[i]);
    }
    assert(le32(le64_bytes(c), 0) == le32(le32_bytes(lo), 0));
    assert(le32(le64_bytes(c), 4) == le32(le32_bytes(hi), 0));
}

} // verus!
