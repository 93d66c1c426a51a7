//! Little-endian integers in byte buffers.

use vstd::prelude::*;
use vstd::arithmetic::div_mod::lemma_fundamental_div_mod_converse;

verus! {

/// Copies a slice of two bytes into an array.
pub fn slice2(slice: &[u8]) -> (r: [u8; 2])
    requires
        slice@.len() == 2,
    ensures
        r@ == slice@,
{
    let r = [slice[0], slice[1]];
    assert(r@ =~= slice@);
    r
}

/// Copies a slice of four bytes into an array.
pub fn slice4(slice: &[u8]) -> (r: [u8; 4])
    requires
        slice@.len() == 4,
    ensures
        r@ == slice@,
{
    let r = [slice[0], slice[1], slice[2], slice[3]];
    assert(r@ =~= slice@);
    r
}

/// The value of two bytes, lowest first.
pub open spec fn le16(b: Seq<u8>, at: int) -> int {
    b[at] + 256 * b[at + 1]
}

/// The value of four bytes, lowest first.
pub open spec fn le32(b: Seq<u8>, at: int) -> int {
    b[at] + 256 * b[at + 1] + 65536 * b[at + 2] + 16777216 * b[at + 3]
}

/// The value of four bytes, lowest first, in two's complement.
pub open spec fn le32_signed(b: Seq<u8>, at: int) -> int {
    if le32(b, at) < 0x8000_0000 {
        le32(b, at)
    } else {
        le32(b, at) - 0x1_0000_0000
    }
}

/// The two bytes of a value, lowest first.
pub open spec fn bytes16(v: u16) -> Seq<u8> {
    seq![(v % 256) as u8, (v / 256) as u8]
}

/// The four bytes of a value, lowest first.
pub open spec fn bytes32(v: u32) -> Seq<u8> {
    seq![(v % 256) as u8, ((v / 256) % 256) as u8, ((v / 256 / 256) % 256) as u8, (v / 256 / 256 / 256) as u8]
}

/// The four bytes of a value in two's complement, lowest first.
pub open spec fn bytes32_signed(v: i32) -> Seq<u8> {
    bytes32(if v >= 0 { v as u32 } else { (v + 0x1_0000_0000) as u32 })
}

/// Reads two bytes at `at`, lowest first.
pub fn read_u16(b: &[u8], at: usize) -> (r: u16)
    requires
        at + 2 <= b@.len(),
    ensures
        r == le16(b@, at as int),
{
    b[at] as u16 + 256 * (b[at + 1] as u16)
}

/// Reads four bytes at `at`, lowest first.
pub fn read_u32(b: &[u8], at: usize) -> (r: u32)
    requires
        at + 4 <= b@.len(),
    ensures
        r == le32(b@, at as int),
{
    b[at] as u32 + 256 * (b[at + 1] as u32) + 65536 * (b[at + 2] as u32) + 16777216 * (b[at + 3] as u32)
}

/// Reads four bytes at `at`, lowest first, in two's complement.
pub fn read_i32(b: &[u8], at: usize) -> (r: i32)
    requires
        at + 4 <= b@.len(),
    ensures
        r == le32_signed(b@, at as int),
{
    let v = read_u32(b, at);
    if v < 0x8000_0000 {
        v as i32
    } else {
        (v as i64 - 0x1_0000_0000) as i32
    }
}

/// Appends the two bytes of a value, lowest first.
pub fn push_u16(out: &mut Vec<u8>, v: u16)
    ensures
        final(out)@ == old(out)@ + bytes16(v),
{
    out.push((v % 256) as u8);
    out.push((v / 256) as u8);
    assert(final(out)@ =~= old(out)@ + bytes16(v));
}

/// Appends the four bytes of a value, lowest first.
pub fn push_u32(out: &mut Vec<u8>, v: u32)
    ensures
        final(out)@ == old(out)@ + bytes32(v),
{
    out.push((v % 256) as u8);
    out.push(((v / 256) % 256) as u8);
    out.push(((v / 256 / 256) % 256) as u8);
    out.push((v / 256 / 256 / 256) as u8);
    assert(final(out)@ =~= old(out)@ + bytes32(v));
}

/// Appends the four bytes of a value in two's complement, lowest first.
pub fn push_i32(out: &mut Vec<u8>, v: i32)
    ensures
        final(out)@ == old(out)@ + bytes32_signed(v),
{
    let u: u32 = if v >= 0 { v as u32 } else { (v as i64 + 0x1_0000_0000) as u32 };
    push_u32(out, u);
}

/// Reading back the bytes of a value gives the value.
pub proof fn lemma_u16_round_trip(v: u16)
    ensures
        le16(bytes16(v), 0) == v,
{
}

/// Reading back the bytes of a value gives the value.
pub proof fn lemma_u32_round_trip(v: u32)
    ensures
        le32(bytes32(v), 0) == v,
{
}

/// The bytes of a value read from bytes are those bytes.
pub proof fn lemma_bytes16_of_le16(b: Seq<u8>, at: int)
    requires
        0 <= at,
        at + 2 <= b.len(),
    ensures
        bytes16(le16(b, at) as u16) == b.subrange(at, at + 2),
{
    lemma_fundamental_div_mod_converse(le16(b, at), 256, b[at + 1] as int, b[at] as int);
    assert(bytes16(le16(b, at) as u16) =~= b.subrange(at, at + 2));
}

/// The bytes of a value read from bytes are those bytes.
pub proof fn lemma_bytes32_of_le32(b: Seq<u8>, at: int)
    requires
        0 <= at,
        at + 4 <= b.len(),
    ensures
        bytes32(le32(b, at) as u32) == b.subrange(at, at + 4),
{
    let v = le32(b, at);
    let q1 = b[at + 1] + 256 * b[at + 2] + 65536 * b[at + 3];
    let q2 = b[at + 2] + 256 * b[at + 3];
    lemma_fundamental_div_mod_converse(v, 256, q1, b[at] as int);
    lemma_fundamental_div_mod_converse(q1, 256, q2, b[at + 1] as int);
    lemma_fundamental_div_mod_converse(q2, 256, b[at + 3] as int, b[at + 2] as int);
    assert(bytes32(v as u32) =~= b.subrange(at, at + 4));
}

} // verus!
