//! Recovering JPEG files from a raw image, block by block.

use vstd::prelude::*;
use crate::text::{decimal, push_decimal, string_from_chars};

verus! {

/// Memory block size.
pub const BLOCK_SIZE: usize = 512;

/// The block starts with a JPEG signature: `ff d8 ff`, then a byte whose high
/// half is `e`.
pub open spec fn jpeg_start(b: Seq<u8>) -> bool {
    b.len() >= 4 && b[0] == 0xff && b[1] == 0xd8 && b[2] == 0xff && b[3] / 16 == 0x0e
}

/// Checks if a block starts a JPEG file.
pub fn is_jpeg_start(block: &[u8]) -> (r: bool)
    ensures
        r == jpeg_start(block@),
{
    block.len() >= 4 && block[0] == 0xff && block[1] == 0xd8 && block[2] == 0xff && block[3] / 16 == 0x0e
}

/// The digits of `n`, padded with `0` on the left to at least three.
pub open spec fn padded3(n: nat) -> Seq<char> {
    let d = decimal(n);
    if d.len() >= 3 {
        d
    } else {
        Seq::new((3 - d.len()) as nat, |i: int| '0') + d
    }
}

/// The name of the `i`-th recovered file: its number padded to three digits,
/// then `.jpeg`.
pub fn filename(i: u32) -> (r: String)
    ensures
        r@ == padded3(i as nat) + seq!['.', 'j', 'p', 'e', 'g'],
{
    let mut digits: Vec<char> = Vec::new();
    push_decimal(&mut digits, i as u64);
    assert(digits@ =~= decimal(i as nat));
    let mut out: Vec<char> = Vec::new();
    let mut k: usize = digits.len();
    while k < 3
        invariant
            digits.len() <= k <= 3 || (k == digits.len() && k >= 3),
            out@ == Seq::new((k - digits@.len()) as nat, |j: int| '0'),
        decreases 3 - k,
    {
        out.push('0');
        assert(out@ =~= Seq::new((k + 1 - digits@.len()) as nat, |j: int| '0'));
        k = k + 1;
    }
    let mut t: usize = 0;
    let ghost zeros = out@;
    while t < digits.len()
        invariant
            t <= digits@.len(),
            out@ == zeros + digits@.take(t as int),
        decreases digits@.len() - t,
    {
        out.push(digits[t]);
        assert(out@ =~= zeros + digits@.take(t + 1));
        t = t + 1;
    }
    out.push('.');
    out.push('j');
    out.push('p');
    out.push('e');
    out.push('g');
    proof {
        assert(digits@.take(t as int) =~= digits@);
        if digits@.len() >= 3 {
            assert(zeros =~= Seq::<char>::empty());
        }
    }
    assert(out@ =~= padded3(i as nat) + seq!['.', 'j', 'p', 'e', 'g']);
    string_from_chars(&out)
}

} // verus!
