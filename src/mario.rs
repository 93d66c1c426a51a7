//! Mario's pyramids of `#`.

use vstd::prelude::*;
use crate::text::string_from_chars;

verus! {

/// `n` copies of `c`.
pub open spec fn repeat(c: char, n: nat) -> Seq<char> {
    Seq::new(n, |i: int| c)
}

/// Row `i` (from 0) of a right-aligned pyramid of the given height, with
/// its newline; with `double`, a gap of two spaces and a mirrored half follow.
pub open spec fn pyramid_row(height: nat, i: nat, double: bool) -> Seq<char> {
    let left = repeat(' ', (height - i - 1) as nat) + repeat('#', i + 1);
    if double {
        left + seq![' ', ' '] + repeat('#', i + 1) + seq!['\n']
    } else {
        left + seq!['\n']
    }
}

/// The rows before row `k`.
pub open spec fn pyramid_rows(height: nat, k: nat, double: bool) -> Seq<char>
    decreases k,
{
    if k == 0 {
        Seq::empty()
    } else {
        pyramid_rows(height, (k - 1) as nat, double) + pyramid_row(height, (k - 1) as nat, double)
    }
}

fn push_repeat(out: &mut Vec<char>, c: char, n: usize)
    ensures
        final(out)@ == old(out)@ + repeat(c, n as nat),
{
    let mut k: usize = 0;
    while k < n
        invariant
            k <= n,
            out@ == old(out)@ + repeat(c, k as nat),
        decreases n - k,
    {
        out.push(c);
        assert(out@ =~= old(out)@ + repeat(c, (k + 1) as nat));
        k = k + 1;
    }
}

/// The pyramid of the given height, one row per line; `double` adds the
/// mirrored half after a gap of two spaces.
pub fn pyramid(height: usize, double: bool) -> (r: String)
    requires
        height <= 8,
    ensures
        r@ == pyramid_rows(height as nat, height as nat, double),
{
    let mut out: Vec<char> = Vec::new();
    let mut i: usize = 0;
    while i < height
        invariant
            height <= 8,
            i <= height,
            out@ == pyramid_rows(height as nat, i as nat, double),
        decreases height - i,
    {
        let ghost before = out@;
        push_repeat(&mut out, ' ', height - i - 1);
        push_repeat(&mut out, '#', i + 1);
        if double {
            out.push(' ');
            out.push(' ');
            push_repeat(&mut out, '#', i + 1);
        }
        out.push('\n');
        assert(out@ =~= before + pyramid_row(height as nat, i as nat, double));
        i = i + 1;
    }
    string_from_chars(&out)
}

} // verus!
