//! What a greeting earns: $100 for "hello", $20 for another greeting
//! starting with "h", $0 otherwise (ASCII case ignored).

use vstd::prelude::*;
use crate::substitution::ascii_lower;

verus! {

/// The amount a greeting earns: 100 for "hello", 20 for another greeting
/// starting with "h", 0 otherwise (ASCII case ignored).
pub open spec fn greeting_amount(g: Seq<char>) -> u32 {
    if g.len() > 0 && ascii_lower(g[0]) == 'h' {
        if g.len() == 5 && ascii_lower(g[1]) == 'e' && ascii_lower(g[2]) == 'l' && ascii_lower(g[3]) == 'l'
            && ascii_lower(g[4]) == 'o' {
            100
        } else {
            20
        }
    } else {
        0
    }
}

fn lower(ch: char) -> (r: char)
    ensures
        r == ascii_lower(ch),
{
    if 'A' <= ch && ch <= 'Z' {
        ((ch as u32 - 65) as u8 + 97) as char
    } else {
        ch
    }
}

/// The amount for a greeting.
pub fn greeting_value(greeting: &str) -> (r: u32)
    ensures
        r == greeting_amount(greeting@),
{
    let g = crate::text::chars_of(greeting);
    if g.len() > 0 && lower(g[0]) == 'h' {
        if g.len() == 5 && lower(g[1]) == 'e' && lower(g[2]) == 'l' && lower(g[3]) == 'l' && lower(g[4]) == 'o' {
            100
        } else {
            20
        }
    } else {
        0
    }
}

} // verus!
