//! Caesar's cipher: letters shifted along the alphabet.

use vstd::prelude::*;
use crate::text::{chars_of, string_from_chars};

verus! {

/// Character `ch` shifted by `key` places, wrapping around; other
/// characters are kept.
pub open spec fn shift_char(ch: char, key: int) -> char {
    if 'a' <= ch <= 'z' {
        (('a' as int) + ((ch as int - 'a' as int) + key) % 26) as char
    } else if 'A' <= ch <= 'Z' {
        (('A' as int) + ((ch as int - 'A' as int) + key) % 26) as char
    } else {
        ch
    }
}

/// Shifts a letter of the range starting at `base` by `key` places.
fn shift_in(ch: char, base: u8, key: i32) -> (r: char)
    requires
        base as int <= ch as int <= base as int + 25,
        base as int + 25 < 256,
        key >= 0,
    ensures
        r == ((base as int) + ((ch as int - base as int) + key) % 26) as char,
{
    let offset = (ch as u32 - base as u32) as i32;
    let shifted = (offset + key % 26) % 26;
    proof {
        vstd::arithmetic::div_mod::lemma_add_mod_noop(offset as int, key as int, 26);
        vstd::arithmetic::div_mod::lemma_mod_twice(key as int, 26);
        vstd::arithmetic::div_mod::lemma_add_mod_noop(offset as int, (key % 26) as int, 26);
    }
    (base + shifted as u8) as char
}

/// Encrypts a text with Caesar's cipher, shifting letters by `key` places.
pub fn caesar(text: &str, key: i32) -> (r: String)
    requires
        key >= 0,
    ensures
        r@.len() == text@.len(),
        forall|i: int| 0 <= i < text@.len() ==> #[trigger] r@[i] == shift_char(text@[i], key as int),
{
    let chars = chars_of(text);
    let mut out: Vec<char> = Vec::new();
    let mut i: usize = 0;
    while i < chars.len()
        invariant
            key >= 0,
            chars@ == text@,
            i <= chars@.len(),
            out@.len() == i,
            forall|j: int| 0 <= j < i ==> #[trigger] out@[j] == shift_char(chars@[j], key as int),
        decreases chars@.len() - i,
    {
        let ch = chars[i];
        let c = if 'a' <= ch && ch <= 'z' {
            shift_in(ch, 97, key)
        } else if 'A' <= ch && ch <= 'Z' {
            shift_in(ch, 65, key)
        } else {
            ch
        };
        out.push(c);
        i = i + 1;
    }
    string_from_chars(&out)
}

} // verus!
