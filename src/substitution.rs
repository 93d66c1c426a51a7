//! Substitution cipher: each letter replaced by the key's letter at its place.

use vstd::prelude::*;
use crate::text::{chars_of, string_from_chars};

verus! {

/// An ASCII letter.
pub open spec fn is_letter(ch: char) -> bool {
    ('a' <= ch <= 'z') || ('A' <= ch <= 'Z')
}

/// The lower-case form of an ASCII letter; other characters are kept.
pub open spec fn ascii_lower(ch: char) -> char {
    if 'A' <= ch <= 'Z' {
        (ch as int + 32) as char
    } else {
        ch
    }
}

/// A key is 26 ASCII letters, the substitutes of `a` to `z` in order.
pub open spec fn valid_key(key: Seq<char>) -> bool {
    key.len() == 26 && forall|i: int| 0 <= i < 26 ==> is_letter(#[trigger] key[i])
}

/// A lower-case letter becomes the lower-case form of its key letter, an
/// upper-case letter becomes its key letter as given; other characters stay.
pub open spec fn substitute(ch: char, key: Seq<char>) -> char {
    if 'a' <= ch <= 'z' {
        ascii_lower(key[ch as int - 'a' as int])
    } else if 'A' <= ch <= 'Z' {
        key[ch as int - 'A' as int]
    } else {
        ch
    }
}

fn to_ascii_lower(ch: char) -> (r: char)
    ensures
        r == ascii_lower(ch),
{
    if 'A' <= ch && ch <= 'Z' {
        ((ch as u32 - 65) as u8 + 97) as char
    } else {
        ch
    }
}

/// Encrypts a text with a substitution key; a key that is not 26 ASCII
/// letters gives the error "Invalid Key".
pub fn substitution_cipher(text: &str, key: &str) -> (r: Result<String, String>)
    ensures
        r is Ok <==> valid_key(key@),
        r matches Ok(s) ==> s@.len() == text@.len() && forall|i: int|
            0 <= i < text@.len() ==> #[trigger] s@[i] == substitute(text@[i], key@),
        r matches Err(e) ==> e@ == "Invalid Key"@,
{
    let k = chars_of(key);
    let mut valid = k.len() == 26;
    let mut i: usize = 0;
    while valid && i < k.len()
        invariant
            k@ == key@,
            i <= k@.len(),
            valid ==> k@.len() == 26 && forall|j: int| 0 <= j < i ==> is_letter(#[trigger] k@[j]),
            !valid ==> !valid_key(key@),
        decreases k@.len() - i,
    {
        let ch = k[i];
        if !(('a' <= ch && ch <= 'z') || ('A' <= ch && ch <= 'Z')) {
            valid = false;
        }
        i = i + 1;
    }
    if !valid {
        return Err("Invalid Key".to_owned());
    }
    let chars = chars_of(text);
    let mut out: Vec<char> = Vec::new();
    let mut j: usize = 0;
    while j < chars.len()
        invariant
            k@ == key@,
            valid_key(key@),
            chars@ == text@,
            j <= chars@.len(),
            out@.len() == j,
            forall|t: int| 0 <= t < j ==> #[trigger] out@[t] == substitute(chars@[t], key@),
        decreases chars@.len() - j,
    {
        let ch = chars[j];
        let c = if 'a' <= ch && ch <= 'z' {
            to_ascii_lower(k[(ch as u32 - 97) as usize])
        } else if 'A' <= ch && ch <= 'Z' {
            k[(ch as u32 - 65) as usize]
        } else {
            ch
        };
        out.push(c);
        j = j + 1;
    }
    Ok(string_from_chars(&out))
}

} // verus!
