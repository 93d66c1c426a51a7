//! Scrabble scores of words.

use vstd::prelude::*;

verus! {

/// Points of each letter, from `a` to `z`.
pub open spec fn letter_values() -> Seq<i32> {
    seq![1, 3, 3, 2, 1, 4, 2, 4, 1, 8, 5, 1, 3, 1, 1, 3, 10, 1, 1, 1, 1, 4, 4, 8, 4, 10]
}

/// The position of a letter in the alphabet, either case; none for other characters.
pub open spec fn letter_index(ch: char) -> Option<int> {
    if 'a' <= ch <= 'z' {
        Some(ch as int - 'a' as int)
    } else if 'A' <= ch <= 'Z' {
        Some(ch as int - 'A' as int)
    } else {
        None
    }
}

/// The points of one character: its letter's value, 0 for anything else.
pub open spec fn char_points(ch: char) -> int {
    match letter_index(ch) {
        Some(i) => letter_values()[i] as int,
        None => 0,
    }
}

/// The points of a text: the sum of its characters' points.
pub open spec fn text_points(s: Seq<char>) -> int
    decreases s.len(),
{
    if s.len() == 0 {
        0
    } else {
        text_points(s.drop_last()) + char_points(s.last())
    }
}

/// The points of each letter.
pub struct PointsTable {
    table: Vec<i32>,
}

impl PointsTable {
    /// The table is the standard one.
    pub closed spec fn wf(&self) -> bool {
        self.table@ == letter_values()
    }

    /// Creates the standard table of letter points.
    pub fn new() -> (r: Self)
        ensures
            r.wf(),
    {
        let table = vec![1, 3, 3, 2, 1, 4, 2, 4, 1, 8, 5, 1, 3, 1, 1, 3, 10, 1, 1, 1, 1, 4, 4, 8, 4, 10];
        let r = PointsTable { table };
        assert(r.table@ =~= letter_values());
        r
    }

    /// The points of a character; letters count in either case, other characters are worth 0.
    pub fn get(&self, ch: char) -> (r: i32)
        requires
            self.wf(),
        ensures
            r == char_points(ch),
            0 <= r <= 10,
    {
        if 'a' <= ch && ch <= 'z' {
            let i = (ch as u32 - 'a' as u32) as usize;
            self.table[i]
        } else if 'A' <= ch && ch <= 'Z' {
            let i = (ch as u32 - 'A' as u32) as usize;
            self.table[i]
        } else {
            0
        }
    }

    /// The points of a word.
    pub fn get_points(&self, string: &str) -> (r: i32)
        requires
            self.wf(),
            string@.len() <= i32::MAX / 10,
        ensures
            r == text_points(string@),
    {
        let chars = crate::text::chars_of(string);
        let mut score: i32 = 0;
        let mut i: usize = 0;
        while i < chars.len()
            invariant
                self.wf(),
                chars@ == string@,
                chars@.len() <= i32::MAX / 10,
                i <= chars@.len(),
                score == text_points(chars@.take(i as int)),
                0 <= score <= 10 * i,
            decreases chars@.len() - i,
        {
            let p = self.get(chars[i]);
            assert(chars@.take(i + 1).drop_last() =~= chars@.take(i as int));
            score = score + p;
            i = i + 1;
        }
        assert(chars@.take(i as int) =~= chars@);
        score
    }
}

} // verus!
