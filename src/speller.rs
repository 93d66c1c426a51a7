//! A hash table of words for spell checking, with chained buckets.

use vstd::prelude::*;
use vstd::utf8::encode_utf8;
use vstd::string::{StrSliceExecFns, StringSliceAdditionalSpecFns};
use crate::text::{lower_of, lowercase};
use crate::tideman::texts;

verus! {

/// A node of a singly linked list.
pub struct ListNode<T> {
    /// The node's data.
    pub data: T,
    /// Next node in the list.
    pub next: Option<Box<ListNode<T>>>,
}

impl<T> ListNode<T> {
    /// The data of this node and the nodes after it, in order.
    pub open spec fn view_seq(&self) -> Seq<T>
        decreases self,
    {
        match self.next {
            None => seq![self.data],
            Some(n) => seq![self.data] + (*n).view_seq(),
        }
    }

    /// Creates a node holding `data` with no successor.
    pub fn new(data: T) -> (r: Self)
        ensures
            r.view_seq() == seq![data],
    {
        ListNode { data, next: None }
    }

    /// Adds a new item at the end of the list that starts here.
    pub fn add(&mut self, data: T)
        ensures
            final(self).view_seq() == old(self).view_seq().push(data),
        decreases old(self).view_seq().len(),
    {
        match &mut self.next {
            Some(next) => {
                proof {
                    lemma_view_len(&**next);
                }
                next.add(data);
                assert(seq![self.data] + next.view_seq() =~= (seq![self.data] + old(self).next->0.view_seq()).push(
                    data,
                ));
            },
            None => {
                self.next = Some(Box::new(ListNode::new(data)));
                assert(self.view_seq() =~= old(self).view_seq().push(data));
            },
        }
    }
}

proof fn lemma_view_len<T>(n: &ListNode<T>)
    ensures
        n.view_seq().len() >= 1,
    decreases n,
{
}

/// A singly linked list.
pub struct List<T> {
    /// The first node in the list.
    pub head: Option<ListNode<T>>,
}

impl<T> List<T> {
    /// The items of the list, in order.
    pub open spec fn view_seq(&self) -> Seq<T> {
        match self.head {
            None => Seq::empty(),
            Some(h) => h.view_seq(),
        }
    }

    /// Creates a new empty linked list.
    pub fn new() -> (r: Self)
        ensures
            r.view_seq() == Seq::<T>::empty(),
    {
        List { head: None }
    }

    /// Adds a new item at the end of the list.
    pub fn add(&mut self, data: T)
        ensures
            final(self).view_seq() == old(self).view_seq().push(data),
    {
        match &mut self.head {
            Some(head) => head.add(data),
            None => {
                self.head = Some(ListNode::new(data));
                assert(self.view_seq() =~= seq![data]);
            },
        }
    }
}

impl List<String> {
    /// Checks if a list holds a word.
    pub fn contains(&self, item: &String) -> (r: bool)
        ensures
            r == exists|i: int| 0 <= i < self.view_seq().len() && (#[trigger] self.view_seq()[i])@ == item@,
    {
        match &self.head {
            None => {
                assert(self.view_seq().len() == 0);
                false
            },
            Some(h) => {
                assert(self.view_seq() == h.view_seq());
                node_contains(h, item)
            },
        }
    }
}

fn node_contains(n: &ListNode<String>, item: &String) -> (r: bool)
    ensures
        r == exists|i: int| 0 <= i < n.view_seq().len() && (#[trigger] n.view_seq()[i])@ == item@,
    decreases n.view_seq().len(),
{
    if n.data == *item {
        assert(n.view_seq()[0] == n.data);
        return true;
    }
    match &n.next {
        None => {
            assert(n.view_seq() =~= seq![n.data]);
            false
        },
        Some(next) => {
            proof {
                lemma_view_len(&**next);
            }
            let r = node_contains(next, item);
            proof {
                let s = n.view_seq();
                let t = next.view_seq();
                assert(s =~= seq![n.data] + t);
                if r {
                    let i = choose|i: int| 0 <= i < t.len() && (#[trigger] t[i])@ == item@;
                    assert(s[i + 1] == t[i]);
                } else {
                    assert forall|i: int| 0 <= i < s.len() implies (#[trigger] s[i])@ != item@ by {
                        if i > 0 {
                            assert(s[i] == t[i - 1]);
                        }
                    }
                }
            }
            r
        },
    }
}

/// Default capacity.
pub const BASE_CAPACITY: usize = 19;

/// No number from 2 up to, not including, half of `n` divides it.
pub open spec fn prime_like(n: int) -> bool {
    forall|i: int| 2 <= i < n / 2 ==> #[trigger] (n % i) != 0
}

/// The hash of a word's bytes: each byte times 19 times the number of bytes
/// after it, summed.
pub open spec fn hash_sum(b: Seq<u8>) -> int
    decreases b.len(),
{
    if b.len() == 0 {
        0
    } else {
        hash_sum(b.drop_first()) + b[0] * 19 * (b.len() - 1)
    }
}

/// A hash table for quick lookup of words.
pub struct HashTable<T> {
    /// One list per cell.
    table: Vec<List<T>>,
    /// Size of the table in cells.
    capacity: usize,
    /// Number of items in the table.
    len: usize,
}

impl<T> HashTable<T> {
    /// The number of cells.
    pub closed spec fn spec_capacity(&self) -> nat {
        self.capacity as nat
    }

    /// Number of items added.
    pub closed spec fn spec_len(&self) -> nat {
        self.len as nat
    }

    /// Finds if a number is prime-like: no number from 2 up to, not
    /// including, its half divides it.
    pub fn is_prime(n: usize) -> (r: bool)
        ensures
            r == prime_like(n as int),
    {
        let mut i: usize = 2;
        while i < n / 2
            invariant
                2 <= i,
                forall|k: int| 2 <= k < i && k < n / 2 ==> #[trigger] (n as int % k) != 0,
            decreases n / 2 - i,
        {
            if n % i == 0 {
                return false;
            }
            i = i + 1;
        }
        true
    }

    /// The first prime-like number from `current` on (0 if none fits in a usize).
    pub fn next_capacity(current: usize) -> (r: usize)
        ensures
            r == 0 || (r >= current && prime_like(r as int) && forall|k: int| current <= k < r ==> !#[trigger] prime_like(k)),
            r == 0 && current > 0 ==> forall|k: int| current <= k < usize::MAX ==> !#[trigger] prime_like(k),
    {
        let mut i: usize = current;
        while i < usize::MAX
            invariant
                current <= i,
                forall|k: int| current <= k < i ==> !#[trigger] prime_like(k),
            decreases usize::MAX - i,
        {
            if Self::is_prime(i) {
                return i;
            }
            i = i + 1;
        }
        0
    }
}

/// The cell of a word in a table of `capacity` cells.
pub open spec fn cell_of(w: Seq<char>, capacity: nat) -> int {
    hash_sum(encode_utf8(w)) % (capacity as int)
}

proof fn lemma_hash_bound(b: Seq<u8>)
    ensures
        0 <= hash_sum(b) <= 4845 * b.len() * b.len(),
    decreases b.len(),
{
    if b.len() > 0 {
        let n = b.len() as int;
        lemma_hash_bound(b.drop_first());
        assert(b[0] * 19 * (n - 1) <= 4845 * (n - 1)) by (nonlinear_arith)
            requires
                0 <= b[0] <= 255,
                n >= 1,
        ;
        assert(4845 * (n - 1) * (n - 1) + 4845 * (n - 1) <= 4845 * n * n) by (nonlinear_arith)
            requires
                n >= 1,
        ;
        assert(b[0] * 19 * (n - 1) >= 0) by (nonlinear_arith)
            requires
                0 <= b[0],
                n >= 1,
        ;
    }
}

/// Longest word, in bytes, that the table hashes.
pub const MAX_WORD_BYTES: usize = 1048576;

impl HashTable<String> {
    /// The table's invariant: each word sits in the cell of its hash.
    pub closed spec fn wf(&self) -> bool {
        &&& self.capacity > 0
        &&& self.table@.len() == self.capacity
        &&& forall|c: int, k: int|
            0 <= c < self.table@.len() && 0 <= k < self.table@[c].view_seq().len() ==> cell_of(
                (#[trigger] self.table@[c].view_seq()[k])@,
                self.capacity as nat,
            ) == c
    }

    /// The words in the table.
    pub closed spec fn has(&self, w: Seq<char>) -> bool {
        exists|c: int, k: int|
            0 <= c < self.table@.len() && 0 <= k < self.table@[c].view_seq().len() && (
            #[trigger] self.table@[c].view_seq()[k])@ == w
    }

    /// Creates an empty table with the first prime-like number of cells
    /// from `capacity` on (a capacity of 0 is taken as 1; `usize::MAX` cells
    /// if no prime-like number below it qualifies).
    pub fn with_capacity(capacity: usize) -> (r: Self)
        ensures
            r.wf(),
            r.spec_len() == 0,
            forall|w: Seq<char>| !#[trigger] r.has(w),
            r.spec_capacity() >= capacity,
            r.spec_capacity() >= 1,
            prime_like(r.spec_capacity() as int) || r.spec_capacity() == usize::MAX,
            forall|k: int|
                (if capacity == 0 { 1 } else { capacity as int }) <= k < r.spec_capacity() ==> !#[trigger] prime_like(k),
    {
        let mut cap = Self::next_capacity(if capacity == 0 { 1 } else { capacity });
        if cap == 0 {
            cap = usize::MAX;
        }
        let mut table: Vec<List<String>> = Vec::new();
        let mut i: usize = 0;
        while i < cap
            invariant
                i <= cap,
                table@.len() == i,
                forall|c: int| 0 <= c < i ==> (#[trigger] table@[c]).view_seq().len() == 0,
            decreases cap - i,
        {
            table.push(List::new());
            i = i + 1;
        }
        HashTable { table, capacity: cap, len: 0 }
    }

    /// Creates an empty table with the default capacity.
    pub fn new() -> (r: Self)
        ensures
            r.spec_capacity() == BASE_CAPACITY,
            r.wf(),
            r.spec_len() == 0,
            forall|w: Seq<char>| !#[trigger] r.has(w),
    {
        assert(prime_like(19)) by {
            assert forall|i: int| 2 <= i < 19int / 2 implies #[trigger] (19int % i) != 0 by {
                if i == 2 {
                } else if i == 3 {
                } else if i == 4 {
                } else if i == 5 {
                } else if i == 6 {
                } else if i == 7 {
                } else {
                    assert(i == 8);
                }
            }
        }
        Self::with_capacity(BASE_CAPACITY)
    }

    /// Computes a word's cell.
    pub fn hash(&self, item: &str) -> (r: usize)
        requires
            self.wf(),
            encode_utf8(item@).len() <= MAX_WORD_BYTES,
        ensures
            r == cell_of(item@, self.spec_capacity()),
            r < self.spec_capacity(),
    {
        let b = item.as_bytes();
        let n = b.len();
        proof {
            lemma_hash_bound(b@);
            assert(4845 * n * n <= 4845 * 1048576 * 1048576) by (nonlinear_arith)
                requires
                    n <= 1048576,
            ;
        }
        let mut value: u64 = 0;
        let mut i: usize = 0;
        assert(b@.skip(0) =~= b@);
        while i < n
            invariant
                n == b@.len(),
                n <= MAX_WORD_BYTES,
                i <= n,
                value + hash_sum(b@.skip(i as int)) == hash_sum(b@),
                hash_sum(b@) <= 4845 * 1048576 * 1048576,
                0 <= value,
            decreases n - i,
        {
            proof {
                lemma_hash_bound(b@.skip(i + 1));
                assert(b@.skip(i as int).drop_first() =~= b@.skip(i + 1));
                assert(b@.skip(i as int)[0] == b@[i as int]);
            }
            let byte = b[i] as u64;
            let weight = (n - i - 1) as u64;
            proof {
                lemma_hash_bound(b@.skip(i + 1));
                assert(byte * 19 * weight <= 4845 * 1048576) by (nonlinear_arith)
                    requires
                        byte <= 255,
                        weight <= 1048576,
                ;
                assert(byte * 19 * weight >= 0) by (nonlinear_arith)
                    requires
                        byte >= 0,
                        weight >= 0,
                ;
            }
            let term = byte * 19 * weight;
            value = value + term;
            i = i + 1;
        }
        assert(b@.skip(i as int) =~= Seq::<u8>::empty());
        (value % (self.capacity as u64)) as usize
    }

    /// Adds a word.
    pub fn add(&mut self, item: String)
        requires
            old(self).wf(),
            old(self).spec_len() < usize::MAX,
            encode_utf8(item@).len() <= MAX_WORD_BYTES,
        ensures
            final(self).wf(),
            final(self).spec_len() == old(self).spec_len() + 1,
            final(self).spec_capacity() == old(self).spec_capacity(),
            forall|w: Seq<char>| #[trigger] final(self).has(w) <==> old(self).has(w) || w == item@,
    {
        self.len = self.len + 1;
        let h = self.hash(item.as_str());
        let ghost old_table = self.table@;
        let ghost it = item@;
        self.table[h].add(item);
        proof {
            let t = self.table@;
            assert(t[h as int].view_seq() == old_table[h as int].view_seq().push(t[h as int].view_seq().last()));
            assert forall|c: int, k: int| 0 <= c < t.len() && 0 <= k < t[c].view_seq().len() implies cell_of(
                (#[trigger] t[c].view_seq()[k])@,
                self.capacity as nat,
            ) == c by {
                if c != h as int || k < old_table[c].view_seq().len() {
                    assert(t[c].view_seq()[k] == old_table[c].view_seq()[k]);
                }
            }
            assert forall|w: Seq<char>| #[trigger] self.has(w) <==> old(self).has(w) || w == it by {
                if self.has(w) {
                    let (c, k) = choose|c: int, k: int|
                        0 <= c < t.len() && 0 <= k < t[c].view_seq().len() && (#[trigger] t[c].view_seq()[k])@ == w;
                    if c != h as int || k < old_table[c].view_seq().len() {
                        assert(t[c].view_seq()[k] == old_table[c].view_seq()[k]);
                    }
                }
                if old(self).has(w) {
                    let (c, k) = choose|c: int, k: int|
                        0 <= c < old_table.len() && 0 <= k < old_table[c].view_seq().len() && (
                        #[trigger] old_table[c].view_seq()[k])@ == w;
                    assert(t[c].view_seq()[k] == old_table[c].view_seq()[k]);
                }
                if w == it {
                    let k = old_table[h as int].view_seq().len() as int;
                    assert(t[h as int].view_seq()[k]@ == w);
                }
            }
        }
    }

    /// Checks if a word is in the table.
    pub fn contains(&self, item: &str) -> (r: bool)
        requires
            self.wf(),
            encode_utf8(item@).len() <= MAX_WORD_BYTES,
        ensures
            r == self.has(item@),
    {
        let h = self.hash(item);
        let key = item.to_owned();
        let r = self.table[h].contains(&key);
        proof {
            if self.has(item@) {
                let (c, k) = choose|c: int, k: int|
                    0 <= c < self.table@.len() && 0 <= k < self.table@[c].view_seq().len() && (
                    #[trigger] self.table@[c].view_seq()[k])@ == item@;
                assert(cell_of(self.table@[c].view_seq()[k]@, self.capacity as nat) == c);
            }
        }
        r
    }

    /// Number of words added.
    pub fn len(&self) -> (r: usize)
        ensures
            r == self.spec_len(),
    {
        self.len
    }
}


/// The pieces of `text` between the matches of the regular expression
/// `pattern`, in order, as the regex crate splits them.
pub uninterp spec fn regex_split_of(pattern: Seq<char>, text: Seq<char>) -> Seq<Seq<char>>;

/// The pattern compiles as a regular expression, with the regex crate's
/// default limits.
pub uninterp spec fn regex_compiles(pattern: Seq<char>) -> bool;

/// Relies on `regex::Regex::new` and `regex::Regex::split`: whether the
/// pattern compiles depends on the pattern alone; when it does, the pieces
/// between its matches, which depend on the pattern and the text alone.
#[verifier::external_body]
fn regex_split(pattern: &str, text: &str) -> (r: Option<Vec<String>>)
    ensures
        r is Some <==> regex_compiles(pattern@),
        r matches Some(v) ==> texts(v@) == regex_split_of(pattern@, text@),
{
    match regex::Regex::new(pattern) {
        Ok(re) => Some(re.split(text).map(String::from).collect()),
        Err(_) => None,
    }
}

/// What separates words in a text: anything but ASCII letters and `'`.
pub const WORD_SEPARATORS: &'static str = "[^a-zA-Z']+";

/// A word the table cannot confirm: too long to hash, or not in it.
pub open spec fn unknown(t: HashTable<String>, w: Seq<char>) -> bool {
    encode_utf8(w).len() > MAX_WORD_BYTES || !t.has(w)
}

/// The nonempty words of `words` that the table does not hold, in order.
pub open spec fn misspelled_of(t: HashTable<String>, words: Seq<Seq<char>>) -> Seq<Seq<char>>
    decreases words.len(),
{
    if words.len() == 0 {
        Seq::empty()
    } else {
        let rest = misspelled_of(t, words.drop_last());
        let w = words.last();
        if w.len() > 0 && unknown(t, w) {
            rest.push(w)
        } else {
            rest
        }
    }
}

/// Number of nonempty words.
pub open spec fn nonempty_count(words: Seq<Seq<char>>) -> nat
    decreases words.len(),
{
    if words.len() == 0 {
        0
    } else {
        nonempty_count(words.drop_last()) + if words.last().len() > 0 { 1nat } else { 0nat }
    }
}

proof fn lemma_nonempty_bound(words: Seq<Seq<char>>)
    ensures
        nonempty_count(words) <= words.len(),
    decreases words.len(),
{
    if words.len() > 0 {
        lemma_nonempty_bound(words.drop_last());
    }
}

impl HashTable<String> {
    /// Counts the nonempty words and lists those the table does not hold.
    pub fn count_misspelled(&self, words: &Vec<String>) -> (r: (usize, Vec<String>))
        requires
            self.wf(),
        ensures
            r.0 == nonempty_count(texts(words@)),
            texts(r.1@) == misspelled_of(*self, texts(words@)),
    {
        let ghost ws = texts(words@);
        let mut count: usize = 0;
        let mut missing: Vec<String> = Vec::new();
        let mut i: usize = 0;
        while i < words.len()
            invariant
                self.wf(),
                ws == texts(words@),
                i <= words@.len(),
                count == nonempty_count(ws.take(i as int)),
                texts(missing@) == misspelled_of(*self, ws.take(i as int)),
            decreases words@.len() - i,
        {
            let w = &words[i];
            proof {
                lemma_nonempty_bound(ws.take(i as int));
                assert(ws.take(i + 1).drop_last() =~= ws.take(i as int));
                assert(ws.take(i + 1).last() == w@);
            }
            if w.as_str().unicode_len() > 0 {
                count = count + 1;
                let bytes = w.as_str().as_bytes();
                assert(bytes@ == encode_utf8(w@));
                let long = bytes.len() > MAX_WORD_BYTES;
                if long || !self.contains(w.as_str()) {
                    let ghost before = missing@;
                    missing.push(w.clone());
                    assert(texts(missing@) =~= texts(before).push(w@));
                }
            }
            i = i + 1;
        }
        assert(ws.take(i as int) =~= ws);
        (count, missing)
    }

    /// Spell checks one line: it is put in lower case and split into words
    /// at `WORD_SEPARATORS`; gives the number of words and the misspelled
    /// ones; `None` exactly when the pattern does not compile.
    pub fn check_line(&self, line: &str) -> (r: Option<(usize, Vec<String>)>)
        requires
            self.wf(),
        ensures
            r is Some <==> regex_compiles(WORD_SEPARATORS@),
            r matches Some((n, m)) ==> n == nonempty_count(regex_split_of(WORD_SEPARATORS@, lower_of(line@)))
                && texts(m@) == misspelled_of(*self, regex_split_of(WORD_SEPARATORS@, lower_of(line@))),
    {
        let lower = lowercase(line);
        match regex_split(WORD_SEPARATORS, lower.as_str()) {
            Some(words) => Some(self.count_misspelled(&words)),
            None => None,
        }
    }
}

} // verus!
