//! Short tandem repeats in DNA sequences.

use vstd::prelude::*;
use vstd::utf8::encode_utf8;

verus! {

/// `pat` occurs in `d` at `i`.
pub open spec fn occurs_at(pat: Seq<u8>, d: Seq<u8>, i: int) -> bool {
    0 <= i && i + pat.len() <= d.len() && d.subrange(i, i + pat.len() as int) == pat
}

/// The longest run of back-to-back occurrences of `pat` found by scanning
/// from `i`, with a run of `run` occurrences in progress and `best` the
/// longest so far: occurrences must start before `end`; after a run the scan
/// goes on one place after its end.
pub open spec fn scan_from(pat: Seq<u8>, d: Seq<u8>, i: int, end: int, run: nat, best: nat) -> nat
    decreases end + pat.len() - i,
{
    if pat.len() > 0 && i < end && occurs_at(pat, d, i) {
        scan_from(pat, d, i + pat.len(), end, run + 1, best)
    } else {
        let best2 = if run > best { run } else { best };
        if i < end {
            scan_from(pat, d, i + 1, end, 0, best2)
        } else {
            best2
        }
    }
}

/// Finds the longest run of back-to-back copies of `str_sequence` in
/// `dna_sequence`, scanning positions before the last place where it fits.
pub fn longest_match(str_sequence: &str, dna_sequence: &str) -> (r: usize)
    requires
        0 < encode_utf8(str_sequence@).len() <= encode_utf8(dna_sequence@).len(),
    ensures
        r == scan_from(
            encode_utf8(str_sequence@),
            encode_utf8(dna_sequence@),
            0,
            encode_utf8(dna_sequence@).len() - encode_utf8(str_sequence@).len(),
            0,
            0,
        ),
{
    let str_bytes = str_sequence.as_bytes();
    let dna_bytes = dna_sequence.as_bytes();
    let len = str_bytes.len();
    let dlen = dna_bytes.len();
    let end = dlen - len;
    let ghost pat = str_bytes@;
    let ghost d = dna_bytes@;
    let mut max_repeats: usize = 0;
    let mut i: usize = 0;
    while i < end
        invariant
            pat == str_bytes@,
            d == dna_bytes@,
            len == pat.len(),
            len > 0,
            end + len == d.len(),
            d.len() <= usize::MAX,
            i <= end + len,
            max_repeats <= i,
            scan_from(pat, d, 0, end as int, 0, 0) == scan_from(pat, d, i as int, end as int, 0, max_repeats as nat),
        decreases end + len - i,
    {
        let ghost start = i;
        let mut repeats: usize = 0;
        while i < end && same_at(str_bytes, dna_bytes, i)
            invariant
                pat == str_bytes@,
                d == dna_bytes@,
                len == pat.len(),
                len > 0,
                end + len == d.len(),
                d.len() <= usize::MAX,
                i < end + len,
                start <= i,
                repeats <= i,
                max_repeats <= i,
                scan_from(pat, d, 0, end as int, 0, 0) == scan_from(pat, d, i as int, end as int, repeats as nat, max_repeats as nat),
            decreases end + len - i,
        {
            i = i + len;
            repeats = repeats + 1;
        }
        if repeats > max_repeats {
            max_repeats = repeats;
        }
        i = i + 1;
    }
    max_repeats
}

/// `pat` occurs in `d` at `i`.
fn same_at(pat: &[u8], d: &[u8], i: usize) -> (r: bool)
    requires
        i + pat@.len() <= d@.len(),
    ensures
        r == occurs_at(pat@, d@, i as int),
{
    let mut k: usize = 0;
    let n = d.len();
    while k < pat.len()
        invariant
            n == d@.len(),
            i + pat@.len() <= n,
            k <= pat@.len(),
            forall|t: int| 0 <= t < k ==> pat@[t] == d@[i + t],
        decreases pat@.len() - k,
    {
        if pat[k] != d[i + k] {
            assert(d@.subrange(i as int, i + pat@.len())[k as int] != pat@[k as int]);
            return false;
        }
        k = k + 1;
    }
    assert(d@.subrange(i as int, i + pat@.len()) =~= pat@);
    true
}


/// The views of a list of repeat-count records.
pub open spec fn count_rows(v: Seq<Vec<usize>>) -> Seq<Seq<usize>> {
    Seq::new(v.len(), |i: int| v[i]@)
}

/// The first record whose repeat counts are exactly `counts`.
pub fn matching_record(records: &Vec<Vec<usize>>, counts: &Vec<usize>) -> (r: Option<usize>)
    ensures
        match r {
            Some(k) => k < records@.len() && records@[k as int]@ == counts@ && forall|j: int|
                0 <= j < k ==> (#[trigger] records@[j])@ != counts@,
            None => forall|j: int| 0 <= j < records@.len() ==> (#[trigger] records@[j])@ != counts@,
        },
{
    let mut k: usize = 0;
    while k < records.len()
        invariant
            k <= records@.len(),
            forall|j: int| 0 <= j < k ==> (#[trigger] records@[j])@ != counts@,
        decreases records@.len() - k,
    {
        let row = &records[k];
        let mut same = row.len() == counts.len();
        let mut t: usize = 0;
        while same && t < row.len()
            invariant
                t <= row@.len(),
                same ==> row@.len() == counts@.len() && forall|u: int| 0 <= u < t ==> row@[u] == counts@[u],
                !same ==> row@ != counts@,
            decreases row@.len() - t,
        {
            if row[t] != counts[t] {
                same = false;
            }
            t = t + 1;
        }
        if same {
            assert(row@ =~= counts@);
            return Some(k);
        }
        k = k + 1;
    }
    None
}

} // verus!
