//! Instant runoff: ballots count for their first choice still standing;
//! the weakest candidate is eliminated until someone has half the votes.

use vstd::prelude::*;

verus! {

/// A candidate participating in a runoff election.
pub struct Candidate {
    /// The candidate's name.
    pub name: String,
    /// The number of votes that the candidate has.
    pub votes: i32,
    /// Whether the candidate has been eliminated or not.
    pub eliminated: bool,
}

impl Candidate {
    /// Creates a new candidate with the given name, no votes, not eliminated.
    pub fn new(name: String) -> (r: Self)
        ensures
            r.name@ == name@,
            r.votes == 0,
            !r.eliminated,
    {
        Candidate { name, votes: 0, eliminated: false }
    }
}

/// The result of a runoff round.
#[derive(Clone, Copy, Debug, PartialEq, Eq, Structural)]
pub enum RunoffTabulationResult {
    /// The candidate at this index won.
    Win(usize),
    /// The candidate at this index is eliminated; another round follows.
    Elimination(usize),
    /// The remaining candidates are tied, or none remains.
    Tie,
}

/// The first candidate of ballot `b` not eliminated, if any.
pub open spec fn first_choice(b: Seq<usize>, elim: Seq<bool>) -> Option<usize>
    decreases b.len(),
{
    if b.len() == 0 {
        None
    } else if b[0] < elim.len() && !elim[b[0] as int] {
        Some(b[0])
    } else {
        first_choice(b.drop_first(), elim)
    }
}

/// Number of ballots whose first choice still standing is `c`.
pub open spec fn tally(ballots: Seq<Seq<usize>>, elim: Seq<bool>, c: usize) -> int
    decreases ballots.len(),
{
    if ballots.len() == 0 {
        0
    } else {
        tally(ballots.drop_last(), elim, c) + if first_choice(ballots.last(), elim) == Some(c) {
            1int
        } else {
            0int
        }
    }
}

/// Candidate `c` is still standing.
pub open spec fn standing(counts: Seq<int>, elim: Seq<bool>, c: int) -> bool {
    0 <= c < counts.len() && c < elim.len() && !elim[c]
}

/// `w` is the first standing candidate with the most votes.
pub open spec fn first_max(counts: Seq<int>, elim: Seq<bool>, w: int) -> bool {
    &&& standing(counts, elim, w)
    &&& forall|c: int| #[trigger] standing(counts, elim, c) ==> counts[c] <= counts[w]
    &&& forall|c: int| 0 <= c < w && #[trigger] standing(counts, elim, c) ==> counts[c] < counts[w]
}

/// `w` is the first standing candidate with the fewest votes.
pub open spec fn first_min(counts: Seq<int>, elim: Seq<bool>, w: int) -> bool {
    &&& standing(counts, elim, w)
    &&& forall|c: int| #[trigger] standing(counts, elim, c) ==> counts[c] >= counts[w]
    &&& forall|c: int| 0 <= c < w && #[trigger] standing(counts, elim, c) ==> counts[c] > counts[w]
}

/// The outcome of a round, given each candidate's count: a tie when no
/// candidate stands or all standing ones have the same count; else a win for
/// the first with the most votes if that is at least half the ballots; else
/// the elimination of the first with the fewest.
pub open spec fn outcome(counts: Seq<int>, elim: Seq<bool>, ballots: int) -> RunoffTabulationResult {
    if !exists|c: int| standing(counts, elim, c) {
        RunoffTabulationResult::Tie
    } else {
        let mx = choose|w: int| first_max(counts, elim, w);
        let mn = choose|w: int| first_min(counts, elim, w);
        if counts[mx] == counts[mn] {
            RunoffTabulationResult::Tie
        } else if 2 * counts[mx] >= ballots {
            RunoffTabulationResult::Win(mx as usize)
        } else {
            RunoffTabulationResult::Elimination(mn as usize)
        }
    }
}

/// The views of a list of ballots.
pub open spec fn ballot_seqs(v: Seq<Vec<usize>>) -> Seq<Seq<usize>> {
    Seq::new(v.len(), |i: int| v[i]@)
}

/// The eliminated flags of the candidates.
pub open spec fn eliminated_flags(c: Seq<Candidate>) -> Seq<bool> {
    Seq::new(c.len(), |i: int| c[i].eliminated)
}

/// The first choice still standing on a ballot.
fn first_standing(b: &Vec<usize>, candidates: &Vec<Candidate>) -> (r: Option<usize>)
    ensures
        r == first_choice(b@, eliminated_flags(candidates@)),
        r matches Some(x) ==> x < candidates@.len(),
{
    let ghost elim = eliminated_flags(candidates@);
    let mut p: usize = 0;
    assert(b@.skip(0) =~= b@);
    while p < b.len()
        invariant
            elim == eliminated_flags(candidates@),
            p <= b@.len(),
            first_choice(b@, elim) == first_choice(b@.skip(p as int), elim),
        decreases b@.len() - p,
    {
        assert(b@.skip(p as int)[0] == b@[p as int]);
        assert(b@.skip(p as int).drop_first() =~= b@.skip(p + 1));
        let c = b[p];
        if c < candidates.len() && !candidates[c].eliminated {
            return Some(c);
        }
        p = p + 1;
    }
    None
}

/// Tabulates a round: each standing candidate's votes become the number
/// of ballots whose first choice still standing is that candidate; then
/// the round's outcome is decided.
pub fn tabulate(votes: &Vec<Vec<usize>>, candidates: &mut Vec<Candidate>) -> (r: RunoffTabulationResult)
    requires
        votes@.len() <= i32::MAX,
    ensures
        final(candidates)@.len() == old(candidates)@.len(),
        forall|c: int| 0 <= c < old(candidates)@.len() ==> (#[trigger] final(candidates)@[c]).name == old(candidates)@[c].name
            && final(candidates)@[c].eliminated == old(candidates)@[c].eliminated,
        forall|c: int|
            0 <= c < old(candidates)@.len() && !old(candidates)@[c].eliminated ==> (#[trigger] final(candidates)@[c]).votes
                == tally(ballot_seqs(votes@), eliminated_flags(old(candidates)@), c as usize),
        r == outcome(
            Seq::new(old(candidates)@.len(), |c: int| tally(ballot_seqs(votes@), eliminated_flags(old(candidates)@), c as usize)),
            eliminated_flags(old(candidates)@),
            votes@.len() as int,
        ),
{
    let ghost elim = eliminated_flags(candidates@);
    let ghost bs = ballot_seqs(votes@);
    let n = candidates.len();
    let mut counts: Vec<i32> = Vec::new();
    let mut c: usize = 0;
    while c < n
        invariant
            c <= n,
            counts@.len() == c,
            forall|x: int| 0 <= x < c ==> #[trigger] counts@[x] == 0,
        decreases n - c,
    {
        counts.push(0);
        c = c + 1;
    }
    let mut t: usize = 0;
    while t < votes.len()
        invariant
            elim == eliminated_flags(candidates@),
            bs == ballot_seqs(votes@),
            n == candidates@.len(),
            votes@.len() <= i32::MAX,
            t <= votes@.len(),
            counts@.len() == n,
            forall|x: int| 0 <= x < n ==> #[trigger] counts@[x] == tally(bs.take(t as int), elim, x as usize),
            forall|x: int| 0 <= x < n ==> 0 <= #[trigger] counts@[x] <= t,
        decreases votes@.len() - t,
    {
        let f = first_standing(&votes[t], candidates);
        assert(bs.take(t + 1).drop_last() =~= bs.take(t as int));
        assert(bs.take(t + 1).last() == votes@[t as int]@);
        match f {
            Some(x) => {
                let v = counts[x];
                counts.set(x, v + 1);
            },
            None => {},
        }
        t = t + 1;
    }
    assert(bs.take(t as int) =~= bs);
    let ghost counts_int = Seq::new(n as nat, |x: int| tally(bs, elim, x as usize));
    assert forall|x: int| 0 <= x < n implies counts_int[x] == #[trigger] counts@[x] by {}
    let mut i: usize = 0;
    let mut mx: usize = n;
    let mut mn: usize = n;
    while i < n
        invariant
            n == candidates@.len(),
            counts@.len() == n,
            elim == eliminated_flags(old(candidates)@),
            elim.len() == n,
            i <= n,
            forall|x: int| 0 <= x < n ==> counts_int[x] == #[trigger] counts@[x],
            counts_int.len() == n,
            candidates@.len() == old(candidates)@.len(),
            forall|x: int| 0 <= x < n ==> (#[trigger] candidates@[x]).name == old(candidates)@[x].name
                && candidates@[x].eliminated == old(candidates)@[x].eliminated,
            forall|x: int| 0 <= x < i && !old(candidates)@[x].eliminated ==> (#[trigger] candidates@[x]).votes == counts@[x],
            mx <= n,
            mn <= n,
            mx == n <==> mn == n,
            mx == n ==> forall|x: int| 0 <= x < i ==> !#[trigger] standing(counts_int, elim, x),
            mx < n ==> mx < i && mn < i && standing(counts_int, elim, mx as int) && standing(counts_int, elim, mn as int),
            mx < n ==> forall|x: int| 0 <= x < i && #[trigger] standing(counts_int, elim, x) ==> counts_int[x] <= counts_int[mx as int],
            mx < n ==> forall|x: int| 0 <= x < mx && #[trigger] standing(counts_int, elim, x) ==> counts_int[x] < counts_int[mx as int],
            mx < n ==> forall|x: int| 0 <= x < i && #[trigger] standing(counts_int, elim, x) ==> counts_int[x] >= counts_int[mn as int],
            mx < n ==> forall|x: int| 0 <= x < mn && #[trigger] standing(counts_int, elim, x) ==> counts_int[x] > counts_int[mn as int],
        decreases n - i,
    {
        if !candidates[i].eliminated {
            let v = counts[i];
            let ghost before = candidates@;
            candidates[i].votes = v;
            assert forall|x: int| 0 <= x < n implies (#[trigger] candidates@[x]).name == old(candidates)@[x].name
                && candidates@[x].eliminated == old(candidates)@[x].eliminated by {
                if x != i as int {
                    assert(candidates@[x] == before[x]);
                }
            }
            assert forall|x: int| 0 <= x < i + 1 && !old(candidates)@[x].eliminated implies (#[trigger] candidates@[x]).votes == counts@[x] by {
                if x != i as int {
                    assert(candidates@[x] == before[x]);
                }
            }
            assert(standing(counts_int, elim, i as int));
            if mx == n {
                mx = i;
                mn = i;
            } else {
                if counts[i] > counts[mx] {
                    mx = i;
                }
                if counts[i] < counts[mn] {
                    mn = i;
                }
            }
        } else {
            assert(!standing(counts_int, elim, i as int));
        }
        i = i + 1;
    }
    proof {
        assert(counts_int =~= Seq::new(old(candidates)@.len(), |c: int| tally(ballot_seqs(votes@), eliminated_flags(old(candidates)@), c as usize)));
    }
    if mx == n {
        return RunoffTabulationResult::Tie;
    }
    proof {
        assert(first_max(counts_int, elim, mx as int));
        assert(first_min(counts_int, elim, mn as int));
        let m1 = choose|w: int| first_max(counts_int, elim, w);
        let m2 = choose|w: int| first_min(counts_int, elim, w);
        assert(m1 == mx as int) by {
            if m1 < mx as int {
                assert(counts_int[m1] < counts_int[mx as int]);
            } else if m1 > mx as int {
                assert(counts_int[mx as int] < counts_int[m1]);
            }
        }
        assert(m2 == mn as int) by {
            if m2 < mn as int {
                assert(counts_int[m2] > counts_int[mn as int]);
            } else if m2 > mn as int {
                assert(counts_int[mn as int] > counts_int[m2]);
            }
        }
    }
    if counts[mx] == counts[mn] {
        RunoffTabulationResult::Tie
    } else if 2 * (counts[mx] as i64) >= votes.len() as i64 {
        RunoffTabulationResult::Win(mx)
    } else {
        RunoffTabulationResult::Elimination(mn)
    }
}

} // verus!
