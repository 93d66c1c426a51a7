//! Plurality vote: one vote per voter, most votes wins.

use vstd::prelude::*;

verus! {

/// The given candidate does not exist.
#[derive(Clone, Copy, Debug, PartialEq, Eq, Structural)]
pub struct CandidateNotFoundError;

/// The candidates of an election and their votes.
pub struct CandidateTable {
    /// The names, without repeats, in the order first given.
    names: Vec<String>,
    /// Votes of each name.
    votes: Vec<u32>,
}


/// `name` is one of `candidates`.
pub open spec fn listed(candidates: Seq<String>, name: Seq<char>) -> bool {
    exists|j: int| 0 <= j < candidates.len() && (#[trigger] candidates[j])@ == name
}

/// `v` is the largest value of `votes`, first reached at `w`.
pub open spec fn first_max(votes: Seq<u32>, w: int) -> bool {
    &&& 0 <= w < votes.len()
    &&& forall|i: int| 0 <= i < votes.len() ==> #[trigger] votes[i] <= votes[w]
    &&& forall|i: int| 0 <= i < w ==> #[trigger] votes[i] < votes[w]
}

impl CandidateTable {
    /// The candidates' names.
    pub closed spec fn spec_names(&self) -> Seq<Seq<char>> {
        Seq::new(self.names@.len(), |i: int| self.names@[i]@)
    }

    /// The candidates' votes, by position.
    pub closed spec fn spec_votes(&self) -> Seq<u32> {
        self.votes@
    }

    /// One count per name, and no name twice.
    pub closed spec fn wf(&self) -> bool {
        &&& self.names@.len() == self.votes@.len()
        &&& forall|i: int, j: int|
            0 <= i < j < self.names@.len() ==> (#[trigger] self.names@[i])@ != (#[trigger] self.names@[j])@
    }

    /// Creates a table holding each of the given candidates once, with no votes.
    pub fn new(candidates: &[String]) -> (r: CandidateTable)
        ensures
            r.wf(),
            forall|i: int| 0 <= i < candidates@.len() ==> r.spec_names().contains(#[trigger] candidates@[i]@),
            forall|i: int| 0 <= i < r.spec_names().len() ==> #[trigger] listed(candidates@, r.spec_names()[i]),
            forall|i: int| 0 <= i < r.spec_votes().len() ==> #[trigger] r.spec_votes()[i] == 0,
    {
        let mut r = CandidateTable { names: Vec::new(), votes: Vec::new() };
        let mut k: usize = 0;
        while k < candidates.len()
            invariant
                r.wf(),
                k <= candidates@.len(),
                forall|i: int| 0 <= i < k ==> r.spec_names().contains(#[trigger] candidates@[i]@),
                forall|i: int| 0 <= i < r.spec_names().len() ==> #[trigger] listed(candidates@.take(k as int), r.spec_names()[i]),
                forall|i: int| 0 <= i < r.spec_votes().len() ==> #[trigger] r.spec_votes()[i] == 0,
            decreases candidates@.len() - k,
        {
            let ghost before = r.spec_names();
            match r.find(candidates[k].as_str()) {
                Some(_) => {},
                None => {
                    let ghost old_votes = r.spec_votes();
                    let ghost old_names = r.names@;
                    r.names.push(candidates[k].clone());
                    r.votes.push(0);
                    assert(r.spec_names() =~= before.push(candidates@[k as int]@));
                    assert(r.spec_names()[before.len() as int] == candidates@[k as int]@);
                    assert forall|i: int, j: int| 0 <= i < j < r.names@.len() implies (#[trigger] r.names@[i])@ != (#[trigger] r.names@[j])@ by {
                        if j < old_names.len() {
                            assert(old_names[i] == r.names@[i]);
                            assert(old_names[j] == r.names@[j]);
                        } else {
                            assert(r.names@[i]@ == before[i]);
                        }
                    }
                    assert forall|i: int| 0 <= i < r.spec_votes().len() implies #[trigger] r.spec_votes()[i] == 0 by {
                        if i < old_votes.len() {
                            assert(old_votes[i] == 0);
                        }
                    }
                },
            }
            proof {
                assert forall|i: int| 0 <= i < k + 1 implies r.spec_names().contains(#[trigger] candidates@[i]@) by {
                    if i < k {
                        let j = choose|j: int| 0 <= j < before.len() && before[j] == candidates@[i]@;
                        assert(r.spec_names()[j] == before[j]);
                    }
                }
                let next = candidates@.take(k + 1);
                assert forall|i: int| 0 <= i < r.spec_names().len() implies #[trigger] listed(next, r.spec_names()[i]) by {
                    if i < before.len() {
                        assert(r.spec_names()[i] == before[i]);
                        assert(listed(candidates@.take(k as int), before[i]));
                        let j = choose|j: int| 0 <= j < k && (#[trigger] candidates@.take(k as int)[j])@ == before[i];
                        assert(next[j] == candidates@.take(k as int)[j]);
                    } else {
                        assert(next[k as int] == candidates@[k as int]);
                    }
                }
            }
            k = k + 1;
        }
        assert(candidates@.take(k as int) =~= candidates@);
        r
    }

    /// The position of a name.
    fn find(&self, name: &str) -> (r: Option<usize>)
        requires
            self.wf(),
        ensures
            match r {
                Some(i) => i < self.spec_names().len() && self.spec_names()[i as int] == name@,
                None => !self.spec_names().contains(name@),
            },
    {
        let key = name.to_owned();
        let mut i: usize = 0;
        while i < self.names.len()
            invariant
                self.wf(),
                key@ == name@,
                i <= self.names@.len(),
                forall|j: int| 0 <= j < i ==> self.spec_names()[j] != name@,
            decreases self.names@.len() - i,
        {
            if self.names[i] == key {
                return Some(i);
            }
            i = i + 1;
        }
        None
    }

    /// Adds a vote for the named candidate.
    pub fn vote(&mut self, name: &str) -> (r: Result<(), CandidateNotFoundError>)
        requires
            old(self).wf(),
            forall|i: int|
                0 <= i < old(self).spec_votes().len() && #[trigger] old(self).spec_names()[i] == name@ ==> old(
                    self,
                ).spec_votes()[i] < u32::MAX,
        ensures
            final(self).wf(),
            final(self).spec_names() == old(self).spec_names(),
            r is Ok <==> old(self).spec_names().contains(name@),
            r is Ok ==> exists|i: int|
                0 <= i < old(self).spec_names().len() && old(self).spec_names()[i] == name@
                    && final(self).spec_votes() == old(self).spec_votes().update(i, (old(self).spec_votes()[i] + 1) as u32),
            r is Err ==> final(self).spec_votes() == old(self).spec_votes(),
    {
        match self.find(name) {
            Some(i) => {
                let ghost names = self.spec_names();
                assert(self.spec_votes()[i as int] < u32::MAX);
                let v = self.votes[i];
                self.votes.set(i, v + 1);
                assert(self.spec_names() =~= names);
                Ok(())
            },
            None => Err(CandidateNotFoundError),
        }
    }

    /// Finds the winner of the election: the name with the most votes (the
    /// first such one on a tie) and its number of votes.
    pub fn winner(&self) -> (r: Result<(&str, u32), CandidateNotFoundError>)
        requires
            self.wf(),
        ensures
            r is Err <==> self.spec_names().len() == 0,
            r matches Ok((name, votes)) ==> exists|w: int|
                first_max(self.spec_votes(), w) && name@ == self.spec_names()[w] && votes == self.spec_votes()[w],
    {
        if self.names.len() == 0 {
            return Err(CandidateNotFoundError);
        }
        let mut w: usize = 0;
        let mut i: usize = 1;
        while i < self.votes.len()
            invariant
                self.wf(),
                1 <= i <= self.votes@.len(),
                w < i,
                forall|j: int| 0 <= j < i ==> #[trigger] self.votes@[j] <= self.votes@[w as int],
                forall|j: int| 0 <= j < w ==> #[trigger] self.votes@[j] < self.votes@[w as int],
            decreases self.votes@.len() - i,
        {
            if self.votes[i] > self.votes[w] {
                w = i;
            }
            i = i + 1;
        }
        assert(first_max(self.spec_votes(), w as int));
        Ok((self.names[w].as_str(), self.votes[w]))
    }
}

} // verus!
