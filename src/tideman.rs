//! Ranked-pairs (Tideman) election: candidate registry, ballots, pairwise
//! margins, ranking of pairs, the lock graph and the winner.

use vstd::prelude::*;
use vstd::set_lib::set_int_range;
use crate::reachability::{
    acyclic, closed_targets, edge, is_path, step, lemma_add_node_acyclic, lemma_closed_set_holds_reach,
    lemma_edge_reaches, lemma_edge_with_edge, lemma_new_cycle, lemma_reaches_trans, lemma_same_edges_reach,
    lemma_with_edge_closed, reaches, reaches_or_is, same_edges, with_edge, edges_within, lemma_reaches_within,
};
use crate::tally::{
    ballot_views, build_pairs, enumerated_before, lemma_margin_antisymmetric, lemma_margin_bound, lemma_pairs_before,
    margin, margin_matrix, margin_table, pairs_before, rank, square, stable_rank, low_id, high_id,
};
use crate::text::{decimal, decimal_string, lower_of, lowercase};

verus! {

/// Errors which may happen in a tideman election.
pub enum TidemanError {
    /// The given candidate does not exist.
    CandidateNotFoundError(String),
    /// Attempted to register an existing candidate.
    CandidateAlreadyExistsError(String),
    /// A graph lock created a cycle.
    LockCreatedCycleError,
    /// A ballot names the same candidate twice.
    DuplicateVoteOnBallot(String),
    /// A ballot does not rank every candidate.
    IncompleteBallot,
    /// No candidate is undefeated with at least one locked victory.
    NoWinnerError,
}

/// A candidate participating in a tideman election.
pub struct Candidate {
    /// The candidate's name
    pub name: String,
}

impl Candidate {
    /// Creates a new candidate with the given name.
    pub fn new(name: String) -> (r: Self)
        ensures
            r.name@ == name@,
    {
        Candidate { name }
    }

    /// A copy of this candidate.
    pub fn duplicate(&self) -> (r: Self)
        ensures
            r.name@ == self.name@,
    {
        Candidate { name: self.name.clone() }
    }
}

/// A node in a tideman graph.
pub struct TidemanNode {
    /// The node's candidate.
    pub candidate: Candidate,
    /// The node's edges.
    pub links: Vec<usize>,
}

impl TidemanNode {
    /// Creates a new tideman node containing the given candidate.
    pub fn new(candidate: Candidate) -> (r: Self)
        ensures
            r.candidate == candidate,
            r.links@ == Seq::<usize>::empty(),
    {
        TidemanNode { candidate, links: Vec::new() }
    }

    /// Adds an edge from this node to the specified node.
    pub fn link(&mut self, node_id: usize)
        ensures
            final(self).candidate == old(self).candidate,
            final(self).links@ == old(self).links@.push(node_id),
    {
        self.links.push(node_id);
    }
}

/// A pair of candidates facing each other in a tideman election.
#[derive(Clone, Copy, Debug, PartialEq, Eq)]
pub struct TidemanPair {
    /// The index of the winning candidate.
    pub winner_id: usize,
    /// The index of the losing candidate.
    pub loser_id: usize,
    /// Margin of the winner over the loser.
    pub weight: i32,
}

impl TidemanPair {
    /// Creates a new tideman pair with the supplied data.
    pub fn new(winner_id: usize, loser_id: usize, weight: i32) -> (r: Self)
        ensures
            r == (TidemanPair { winner_id, loser_id, weight }),
    {
        TidemanPair { winner_id, loser_id, weight }
    }
}

/// A ballot over `n` candidates: indices below `n`, none twice.
pub open spec fn valid_ballot(b: Seq<usize>, n: nat) -> bool {
    &&& forall|p: int| 0 <= p < b.len() ==> #[trigger] b[p] < n
    &&& forall|p: int, q: int| 0 <= p < b.len() && 0 <= q < b.len() && #[trigger] b[p] == #[trigger] b[q] ==> p == q
}

/// The outcome of trying to lock `w -> l`: the edge is added unless a
/// candidate is unknown or the edge would close a cycle.
pub open spec fn lock_step(adj: Seq<Seq<usize>>, w: usize, l: usize) -> Seq<Seq<usize>> {
    if lock_allowed(adj, w, l) {
        with_edge(adj, w, l)
    } else {
        adj
    }
}

/// `w -> l` names two candidates and closes no cycle.
pub open spec fn lock_allowed(adj: Seq<Seq<usize>>, w: usize, l: usize) -> bool {
    w < adj.len() && l < adj.len() && !reaches_or_is(adj, l, w)
}

/// The graph after trying to lock each pair of `ps` in order.
pub open spec fn lock_all(adj: Seq<Seq<usize>>, ps: Seq<TidemanPair>) -> Seq<Seq<usize>>
    decreases ps.len(),
{
    if ps.len() == 0 {
        adj
    } else {
        let prev = lock_all(adj, ps.drop_last());
        lock_step(prev, ps.last().winner_id, ps.last().loser_id)
    }
}

/// A graph used to calculate the result of a tideman election.
pub struct TidemanGraph {
    /// The graph's nodes.
    nodes: Vec<TidemanNode>,
    /// The lower-case name of each candidate, by index.
    keys: Vec<String>,
    /// The recorded ballots.
    votes: Vec<Vec<usize>>,
    /// Pairs of candidates facing each other, in lock order.
    pairs: Vec<TidemanPair>,
}

impl TidemanGraph {
    /// The locked edges, as adjacency lists.
    pub closed spec fn adj(&self) -> Seq<Seq<usize>> {
        Seq::new(self.nodes@.len(), |i: int| self.nodes@[i].links@)
    }

    /// The registered names, by index.
    pub closed spec fn names(&self) -> Seq<Seq<char>> {
        Seq::new(self.nodes@.len(), |i: int| self.nodes@[i].candidate.name@)
    }

    /// The recorded ballots.
    pub closed spec fn ballots(&self) -> Seq<Seq<usize>> {
        Seq::new(self.votes@.len(), |i: int| self.votes@[i]@)
    }

    /// The ranked pairs that `lock_pairs` works through.
    pub closed spec fn ranked(&self) -> Seq<TidemanPair> {
        self.pairs@
    }

    /// The graph's invariant.
    pub closed spec fn wf(&self) -> bool {
        &&& self.keys@.len() == self.nodes@.len()
        &&& forall|i: int| 0 <= i < self.keys@.len() ==> #[trigger] self.keys@[i]@ == lower_of(self.names()[i])
        &&& unique_keys(self.names())
        &&& closed_targets(self.adj())
        &&& acyclic(self.adj())
        &&& forall|b: int| 0 <= b < self.votes@.len() ==> valid_ballot(#[trigger] self.votes@[b]@, self.nodes@.len() as nat)
    }

    /// What the invariant gives callers: names unique ignoring case, every
    /// edge between candidates, and no cycle.
    pub proof fn lemma_wf_facts(&self)
        requires
            self.wf(),
        ensures
            unique_keys(self.names()),
            closed_targets(self.adj()),
            acyclic(self.adj()),
    {
    }

    /// Creates a new empty tideman graph.
    pub fn new() -> (r: Self)
        ensures
            r.wf(),
            r.names() == Seq::<Seq<char>>::empty(),
            r.adj() == Seq::<Seq<usize>>::empty(),
            r.ballots() == Seq::<Seq<usize>>::empty(),
            r.ranked() == Seq::<TidemanPair>::empty(),
    {
        let r = TidemanGraph { nodes: Vec::new(), keys: Vec::new(), votes: Vec::new(), pairs: Vec::new() };
        assert(r.names() =~= Seq::<Seq<char>>::empty());
        assert(r.adj() =~= Seq::<Seq<usize>>::empty());
        assert forall|v: usize| !#[trigger] reaches(r.adj(), v, v) by {
            if reaches(r.adj(), v, v) {
                let p = choose|p: Seq<usize>| #[trigger] is_path(r.adj(), p) && p[0] == v && p.last() == v;
                assert(step(r.adj(), p, 0));
            }
        }
        assert(r.ballots() =~= Seq::<Seq<usize>>::empty());
        r
    }

    /// Number of candidates in the graph.
    pub fn len(&self) -> (r: usize)
        ensures
            r == self.names().len(),
            r == self.adj().len(),
    {
        self.nodes.len()
    }

    /// The index whose key equals `key`, if any.
    fn find_key(&self, key: &String) -> (r: Option<usize>)
        requires
            self.wf(),
        ensures
            match r {
                Some(i) => i < self.names().len() && lower_of(self.names()[i as int]) == key@,
                None => forall|i: int| 0 <= i < self.names().len() ==> lower_of(#[trigger] self.names()[i]) != key@,
            },
    {
        let mut i: usize = 0;
        while i < self.keys.len()
            invariant
                self.wf(),
                i <= self.keys@.len(),
                forall|j: int| 0 <= j < i ==> lower_of(#[trigger] self.names()[j]) != key@,
            decreases self.keys@.len() - i,
        {
            assert(self.keys@[i as int]@ == lower_of(self.names()[i as int]));
            if self.keys[i] == *key {
                return Some(i);
            }
            i = i + 1;
        }
        None
    }

    /// Gets a candidate's id by name, ignoring case.
    pub fn get_candidate_id(&self, candidate: &str) -> (r: Result<usize, TidemanError>)
        requires
            self.wf(),
        ensures
            match r {
                Ok(i) => i < self.names().len() && lower_of(self.names()[i as int]) == lower_of(candidate@) && forall|j: int|
                    0 <= j < self.names().len() && lower_of(#[trigger] self.names()[j]) == lower_of(candidate@) ==> j == i,
                Err(TidemanError::CandidateNotFoundError(s)) => s@ == candidate@ && !names_candidate(
                    self.names(),
                    candidate@,
                ),
                Err(_) => false,
            },
            r is Ok <==> names_candidate(self.names(), candidate@),
    {
        let key = lowercase(candidate);
        match self.find_key(&key) {
            Some(i) => Ok(i),
            None => Err(TidemanError::CandidateNotFoundError(candidate.to_owned())),
        }
    }

    /// Checks if a candidate exists, ignoring case.
    pub fn contains(&self, candidate: &str) -> (r: bool)
        requires
            self.wf(),
        ensures
            r == names_candidate(self.names(), candidate@),
    {
        let key = lowercase(candidate);
        self.find_key(&key).is_some()
    }

    /// Adds a candidate to the election; names are compared ignoring case.
    pub fn add_candidate(&mut self, name: String) -> (r: Result<(), TidemanError>)
        requires
            old(self).wf(),
            old(self).names().len() < usize::MAX,
        ensures
            final(self).wf(),
            final(self).ballots() == old(self).ballots(),
            final(self).ranked() == old(self).ranked(),
            r is Ok <==> !names_candidate(old(self).names(), name@),
            r is Ok ==> final(self).names() == old(self).names().push(name@) && final(self).adj() == old(
                self,
            ).adj().push(Seq::empty()),
            r is Err ==> final(self).names() == old(self).names() && final(self).adj() == old(self).adj(),
            match r {
                Err(TidemanError::CandidateAlreadyExistsError(s)) => s@ == name@,
                Err(_) => false,
                Ok(_) => true,
            },
    {
        let key = lowercase(name.as_str());
        match self.find_key(&key) {
            Some(_) => Err(TidemanError::CandidateAlreadyExistsError(name)),
            None => {
                let ghost old_names = self.names();
                let ghost old_adj = self.adj();
                let node = TidemanNode::new(Candidate::new(name));
                self.nodes.push(node);
                self.keys.push(key);
                assert(self.names() =~= old_names.push(name@));
                assert(self.adj() =~= old_adj.push(Seq::empty()));
                proof {
                    lemma_add_node_acyclic(old_adj);
                    assert forall|b: int| 0 <= b < self.votes@.len() implies valid_ballot(
                        #[trigger] self.votes@[b]@,
                        self.nodes@.len() as nat,
                    ) by {
                        assert(valid_ballot(self.votes@[b]@, (self.nodes@.len() - 1) as nat));
                    }
                }
                Ok(())
            },
        }
    }

    /// Locks the pair `winner_id -> loser_id` if both candidates exist and
    /// the lock does not create a cycle; otherwise leaves the graph as it was.
    pub fn lock(&mut self, winner_id: usize, loser_id: usize) -> (r: Result<(), TidemanError>)
        requires
            old(self).wf(),
        ensures
            final(self).wf(),
            acyclic(final(self).adj()),
            final(self).names() == old(self).names(),
            final(self).ballots() == old(self).ballots(),
            final(self).ranked() == old(self).ranked(),
            final(self).adj() == lock_step(old(self).adj(), winner_id, loser_id),
            r is Ok <==> lock_allowed(old(self).adj(), winner_id, loser_id),
            match r {
                Err(TidemanError::CandidateNotFoundError(s)) => (winner_id >= old(self).adj().len() && s@ == decimal(
                    winner_id as nat,
                )) || (winner_id < old(self).adj().len() && loser_id >= old(self).adj().len() && s@ == decimal(
                    loser_id as nat,
                )),
                Err(TidemanError::LockCreatedCycleError) => winner_id < old(self).adj().len() && loser_id
                    < old(self).adj().len() && reaches_or_is(old(self).adj(), loser_id, winner_id),
                Err(_) => false,
                Ok(_) => true,
            },
    {
        if winner_id >= self.nodes.len() {
            return Err(TidemanError::CandidateNotFoundError(decimal_string(winner_id as u64)));
        }
        if loser_id >= self.nodes.len() {
            return Err(TidemanError::CandidateNotFoundError(decimal_string(loser_id as u64)));
        }
        let ghost old_adj = self.adj();
        let ghost old_names = self.names();
        self.nodes[winner_id].link(loser_id);
        assert(self.adj() =~= with_edge(old_adj, winner_id, loser_id));
        assert(self.names() =~= old_names);
        proof {
            lemma_new_cycle(old_adj, winner_id, loser_id);
            lemma_with_edge_closed(old_adj, winner_id, loser_id);
        }
        if self.has_cycles_from(winner_id) {
            let ghost pushed = self.nodes@[winner_id as int].links@;
            assert(pushed == old_adj[winner_id as int].push(loser_id));
            self.nodes[winner_id].links.pop();
            assert(self.nodes@[winner_id as int].links@ =~= old_adj[winner_id as int]);
            assert(self.adj() =~= old_adj);
            assert(self.names() =~= old_names);
            Err(TidemanError::LockCreatedCycleError)
        } else {
            Ok(())
        }
    }

    /// Locks the ranked pairs in order, skipping each one whose lock would
    /// create a cycle.
    pub fn lock_pairs(&mut self)
        requires
            old(self).wf(),
        ensures
            final(self).wf(),
            acyclic(final(self).adj()),
            final(self).names() == old(self).names(),
            final(self).ballots() == old(self).ballots(),
            final(self).ranked() == old(self).ranked(),
            final(self).adj() == lock_all(old(self).adj(), old(self).ranked()),
            forall|x: usize, y: usize|
                #[trigger] edge(final(self).adj(), x, y) ==> edge(old(self).adj(), x, y) || exists|k: int|
                    0 <= k < old(self).ranked().len() && (#[trigger] old(self).ranked()[k]).winner_id == x
                        && old(self).ranked()[k].loser_id == y,
    {
        proof {
            lemma_lock_all_edges(self.adj(), self.ranked());
        }
        let ghost start = self.adj();
        let mut i: usize = 0;
        while i < self.pairs.len()
            invariant
                self.wf(),
                i <= self.pairs@.len(),
                self.names() == old(self).names(),
                self.ballots() == old(self).ballots(),
                self.ranked() == old(self).ranked(),
                self.adj() == lock_all(start, self.pairs@.take(i as int)),
            decreases self.pairs@.len() - i,
        {
            let w = self.pairs[i].winner_id;
            let l = self.pairs[i].loser_id;
            let _ = self.lock(w, l);
            assert(self.pairs@.take(i + 1).drop_last() =~= self.pairs@.take(i as int));
            i = i + 1;
        }
        assert(self.pairs@.take(i as int) =~= self.pairs@);
    }

    /// Calculates the election's winner: the first candidate that no locked
    /// edge points to and that has at least one locked edge of its own.
    pub fn get_winner(&self) -> (r: Result<Candidate, TidemanError>)
        requires
            self.wf(),
        ensures
            match r {
                Ok(c) => exists|w: int|
                    is_winner(self.adj(), w) && c.name@ == self.names()[w] && forall|v: int|
                        0 <= v < w ==> !#[trigger] is_winner(self.adj(), v),
                Err(TidemanError::NoWinnerError) => forall|v: int| !#[trigger] is_winner(self.adj(), v),
                Err(_) => false,
            },
    {
        let ghost adj = self.adj();
        let n = self.nodes.len();
        let mut defeated: Vec<bool> = Vec::new();
        let mut i: usize = 0;
        while i < n
            invariant
                i <= n,
                defeated@.len() == i,
                forall|j: int| 0 <= j < i ==> !defeated@[j],
            decreases n - i,
        {
            defeated.push(false);
            i = i + 1;
        }
        let mut u: usize = 0;
        while u < n
            invariant
                adj == self.adj(),
                n == adj.len(),
                self.wf(),
                u <= n,
                defeated@.len() == n,
                forall|v: int| 0 <= v < n ==> (#[trigger] defeated@[v] <==> exists|a: int| 0 <= a < u && adj[a].contains(v as usize)),
            decreases n - u,
        {
            let mut k: usize = 0;
            assert(adj[u as int] == self.nodes@[u as int].links@);
            while k < self.nodes[u].links.len()
                invariant
                    adj == self.adj(),
                    n == adj.len(),
                    self.wf(),
                    u < n,
                    adj[u as int] == self.nodes@[u as int].links@,
                    k <= adj[u as int].len(),
                    defeated@.len() == n,
                    forall|v: int| 0 <= v < n ==> (#[trigger] defeated@[v] <==> (exists|a: int| 0 <= a < u && adj[a].contains(v as usize))
                        || exists|j: int| 0 <= j < k && adj[u as int][j] == v as usize),
                decreases adj[u as int].len() - k,
            {
                let x = self.nodes[u].links[k];
                assert(adj[u as int][k as int] < n);
                defeated.set(x, true);
                k = k + 1;
            }
            proof {
                assert forall|v: int| 0 <= v < n implies (#[trigger] defeated@[v] <==> exists|a: int| 0 <= a < u + 1 && adj[a].contains(v as usize)) by {
                    if exists|j: int| 0 <= j < adj[u as int].len() && adj[u as int][j] == v as usize {
                        assert(adj[u as int].contains(v as usize));
                    }
                    if adj[u as int].contains(v as usize) {
                        let j = choose|j: int| 0 <= j < adj[u as int].len() && adj[u as int][j] == v as usize;
                    }
                }
            }
            u = u + 1;
        }
        let mut w: usize = 0;
        while w < n
            invariant
                adj == self.adj(),
                n == adj.len(),
                self.wf(),
                w <= n,
                defeated@.len() == n,
                forall|v: int| 0 <= v < n ==> (#[trigger] defeated@[v] <==> exists|a: int| 0 <= a < n && adj[a].contains(v as usize)),
                forall|v: int| 0 <= v < w ==> !#[trigger] is_winner(adj, v),
            decreases n - w,
        {
            assert(adj[w as int] == self.nodes@[w as int].links@);
            if !defeated[w] && self.nodes[w].links.len() > 0 {
                assert(is_winner(adj, w as int));
                return Ok(self.nodes[w].candidate.duplicate());
            }
            assert(!is_winner(adj, w as int));
            w = w + 1;
        }
        Err(TidemanError::NoWinnerError)
    }

    /// Resolves the name given for the next rank of a ballot: the index of
    /// the candidate, unless the name is unknown or already ranked on it.
    pub fn choose_rank(&self, ranked: &Vec<usize>, name: &str) -> (r: Result<usize, TidemanError>)
        requires
            self.wf(),
        ensures
            match r {
                Ok(i) => i < self.names().len() && lower_of(self.names()[i as int]) == lower_of(name@)
                    && !ranked@.contains(i) && forall|j: int|
                    0 <= j < self.names().len() && lower_of(#[trigger] self.names()[j]) == lower_of(name@) ==> j == i,
                Err(TidemanError::CandidateNotFoundError(s)) => s@ == name@ && !names_candidate(self.names(), name@),
                Err(TidemanError::DuplicateVoteOnBallot(s)) => s@ == name@ && exists|i: usize|
                    i < self.names().len() && lower_of(#[trigger] self.names()[i as int]) == lower_of(name@)
                        && ranked@.contains(i),
                Err(_) => false,
            },
    {
        match self.get_candidate_id(name) {
            Ok(i) => {
                let mut k: usize = 0;
                while k < ranked.len()
                    invariant
                        self.wf(),
                        i < self.names().len(),
                        lower_of(self.names()[i as int]) == lower_of(name@),
                        k <= ranked@.len(),
                        forall|j: int| 0 <= j < k ==> ranked@[j] != i,
                    decreases ranked@.len() - k,
                {
                    if ranked[k] == i {
                        assert(ranked@[k as int] == i);
                        return Err(TidemanError::DuplicateVoteOnBallot(name.to_owned()));
                    }
                    k = k + 1;
                }
                Ok(i)
            },
            Err(e) => Err(e),
        }
    }

    /// Records one voter's ranking, given as names from first to last choice.
    /// It is accepted when every name is a candidate, no candidate is named
    /// twice (ignoring case) and every candidate is ranked. Names are checked
    /// in order: the first unknown or repeated name gives the error.
    pub fn record_ballot(&mut self, ranked_names: &Vec<String>) -> (r: Result<(), TidemanError>)
        requires
            old(self).wf(),
        ensures
            final(self).wf(),
            final(self).names() == old(self).names(),
            final(self).adj() == old(self).adj(),
            final(self).ranked() == old(self).ranked(),
            r is Ok <==> ranked_names@.len() == old(self).names().len() && resolvable(old(self).names(), texts(ranked_names@)),
            r is Ok ==> exists|b: Seq<usize>|
                final(self).ballots() == old(self).ballots().push(b) && b.len() == ranked_names@.len() && forall|p: int|
                    0 <= p < b.len() ==> #[trigger] b[p] < old(self).names().len() && lower_of(old(self).names()[b[p] as int])
                        == lower_of(ranked_names@[p]@),
            r is Err ==> final(self).ballots() == old(self).ballots(),
            match r {
                Err(TidemanError::CandidateNotFoundError(s)) => exists|q: int|
                    0 <= q < ranked_names@.len() && resolvable(old(self).names(), texts(ranked_names@).take(q))
                        && s@ == (#[trigger] ranked_names@[q])@ && !names_candidate(old(self).names(), s@),
                Err(TidemanError::DuplicateVoteOnBallot(s)) => exists|q: int|
                    0 <= q < ranked_names@.len() && resolvable(old(self).names(), texts(ranked_names@).take(q))
                        && s@ == (#[trigger] ranked_names@[q])@ && names_candidate(old(self).names(), s@) && exists|p: int|
                        0 <= p < q && lower_of((#[trigger] ranked_names@[p])@) == lower_of(s@),
                Err(TidemanError::IncompleteBallot) => resolvable(old(self).names(), texts(ranked_names@))
                    && ranked_names@.len() != old(self).names().len(),
                Err(_) => false,
                Ok(_) => true,
            },
    {
        let ghost names = self.names();
        let ghost t = texts(ranked_names@);
        let mut ballot: Vec<usize> = Vec::new();
        let mut k: usize = 0;
        while k < ranked_names.len()
            invariant
                self.wf(),
                self == old(self),
                names == self.names(),
                t == texts(ranked_names@),
                k <= ranked_names@.len(),
                ballot@.len() == k,
                valid_ballot(ballot@, names.len()),
                forall|p: int| 0 <= p < k ==> #[trigger] ballot@[p] < names.len() && lower_of(names[ballot@[p] as int]) == lower_of(t[p]),
                resolvable(names, t.take(k as int)),
            decreases ranked_names@.len() - k,
        {
            let ghost prev = ballot@;
            match self.choose_rank(&ballot, ranked_names[k].as_str()) {
                Ok(i) => {
                    ballot.push(i);
                    proof {
                        assert forall|p: int, q: int| 0 <= p < ballot@.len() && 0 <= q < ballot@.len() && #[trigger] ballot@[p] == #[trigger] ballot@[q] implies p == q by {
                            if p < k && q < k {
                                assert(prev[p] == prev[q]);
                            } else if p < k {
                                assert(prev.contains(ballot@[p]));
                            } else if q < k {
                                assert(prev.contains(ballot@[q]));
                            }
                        }
                        let tk = t.take(k + 1);
                        assert forall|p: int| 0 <= p < tk.len() implies #[trigger] names_candidate(names, tk[p]) by {
                            if p < k {
                                assert(t.take(k as int)[p] == tk[p]);
                            } else {
                                assert(lower_of(names[i as int]) == lower_of(tk[p]));
                            }
                        }
                        assert forall|p: int, q: int| 0 <= p < q < tk.len() implies lower_of(#[trigger] tk[p]) != lower_of(#[trigger] tk[q]) by {
                            if q < k {
                                assert(t.take(k as int)[p] == tk[p]);
                                assert(t.take(k as int)[q] == tk[q]);
                            } else {
                                assert(lower_of(names[ballot@[p] as int]) == lower_of(t[p]));
                                if lower_of(tk[p]) == lower_of(tk[q]) {
                                    assert(lower_of(names[ballot@[p] as int]) == lower_of(names[i as int]));
                                    assert(ballot@[p] == i);
                                    assert(prev[p] == i);
                                    assert(prev.contains(i));
                                }
                            }
                        }
                    }
                },
                Err(e) => {
                    proof {
                        if let TidemanError::CandidateNotFoundError(s) = &e {
                            assert(ranked_names@[k as int]@ == t[k as int]);
                            assert(s@ == ranked_names@[k as int]@);
                            assert(!names_candidate(names, t[k as int]));
                            assert(names == old(self).names());
                            assert(exists|p: int|
                                0 <= p < ranked_names@.len() && s@ == (#[trigger] ranked_names@[p])@ && !names_candidate(
                                    old(self).names(),
                                    s@,
                                ));
                        } else {
                            let i = choose|i: usize| i < names.len() && lower_of(#[trigger] names[i as int]) == lower_of(t[k as int])
                                && prev.contains(i);
                            let p = choose|p: int| 0 <= p < prev.len() && prev[p] == i;
                            assert(lower_of(names[prev[p] as int]) == lower_of(t[p]));
                            assert(ranked_names@[p]@ == t[p]);
                            assert(ranked_names@[k as int]@ == t[k as int]);
                        }
                        assert(!resolvable(names, t)) by {
                            if e is CandidateNotFoundError {
                                assert(!names_candidate(names, t[k as int]));
                            } else {
                                let i = choose|i: usize| i < names.len() && lower_of(#[trigger] names[i as int]) == lower_of(t[k as int])
                                    && prev.contains(i);
                                let p = choose|p: int| 0 <= p < prev.len() && prev[p] == i;
                                assert(lower_of(names[prev[p] as int]) == lower_of(t[p]));
                                assert(lower_of(t[p]) == lower_of(t[k as int]));
                            }
                        }
                    }
                    return Err(e);
                },
            }
            k = k + 1;
        }
        assert(t.take(k as int) =~= t);
        if ballot.len() != self.nodes.len() {
            return Err(TidemanError::IncompleteBallot);
        }
        let ghost old_ballots = self.ballots();
        let ghost b = ballot@;
        self.votes.push(ballot);
        assert(self.ballots() =~= old_ballots.push(b));
        Ok(())
    }

    /// Tabulates the election: computes the margin matrix of the ballots,
    /// the pairs it decides, and ranks them for locking.
    pub fn tabulate(&mut self)
        requires
            old(self).wf(),
            old(self).ballots().len() <= i32::MAX,
        ensures
            final(self).wf(),
            final(self).names() == old(self).names(),
            final(self).adj() == old(self).adj(),
            final(self).ballots() == old(self).ballots(),
            exists|perm: Seq<int>|
                stable_rank(
                    final(self).ranked(),
                    pairs_before(
                        margin_table(old(self).ballots(), old(self).names().len()),
                        old(self).names().len() as int,
                    ),
                    perm,
                ),
            forall|k: int|
                0 <= k < final(self).ranked().len() ==> {
                    let p = #[trigger] final(self).ranked()[k];
                    &&& p.winner_id < old(self).names().len()
                    &&& p.loser_id < old(self).names().len()
                    &&& p.weight > 0
                    &&& p.weight == margin(old(self).ballots(), p.winner_id, p.loser_id)
                    &&& margin(old(self).ballots(), p.loser_id, p.winner_id) == -p.weight
                },
            forall|k: int, l: int|
                0 <= k < l < final(self).ranked().len() ==> (#[trigger] final(self).ranked()[k]).weight > (
                #[trigger] final(self).ranked()[l]).weight || (final(self).ranked()[k].weight
                    == final(self).ranked()[l].weight && enumerated_before(
                    final(self).ranked()[k],
                    final(self).ranked()[l],
                )),
    {
        let n = self.nodes.len();
        assert(self.ballots() =~= ballot_views(self.votes@));
        let matrix = margin_matrix(&self.votes, n);
        proof {
            assert forall|i: int, j: int| 0 <= i < matrix@.len() && 0 <= j < matrix@.len() implies #[trigger] matrix@[i]@[j] != i32::MIN by {
                lemma_margin_bound(self.ballots(), i as usize, j as usize);
            }
        }
        let pairs = build_pairs(&matrix);
        assert(pairs@ == pairs_before(margin_table(self.ballots(), n as nat), n as int));
        let ghost nm = self.names();
        let ghost ad = self.adj();
        let ghost bs = self.ballots();
        let ghost pv = pairs@;
        self.pairs = rank(pairs);
        proof {
            let perm = choose|perm: Seq<int>| stable_rank(self.pairs@, pv, perm);
            let mt = margin_table(bs, nm.len());
            assert(stable_rank(self.ranked(), pairs_before(mt, nm.len() as int), perm));
            assert(square(mt, n as int));
            lemma_pairs_before(mt, n as int, n as int);
            let r = self.ranked();
            assert forall|k: int| 0 <= k < r.len() implies {
                let p = #[trigger] r[k];
                &&& p.winner_id < nm.len()
                &&& p.loser_id < nm.len()
                &&& p.weight > 0
                &&& p.weight == margin(bs, p.winner_id, p.loser_id)
                &&& margin(bs, p.loser_id, p.winner_id) == -p.weight
            } by {
                let q = pv[perm[k]];
                assert(r[k] == q);
                let a = low_id(q);
                let b = high_id(q);
                lemma_margin_bound(bs, a as usize, b as usize);
                lemma_margin_antisymmetric(bs, a as usize, b as usize);
                assert(mt[a][b] == margin(bs, a as usize, b as usize) as i32);
                assert(mt[a][b] as int == margin(bs, a as usize, b as usize));
            }
            assert forall|k: int, l: int| 0 <= k < l < r.len() implies (#[trigger] r[k]).weight > (#[trigger] r[l]).weight
                || (r[k].weight == r[l].weight && enumerated_before(r[k], r[l])) by {
                if r[k].weight == r[l].weight {
                    assert(perm[k] < perm[l]);
                    assert(enumerated_before(pv[perm[k]], pv[perm[l]]));
                }
            }
        }
        assert(self.names() == nm);
        assert(self.adj() == ad);
        assert(self.ballots() == bs);
    }

    /// The locked edges leaving a candidate.
    pub fn links(&self, node_id: usize) -> (r: &Vec<usize>)
        requires
            node_id < self.adj().len(),
        ensures
            r@ == self.adj()[node_id as int],
    {
        &self.nodes[node_id].links
    }

    /// The name of a candidate.
    pub fn name(&self, node_id: usize) -> (r: &String)
        requires
            node_id < self.names().len(),
        ensures
            r@ == self.names()[node_id as int],
    {
        &self.nodes[node_id].candidate.name
    }

    /// Number of recorded ballots.
    pub fn ballot_count(&self) -> (r: usize)
        ensures
            r == self.ballots().len(),
    {
        self.votes.len()
    }

    /// The ranked pairs, in lock order.
    pub fn ranked_pairs(&self) -> (r: &Vec<TidemanPair>)
        ensures
            r@ == self.ranked(),
    {
        &self.pairs
    }

    /// Checks if the graph has a cycle through the specified node.
    pub fn has_cycles_from(&self, node_id: usize) -> (r: bool)
        requires
            closed_targets(self.adj()),
            node_id < self.adj().len(),
        ensures
            r == reaches(self.adj(), node_id, node_id),
    {
        let mut visited: Vec<bool> = Vec::new();
        let mut i: usize = 0;
        while i < self.nodes.len()
            invariant
                i <= self.nodes@.len(),
                visited@.len() == i,
                forall|j: int| 0 <= j < i ==> !visited@[j],
            decreases self.nodes@.len() - i,
        {
            visited.push(false);
            i = i + 1;
        }
        self.has_cycles_dfs(node_id, &mut visited)
    }

    /// Marks the successors of `u` that are not yet marked and stacks them.
    fn visit_successors(
        &self,
        u: usize,
        visited: &mut Vec<bool>,
        stack: &mut Vec<usize>,
        Ghost(marked): Ghost<Set<int>>,
    ) -> (r: Ghost<Set<int>>)
        requires
            closed_targets(self.adj()),
            u < self.adj().len(),
            old(visited)@.len() == self.adj().len(),
            forall|x: int| #[trigger] marked.contains(x) <==> 0 <= x < old(visited)@.len() && old(visited)@[x],
            marked.finite(),
        ensures
            final(visited)@.len() == old(visited)@.len(),
            forall|x: int| #[trigger] r@.contains(x) <==> 0 <= x < final(visited)@.len() && final(visited)@[x],
            r@.finite(),
            r@.len() - marked.len() == final(stack)@.len() - old(stack)@.len(),
            forall|x: int| 0 <= x < old(visited)@.len() && old(visited)@[x] ==> #[trigger] final(visited)@[x],
            forall|x: usize| #[trigger] edge(self.adj(), u, x) ==> final(visited)@[x as int],
            forall|x: int|
                0 <= x < final(visited)@.len() && #[trigger] final(visited)@[x] && !old(visited)@[x] ==> edge(
                    self.adj(),
                    u,
                    x as usize,
                ),
            forall|i: int| 0 <= i < old(stack)@.len() ==> final(stack)@[i] == #[trigger] old(stack)@[i],
            final(stack)@.len() >= old(stack)@.len(),
            forall|x: int|
                0 <= x < final(visited)@.len() && #[trigger] final(visited)@[x] && !old(visited)@[x]
                    ==> final(stack)@.contains(x as usize),
            forall|i: int|
                old(stack)@.len() <= i < final(stack)@.len() ==> #[trigger] final(stack)@[i] < final(visited)@.len()
                    && final(visited)@[final(stack)@[i] as int] && !old(visited)@[final(stack)@[i] as int],
    {
        let ghost adj = self.adj();
        let ghost old_visited = visited@;
        let ghost old_stack = stack@;
        let ghost mut m = marked;
        let n = self.nodes.len();
        let mut k: usize = 0;
        assert(adj[u as int] == self.nodes@[u as int].links@);
        while k < self.nodes[u].links.len()
            invariant
                adj == self.adj(),
                closed_targets(adj),
                u < adj.len(),
                n == adj.len(),
                adj[u as int] == self.nodes@[u as int].links@,
                k <= adj[u as int].len(),
                visited@.len() == n,
                forall|x: int| #[trigger] m.contains(x) <==> 0 <= x < visited@.len() && visited@[x],
                m.finite(),
                m.len() - marked.len() == stack@.len() - old_stack.len(),
                forall|x: int| 0 <= x < n && old_visited[x] ==> #[trigger] visited@[x],
                forall|j: int| 0 <= j < k ==> visited@[#[trigger] adj[u as int][j] as int],
                forall|x: int| 0 <= x < n && #[trigger] visited@[x] && !old_visited[x] ==> edge(adj, u, x as usize),
                forall|i: int| 0 <= i < old_stack.len() ==> stack@[i] == #[trigger] old_stack[i],
                stack@.len() >= old_stack.len(),
                forall|x: int| 0 <= x < n && #[trigger] visited@[x] && !old_visited[x] ==> stack@.contains(x as usize),
                forall|i: int|
                    old_stack.len() <= i < stack@.len() ==> #[trigger] stack@[i] < n && visited@[stack@[i] as int]
                        && !old_visited[stack@[i] as int],
            decreases adj[u as int].len() - k,
        {
            let x = self.nodes[u].links[k];
            assert(adj[u as int][k as int] == x);
            assert(x < n);
            if !visited[x] {
                let ghost prev = stack@;
                visited.set(x, true);
                stack.push(x);
                proof {
                    assert(stack@[stack@.len() - 1] == x);
                    assert forall|y: int| 0 <= y < n && #[trigger] visited@[y] && !old_visited[y] implies stack@.contains(y as usize) by {
                        if y != x as int {
                            let i = choose|i: int| 0 <= i < prev.len() && prev[i] == y as usize;
                            assert(stack@[i] == prev[i]);
                        }
                    }
                    assert(!m.contains(x as int));
                    m = m.insert(x as int);
                    assert(adj[u as int].contains(x));
                }
            }
            k = k + 1;
        }
        proof {
            assert forall|x: usize| #[trigger] edge(adj, u, x) implies visited@[x as int] by {
                let j = choose|j: int| 0 <= j < adj[u as int].len() && adj[u as int][j] == x;
                assert(visited@[adj[u as int][j] as int]);
            }
        }
        Ghost(m)
    }

    /// Searches the graph from `node_id`, marking every node that it reaches
    /// over one or more edges; tells whether `node_id` itself was reached.
    fn has_cycles_dfs(&self, node_id: usize, visited: &mut Vec<bool>) -> (r: bool)
        requires
            closed_targets(self.adj()),
            node_id < self.adj().len(),
            old(visited)@.len() == self.adj().len(),
            forall|x: int| 0 <= x < old(visited)@.len() ==> !old(visited)@[x],
        ensures
            r == reaches(self.adj(), node_id, node_id),
            final(visited)@.len() == old(visited)@.len(),
            forall|x: int| 0 <= x < final(visited)@.len() ==> (#[trigger] final(visited)@[x] <==> reaches(
                self.adj(),
                node_id,
                x as usize,
            )),
    {
        let ghost adj = self.adj();
        let ghost n = adj.len() as int;
        let len = self.nodes.len();
        assert(len == n);
        let mut stack: Vec<usize> = Vec::new();
        let ghost empty = Set::<int>::empty();
        assert forall|x: int| #[trigger] empty.contains(x) <==> 0 <= x < visited@.len() && visited@[x] by {}
        let ghost old_visited = visited@;
        let Ghost(mut marked) = self.visit_successors(node_id, visited, &mut stack, Ghost(empty));
        proof {
            assert forall|x: int| 0 <= x < n && #[trigger] visited@[x] implies reaches(adj, node_id, x as usize) by {
                assert(!old_visited[x]);
                lemma_edge_reaches(adj, node_id, x as usize);
            }
        }
        while stack.len() > 0
            invariant
                adj == self.adj(),
                n == adj.len(),
                closed_targets(adj),
                node_id < n,
                visited@.len() == n,
                forall|x: int| #[trigger] marked.contains(x) <==> 0 <= x < visited@.len() && visited@[x],
                marked.finite(),
                forall|i: int| 0 <= i < stack@.len() ==> #[trigger] stack@[i] < n && visited@[stack@[i] as int],
                forall|x: int| 0 <= x < n && #[trigger] visited@[x] ==> reaches(adj, node_id, x as usize),
                forall|x: usize| #[trigger] edge(adj, node_id, x) ==> visited@[x as int],
                forall|y: usize, x: usize|
                    y < n && visited@[y as int] && !stack@.contains(y) && #[trigger] edge(adj, y, x) ==> visited@[x as int],
            decreases n - marked.len() + stack@.len(),
        {
            proof {
                vstd::set_lib::lemma_int_range(0, n);
                assert(marked.subset_of(set_int_range(0, n)));
                vstd::set_lib::lemma_len_subset(marked, set_int_range(0, n));
            }
            let ghost old_stack = stack@;
            let u = stack.pop().unwrap();
            let ghost popped = stack@;
            assert(old_stack =~= popped.push(u));
            let ghost before = visited@;
            let Ghost(m2) = self.visit_successors(u, visited, &mut stack, Ghost(marked));
            proof {
                assert forall|x: int| 0 <= x < n && #[trigger] visited@[x] implies reaches(adj, node_id, x as usize) by {
                    if !before[x] {
                        lemma_edge_reaches(adj, u, x as usize);
                        lemma_reaches_trans(adj, node_id, u, x as usize);
                    }
                }
                assert forall|i: int| 0 <= i < stack@.len() implies #[trigger] stack@[i] < n && visited@[stack@[i] as int] by {
                    if i < popped.len() {
                        assert(stack@[i] == popped[i]);
                        assert(old_stack[i] == popped[i]);
                    }
                }
                assert forall|y: usize, x: usize|
                    y < n && visited@[y as int] && !stack@.contains(y) && #[trigger] edge(adj, y, x) implies visited@[x as int] by {
                    if y != u {
                        if before[y as int] {
                            if popped.contains(y) {
                                let i = choose|i: int| 0 <= i < popped.len() && popped[i] == y;
                                assert(stack@[i] == popped[i]);
                            }
                            if old_stack.contains(y) {
                                let i = choose|i: int| 0 <= i < old_stack.len() && old_stack[i] == y;
                                if i < popped.len() {
                                    assert(popped[i] == y);
                                }
                            }
                            assert(before[x as int]);
                        } else {
                            assert(stack@.contains(y));
                        }
                    }
                }
                marked = m2;
            }
        }
        proof {
            assert forall|x: usize| #[trigger] edge(adj, node_id, x) implies x < visited@.len() && visited@[x as int] by {
                let j = choose|j: int| 0 <= j < adj[node_id as int].len() && adj[node_id as int][j] == x;
                assert(adj[node_id as int][j] < adj.len());
            }
            assert forall|y: usize, x: usize| y < visited@.len() && visited@[y as int] && #[trigger] edge(adj, y, x)
                implies x < visited@.len() && visited@[x as int] by {
                assert(!stack@.contains(y));
                let j = choose|j: int| 0 <= j < adj[y as int].len() && adj[y as int][j] == x;
                assert(adj[y as int][j] < adj.len());
            }
            assert forall|x: int| 0 <= x < n && reaches(adj, node_id, x as usize) implies #[trigger] visited@[x] by {
                let p = choose|p: Seq<usize>| #[trigger] is_path(adj, p) && p[0] == node_id && p.last() == x as usize;
                lemma_closed_set_holds_reach(adj, node_id, visited@, p);
            }
            if reaches(adj, node_id, node_id) {
                assert(visited@[node_id as int]);
            }
        }
        visited[node_id]
    }
}

/// No locked edge points to `v`.
pub open spec fn undefeated(adj: Seq<Seq<usize>>, v: int) -> bool {
    forall|a: int| 0 <= a < adj.len() ==> !#[trigger] adj[a].contains(v as usize)
}

/// `v` is undefeated and has at least one locked victory.
pub open spec fn is_winner(adj: Seq<Seq<usize>>, v: int) -> bool {
    0 <= v < adj.len() && undefeated(adj, v) && adj[v].len() > 0
}

/// Locking any sequence of pairs into an acyclic graph, skipping each pair
/// that would close a cycle, leaves the graph acyclic.
pub proof fn lemma_lock_all_acyclic(adj: Seq<Seq<usize>>, ps: Seq<TidemanPair>)
    requires
        acyclic(adj),
        closed_targets(adj),
    ensures
        acyclic(lock_all(adj, ps)),
        closed_targets(lock_all(adj, ps)),
        lock_all(adj, ps).len() == adj.len(),
    decreases ps.len(),
{
    if ps.len() > 0 {
        let prev = lock_all(adj, ps.drop_last());
        lemma_lock_all_acyclic(adj, ps.drop_last());
        let w = ps.last().winner_id;
        let l = ps.last().loser_id;
        if lock_allowed(prev, w, l) {
            lemma_new_cycle(prev, w, l);
            lemma_with_edge_closed(prev, w, l);
        }
    }
}

/// Locking the same pairs in the same order into two graphs with the same
/// edges (two empty graphs over the same candidates, say) gives the same
/// edges.
pub proof fn lemma_lock_all_deterministic(a1: Seq<Seq<usize>>, a2: Seq<Seq<usize>>, ps: Seq<TidemanPair>)
    requires
        same_edges(a1, a2),
    ensures
        same_edges(lock_all(a1, ps), lock_all(a2, ps)),
    decreases ps.len(),
{
    if ps.len() > 0 {
        let p1 = lock_all(a1, ps.drop_last());
        let p2 = lock_all(a2, ps.drop_last());
        lemma_lock_all_deterministic(a1, a2, ps.drop_last());
        let w = ps.last().winner_id;
        let l = ps.last().loser_id;
        lemma_same_edges_reach(p1, p2, l, w);
        if lock_allowed(p1, w, l) {
            let q1 = with_edge(p1, w, l);
            let q2 = with_edge(p2, w, l);
            assert forall|x: usize, y: usize| #[trigger] edge(q1, x, y) == #[trigger] edge(q2, x, y) by {
                lemma_edge_with_edge(p1, w, l, x, y);
                lemma_edge_with_edge(p2, w, l, x, y);
                assert(edge(p1, x, y) == edge(p2, x, y));
            }
        }
    }
}

/// Every edge after locking `ps` was there before or is the edge of one of
/// the pairs.
pub proof fn lemma_lock_all_edges(adj: Seq<Seq<usize>>, ps: Seq<TidemanPair>)
    ensures
        forall|x: usize, y: usize|
            #[trigger] edge(lock_all(adj, ps), x, y) ==> edge(adj, x, y) || exists|k: int|
                0 <= k < ps.len() && (#[trigger] ps[k]).winner_id == x && ps[k].loser_id == y,
    decreases ps.len(),
{
    if ps.len() > 0 {
        let prev = lock_all(adj, ps.drop_last());
        lemma_lock_all_edges(adj, ps.drop_last());
        let w = ps.last().winner_id;
        let l = ps.last().loser_id;
        assert forall|x: usize, y: usize| #[trigger] edge(lock_all(adj, ps), x, y) implies edge(adj, x, y) || exists|k: int|
            0 <= k < ps.len() && (#[trigger] ps[k]).winner_id == x && ps[k].loser_id == y by {
            if lock_allowed(prev, w, l) {
                lemma_edge_with_edge(prev, w, l, x, y);
            }
            if edge(prev, x, y) && !edge(adj, x, y) {
                let k = choose|k: int| 0 <= k < ps.drop_last().len() && (#[trigger] ps.drop_last()[k]).winner_id == x
                    && ps.drop_last()[k].loser_id == y;
                assert(ps[k] == ps.drop_last()[k]);
            }
            if !edge(prev, x, y) {
                assert(ps[ps.len() - 1] == ps.last());
            }
        }
    }
}

/// Trying a lock keeps every edge.
proof fn lemma_lock_step_within(g: Seq<Seq<usize>>, w: usize, l: usize)
    ensures
        edges_within(g, lock_step(g, w, l)),
        lock_step(g, w, l).len() == g.len(),
{
    if lock_allowed(g, w, l) {
        assert forall|x: usize, y: usize| #[trigger] edge(g, x, y) implies edge(lock_step(g, w, l), x, y) by {
            lemma_edge_with_edge(g, w, l, x, y);
        }
    }
}

/// Locking more pairs keeps every edge locked before.
proof fn lemma_prefix_within(a: Seq<Seq<usize>>, ps: Seq<TidemanPair>, k: int, j: int)
    requires
        0 <= k <= j <= ps.len(),
    ensures
        edges_within(lock_all(a, ps.take(k)), lock_all(a, ps.take(j))),
        lock_all(a, ps.take(j)).len() == lock_all(a, ps.take(k)).len(),
    decreases j - k,
{
    if j > k {
        lemma_prefix_within(a, ps, k, j - 1);
        let prev = lock_all(a, ps.take(j - 1));
        assert(ps.take(j).drop_last() =~= ps.take(j - 1));
        assert(ps.take(j).last() == ps[j - 1]);
        lemma_lock_step_within(prev, ps[j - 1].winner_id, ps[j - 1].loser_id);
    } else {
        assert forall|x: usize, y: usize| #[trigger] edge(lock_all(a, ps.take(k)), x, y) implies edge(
            lock_all(a, ps.take(j)),
            x,
            y,
        ) by {}
    }
}

/// Locking the same pairs again into the graph that locking them gave adds
/// no edge: every pair locked the first time is already there, and every
/// pair skipped the first time would still close a cycle.
pub proof fn lemma_lock_all_idempotent(adj: Seq<Seq<usize>>, ps: Seq<TidemanPair>)
    ensures
        same_edges(lock_all(lock_all(adj, ps), ps), lock_all(adj, ps)),
{
    assert(ps.take(ps.len() as int) =~= ps);
    lemma_idempotent_prefix(adj, ps, ps.len() as int);
}

proof fn lemma_idempotent_prefix(adj: Seq<Seq<usize>>, ps: Seq<TidemanPair>, k: int)
    requires
        0 <= k <= ps.len(),
        ps.take(ps.len() as int) == ps,
    ensures
        same_edges(lock_all(lock_all(adj, ps), ps.take(k)), lock_all(adj, ps)),
    decreases k,
{
    let h = lock_all(adj, ps);
    if k == 0 {
        assert(ps.take(0) =~= Seq::<TidemanPair>::empty());
    } else {
        lemma_idempotent_prefix(adj, ps, k - 1);
        let j = lock_all(h, ps.take(k - 1));
        assert(ps.take(k).drop_last() =~= ps.take(k - 1));
        assert(ps.take(k).last() == ps[k - 1]);
        let w = ps[k - 1].winner_id;
        let l = ps[k - 1].loser_id;
        if lock_allowed(j, w, l) {
            let p = lock_all(adj, ps.take(k - 1));
            lemma_prefix_within(adj, ps, k - 1, ps.len() as int);
            lemma_prefix_within(adj, ps, k, ps.len() as int);
            lemma_same_edges_reach(j, h, l, w);
            if reaches(p, l, w) {
                lemma_reaches_within(p, h, l, w);
            }
            assert(lock_allowed(p, w, l));
            assert(ps.take(k).drop_last() =~= ps.take(k - 1));
            assert(lock_all(adj, ps.take(k)) == with_edge(p, w, l));
            lemma_edge_with_edge(p, w, l, w, l);
            assert(edge(lock_all(adj, ps.take(k)), w, l));
            assert(edge(h, w, l));
            let j2 = with_edge(j, w, l);
            assert forall|x: usize, y: usize| #[trigger] edge(j2, x, y) == #[trigger] edge(h, x, y) by {
                lemma_edge_with_edge(j, w, l, x, y);
            }
        }
    }
}

/// The views of a list of strings.
pub open spec fn texts(v: Seq<String>) -> Seq<Seq<char>> {
    Seq::new(v.len(), |i: int| v[i]@)
}

/// Every name is a candidate and no two names are equal ignoring case.
pub open spec fn resolvable(names: Seq<Seq<char>>, ranked: Seq<Seq<char>>) -> bool {
    &&& forall|p: int| 0 <= p < ranked.len() ==> #[trigger] names_candidate(names, ranked[p])
    &&& forall|p: int, q: int| 0 <= p < q < ranked.len() ==> lower_of(#[trigger] ranked[p]) != lower_of(#[trigger] ranked[q])
}

/// Some registered name equals `name` ignoring case.
pub open spec fn names_candidate(names: Seq<Seq<char>>, name: Seq<char>) -> bool {
    exists|i: int| 0 <= i < names.len() && lower_of(#[trigger] names[i]) == lower_of(name)
}

/// No two names are equal ignoring case.
pub open spec fn unique_keys(names: Seq<Seq<char>>) -> bool {
    forall|i: int, j: int|
        0 <= i < names.len() && 0 <= j < names.len() && i != j ==> lower_of(#[trigger] names[i]) != lower_of(
            #[trigger] names[j],
        )
}

} // verus!
