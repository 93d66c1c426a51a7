//! Knock-out tournaments: rounds of paired games and tallies of wins.

use vstd::prelude::*;

verus! {

/// A team playing in the World Cup.
pub struct Team {
    /// Name of the team.
    pub name: String,
    /// The team's skill rating.
    pub rating: u32,
}

/// Why a list of teams cannot form a tournament.
#[derive(Clone, Copy, Debug, PartialEq, Eq, Structural)]
pub enum TournamentError {
    /// No teams.
    Empty,
    /// An odd number of teams.
    OddTeams,
}

/// A world cup tournament.
pub struct Tournament {
    /// The teams, in seeding order.
    pub teams: Vec<Team>,
}

/// The teams that go on from a round: the teams are paired in order, and
/// `first_wins[k]` tells whether the first team of pair `k` wins it; a team
/// left without a partner goes on.
pub open spec fn round_winners(teams: Seq<usize>, first_wins: Seq<bool>) -> Seq<usize> {
    Seq::new(
        ((teams.len() + 1) / 2) as nat,
        |k: int| if 2 * k + 1 >= teams.len() || first_wins[k] { teams[2 * k] } else { teams[2 * k + 1] },
    )
}

impl Tournament {
    /// A tournament of the given teams; there must be some, and an even number.
    pub fn from_teams(teams: Vec<Team>) -> (r: Result<Tournament, TournamentError>)
        ensures
            teams@.len() == 0 ==> r == Err::<Tournament, TournamentError>(TournamentError::Empty),
            teams@.len() > 0 && teams@.len() % 2 == 1 ==> r == Err::<Tournament, TournamentError>(
                TournamentError::OddTeams,
            ),
            teams@.len() > 0 && teams@.len() % 2 == 0 ==> (r matches Ok(t) && t.teams@ == teams@),
    {
        if teams.len() == 0 {
            Err(TournamentError::Empty)
        } else if teams.len() % 2 == 1 {
            Err(TournamentError::OddTeams)
        } else {
            Ok(Tournament { teams })
        }
    }

    /// Plays one round: the teams (by index) are paired in order and the
    /// winner of each pair goes on, as `first_wins` tells.
    pub fn simulate_round(teams: &Vec<usize>, first_wins: &Vec<bool>) -> (r: Vec<usize>)
        requires
            first_wins@.len() >= teams@.len() / 2,
        ensures
            r@ == round_winners(teams@, first_wins@),
    {
        let mut out: Vec<usize> = Vec::new();
        let n = teams.len();
        let rounds = n / 2 + n % 2;
        let mut k: usize = 0;
        while k < rounds
            invariant
                first_wins@.len() >= teams@.len() / 2,
                n == teams@.len(),
                rounds == (teams@.len() + 1) / 2,
                k <= rounds,
                out@ == round_winners(teams@, first_wins@).take(k as int),
            decreases rounds - k,
        {
            assert(2 * k < teams@.len()) by (nonlinear_arith)
                requires
                    k < rounds,
                    rounds == (teams@.len() + 1) / 2,
            ;
            let w = if 2 * k + 1 >= n || first_wins[k] {
                teams[2 * k]
            } else {
                teams[2 * k + 1]
            };
            out.push(w);
            assert(out@ =~= round_winners(teams@, first_wins@).take(k + 1));
            k = k + 1;
        }
        assert(round_winners(teams@, first_wins@).take(k as int) =~= round_winners(teams@, first_wins@));
        out
    }

    /// Counts each team's tournament wins and lists teams by wins, most
    /// first; teams with equal wins stay in seeding order.
    #[verifier::rlimit(60)]
    pub fn simulate(&self, winners: &Vec<usize>) -> (r: Vec<(usize, u32)>)
        requires
            winners@.len() <= u32::MAX,
        ensures
            r@.len() == self.teams@.len(),
            forall|k: int| 0 <= k < r@.len() ==> (#[trigger] r@[k]).0 < self.teams@.len() && r@[k].1 == count_of(
                winners@,
                r@[k].0,
            ),
            forall|a: int, b: int| 0 <= a < b < r@.len() ==> (#[trigger] r@[a]).1 > (#[trigger] r@[b]).1 || (
            r@[a].1 == r@[b].1 && r@[a].0 < r@[b].0),
            forall|a: int, b: int| 0 <= a < b < r@.len() ==> #[trigger] r@[a].0 != #[trigger] r@[b].0,
    {
        let n = self.teams.len();
        let mut wins: Vec<u32> = Vec::new();
        let mut t: usize = 0;
        while t < n
            invariant
                t <= n,
                wins@.len() == t,
                forall|x: int| 0 <= x < t ==> #[trigger] wins@[x] == 0,
            decreases n - t,
        {
            wins.push(0);
            t = t + 1;
        }
        let mut i: usize = 0;
        while i < winners.len()
            invariant
                winners@.len() <= u32::MAX,
                i <= winners@.len(),
                wins@.len() == n,
                forall|x: int| 0 <= x < n ==> #[trigger] wins@[x] == count_of(winners@.take(i as int), x as usize),
                forall|x: int| 0 <= x < n ==> #[trigger] wins@[x] <= i,
            decreases winners@.len() - i,
        {
            let w = winners[i];
            assert(winners@.take(i + 1).drop_last() =~= winners@.take(i as int));
            if w < n {
                let v = wins[w];
                wins.set(w, v + 1);
            }
            i = i + 1;
        }
        assert(winners@.take(i as int) =~= winners@);
        let mut r: Vec<(usize, u32)> = Vec::new();
        let mut x: usize = 0;
        while x < n
            invariant
                x <= n,
                wins@.len() == n,
                forall|y: int| 0 <= y < n ==> #[trigger] wins@[y] == count_of(winners@, y as usize),
                r@.len() == x,
                forall|k: int| 0 <= k < r@.len() ==> (#[trigger] r@[k]).0 < x && r@[k].1 == count_of(winners@, r@[k].0),
                forall|a: int, b: int| 0 <= a < b < r@.len() ==> (#[trigger] r@[a]).1 > (#[trigger] r@[b]).1 || (r@[a].1
                    == r@[b].1 && r@[a].0 < r@[b].0),
                forall|a: int, b: int| 0 <= a < b < r@.len() ==> #[trigger] r@[a].0 != #[trigger] r@[b].0,
            decreases n - x,
        {
            let item = (x, wins[x]);
            let mut pos: usize = 0;
            while pos < r.len() && r[pos].1 >= item.1
                invariant
                    pos <= r@.len(),
                    forall|k: int| 0 <= k < pos ==> (#[trigger] r@[k]).1 >= item.1,
                decreases r@.len() - pos,
            {
                pos = pos + 1;
            }
            let ghost old_r = r@;
            r.insert(pos, item);
            proof {
                old_r.insert_ensures(pos as int, item);
                assert forall|k: int| 0 <= k < r@.len() implies (#[trigger] r@[k]).0 < x + 1 && r@[k].1 == count_of(
                    winners@,
                    r@[k].0,
                ) by {
                    if k > pos {
                        assert(r@[k] == old_r[k - 1]);
                    }
                }
                assert forall|a: int, b: int| 0 <= a < b < r@.len() implies (#[trigger] r@[a]).1 > (
                #[trigger] r@[b]).1 || (r@[a].1 == r@[b].1 && r@[a].0 < r@[b].0) by {
                    let a0 = if a < pos { a } else { a - 1 };
                    let b0 = if b <= pos { b } else { b - 1 };
                    if a != pos as int && b != pos as int {
                        assert(r@[a] == old_r[a0]);
                        assert(r@[b] == old_r[b0]);
                    } else if a == pos as int {
                        assert(r@[b] == old_r[b0]);
                        if b0 > pos {
                            assert(old_r[pos as int].1 >= old_r[b0].1);
                        }
                    } else {
                        assert(r@[a] == old_r[a0]);
                    }
                }
                assert forall|a: int, b: int| 0 <= a < b < r@.len() implies #[trigger] r@[a].0 != #[trigger] r@[b].0 by {
                    let a0 = if a < pos { a } else { a - 1 };
                    let b0 = if b <= pos { b } else { b - 1 };
                    if a != pos as int && b != pos as int {
                        assert(r@[a] == old_r[a0]);
                        assert(r@[b] == old_r[b0]);
                    } else if a == pos as int {
                        assert(r@[b] == old_r[b0]);
                    } else {
                        assert(r@[a] == old_r[a0]);
                    }
                }
            }
            x = x + 1;
        }
        r
    }
}

/// How many entries of `s` are `x`.
pub open spec fn count_of(s: Seq<usize>, x: usize) -> nat
    decreases s.len(),
{
    if s.len() == 0 {
        0
    } else {
        count_of(s.drop_last(), x) + if s.last() == x { 1nat } else { 0nat }
    }
}

} // verus!
