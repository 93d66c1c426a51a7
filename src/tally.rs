//! Pairwise margins between candidates, the pairs they decide, and the
//! stable ranking of those pairs by margin.

use vstd::prelude::*;
use crate::tideman::{TidemanPair, valid_ballot};

verus! {

/// Ballot `b` ranks `i` ahead of `j`.
pub open spec fn ahead(b: Seq<usize>, i: usize, j: usize) -> bool {
    exists|p: int, q: int| 0 <= p < q < b.len() && #[trigger] b[p] == i && #[trigger] b[q] == j
}

/// What ballot `b` adds to the margin of `i` over `j`.
pub open spec fn contribution(b: Seq<usize>, i: usize, j: usize) -> int {
    (if ahead(b, i, j) { 1int } else { 0int }) - (if ahead(b, j, i) { 1int } else { 0int })
}

/// Ballots ranking `i` ahead of `j`, minus ballots ranking `j` ahead of `i`.
pub open spec fn margin(ballots: Seq<Seq<usize>>, i: usize, j: usize) -> int
    decreases ballots.len(),
{
    if ballots.len() == 0 {
        0
    } else {
        margin(ballots.drop_last(), i, j) + contribution(ballots.last(), i, j)
    }
}

/// The views of a list of ballots.
pub open spec fn ballot_views(ballots: Seq<Vec<usize>>) -> Seq<Seq<usize>> {
    Seq::new(ballots.len(), |k: int| ballots[k]@)
}

/// The views of the rows of a matrix.
pub open spec fn rows(m: Seq<Vec<i32>>) -> Seq<Seq<i32>> {
    Seq::new(m.len(), |k: int| m[k]@)
}

/// The margin matrix of `ballots` over `n` candidates.
pub open spec fn margin_table(ballots: Seq<Seq<usize>>, n: nat) -> Seq<Seq<i32>> {
    Seq::new(n, |i: int| Seq::new(n, |j: int| margin(ballots, i as usize, j as usize) as i32))
}

/// The margin of `i` over `j` is minus the margin of `j` over `i`.
pub proof fn lemma_margin_antisymmetric(ballots: Seq<Seq<usize>>, i: usize, j: usize)
    ensures
        margin(ballots, i, j) == -margin(ballots, j, i),
    decreases ballots.len(),
{
    if ballots.len() > 0 {
        lemma_margin_antisymmetric(ballots.drop_last(), i, j);
    }
}

/// A margin is bounded by the number of ballots.
pub proof fn lemma_margin_bound(ballots: Seq<Seq<usize>>, i: usize, j: usize)
    ensures
        -ballots.len() <= margin(ballots, i, j) <= ballots.len(),
    decreases ballots.len(),
{
    if ballots.len() > 0 {
        lemma_margin_bound(ballots.drop_last(), i, j);
    }
}

/// The pair that the margin of `i` over `j` decides: the candidate with the
/// larger count wins; at a margin of zero `i` is named first.
pub open spec fn pair_of(m: Seq<Seq<i32>>, i: int, j: int) -> TidemanPair {
    if m[i][j] < 0 {
        TidemanPair { winner_id: j as usize, loser_id: i as usize, weight: (-m[i][j]) as i32 }
    } else {
        TidemanPair { winner_id: i as usize, loser_id: j as usize, weight: m[i][j] }
    }
}

/// The pairs of row `i` with columns from `i + 1` up to, not including, `j`;
/// a zero margin decides nothing and gives no pair.
pub open spec fn row_pairs(m: Seq<Seq<i32>>, i: int, j: int) -> Seq<TidemanPair>
    decreases j - i,
{
    if j <= i + 1 {
        Seq::empty()
    } else if m[i][j - 1] != 0 {
        row_pairs(m, i, j - 1).push(pair_of(m, i, j - 1))
    } else {
        row_pairs(m, i, j - 1)
    }
}

/// The pairs of rows `0` up to, not including, `i`, row after row.
pub open spec fn pairs_before(m: Seq<Seq<i32>>, i: int) -> Seq<TidemanPair>
    decreases i,
{
    if i <= 0 {
        Seq::empty()
    } else {
        pairs_before(m, i - 1) + row_pairs(m, i - 1, m.len() as int)
    }
}

/// `r` is `s` sorted by weight, largest first, equal weights kept in the
/// order of `s`: `r[k]` is `s[perm[k]]`, and `perm` takes no index twice.
pub open spec fn stable_rank(r: Seq<TidemanPair>, s: Seq<TidemanPair>, perm: Seq<int>) -> bool {
    &&& r.len() == s.len()
    &&& perm.len() == s.len()
    &&& forall|k: int| 0 <= k < r.len() ==> 0 <= #[trigger] perm[k] < s.len() && r[k] == s[perm[k]]
    &&& forall|k: int, l: int| 0 <= k < l < r.len() ==> #[trigger] perm[k] != #[trigger] perm[l]
    &&& forall|k: int, l: int|
        0 <= k < l < r.len() ==> (#[trigger] r[k]).weight > (#[trigger] r[l]).weight || (r[k].weight == r[l].weight
            && perm[k] < perm[l])
}

proof fn lemma_contribution(b: Seq<usize>, n: nat, seen: Seq<bool>, pos: Seq<usize>, i: usize, j: usize)
    requires
        valid_ballot(b, n),
        i < n,
        j < n,
        seen.len() == n,
        pos.len() == n,
        forall|c: int| 0 <= c < n ==> (#[trigger] seen[c] <==> exists|q: int| 0 <= q < b.len() && b[q] == c),
        forall|c: int| 0 <= c < n && #[trigger] seen[c] ==> pos[c] < b.len() && b[pos[c] as int] == c,
    ensures
        contribution(b, i, j) == (if i != j && seen[i as int] && seen[j as int] {
            if pos[i as int] < pos[j as int] { 1int } else { -1int }
        } else {
            0int
        }),
{
    if ahead(b, i, j) {
        let (p, q) = choose|p: int, q: int| 0 <= p < q < b.len() && #[trigger] b[p] == i && #[trigger] b[q] == j;
        assert(seen[i as int]);
        assert(seen[j as int]);
        assert(b[pos[i as int] as int] == b[p]);
        assert(b[pos[j as int] as int] == b[q]);
    }
    if ahead(b, j, i) {
        let (p, q) = choose|p: int, q: int| 0 <= p < q < b.len() && #[trigger] b[p] == j && #[trigger] b[q] == i;
        assert(seen[i as int]);
        assert(seen[j as int]);
        assert(b[pos[j as int] as int] == b[p]);
        assert(b[pos[i as int] as int] == b[q]);
    }
    if i != j && seen[i as int] && seen[j as int] {
        let pi = pos[i as int] as int;
        let pj = pos[j as int] as int;
        assert(b[pi] == i && b[pj] == j);
        if pi < pj {
            assert(ahead(b, i, j));
        } else {
            assert(ahead(b, j, i));
        }
    }
}

/// The margin matrix: entry `[i][j]` is the number of ballots that rank `i`
/// ahead of `j` minus the number that rank `j` ahead of `i`.
pub fn margin_matrix(ballots: &Vec<Vec<usize>>, n: usize) -> (r: Vec<Vec<i32>>)
    requires
        forall|k: int| 0 <= k < ballots@.len() ==> valid_ballot(#[trigger] ballots@[k]@, n as nat),
        ballots@.len() <= i32::MAX,
    ensures
        r@.len() == n,
        forall|i: int| 0 <= i < n ==> (#[trigger] r@[i])@.len() == n,
        rows(r@) == margin_table(ballot_views(ballots@), n as nat),
        forall|i: int, j: int| 0 <= i < n && 0 <= j < n ==> #[trigger] r@[i]@[j] == margin(ballot_views(ballots@), i as usize, j as usize),
        forall|i: int, j: int| 0 <= i < n && 0 <= j < n ==> #[trigger] r@[i]@[j] == -r@[j]@[i],
{
    let ghost all = ballot_views(ballots@);
    let mut m: Vec<Vec<i32>> = Vec::new();
    let mut i: usize = 0;
    while i < n
        invariant
            i <= n,
            m@.len() == i,
            forall|x: int| 0 <= x < i ==> (#[trigger] m@[x])@.len() == n,
            forall|x: int, y: int| 0 <= x < i && 0 <= y < n ==> #[trigger] m@[x]@[y] == 0,
        decreases n - i,
    {
        let mut row: Vec<i32> = Vec::new();
        let mut j: usize = 0;
        while j < n
            invariant
                j <= n,
                row@.len() == j,
                forall|y: int| 0 <= y < j ==> #[trigger] row@[y] == 0,
            decreases n - j,
        {
            row.push(0);
            j = j + 1;
        }
        m.push(row);
        i = i + 1;
    }
    let mut t: usize = 0;
    while t < ballots.len()
        invariant
            all == ballot_views(ballots@),
            forall|k: int| 0 <= k < ballots@.len() ==> valid_ballot(#[trigger] ballots@[k]@, n as nat),
            ballots@.len() <= i32::MAX,
            t <= ballots@.len(),
            m@.len() == n,
            forall|x: int| 0 <= x < n ==> (#[trigger] m@[x])@.len() == n,
            forall|x: int, y: int| 0 <= x < n && 0 <= y < n ==> #[trigger] m@[x]@[y] == margin(all.take(t as int), x as usize, y as usize),
        decreases ballots@.len() - t,
    {
        let b = &ballots[t];
        assert(b@ == all[t as int]);
        let mut seen: Vec<bool> = Vec::new();
        let mut pos: Vec<usize> = Vec::new();
        let mut c: usize = 0;
        while c < n
            invariant
                c <= n,
                seen@.len() == c,
                pos@.len() == c,
                forall|x: int| 0 <= x < c ==> !#[trigger] seen@[x],
            decreases n - c,
        {
            seen.push(false);
            pos.push(0);
            c = c + 1;
        }
        let mut p: usize = 0;
        while p < b.len()
            invariant
                valid_ballot(b@, n as nat),
                p <= b@.len(),
                seen@.len() == n,
                pos@.len() == n,
                forall|x: int| 0 <= x < n ==> (#[trigger] seen@[x] <==> exists|q: int| 0 <= q < p && b@[q] == x),
                forall|x: int| 0 <= x < n && #[trigger] seen@[x] ==> pos@[x] < p && b@[pos@[x] as int] == x,
            decreases b@.len() - p,
        {
            let x = b[p];
            assert(b@[p as int] < n);
            seen.set(x, true);
            pos.set(x, p);
            proof {
                assert forall|y: int| 0 <= y < n implies (#[trigger] seen@[y] <==> exists|q: int| 0 <= q < p + 1 && b@[q] == y) by {
                    if y == x as int {
                        assert(b@[p as int] == y);
                    }
                }
            }
            p = p + 1;
        }
        let ghost before = all.take(t as int);
        let ghost after = all.take(t + 1);
        assert(after.drop_last() =~= before);
        assert(after.last() == b@);
        let mut i: usize = 0;
        while i < n
            invariant
                valid_ballot(b@, n as nat),
                ballots@.len() <= i32::MAX,
                t < ballots@.len(),
                before.len() == t,
                after.len() == t + 1,
                after.drop_last() == before,
                after.last() == b@,
                i <= n,
                seen@.len() == n,
                pos@.len() == n,
                forall|x: int| 0 <= x < n ==> (#[trigger] seen@[x] <==> exists|q: int| 0 <= q < b@.len() && b@[q] == x),
                forall|x: int| 0 <= x < n && #[trigger] seen@[x] ==> pos@[x] < b@.len() && b@[pos@[x] as int] == x,
                m@.len() == n,
                forall|x: int| 0 <= x < n ==> (#[trigger] m@[x])@.len() == n,
                forall|x: int, y: int| 0 <= x < n && 0 <= y < n ==> #[trigger] m@[x]@[y] == if x < i {
                    margin(after, x as usize, y as usize)
                } else {
                    margin(before, x as usize, y as usize)
                },
            decreases n - i,
        {
            let mut j: usize = 0;
            while j < n
                invariant
                    valid_ballot(b@, n as nat),
                    ballots@.len() <= i32::MAX,
                    t < ballots@.len(),
                    before.len() == t,
                    after.len() == t + 1,
                    after.drop_last() == before,
                    after.last() == b@,
                    i < n,
                    j <= n,
                    seen@.len() == n,
                    pos@.len() == n,
                    forall|x: int| 0 <= x < n ==> (#[trigger] seen@[x] <==> exists|q: int| 0 <= q < b@.len() && b@[q] == x),
                    forall|x: int| 0 <= x < n && #[trigger] seen@[x] ==> pos@[x] < b@.len() && b@[pos@[x] as int] == x,
                    m@.len() == n,
                    forall|x: int| 0 <= x < n ==> (#[trigger] m@[x])@.len() == n,
                    forall|x: int, y: int| 0 <= x < n && 0 <= y < n ==> #[trigger] m@[x]@[y] == if x < i || (x == i && y < j) {
                        margin(after, x as usize, y as usize)
                    } else {
                        margin(before, x as usize, y as usize)
                    },
                decreases n - j,
            {
                proof {
                    lemma_contribution(b@, n as nat, seen@, pos@, i, j);
                    lemma_margin_bound(before, i, j);
                }
                assert(m@[i as int]@[j as int] == margin(before, i, j));
                if i != j && seen[i] && seen[j] {
                    let v = m[i][j];
                    if pos[i] < pos[j] {
                        m[i].set(j, v + 1);
                    } else {
                        m[i].set(j, v - 1);
                    }
                }
                assert(margin(after, i, j) == margin(before, i, j) + contribution(b@, i, j));
                j = j + 1;
            }
            i = i + 1;
        }
        t = t + 1;
    }
    assert(all.take(t as int) =~= all);
    proof {
        assert forall|i: int, j: int| 0 <= i < n && 0 <= j < n implies #[trigger] m@[i]@[j] == -m@[j]@[i] by {
            lemma_margin_antisymmetric(all, i as usize, j as usize);
            lemma_margin_bound(all, i as usize, j as usize);
        }
        assert forall|i: int, j: int| 0 <= i < n && 0 <= j < n implies #[trigger] m@[i]@[j] == margin_table(all, n as nat)[i][j] by {
            lemma_margin_bound(all, i as usize, j as usize);
        }
        assert forall|i: int| 0 <= i < n implies #[trigger] rows(m@)[i] =~= margin_table(all, n as nat)[i] by {
            assert forall|j: int| 0 <= j < n implies rows(m@)[i][j] == margin_table(all, n as nat)[i][j] by {
                assert(m@[i]@[j] == margin_table(all, n as nat)[i][j]);
            }
        }
        assert(rows(m@) =~= margin_table(all, n as nat));
    }
    m
}

/// The pairs that a square margin matrix decides, for `i < j` with `i`
/// ascending and then `j` ascending; a zero margin gives no pair.
pub fn build_pairs(matrix: &Vec<Vec<i32>>) -> (r: Vec<TidemanPair>)
    requires
        forall|i: int| 0 <= i < matrix@.len() ==> (#[trigger] matrix@[i])@.len() == matrix@.len(),
        forall|i: int, j: int|
            0 <= i < matrix@.len() && 0 <= j < matrix@.len() ==> #[trigger] matrix@[i]@[j] != i32::MIN,
    ensures
        r@ == pairs_before(rows(matrix@), matrix@.len() as int),
{
    let ghost m = rows(matrix@);
    let n = matrix.len();
    let mut r: Vec<TidemanPair> = Vec::new();
    let mut i: usize = 0;
    while i < n
        invariant
            m == rows(matrix@),
            n == matrix@.len(),
            forall|x: int| 0 <= x < n ==> (#[trigger] matrix@[x])@.len() == n,
            forall|x: int, y: int| 0 <= x < n && 0 <= y < n ==> #[trigger] matrix@[x]@[y] != i32::MIN,
            i <= n,
            r@ == pairs_before(m, i as int),
        decreases n - i,
    {
        let mut j: usize = i + 1;
        assert(row_pairs(m, i as int, j as int) == Seq::<TidemanPair>::empty());
        assert(r@ =~= pairs_before(m, i as int) + row_pairs(m, i as int, j as int));
        while j < n
            invariant
                m == rows(matrix@),
                n == matrix@.len(),
                forall|x: int| 0 <= x < n ==> (#[trigger] matrix@[x])@.len() == n,
                forall|x: int, y: int| 0 <= x < n && 0 <= y < n ==> #[trigger] matrix@[x]@[y] != i32::MIN,
                i < n,
                i + 1 <= j <= n,
                r@ == pairs_before(m, i as int) + row_pairs(m, i as int, j as int),
            decreases n - j,
        {
            let v = matrix[i][j];
            assert(m[i as int][j as int] == v);
            if v != 0 {
                let pair = if v < 0 {
                    TidemanPair::new(j, i, -v)
                } else {
                    TidemanPair::new(i, j, v)
                };
                assert(pair == pair_of(m, i as int, j as int));
                r.push(pair);
            }
            assert(r@ =~= pairs_before(m, i as int) + row_pairs(m, i as int, j + 1));
            j = j + 1;
        }
        assert(m.len() == n);
        assert(r@ =~= pairs_before(m, i + 1));
        i = i + 1;
    }
    r
}

/// Sorts pairs by weight, largest first; pairs of equal weight keep their
/// relative order.
pub fn rank(pairs: Vec<TidemanPair>) -> (r: Vec<TidemanPair>)
    ensures
        exists|perm: Seq<int>| stable_rank(r@, pairs@, perm),
{
    let mut r: Vec<TidemanPair> = Vec::new();
    let ghost mut perm: Seq<int> = Seq::empty();
    let mut i: usize = 0;
    while i < pairs.len()
        invariant
            i <= pairs@.len(),
            stable_rank(r@, pairs@.take(i as int), perm),
        decreases pairs@.len() - i,
    {
        let x = pairs[i];
        let mut pos: usize = 0;
        while pos < r.len() && r[pos].weight >= x.weight
            invariant
                pos <= r@.len(),
                forall|k: int| 0 <= k < pos ==> (#[trigger] r@[k]).weight >= x.weight,
            decreases r@.len() - pos,
        {
            pos = pos + 1;
        }
        let ghost old_r = r@;
        let ghost old_perm = perm;
        let ghost s = pairs@.take(i + 1);
        r.insert(pos, x);
        proof {
            perm = old_perm.insert(pos as int, i as int);
            old_r.insert_ensures(pos as int, x);
            old_perm.insert_ensures(pos as int, i as int);
            assert(pairs@.take(i as int).len() == i);
            assert forall|k: int| 0 <= k < r@.len() implies 0 <= #[trigger] perm[k] < s.len() && r@[k] == s[perm[k]] by {
                if k < pos {
                    assert(old_r[k] == pairs@.take(i as int)[old_perm[k]]);
                } else if k > pos {
                    assert(perm[k] == old_perm[k - 1]);
                    assert(r@[k] == old_r[k - 1]);
                    assert(old_r[k - 1] == pairs@.take(i as int)[old_perm[k - 1]]);
                }
            }
            assert forall|k: int, l: int| 0 <= k < l < r@.len() implies #[trigger] perm[k] != #[trigger] perm[l] by {
                let k0 = if k < pos { k } else { k - 1 };
                let l0 = if l <= pos { l } else { l - 1 };
                if k != pos as int && l != pos as int {
                    assert(perm[k] == old_perm[k0]);
                    assert(perm[l] == old_perm[l0]);
                    assert(0 <= k0 < l0 < old_r.len());
                } else if k == pos as int {
                    assert(perm[l] == old_perm[l0]);
                    assert(old_perm[l0] < i);
                } else {
                    assert(perm[k] == old_perm[k0]);
                    assert(old_perm[k0] < i);
                }
            }
            assert forall|k: int, l: int| 0 <= k < l < r@.len() implies (#[trigger] r@[k]).weight > (
            #[trigger] r@[l]).weight || (r@[k].weight == r@[l].weight && perm[k] < perm[l]) by {
                let k0 = if k < pos { k } else { k - 1 };
                let l0 = if l <= pos { l } else { l - 1 };
                if k != pos as int && l != pos as int {
                    assert(perm[k] == old_perm[k0]);
                    assert(perm[l] == old_perm[l0]);
                    assert(r@[k] == old_r[k0]);
                    assert(r@[l] == old_r[l0]);
                    assert(0 <= k0 < l0 < old_r.len());
                    assert(old_r[k0].weight > old_r[l0].weight || (old_r[k0].weight == old_r[l0].weight && old_perm[k0] < old_perm[l0]));
                } else if k == pos as int {
                    assert(r@[l] == old_r[l0]);
                    assert(l0 >= pos);
                    assert(old_r[pos as int].weight < x.weight);
                    if l0 > pos {
                        assert(old_r[pos as int].weight >= old_r[l0].weight);
                    }
                } else {
                    assert(r@[k] == old_r[k0]);
                    assert(perm[k] == old_perm[k0]);
                    assert(old_perm[k0] < i);
                }
            }
        }
        i = i + 1;
    }
    assert(pairs@.take(i as int) =~= pairs@);
    r
}


/// The lower index of a pair's two candidates.
pub open spec fn low_id(p: TidemanPair) -> int {
    if p.winner_id <= p.loser_id { p.winner_id as int } else { p.loser_id as int }
}

/// The higher index of a pair's two candidates.
pub open spec fn high_id(p: TidemanPair) -> int {
    if p.winner_id <= p.loser_id { p.loser_id as int } else { p.winner_id as int }
}

/// `p` comes before `q` in enumeration order: lower index first, then higher.
pub open spec fn enumerated_before(p: TidemanPair, q: TidemanPair) -> bool {
    low_id(p) < low_id(q) || (low_id(p) == low_id(q) && high_id(p) < high_id(q))
}

/// A square matrix of side `n`.
pub open spec fn square(m: Seq<Seq<i32>>, n: int) -> bool {
    m.len() == n && forall|i: int| 0 <= i < n ==> (#[trigger] m[i]).len() == n
}

proof fn lemma_row_pairs(m: Seq<Seq<i32>>, n: int, i: int, j: int)
    requires
        square(m, n),
        n <= usize::MAX,
        0 <= i < n,
        j <= n,
    ensures
        forall|k: int|
            0 <= k < row_pairs(m, i, j).len() ==> low_id(#[trigger] row_pairs(m, i, j)[k]) == i && i < high_id(
                row_pairs(m, i, j)[k],
            ) < j && row_pairs(m, i, j)[k] == pair_of(m, i, high_id(row_pairs(m, i, j)[k])) && m[i][high_id(
                row_pairs(m, i, j)[k],
            )] != 0,
        forall|k: int, l: int|
            0 <= k < l < row_pairs(m, i, j).len() ==> high_id(#[trigger] row_pairs(m, i, j)[k]) < high_id(
                #[trigger] row_pairs(m, i, j)[l],
            ),
    decreases j - i,
{
    if j > i + 1 {
        lemma_row_pairs(m, n, i, j - 1);
        let prev = row_pairs(m, i, j - 1);
        if m[i][j - 1] != 0 {
            let r = row_pairs(m, i, j);
            assert(r == prev.push(pair_of(m, i, j - 1)));
            let p = pair_of(m, i, j - 1);
            assert(low_id(p) == i && high_id(p) == j - 1);
            assert(r[prev.len() as int] == p);
            assert forall|k: int| 0 <= k < r.len() implies low_id(#[trigger] r[k]) == i && i < high_id(r[k]) < j
                && r[k] == pair_of(m, i, high_id(r[k])) && m[i][high_id(r[k])] != 0 by {
                if k < prev.len() {
                    assert(r[k] == prev[k]);
                }
            }
            assert forall|k: int, l: int| 0 <= k < l < r.len() implies high_id(#[trigger] r[k]) < high_id(#[trigger] r[l]) by {
                assert(r[k] == prev[k]);
                if l < prev.len() {
                    assert(r[l] == prev[l]);
                }
            }
        }
    }
}

/// Every pair that a square matrix decides comes from a nonzero entry
/// above the diagonal, and the pairs are in enumeration order.
pub proof fn lemma_pairs_before(m: Seq<Seq<i32>>, n: int, i: int)
    requires
        square(m, n),
        n <= usize::MAX,
        0 <= i <= n,
    ensures
        forall|k: int|
            0 <= k < pairs_before(m, i).len() ==> 0 <= low_id(#[trigger] pairs_before(m, i)[k]) < i && low_id(
                pairs_before(m, i)[k],
            ) < high_id(pairs_before(m, i)[k]) < n && pairs_before(m, i)[k] == pair_of(
                m,
                low_id(pairs_before(m, i)[k]),
                high_id(pairs_before(m, i)[k]),
            ) && m[low_id(pairs_before(m, i)[k])][high_id(pairs_before(m, i)[k])] != 0,
        forall|k: int, l: int|
            0 <= k < l < pairs_before(m, i).len() ==> enumerated_before(
                #[trigger] pairs_before(m, i)[k],
                #[trigger] pairs_before(m, i)[l],
            ),
    decreases i,
{
    if i > 0 {
        lemma_pairs_before(m, n, i - 1);
        lemma_row_pairs(m, n, i - 1, n);
        let a = pairs_before(m, i - 1);
        let b = row_pairs(m, i - 1, m.len() as int);
        let c = pairs_before(m, i);
        assert(c == a + b);
        assert forall|k: int| 0 <= k < c.len() implies 0 <= low_id(#[trigger] c[k]) < i && low_id(c[k]) < high_id(c[k]) < n
            && c[k] == pair_of(m, low_id(c[k]), high_id(c[k])) && m[low_id(c[k])][high_id(c[k])] != 0 by {
            if k < a.len() {
                assert(c[k] == a[k]);
            } else {
                assert(c[k] == b[k - a.len()]);
            }
        }
        assert forall|k: int, l: int| 0 <= k < l < c.len() implies enumerated_before(#[trigger] c[k], #[trigger] c[l]) by {
            if l < a.len() {
                assert(c[k] == a[k] && c[l] == a[l]);
            } else if k < a.len() {
                assert(c[k] == a[k] && c[l] == b[l - a.len()]);
            } else {
                assert(c[k] == b[k - a.len()] && c[l] == b[l - a.len()]);
            }
        }
    }
}

} // verus!
