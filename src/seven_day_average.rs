//! Weekly averages of daily case counts and their change.

use vstd::prelude::*;

verus! {

/// A day's counts, the date given as a day number.
#[derive(Clone, Copy, Debug, PartialEq, Eq, Structural)]
pub struct CovidRecord {
    /// Number of cases.
    pub cases: i32,
    /// Number of deaths.
    pub deaths: i32,
    /// The day, counted from a fixed date.
    pub day: i64,
}

/// The sum of the cases of `s`.
pub open spec fn sum_cases(s: Seq<CovidRecord>) -> int
    decreases s.len(),
{
    if s.len() == 0 {
        0
    } else {
        sum_cases(s.drop_last()) + s.last().cases
    }
}

/// `a / b` rounded toward zero, for `b > 0`.
pub open spec fn div_toward_zero(a: int, b: int) -> int {
    if a >= 0 {
        a / b
    } else {
        -((-a) / b)
    }
}

proof fn lemma_sum_bound(s: Seq<CovidRecord>)
    ensures
        s.len() * i32::MIN <= sum_cases(s) <= s.len() * i32::MAX,
    decreases s.len(),
{
    if s.len() > 0 {
        lemma_sum_bound(s.drop_last());
        assert((s.len() - 1) * i32::MIN + i32::MIN == s.len() * i32::MIN) by (nonlinear_arith);
        assert((s.len() - 1) * i32::MAX + i32::MAX == s.len() * i32::MAX) by (nonlinear_arith);
    }
}

impl CovidRecord {
    /// Creates a record with the given counts.
    pub fn new(cases: i32, deaths: i32, day: i64) -> (r: Self)
        ensures
            r == (CovidRecord { cases, deaths, day }),
    {
        CovidRecord { cases, deaths, day }
    }

    /// The average daily cases of the records, rounded toward zero.
    pub fn average(records: &[CovidRecord]) -> (r: i32)
        requires
            0 < records@.len() <= u32::MAX,
        ensures
            r == div_toward_zero(sum_cases(records@), records@.len() as int),
    {
        let n = records.len();
        let mut sum: i64 = 0;
        let mut i: usize = 0;
        while i < n
            invariant
                n == records@.len(),
                n <= u32::MAX,
                i <= n,
                sum == sum_cases(records@.take(i as int)),
                i * i32::MIN <= sum <= i * i32::MAX,
            decreases n - i,
        {
            assert(records@.take(i + 1).drop_last() =~= records@.take(i as int));
            proof {
                assert((i + 1) * i32::MIN == i * i32::MIN + i32::MIN) by (nonlinear_arith);
                assert((i + 1) * i32::MAX == i * i32::MAX + i32::MAX) by (nonlinear_arith);
                assert(i * i32::MAX <= u32::MAX * i32::MAX) by (nonlinear_arith)
                    requires
                        i <= u32::MAX,
                ;
                assert(i * i32::MIN >= u32::MAX * i32::MIN) by (nonlinear_arith)
                    requires
                        i <= u32::MAX,
                ;
            }
            sum = sum + records[i].cases as i64;
            i = i + 1;
        }
        assert(records@.take(i as int) =~= records@);
        let len = n as i64;
        let q = if sum >= 0 { sum / len } else { -((-sum) / len) };
        proof {
            if sum >= 0 {
                assert(sum / len <= i32::MAX) by (nonlinear_arith)
                    requires
                        0 <= sum <= len * i32::MAX,
                        len > 0,
                ;
            } else {
                assert((-(sum as int)) / (len as int) <= -(i32::MIN as int)) by (nonlinear_arith)
                    requires
                        0 < -(sum as int) <= -(len * i32::MIN),
                        len > 0,
                ;
            }
        }
        q as i32
    }
}

/// Turns running totals into daily counts: each record's counts become its
/// totals minus the previous record's totals (minus `base` for the first),
/// wrapping on overflow.
pub fn daily_from_totals(base_cases: i32, base_deaths: i32, records: &mut Vec<CovidRecord>)
    ensures
        final(records)@.len() == old(records)@.len(),
        forall|i: int|
            0 <= i < old(records)@.len() ==> {
                let prev_cases = if i == 0 { base_cases } else { old(records)@[i - 1].cases };
                let prev_deaths = if i == 0 { base_deaths } else { old(records)@[i - 1].deaths };
                &&& (#[trigger] final(records)@[i]).cases == old(records)@[i].cases.wrapping_sub(prev_cases)
                &&& final(records)@[i].deaths == old(records)@[i].deaths.wrapping_sub(prev_deaths)
                &&& final(records)@[i].day == old(records)@[i].day
            },
{
    let mut cases = base_cases;
    let mut deaths = base_deaths;
    let mut i: usize = 0;
    while i < records.len()
        invariant
            records@.len() == old(records)@.len(),
            i <= records@.len(),
            i == 0 ==> cases == base_cases && deaths == base_deaths,
            i > 0 ==> cases == old(records)@[i - 1].cases && deaths == old(records)@[i - 1].deaths,
            forall|k: int| i <= k < records@.len() ==> #[trigger] records@[k] == old(records)@[k],
            forall|k: int|
                0 <= k < i ==> {
                    let prev_cases = if k == 0 { base_cases } else { old(records)@[k - 1].cases };
                    let prev_deaths = if k == 0 { base_deaths } else { old(records)@[k - 1].deaths };
                    &&& (#[trigger] records@[k]).cases == old(records)@[k].cases.wrapping_sub(prev_cases)
                    &&& records@[k].deaths == old(records)@[k].deaths.wrapping_sub(prev_deaths)
                    &&& records@[k].day == old(records)@[k].day
                },
        decreases records@.len() - i,
    {
        let r = records[i];
        let daily = CovidRecord { cases: r.cases.wrapping_sub(cases), deaths: r.deaths.wrapping_sub(deaths), day: r.day };
        records.set(i, daily);
        cases = r.cases;
        deaths = r.deaths;
        i = i + 1;
    }
}

/// The change from `last_week` to `week` in percent, rounded toward zero;
/// 100 when `last_week` is 0.
pub open spec fn percent_change_of(week: i32, last_week: i32) -> int {
    if last_week == 0 {
        100
    } else if last_week > 0 {
        div_toward_zero(100 * (week - last_week), last_week as int)
    } else {
        -div_toward_zero(100 * (week - last_week), -(last_week as int))
    }
}

/// The change from one weekly average to the next, in percent.
pub fn percent_change(week: i32, last_week: i32) -> (r: i64)
    ensures
        r == percent_change_of(week, last_week),
{
    if last_week == 0 {
        return 100;
    }
    let diff = 100 * (week as i64 - last_week as i64);
    let d = if last_week > 0 { last_week as i64 } else { -(last_week as i64) };
    let q = if diff >= 0 { diff / d } else { -((-diff) / d) };
    proof {
        if diff >= 0 {
            assert(diff / d <= diff) by (nonlinear_arith)
                requires
                    diff >= 0,
                    d >= 1,
            ;
        } else {
            assert((-(diff as int)) / (d as int) <= -(diff as int)) by (nonlinear_arith)
                requires
                    -(diff as int) >= 0,
                    d >= 1,
            ;
        }
    }
    if last_week > 0 {
        q
    } else {
        -q
    }
}

} // verus!
