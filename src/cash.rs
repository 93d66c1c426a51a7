//! Giving change with the fewest coins.

use vstd::prelude::*;

verus! {

/// Finds the max number of coins with the specified weight that can be used
/// to give change for `cents`, and takes their value off `cents`.
pub fn coins_for_change(cents: &mut i32, coin_weight: i32) -> (r: i32)
    requires
        coin_weight > 0,
    ensures
        *old(cents) >= 0 ==> r == *old(cents) / coin_weight && *final(cents) == *old(cents) % coin_weight,
        *old(cents) < 0 ==> r == 0 && *final(cents) == *old(cents),
{
    let ghost start = *cents;
    let mut coins: i32 = 0;
    while *cents >= coin_weight
        invariant
            coin_weight > 0,
            start < 0 ==> *cents == start && coins == 0,
            start >= 0 ==> 0 <= coins <= start && *cents >= 0 && start == coins * coin_weight + *cents,
        decreases *cents,
    {
        proof {
            assert(coins * coin_weight + coin_weight <= start);
            assert(coins + 1 <= start) by (nonlinear_arith)
                requires
                    coins * coin_weight + coin_weight <= start,
                    coin_weight >= 1,
                    coins >= 0,
            ;
        }
        coins = coins + 1;
        *cents = *cents - coin_weight;
        assert(start == coins * coin_weight + *cents) by (nonlinear_arith)
            requires
                start == (coins - 1) * coin_weight + (*cents + coin_weight),
        ;
    }
    proof {
        if start >= 0 {
            vstd::arithmetic::div_mod::lemma_fundamental_div_mod_converse(
                start as int,
                coin_weight as int,
                coins as int,
                *cents as int,
            );
        }
    }
    coins
}

/// Quarters (25 cents) for the change.
pub fn calculate_quarters(cents: &mut i32) -> (r: i32)
    ensures
        *old(cents) >= 0 ==> r == *old(cents) / 25 && *final(cents) == *old(cents) % 25,
        *old(cents) < 0 ==> r == 0 && *final(cents) == *old(cents),
{
    coins_for_change(cents, 25)
}

/// Dimes (10 cents) for the change.
pub fn calculate_dimes(cents: &mut i32) -> (r: i32)
    ensures
        *old(cents) >= 0 ==> r == *old(cents) / 10 && *final(cents) == *old(cents) % 10,
        *old(cents) < 0 ==> r == 0 && *final(cents) == *old(cents),
{
    coins_for_change(cents, 10)
}

/// Nickels (5 cents) for the change.
pub fn calculate_nickels(cents: &mut i32) -> (r: i32)
    ensures
        *old(cents) >= 0 ==> r == *old(cents) / 5 && *final(cents) == *old(cents) % 5,
        *old(cents) < 0 ==> r == 0 && *final(cents) == *old(cents),
{
    coins_for_change(cents, 5)
}

/// Pennies (1 cent) for the change.
pub fn calculate_pennies(cents: &mut i32) -> (r: i32)
    ensures
        *old(cents) >= 0 ==> r == *old(cents) && *final(cents) == 0,
        *old(cents) < 0 ==> r == 0 && *final(cents) == *old(cents),
{
    coins_for_change(cents, 1)
}

/// The fewest coins (quarters, dimes, nickels, pennies) that make `cents`.
pub fn total_coins(cents: i32) -> (r: i32)
    requires
        cents >= 0,
    ensures
        r == cents / 25 + (cents % 25) / 10 + ((cents % 25) % 10) / 5 + ((cents % 25) % 10) % 5,
{
    let mut c = cents;
    let q = calculate_quarters(&mut c);
    let d = calculate_dimes(&mut c);
    let n = calculate_nickels(&mut c);
    let p = calculate_pennies(&mut c);
    q + d + n + p
}

} // verus!
