//! Credit card numbers: issuer by leading digits, and Luhn's checksum.

use vstd::prelude::*;

verus! {

/// Available types of credit cards.
#[derive(Clone, Copy, Debug, PartialEq, Eq, Structural)]
pub enum CreditCardType {
    Visa,
    MasterCard,
    Amex,
    Invalid,
}

/// The issuer named by the digits above the twelve lowest ones.
pub open spec fn card_type_of(first_digits: int) -> CreditCardType {
    if 5100 <= first_digits <= 5599 {
        CreditCardType::MasterCard
    } else if (340 <= first_digits <= 349) || (370 <= first_digits <= 379) {
        CreditCardType::Amex
    } else if (4000 <= first_digits <= 4999) || first_digits == 4 {
        CreditCardType::Visa
    } else {
        CreditCardType::Invalid
    }
}

/// Finds to which type a credit card belongs.
pub fn credit_card_type(number: i64) -> (r: CreditCardType)
    ensures
        number >= 0 ==> r == card_type_of(number / 1_000_000_000_000),
        number < 0 ==> r == CreditCardType::Invalid,
{
    if number < 0 {
        return CreditCardType::Invalid;
    }
    let first_digits = number / 1_000_000_000_000;
    if 5100 <= first_digits && first_digits <= 5599 {
        CreditCardType::MasterCard
    } else if (340 <= first_digits && first_digits <= 349) || (370 <= first_digits && first_digits <= 379) {
        CreditCardType::Amex
    } else if (4000 <= first_digits && first_digits <= 4999) || first_digits == 4 {
        CreditCardType::Visa
    } else {
        CreditCardType::Invalid
    }
}

/// What a digit adds to Luhn's sum: itself in odd places from the right;
/// in even places its double, with 1 added when the double has two digits
/// (the same last digit as the sum of the double's digits).
pub open spec fn luhn_term(digit: int, odd_place: bool) -> int {
    if odd_place {
        digit
    } else if 2 * digit <= 9 {
        2 * digit
    } else {
        1 + 2 * digit
    }
}

/// Luhn's sum of the digits of `n`, the lowest digit in an odd place when
/// `odd_place` holds.
pub open spec fn luhn_sum(n: int, odd_place: bool) -> int
    decreases n,
{
    if n <= 0 {
        0
    } else {
        luhn_term(n % 10, odd_place) + luhn_sum(n / 10, !odd_place)
    }
}

spec fn pow10(k: nat) -> int
    decreases k,
{
    if k == 0 {
        1
    } else {
        10 * pow10((k - 1) as nat)
    }
}

proof fn lemma_luhn_sum_bound(n: int, odd_place: bool, k: nat)
    requires
        0 <= n < pow10(k),
    ensures
        0 <= luhn_sum(n, odd_place) <= 19 * k,
    decreases k,
{
    if n > 0 {
        assert(k > 0);
        assert(n / 10 < pow10((k - 1) as nat));
        lemma_luhn_sum_bound(n / 10, !odd_place, (k - 1) as nat);
    }
}

/// Checks if a credit card number passes Luhn's checksum.
pub fn luhn(number: i64) -> (r: bool)
    ensures
        r == (luhn_sum(number as int, true) % 10 == 0),
{
    let ghost start = number as int;
    let mut n = number;
    let mut sw = true;
    let mut sum: i64 = 0;
    proof {
        reveal_with_fuel(pow10, 20);
        assert(pow10(19) == 10_000_000_000_000_000_000);
        if start > 0 {
            lemma_luhn_sum_bound(start, true, 19);
        }
    }
    while n > 0
        invariant
            sum + luhn_sum(n as int, sw) == luhn_sum(start, true),
            sum >= 0,
            n >= 0 || n == start,
            start > 0 ==> luhn_sum(start, true) <= 19 * 19,
            n > 0 ==> 0 <= luhn_sum(n as int, sw),
        decreases n,
    {
        let digit = n % 10;
        proof {
            reveal_with_fuel(pow10, 20);
            assert(pow10(19) == 10_000_000_000_000_000_000);
            lemma_luhn_sum_bound(n / 10, !sw, 19);
        }
        let term = if sw {
            digit
        } else {
            let digit2 = 2 * digit;
            if digit2 <= 9 {
                digit2
            } else {
                1 + digit2
            }
        };
        sum = sum + term;
        sw = !sw;
        n = n / 10;
    }
    sum % 10 == 0
}

} // verus!
