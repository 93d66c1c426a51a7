//! Arbitrary-precision decimal numbers: parsing, printing, comparison,
//! addition, subtraction and multiplication.

use vstd::prelude::*;
use crate::text::{chars_of, string_from_chars};

verus! {

/// `10` to the power `n`.
pub open spec fn pow10(n: nat) -> nat
    decreases n,
{
    if n == 0 {
        1
    } else {
        10 * pow10((n - 1) as nat)
    }
}

/// The value of digits written least significant first.
pub open spec fn le_value(ds: Seq<u8>) -> int
    decreases ds.len(),
{
    if ds.len() == 0 {
        0
    } else {
        le_value(ds.drop_last()) + ds.last() * pow10((ds.len() - 1) as nat)
    }
}

/// Every entry is a decimal digit.
pub open spec fn all_digits(ds: Seq<u8>) -> bool {
    forall|i: int| 0 <= i < ds.len() ==> #[trigger] ds[i] < 10
}

pub proof fn lemma_pow10_pos(n: nat)
    ensures
        pow10(n) >= 1,
    decreases n,
{
    if n > 0 {
        lemma_pow10_pos((n - 1) as nat);
    }
}

pub proof fn lemma_pow10_add(a: nat, b: nat)
    ensures
        pow10(a + b) == pow10(a) * pow10(b),
    decreases a,
{
    if a > 0 {
        let am = (a - 1) as nat;
        lemma_pow10_add(am, b);
        assert((a + b - 1) as nat == am + b);
        assert(pow10(a + b) == 10 * pow10(am + b));
        assert(pow10(a) == 10 * pow10(am));
        assert(10 * (pow10(am) * pow10(b)) == (10 * pow10(am)) * pow10(b)) by (nonlinear_arith);
    } else {
        assert(pow10(0) == 1);
        assert(a + b == b);
    }
}

proof fn lemma_pow10_mono(a: nat, b: nat)
    requires
        a <= b,
    ensures
        pow10(a) <= pow10(b),
    decreases b,
{
    if a < b {
        lemma_pow10_mono(a, (b - 1) as nat);
        lemma_pow10_pos((b - 1) as nat);
    }
}

/// Digits below `10` have a value below `10` to the number of digits.
proof fn lemma_le_bound(ds: Seq<u8>)
    requires
        all_digits(ds),
    ensures
        le_value(ds) < pow10(ds.len()),
    decreases ds.len(),
{
    if ds.len() > 0 {
        lemma_le_bound(ds.drop_last());
        let p = pow10((ds.len() - 1) as nat);
        assert(le_value(ds.drop_last()) + ds.last() * p < 10 * p) by (nonlinear_arith)
            requires
                le_value(ds.drop_last()) < p,
                ds.last() <= 9,
        ;
    }
}

proof fn lemma_le_nonneg(ds: Seq<u8>)
    ensures
        le_value(ds) >= 0,
    decreases ds.len(),
{
    if ds.len() > 0 {
        lemma_le_nonneg(ds.drop_last());
        assert(ds.last() * pow10((ds.len() - 1) as nat) >= 0) by (nonlinear_arith)
            requires
                ds.last() >= 0,
        ;
    }
}

/// Zeros added at the high end change nothing.
proof fn lemma_le_push_zero(ds: Seq<u8>)
    ensures
        le_value(ds.push(0)) == le_value(ds),
{
    let p = ds.push(0);
    assert(p.drop_last() =~= ds);
    assert(p.last() == 0);
    assert(p.len() > 0);
    assert(le_value(p) == le_value(p.drop_last()) + p.last() * pow10((p.len() - 1) as nat));
}

/// Zeros added at the low end multiply by ten each.
proof fn lemma_le_shift(ds: Seq<u8>, k: nat)
    ensures
        le_value(Seq::new(k, |i: int| 0u8) + ds) == le_value(ds) * pow10(k),
    decreases ds.len(),
{
    let z = Seq::new(k, |i: int| 0u8);
    if ds.len() == 0 {
        assert(z + ds =~= z);
        lemma_le_zeros(k);
    } else {
        lemma_le_shift(ds.drop_last(), k);
        assert((z + ds).drop_last() =~= z + ds.drop_last());
        lemma_pow10_add(k, (ds.len() - 1) as nat);
        assert((z + ds).last() == ds.last());
        assert(le_value(ds.drop_last()) * pow10(k) + ds.last() * (pow10(k) * pow10((ds.len() - 1) as nat)) == (
        le_value(ds.drop_last()) + ds.last() * pow10((ds.len() - 1) as nat)) * pow10(k)) by (nonlinear_arith);
    }
}

proof fn lemma_le_zeros(k: nat)
    ensures
        le_value(Seq::new(k, |i: int| 0u8)) == 0,
    decreases k,
{
    if k > 0 {
        assert(Seq::new(k, |i: int| 0u8).drop_last() =~= Seq::new((k - 1) as nat, |i: int| 0u8));
        lemma_le_zeros((k - 1) as nat);
    }
}

/// The value of the digits from the low end up to `i`, then the digit at `i`.
proof fn lemma_le_take(ds: Seq<u8>, i: int)
    requires
        0 <= i < ds.len(),
    ensures
        le_value(ds.take(i + 1)) == le_value(ds.take(i)) + ds[i] * pow10(i as nat),
{
    assert(ds.take(i + 1).drop_last() =~= ds.take(i));
}

/// Removing a zero at the low end divides by ten.
proof fn lemma_le_drop_zero(ds: Seq<u8>)
    requires
        ds.len() > 0,
        ds[0] == 0,
    ensures
        le_value(ds) == 10 * le_value(ds.drop_first()),
{
    lemma_le_shift(ds.drop_first(), 1);
    assert(pow10(0) == 1);
    assert(pow10(1) == 10);
    assert(Seq::new(1, |i: int| 0u8) + ds.drop_first() =~= ds);
}

/// Digits (least significant first) with `dp` of them after the point, in
/// shortest form: at least one digit before the point, and no zero at either
/// end that could be dropped.
pub open spec fn shortest(ds: Seq<u8>, dp: nat) -> bool {
    &&& all_digits(ds)
    &&& dp < ds.len()
    &&& ds.len() > dp + 1 ==> ds.last() != 0
    &&& dp > 0 ==> ds[0] != 0
}

/// A decimal number: a sign, digits and a count of decimal places.
#[derive(Debug)]
pub struct Decimal {
    /// Number of digits after the decimal point.
    decimal_places: usize,
    /// The digits, least significant first.
    digits: Vec<u8>,
    /// Whether the number is negative.
    sign: bool,
}

impl Decimal {
    /// The digits' value without sign or point.
    pub open spec fn magnitude(&self) -> int {
        le_value(self.digit_seq())
    }

    /// The number times `10` to its decimal places.
    pub open spec fn num(&self) -> int {
        signed(self.negative(), le_value(self.digit_seq()))
    }

    /// Whether the number is negative.
    pub closed spec fn negative(&self) -> bool {
        self.sign
    }

    /// The digits, least significant first.
    pub closed spec fn digit_seq(&self) -> Seq<u8> {
        self.digits@
    }

    /// Its number of decimal places.
    pub closed spec fn places(&self) -> nat {
        self.decimal_places as nat
    }

    /// The number's digit count.
    pub open spec fn len(&self) -> nat {
        self.digit_seq().len()
    }

    /// The number times `10` to the `k`, for `k` at least its decimal places.
    pub open spec fn value_at(&self, k: nat) -> int {
        self.num() * pow10((k - self.places()) as nat)
    }

    /// Shortest form: digits, at least one before the point, and no zero
    /// at either end that could be dropped.
    pub open spec fn wf(&self) -> bool {
        &&& shortest(self.digit_seq(), self.places())
    }

    /// Number of digits before the decimal point.
    pub fn int_places(&self) -> (r: usize)
        requires
            self.wf(),
        ensures
            r == self.len() - self.places(),
            r >= 1,
    {
        self.digits.len() - self.decimal_places
    }

    /// The number with its sign changed.
    pub fn negate(self) -> (r: Self)
        requires
            self.wf(),
        ensures
            r.wf(),
            r.places() == self.places(),
            r.digit_seq() == self.digit_seq(),
            r.negative() == !self.negative(),
            r.len() == self.len(),
            r.num() == -self.num(),
    {
        Decimal { sign: !self.sign, ..self }
    }

    /// The absolute value.
    pub fn abs(&self) -> (r: Self)
        requires
            self.wf(),
        ensures
            r.wf(),
            r.places() == self.places(),
            r.num() == self.magnitude(),
    {
        Decimal { decimal_places: self.decimal_places, digits: copy_digits(&self.digits), sign: false }
    }
}

/// Shortest digits are zero exactly when they are one zero.
proof fn lemma_shortest_zero(ds: Seq<u8>, dp: nat)
    requires
        shortest(ds, dp),
    ensures
        le_value(ds) == 0 <==> (ds.len() == 1 && ds[0] == 0),
{
    lemma_le_nonneg(ds.drop_last());
    if ds.len() == 1 {
        assert(ds.drop_last() =~= Seq::<u8>::empty());
        assert(pow10(0) == 1);
        assert(le_value(ds.drop_last()) == 0);
        assert(ds.last() == ds[0]);
        assert(le_value(ds) == ds[0] * 1);
    } else {
        if ds.last() != 0 {
            lemma_pow10_pos((ds.len() - 1) as nat);
            assert(le_value(ds) >= ds.last() * pow10((ds.len() - 1) as nat)) by (nonlinear_arith)
                requires
                    le_value(ds) == le_value(ds.drop_last()) + ds.last() * pow10((ds.len() - 1) as nat),
                    le_value(ds.drop_last()) >= 0,
            ;
            assert(ds.last() * pow10((ds.len() - 1) as nat) >= 1) by (nonlinear_arith)
                requires
                    ds.last() >= 1,
                    pow10((ds.len() - 1) as nat) >= 1,
            ;
        } else {
            assert(dp > 0);
            assert(ds[0] != 0);
            lemma_le_low_digit(ds);
        }
    }
}

/// A nonzero lowest digit makes the value nonzero.
proof fn lemma_le_low_digit(ds: Seq<u8>)
    requires
        ds.len() > 0,
        ds[0] != 0,
    ensures
        le_value(ds) > 0,
    decreases ds.len(),
{
    if ds.len() > 1 {
        assert(ds.drop_last()[0] == ds[0]);
        lemma_le_low_digit(ds.drop_last());
        assert(ds.last() * pow10((ds.len() - 1) as nat) >= 0) by (nonlinear_arith)
            requires
                ds.last() >= 0,
        ;
    } else {
        assert(ds.drop_last() =~= Seq::<u8>::empty());
        assert(pow10(0) == 1);
        assert(le_value(ds.drop_last()) == 0);
        assert(ds.last() == ds[0]);
        assert(le_value(ds) == ds[0] * 1);
    }
}

fn copy_digits(v: &Vec<u8>) -> (r: Vec<u8>)
    ensures
        r@ == v@,
{
    let mut out: Vec<u8> = Vec::new();
    let mut i: usize = 0;
    while i < v.len()
        invariant
            i <= v@.len(),
            out@ == v@.take(i as int),
        decreases v@.len() - i,
    {
        out.push(v[i]);
        assert(out@ =~= v@.take(i + 1));
        i = i + 1;
    }
    assert(v@.take(i as int) =~= v@);
    out
}


/// Changing the digit at `k` changes the value by the difference times `10` to the `k`.
proof fn lemma_le_update(ds: Seq<u8>, k: int, v: u8)
    requires
        0 <= k < ds.len(),
    ensures
        le_value(ds.update(k, v)) == le_value(ds) + (v - ds[k]) * pow10(k as nat),
    decreases ds.len(),
{
    let u = ds.update(k, v);
    if k == ds.len() - 1 {
        assert(u.drop_last() =~= ds.drop_last());
        assert(v * pow10(k as nat) - ds[k] * pow10(k as nat) == (v - ds[k]) * pow10(k as nat)) by (nonlinear_arith);
    } else {
        assert(u.drop_last() =~= ds.drop_last().update(k, v));
        lemma_le_update(ds.drop_last(), k, v);
    }
}

/// Zeros appended at the high end up to length `n`.
fn pad_to(v: &Vec<u8>, n: usize) -> (r: Vec<u8>)
    requires
        all_digits(v@),
    ensures
        r@.len() == if v@.len() >= n { v@.len() } else { n as nat },
        le_value(r@) == le_value(v@),
        all_digits(r@),
        forall|i: int| 0 <= i < v@.len() ==> #[trigger] r@[i] == v@[i],
{
    let mut out = copy_digits(v);
    while out.len() < n
        invariant
            out@.len() <= if v@.len() >= n { v@.len() } else { n as nat },
            out@.len() >= v@.len(),
            le_value(out@) == le_value(v@),
            all_digits(out@),
            forall|i: int| 0 <= i < v@.len() ==> #[trigger] out@[i] == v@[i],
        decreases n - out@.len(),
    {
        proof {
            lemma_le_push_zero(out@);
        }
        out.push(0);
    }
    out
}

/// The sum of two digit sequences.
fn add_mag(a: &Vec<u8>, b: &Vec<u8>) -> (r: Vec<u8>)
    requires
        all_digits(a@),
        all_digits(b@),
        a@.len() < usize::MAX,
        b@.len() < usize::MAX,
    ensures
        all_digits(r@),
        le_value(r@) == le_value(a@) + le_value(b@),
{
    let n = if a.len() >= b.len() { a.len() } else { b.len() };
    let x = pad_to(a, n);
    let y = pad_to(b, n);
    let mut out: Vec<u8> = Vec::new();
    let mut carry: u8 = 0;
    let mut i: usize = 0;
    while i < n
        invariant
            x@.len() == n,
            y@.len() == n,
            all_digits(x@),
            all_digits(y@),
            i <= n,
            out@.len() == i,
            all_digits(out@),
            carry <= 1,
            le_value(out@) + carry * pow10(i as nat) == le_value(x@.take(i as int)) + le_value(y@.take(i as int)),
        decreases n - i,
    {
        let t = x[i] + y[i] + carry;
        proof {
            lemma_le_take(x@, i as int);
            lemma_le_take(y@, i as int);
            let o = out@.push(t % 10);
            assert(o.drop_last() =~= out@);
            let p = pow10(i as nat);
            assert(pow10((i + 1) as nat) == 10 * p);
            assert((t % 10) * p + (t / 10) * (10 * p) == t * p) by (nonlinear_arith)
                requires
                    t == 10 * (t / 10) + t % 10,
            ;
            assert(t * p == x@[i as int] * p + y@[i as int] * p + carry * p) by (nonlinear_arith)
                requires
                    t == x@[i as int] + y@[i as int] + carry,
            ;
        }
        out.push(t % 10);
        carry = t / 10;
        i = i + 1;
    }
    proof {
        assert(x@.take(n as int) =~= x@);
        assert(y@.take(n as int) =~= y@);
        lemma_le_push_zero(out@);
        let o = out@.push(carry);
        assert(o.drop_last() =~= out@);
    }
    out.push(carry);
    out
}

/// The difference of two digit sequences of one length, and whether it
/// borrowed past the top (the first is then the smaller).
fn sub_mag(a: &Vec<u8>, b: &Vec<u8>) -> (r: (Vec<u8>, bool))
    requires
        all_digits(a@),
        all_digits(b@),
    ensures
        all_digits(r.0@),
        r.0@.len() == if a@.len() >= b@.len() { a@.len() } else { b@.len() },
        le_value(r.0@) - (if r.1 { pow10(r.0@.len()) as int } else { 0 }) == le_value(a@) - le_value(b@),
        r.1 <==> le_value(a@) < le_value(b@),
{
    let n = if a.len() >= b.len() { a.len() } else { b.len() };
    let x = pad_to(a, n);
    let y = pad_to(b, n);
    let mut out: Vec<u8> = Vec::new();
    let mut borrow: u8 = 0;
    let mut i: usize = 0;
    while i < n
        invariant
            x@.len() == n,
            y@.len() == n,
            all_digits(x@),
            all_digits(y@),
            i <= n,
            out@.len() == i,
            all_digits(out@),
            borrow <= 1,
            le_value(out@) - borrow * pow10(i as nat) == le_value(x@.take(i as int)) - le_value(y@.take(i as int)),
        decreases n - i,
    {
        let xi = x[i];
        let yi = y[i] + borrow;
        let d: u8 = if xi >= yi { xi - yi } else { xi + 10 - yi };
        let nb: u8 = if xi >= yi { 0 } else { 1 };
        proof {
            lemma_le_take(x@, i as int);
            lemma_le_take(y@, i as int);
            let o = out@.push(d);
            assert(o.drop_last() =~= out@);
            let p = pow10(i as nat);
            assert(pow10((i + 1) as nat) == 10 * p);
            assert(d * p - nb * (10 * p) == xi * p - y@[i as int] * p - borrow * p) by (nonlinear_arith)
                requires
                    d == xi - yi + 10 * nb,
                    yi == y@[i as int] + borrow,
            ;
        }
        out.push(d);
        borrow = nb;
        i = i + 1;
    }
    proof {
        assert(x@.take(n as int) =~= x@);
        assert(y@.take(n as int) =~= y@);
        lemma_le_bound(out@);
        lemma_le_bound(x@);
        lemma_le_bound(y@);
        lemma_le_nonneg(out@);
        lemma_le_nonneg(x@);
        lemma_le_nonneg(y@);
    }
    (out, borrow == 1)
}

/// The product of two digit sequences.
fn mul_mag(a: &Vec<u8>, b: &Vec<u8>) -> (r: Vec<u8>)
    requires
        all_digits(a@),
        all_digits(b@),
        a@.len() + b@.len() + 1 < usize::MAX,
    ensures
        all_digits(r@),
        le_value(r@) == le_value(a@) * le_value(b@),
{
    let la = a.len();
    let lb = b.len();
    let total = la + lb + 1;
    let mut res: Vec<u8> = Vec::new();
    while res.len() < total
        invariant
            total == la + lb + 1,
            res@.len() <= total,
            forall|k: int| 0 <= k < res@.len() ==> #[trigger] res@[k] == 0,
        decreases total - res@.len(),
    {
        res.push(0);
    }
    proof {
        lemma_le_zeros_seq(res@);
    }
    let mut i: usize = 0;
    while i < la
        invariant
            la == a@.len(),
            lb == b@.len(),
            all_digits(a@),
            all_digits(b@),
            la + lb + 1 < usize::MAX,
            res@.len() == la + lb + 1,
            all_digits(res@),
            i <= la,
            forall|k: int| i + lb <= k < res@.len() ==> #[trigger] res@[k] == 0,
            le_value(res@) == le_value(a@.take(i as int)) * le_value(b@),
        decreases la - i,
    {
        let ai = a[i] as u32;
        let mut carry: u32 = 0;
        let mut j: usize = 0;
        let ghost base = le_value(a@.take(i as int)) * le_value(b@);
        while j < lb
            invariant
                la == a@.len(),
                lb == b@.len(),
                all_digits(a@),
                all_digits(b@),
                la + lb + 1 < usize::MAX,
                res@.len() == la + lb + 1,
                all_digits(res@),
                i < la,
                ai == a@[i as int],
                j <= lb,
                carry <= 9,
                forall|k: int| i + j <= k < res@.len() && k >= i + lb ==> #[trigger] res@[k] == 0,
                forall|k: int| i + lb <= k < res@.len() ==> #[trigger] res@[k] == 0,
                le_value(res@) + carry * pow10((i + j) as nat) == base + ai * le_value(b@.take(j as int)) * pow10(i as nat),
            decreases lb - j,
        {
            let old_digit = res[i + j] as u32;
            let bj = b[j] as u32;
            assert(ai <= 9 && bj <= 9 && old_digit <= 9);
            assert(ai * bj <= 81) by (nonlinear_arith)
                requires
                    ai <= 9,
                    bj <= 9,
            ;
            let t = old_digit + ai * bj + carry;
            proof {
                lemma_le_take(b@, j as int);
                lemma_le_update(res@, (i + j) as int, (t % 10) as u8);
                let p = pow10((i + j) as nat);
                assert(pow10((i + j + 1) as nat) == 10 * p);
                lemma_pow10_add(i as nat, j as nat);
                assert((t % 10) * p + (t / 10) * (10 * p) == t * p) by (nonlinear_arith)
                    requires
                        t == 10 * (t / 10) + t % 10,
                ;
                assert(ai * (le_value(b@.take(j as int)) + b@[j as int] * pow10(j as nat)) * pow10(i as nat)
                    == ai * le_value(b@.take(j as int)) * pow10(i as nat) + ai * b@[j as int] * p) by (nonlinear_arith)
                    requires
                        p == pow10(i as nat) * pow10(j as nat),
                ;
                assert(t * p == old_digit * p + ai * b@[j as int] * p + carry * p) by (nonlinear_arith)
                    requires
                        t == old_digit + ai * b@[j as int] + carry,
                ;
                assert(((t % 10) - old_digit) * p == (t % 10) * p - old_digit * p) by (nonlinear_arith);
                assert(res@[(i + j) as int] == old_digit);
            }
            res.set(i + j, (t % 10) as u8);
            carry = t / 10;
            j = j + 1;
        }
        proof {
            assert(b@.take(lb as int) =~= b@);
            assert(res@[(i + lb) as int] == 0);
            lemma_le_update(res@, (i + lb) as int, carry as u8);
            lemma_le_take(a@, i as int);
            assert(ai * le_value(b@) * pow10(i as nat) == le_value(b@) * (a@[i as int] * pow10(i as nat))) by (nonlinear_arith)
                requires
                    ai == a@[i as int],
            ;
            assert((le_value(a@.take(i as int)) + a@[i as int] * pow10(i as nat)) * le_value(b@) == le_value(a@.take(i as int))
                * le_value(b@) + le_value(b@) * (a@[i as int] * pow10(i as nat))) by (nonlinear_arith);
        }
        res.set(i + lb, carry as u8);
        i = i + 1;
    }
    assert(a@.take(la as int) =~= a@);
    res
}

proof fn lemma_le_zeros_seq(ds: Seq<u8>)
    requires
        forall|k: int| 0 <= k < ds.len() ==> #[trigger] ds[k] == 0,
    ensures
        le_value(ds) == 0,
        all_digits(ds),
    decreases ds.len(),
{
    if ds.len() > 0 {
        lemma_le_zeros_seq(ds.drop_last());
    }
}


/// A value at least the digit at `i` times `10` to the `i`.
proof fn lemma_le_ge_digit(ds: Seq<u8>, i: int)
    requires
        0 <= i < ds.len(),
    ensures
        le_value(ds) >= ds[i] * pow10(i as nat),
    decreases ds.len(),
{
    lemma_le_nonneg(ds.drop_last());
    if i < ds.len() - 1 {
        lemma_le_ge_digit(ds.drop_last(), i);
        assert(ds.last() * pow10((ds.len() - 1) as nat) >= 0) by (nonlinear_arith)
            requires
                ds.last() >= 0,
        ;
    }
}

/// Every digit is zero.
fn is_all_zero(v: &Vec<u8>) -> (r: bool)
    requires
        all_digits(v@),
    ensures
        r == (le_value(v@) == 0),
{
    let mut i: usize = 0;
    while i < v.len()
        invariant
            i <= v@.len(),
            forall|k: int| 0 <= k < i ==> #[trigger] v@[k] == 0,
        decreases v@.len() - i,
    {
        if v[i] != 0 {
            proof {
                lemma_le_ge_digit(v@, i as int);
                lemma_pow10_pos(i as nat);
                assert(v@[i as int] * pow10(i as nat) >= 1) by (nonlinear_arith)
                    requires
                        v@[i as int] >= 1,
                        pow10(i as nat) >= 1,
                ;
            }
            return false;
        }
        i = i + 1;
    }
    proof {
        lemma_le_zeros_seq(v@);
    }
    true
}

/// Zeros put below the digits: the value times `10` to the `k`.
fn shift_low(v: &Vec<u8>, k: usize) -> (r: Vec<u8>)
    requires
        all_digits(v@),
    ensures
        r@ == Seq::new(k as nat, |i: int| 0u8) + v@,
        le_value(r@) == le_value(v@) * pow10(k as nat),
        all_digits(r@),
{
    let mut out: Vec<u8> = Vec::new();
    let mut i: usize = 0;
    while i < k
        invariant
            i <= k,
            out@ == Seq::new(i as nat, |t: int| 0u8),
        decreases k - i,
    {
        out.push(0);
        assert(out@ =~= Seq::new((i + 1) as nat, |t: int| 0u8));
        i = i + 1;
    }
    let mut j: usize = 0;
    while j < v.len()
        invariant
            j <= v@.len(),
            out@ == Seq::new(k as nat, |t: int| 0u8) + v@.take(j as int),
        decreases v@.len() - j,
    {
        out.push(v[j]);
        assert(out@ =~= Seq::new(k as nat, |t: int| 0u8) + v@.take(j + 1));
        j = j + 1;
    }
    assert(v@.take(j as int) =~= v@);
    proof {
        lemma_le_shift(v@, k as nat);
    }
    out
}

/// The signed value `(-1 if negative) * magnitude`.
pub open spec fn signed(negative: bool, m: int) -> int {
    if negative {
        -m
    } else {
        m
    }
}

/// `ds` with zeros added at the high end up to `dp + 1` digits.
pub open spec fn pad_seq(ds: Seq<u8>, dp: nat) -> Seq<u8> {
    if ds.len() <= dp {
        ds + Seq::new((dp + 1 - ds.len()) as nat, |i: int| 0u8)
    } else {
        ds
    }
}

/// The number of zeros from position `k` on at the low end, stopping at `dp`.
pub open spec fn low_zeros(ds: Seq<u8>, dp: nat, k: nat) -> nat
    decreases dp - k,
{
    if k < dp && k < ds.len() && ds[k as int] == 0 {
        low_zeros(ds, dp, k + 1)
    } else {
        k
    }
}

/// `s` without the zeros at its high end beyond `p + 1` digits.
pub open spec fn strip_high(s: Seq<u8>, p: nat) -> Seq<u8>
    decreases s.len(),
{
    if s.len() > p + 1 && s.last() == 0 {
        strip_high(s.drop_last(), p)
    } else {
        s
    }
}

/// The decimal places of the shortest form of `ds` with `dp` places.
pub open spec fn canon_places(ds: Seq<u8>, dp: nat) -> nat {
    (dp - low_zeros(pad_seq(ds, dp), dp, 0)) as nat
}

/// The digits of the shortest form of `ds` with `dp` places: padded to at
/// least one digit before the point, low zeros after the point dropped,
/// then high zeros before the point dropped.
pub open spec fn canon_digits(ds: Seq<u8>, dp: nat) -> Seq<u8> {
    strip_high(pad_seq(ds, dp).skip(low_zeros(pad_seq(ds, dp), dp, 0) as int), canon_places(ds, dp))
}

/// The shortest form of `±ds` with `dp` decimal places; a zero keeps the
/// minus sign only when `keep_zero_sign` holds.
fn normalize(negative: bool, ds: Vec<u8>, dp: usize, keep_zero_sign: bool) -> (r: Decimal)
    requires
        all_digits(ds@),
        dp < usize::MAX,
    ensures
        r.wf(),
        r.places() <= dp,
        r.value_at(dp as nat) == signed(negative, le_value(ds@)),
        r.digit_seq() == canon_digits(ds@, dp as nat),
        r.places() == canon_places(ds@, dp as nat),
        r.negative() == (negative && (keep_zero_sign || canon_digits(ds@, dp as nat) != seq![0u8])),
{
    let ghost ds0 = ds@;
    let mut ds = ds;
    let ghost original = le_value(ds@);
    while ds.len() <= dp
        invariant
            all_digits(ds@),
            le_value(ds@) == original,
            ds@.len() >= ds0.len(),
            ds@ == ds0 + Seq::new((ds@.len() - ds0.len()) as nat, |i: int| 0u8),
            ds@.len() > ds0.len() ==> ds@.len() <= dp + 1,
        decreases dp + 1 - ds@.len(),
    {
        proof {
            lemma_le_push_zero(ds@);
        }
        ds.push(0);
        assert(ds@ =~= ds0 + Seq::new((ds@.len() - ds0.len()) as nat, |i: int| 0u8));
    }
    assert(ds@ =~= pad_seq(ds0, dp as nat));
    let mut k: usize = 0;
    while k < dp && ds[k] == 0
        invariant
            k <= dp,
            dp < ds@.len(),
            forall|t: int| 0 <= t < k ==> #[trigger] ds@[t] == 0,
            low_zeros(ds@, dp as nat, 0) == low_zeros(ds@, dp as nat, k as nat),
        decreases dp - k,
    {
        k = k + 1;
    }
    assert(low_zeros(ds@, dp as nat, k as nat) == k);
    let mut rest: Vec<u8> = Vec::new();
    let mut j: usize = k;
    while j < ds.len()
        invariant
            k <= j <= ds@.len(),
            rest@ == ds@.subrange(k as int, j as int),
        decreases ds@.len() - j,
    {
        rest.push(ds[j]);
        assert(rest@ =~= ds@.subrange(k as int, j + 1));
        j = j + 1;
    }
    proof {
        assert(ds@ =~= Seq::new(k as nat, |i: int| 0u8) + rest@);
        lemma_le_shift(rest@, k as nat);
    }
    let places = dp - k;
    let ghost low = rest@[0];
    let ghost rest0 = rest@;
    assert(rest0 =~= ds@.skip(k as int));
    while rest.len() > places + 1 && rest[rest.len() - 1] == 0
        invariant
            rest@.len() >= places + 1,
            all_digits(rest@),
            le_value(rest@) * pow10(k as nat) == original,
            rest@[0] == low,
            strip_high(rest@, places as nat) == strip_high(rest0, places as nat),
        decreases rest@.len(),
    {
        let ghost before = rest@;
        rest.pop();
        proof {
            assert(before =~= rest@.push(0));
            lemma_le_push_zero(rest@);
        }
    }
    let zero = rest.len() == 1 && rest[0] == 0;
    proof {
        if zero {
            assert(rest@ =~= seq![0u8]);
        } else if rest@.len() == 1 {
            assert(rest@[0] != seq![0u8][0]);
        }
    }
    let r = Decimal { decimal_places: places, digits: rest, sign: negative && (keep_zero_sign || !zero) };
    proof {
        lemma_shortest_zero(r.digits@, places as nat);
        assert((places as nat + k) as nat == dp);
        if negative {
            assert(-(le_value(r.digits@)) * pow10(k as nat) == -(le_value(r.digits@) * pow10(k as nat))) by (nonlinear_arith);
        }
        if zero {
            assert(le_value(r.digits@) == 0);
            assert(0 * pow10(k as nat) == 0);
        }
    }
    r
}

impl Decimal {
    /// The digits with `k - places` zeros put below them.
    fn aligned(&self, k: usize) -> (r: Vec<u8>)
        requires
            self.wf(),
            self.places() <= k,
        ensures
            all_digits(r@),
            le_value(r@) == self.magnitude() * pow10((k - self.places()) as nat),
            r@.len() == self.len() + (k - self.places()),
    {
        shift_low(&self.digits, k - self.decimal_places)
    }

    /// The sum of two numbers.
    pub fn add(self, rhs: Self) -> (r: Self)
        requires
            self.wf(),
            rhs.wf(),
            self.len() + rhs.len() < usize::MAX / 2,
        ensures
            r.wf(),
            r.places() <= max_places(self, rhs),
            r.value_at(max_places(self, rhs)) == self.value_at(max_places(self, rhs)) + rhs.value_at(max_places(self, rhs)),
    {
        let k = if self.decimal_places >= rhs.decimal_places { self.decimal_places } else { rhs.decimal_places };
        let a = self.aligned(k);
        let b = rhs.aligned(k);
        let ghost pa = pow10((k - self.places()) as nat);
        let ghost pb = pow10((k - rhs.places()) as nat);
        proof {
            assert(self.value_at(k as nat) == signed(self.sign, le_value(a@))) by (nonlinear_arith)
                requires
                    self.value_at(k as nat) == self.num() * pa,
                    self.num() == signed(self.sign, self.magnitude()),
                    le_value(a@) == self.magnitude() * pa,
            ;
            assert(rhs.value_at(k as nat) == signed(rhs.sign, le_value(b@))) by (nonlinear_arith)
                requires
                    rhs.value_at(k as nat) == rhs.num() * pb,
                    rhs.num() == signed(rhs.sign, rhs.magnitude()),
                    le_value(b@) == rhs.magnitude() * pb,
            ;
        }
        if self.sign == rhs.sign {
            let m = add_mag(&a, &b);
            normalize(self.sign, m, k, false)
        } else {
            let (d, borrow) = sub_mag(&a, &b);
            if !borrow {
                proof {
                    lemma_le_nonneg(d@);
                }
                normalize(self.sign, d, k, false)
            } else {
                let (e, _) = sub_mag(&b, &a);
                normalize(rhs.sign, e, k, false)
            }
        }
    }

    /// The difference of two numbers.
    pub fn sub(self, rhs: Self) -> (r: Self)
        requires
            self.wf(),
            rhs.wf(),
            self.len() + rhs.len() < usize::MAX / 2,
        ensures
            r.wf(),
            r.places() <= max_places(self, rhs),
            r.value_at(max_places(self, rhs)) == self.value_at(max_places(self, rhs)) - rhs.value_at(max_places(self, rhs)),
    {
        let ghost k = max_places(self, rhs);
        let ghost rv = rhs.value_at(k);
        let n = rhs.negate();
        proof {
            assert(n.value_at(k) == -rv) by (nonlinear_arith)
                requires
                    n.num() == -rhs.num(),
                    n.places() == rhs.places(),
                    n.value_at(k) == n.num() * pow10((k - n.places()) as nat),
                    rv == rhs.num() * pow10((k - rhs.places()) as nat),
            ;
        }
        self.add(n)
    }

    /// The product of two numbers.
    pub fn mul(self, rhs: Self) -> (r: Self)
        requires
            self.wf(),
            rhs.wf(),
            self.len() + rhs.len() < usize::MAX / 2,
        ensures
            r.wf(),
            r.places() <= self.places() + rhs.places(),
            r.value_at(self.places() + rhs.places()) == self.num() * rhs.num(),
    {
        let k = self.decimal_places + rhs.decimal_places;
        let m = mul_mag(&self.digits, &rhs.digits);
        let r = normalize(self.sign != rhs.sign, m, k, false);
        proof {
            let x = le_value(self.digits@);
            let y = le_value(rhs.digits@);
            assert(signed(self.sign != rhs.sign, x * y) == signed(self.sign, x) * signed(rhs.sign, y)) by (nonlinear_arith);
        }
        r
    }

    /// Compares two numbers: -1, 0 or 1 as the first is smaller, equal or larger.
    pub fn compare_any(&self, other: &Self) -> (r: i8)
        requires
            self.wf(),
            other.wf(),
            self.len() + other.len() < usize::MAX / 2,
        ensures
            r == (if self.value_at(max_places(*self, *other)) < other.value_at(max_places(*self, *other)) {
                -1i8
            } else if self.value_at(max_places(*self, *other)) == other.value_at(max_places(*self, *other)) {
                0i8
            } else {
                1i8
            }),
    {
        let k = if self.decimal_places >= other.decimal_places { self.decimal_places } else { other.decimal_places };
        let a = self.aligned(k);
        let b = other.aligned(k);
        let ghost pa = pow10((k - self.places()) as nat);
        let ghost pb = pow10((k - other.places()) as nat);
        proof {
            assert(self.value_at(k as nat) == signed(self.sign, le_value(a@))) by (nonlinear_arith)
                requires
                    self.value_at(k as nat) == self.num() * pa,
                    self.num() == signed(self.sign, self.magnitude()),
                    le_value(a@) == self.magnitude() * pa,
            ;
            assert(other.value_at(k as nat) == signed(other.sign, le_value(b@))) by (nonlinear_arith)
                requires
                    other.value_at(k as nat) == other.num() * pb,
                    other.num() == signed(other.sign, other.magnitude()),
                    le_value(b@) == other.magnitude() * pb,
            ;
            lemma_le_nonneg(a@);
            lemma_le_nonneg(b@);
            lemma_pow10_pos((k - self.places()) as nat);
            lemma_pow10_pos((k - other.places()) as nat);
            lemma_le_nonneg(self.digits@);
            lemma_le_nonneg(other.digits@);
        }
        if self.sign != other.sign {
            if is_all_zero(&a) && is_all_zero(&b) {
                0
            } else if self.sign { -1 } else { 1 }
        } else {
            let (d, borrow) = sub_mag(&a, &b);
            let mag_cmp: i8 = if borrow {
                -1
            } else if is_all_zero(&d) {
                0
            } else {
                1
            };
            proof {
                lemma_le_nonneg(d@);
            }
            if self.sign { -mag_cmp } else { mag_cmp }
        }
    }

    /// The numbers are equal.
    pub fn eq(&self, other: &Self) -> (r: bool)
        requires
            self.wf(),
            other.wf(),
            self.len() + other.len() < usize::MAX / 2,
        ensures
            r == (self.value_at(max_places(*self, *other)) == other.value_at(max_places(*self, *other))),
    {
        self.compare_any(other) == 0
    }

    /// The numbers differ.
    pub fn ne(&self, other: &Self) -> (r: bool)
        requires
            self.wf(),
            other.wf(),
            self.len() + other.len() < usize::MAX / 2,
        ensures
            r == (self.value_at(max_places(*self, *other)) != other.value_at(max_places(*self, *other))),
    {
        !self.eq(other)
    }

    /// The first number is smaller.
    pub fn lt(&self, other: &Self) -> (r: bool)
        requires
            self.wf(),
            other.wf(),
            self.len() + other.len() < usize::MAX / 2,
        ensures
            r == (self.value_at(max_places(*self, *other)) < other.value_at(max_places(*self, *other))),
    {
        self.compare_any(other) < 0
    }

    /// The first number is smaller or equal.
    pub fn le(&self, other: &Self) -> (r: bool)
        requires
            self.wf(),
            other.wf(),
            self.len() + other.len() < usize::MAX / 2,
        ensures
            r == (self.value_at(max_places(*self, *other)) <= other.value_at(max_places(*self, *other))),
    {
        self.compare_any(other) <= 0
    }

    /// The first number is larger.
    pub fn gt(&self, other: &Self) -> (r: bool)
        requires
            self.wf(),
            other.wf(),
            self.len() + other.len() < usize::MAX / 2,
        ensures
            r == (self.value_at(max_places(*self, *other)) > other.value_at(max_places(*self, *other))),
    {
        self.compare_any(other) > 0
    }

    /// The first number is larger or equal.
    pub fn ge(&self, other: &Self) -> (r: bool)
        requires
            self.wf(),
            other.wf(),
            self.len() + other.len() < usize::MAX / 2,
        ensures
            r == (self.value_at(max_places(*self, *other)) >= other.value_at(max_places(*self, *other))),
    {
        self.compare_any(other) >= 0
    }
}

/// The larger count of decimal places of two numbers.
pub open spec fn max_places(a: Decimal, b: Decimal) -> nat {
    if a.places() >= b.places() {
        a.places()
    } else {
        b.places()
    }
}


/// An ASCII digit.
pub open spec fn is_digit_char(c: char) -> bool {
    '0' <= c <= '9'
}

/// Length of the leading sign, if any.
pub open spec fn sign_len(s: Seq<char>) -> int {
    if s.len() > 0 && (s[0] == '-' || s[0] == '+') {
        1
    } else {
        0
    }
}

/// The text after its sign.
pub open spec fn body(s: Seq<char>) -> Seq<char> {
    s.skip(sign_len(s))
}

/// One or more characters, each a digit or `.`, with at most one `.`; a
/// lone `.` reads as zero.
pub open spec fn number_text(b: Seq<char>) -> bool {
    &&& forall|i: int| 0 <= i < b.len() ==> is_digit_char(#[trigger] b[i]) || b[i] == '.'
    &&& forall|i: int, j: int| 0 <= i < j < b.len() ==> !(#[trigger] b[i] == '.' && #[trigger] b[j] == '.')
    &&& b.len() > 0
}

/// The value of the digits of a text, ignoring `.`.
pub open spec fn text_value(b: Seq<char>) -> int
    decreases b.len(),
{
    if b.len() == 0 {
        0
    } else if is_digit_char(b.last()) {
        text_value(b.drop_last()) * 10 + (b.last() as int - '0' as int)
    } else {
        text_value(b.drop_last())
    }
}

/// The digits of a text, least significant first, ignoring `.`.
pub open spec fn text_digits(b: Seq<char>) -> Seq<u8>
    decreases b.len(),
{
    if b.len() == 0 {
        Seq::empty()
    } else if is_digit_char(b.last()) {
        seq![(b.last() as int - '0' as int) as u8] + text_digits(b.drop_last())
    } else {
        text_digits(b.drop_last())
    }
}

/// Number of characters after the `.` of a text (0 without one).
pub open spec fn frac_len(b: Seq<char>) -> nat
    decreases b.len(),
{
    if b.len() == 0 || b.last() == '.' {
        0
    } else if b.drop_last().contains('.') {
        frac_len(b.drop_last()) + 1
    } else {
        0
    }
}

proof fn lemma_le_cons(d: u8, r: Seq<u8>)
    ensures
        le_value(seq![d] + r) == d + 10 * le_value(r),
    decreases r.len(),
{
    let s = seq![d] + r;
    if r.len() == 0 {
        assert(s.drop_last() =~= Seq::<u8>::empty());
        assert(pow10(0) == 1);
        assert(s.last() == d);
        assert(s.len() == 1);
        assert(le_value(s.drop_last()) == 0);
        assert(le_value(s) == d * 1);
    } else {
        lemma_le_cons(d, r.drop_last());
        assert(s.drop_last() =~= seq![d] + r.drop_last());
        assert(s.last() == r.last());
        let p = pow10((r.len() - 1) as nat);
        assert(pow10(r.len() as nat) == 10 * p);
        assert(r.last() * (10 * p) == 10 * (r.last() * p)) by (nonlinear_arith);
    }
}

/// The character of a digit.
pub open spec fn digit_char(d: u8) -> char {
    (d + 48) as char
}

/// The digits as text, most significant first.
pub open spec fn be_text(ds: Seq<u8>) -> Seq<char> {
    Seq::new(ds.len(), |i: int| digit_char(ds[ds.len() - 1 - i]))
}

/// How a number is written: a `-` when negative, the digits before the
/// point, and `.` and the decimal places when there are any.
pub open spec fn render(negative: bool, ds: Seq<u8>, dp: nat) -> Seq<char> {
    let t = be_text(ds);
    let int_part = t.take(ds.len() - dp);
    let head = if negative { seq!['-'] + int_part } else { int_part };
    if dp > 0 {
        head + seq!['.'] + t.skip(ds.len() - dp)
    } else {
        head
    }
}

impl Decimal {
    /// Reads a number: an optional `-` or `+`, then one or more characters,
    /// each a digit or `.`, with at most one `.` (a lone `.` is zero).
    pub fn try_from(input: &str) -> (r: Option<Decimal>)
        ensures
            r is Some <==> number_text(body(input@)),
            r matches Some(d) ==> d.wf() && d.places() <= frac_len(body(input@)) && d.value_at(frac_len(body(input@)))
                == signed(input@.len() > 0 && input@[0] == '-', text_value(body(input@))),
            r matches Some(d) ==> d.digit_seq() == canon_digits(text_digits(body(input@)), frac_len(body(input@)))
                && d.places() == canon_places(text_digits(body(input@)), frac_len(body(input@))) && d.negative() == (
            input@.len() > 0 && input@[0] == '-'),
    {
        let chars = chars_of(input);
        let n = chars.len();
        let negative = n > 0 && chars[0] == '-';
        let start: usize = if n > 0 && (chars[0] == '-' || chars[0] == '+') { 1 } else { 0 };
        let ghost b = body(input@);
        assert(b =~= chars@.skip(start as int));
        let mut acc: Vec<u8> = Vec::new();
        let mut seen_dot = false;
        let mut frac: usize = 0;
        let mut i: usize = start;
        while i < n
            invariant
                n == chars@.len(),
                chars@ == input@,
                b == chars@.skip(start as int),
                b == body(input@),
                start <= i <= n,
                all_digits(acc@),
                acc@.len() <= i,
                le_value(acc@) == text_value(b.take(i - start)),
                acc@ == text_digits(b.take(i - start)),
                frac == frac_len(b.take(i - start)),
                frac <= i,
                !seen_dot ==> frac == 0,
                seen_dot ==> frac < i - start,
                seen_dot == b.take(i - start).contains('.'),
                forall|t: int| 0 <= t < i - start ==> is_digit_char(#[trigger] b[t]) || b[t] == '.',
                forall|t: int, u: int| 0 <= t < u < i - start ==> !(#[trigger] b[t] == '.' && #[trigger] b[u] == '.'),
            decreases n - i,
        {
            let c = chars[i];
            let ghost pre = b.take(i - start);
            let ghost next = b.take(i - start + 1);
            assert(next.drop_last() =~= pre);
            assert(next.last() == c);
            assert(b[i - start] == c);
            if '0' <= c && c <= '9' {
                let d = (c as u32 - 48) as u8;
                let ghost old_acc = acc@;
                acc.insert(0, d);
                proof {
                    assert(acc@ =~= seq![d] + old_acc);
                    lemma_le_cons(d, old_acc);
                }
                if seen_dot {
                    frac = frac + 1;
                }
            } else if c == '.' && !seen_dot {
                seen_dot = true;
                proof {
                    assert(next.contains('.'));
                }
            } else {
                proof {
                    if c == '.' {
                        let t = choose|t: int| 0 <= t < pre.len() && pre[t] == '.';
                        assert(b[t] == '.');
                        assert(b[t] == '.' && b[i - start] == '.');
                        assert(!number_text(b));
                    } else {
                        assert(!(is_digit_char(b[i - start]) || b[i - start] == '.'));
                        assert(!number_text(b));
                    }
                }
                return None;
            }
            proof {
                if seen_dot && !pre.contains('.') {
                    let t = (i - start) as int;
                    assert(next[t] == '.');
                }
                if next.contains('.') && c != '.' {
                    let t = choose|t: int| 0 <= t < next.len() && next[t] == '.';
                    assert(pre[t] == '.');
                }
                assert forall|t: int, u: int| 0 <= t < u < i - start + 1 implies !(#[trigger] b[t] == '.' && #[trigger] b[u] == '.') by {
                    if u == i - start && c == '.' && b[t] == '.' {
                        assert(pre[t] == '.');
                    }
                }
            }
            i = i + 1;
        }
        assert(b.take(n - start) =~= b);
        if n == start {
            return None;
        }
        Some(normalize(negative, acc, frac, true))
    }

    /// The number written out: a `-` when negative, the digits before the
    /// point, and `.` and the decimal places when there are any.
    pub fn to_string(&self) -> (r: String)
        requires
            self.wf(),
        ensures
            r@ == render(self.negative(), self.digit_seq(), self.places()),
    {
        let n = self.digits.len();
        let dp = self.decimal_places;
        let ghost t = be_text(self.digits@);
        let mut out: Vec<char> = Vec::new();
        if self.sign {
            out.push('-');
        }
        let ghost head = out@;
        let mut i: usize = 0;
        while i < n
            invariant
                n == self.digits@.len(),
                dp == self.decimal_places,
                self.wf(),
                t == be_text(self.digits@),
                i <= n,
                out@ == head + (if i <= n - dp { t.take(i as int) } else { t.take(n - dp) + seq!['.'] + t.subrange(
                    n - dp,
                    i as int,
                ) }),
            decreases n - i,
        {
            if i == n - dp {
                out.push('.');
            }
            let d = self.digits[n - 1 - i];
            out.push((d + 48) as char);
            proof {
                assert(t[i as int] == digit_char(self.digits@[n - 1 - i]));
                if i + 1 <= n - dp {
                    assert(t.take(i + 1) =~= t.take(i as int).push(t[i as int]));
                } else if i == n - dp {
                    assert(t.subrange(n - dp, i + 1) =~= seq![t[i as int]]);
                    assert(t.take(n - dp) =~= t.take(i as int));
                } else {
                    assert(t.subrange(n - dp, i + 1) =~= t.subrange(n - dp, i as int).push(t[i as int]));
                }
            }
            assert(out@ =~= head + (if i + 1 <= n - dp { t.take(i + 1) } else { t.take(n - dp) + seq!['.'] + t.subrange(n - dp, i + 1) }));
            i = i + 1;
        }
        proof {
            assert(t.subrange(n - dp, n as int) =~= t.skip(n - dp));
            if dp == 0 {
                assert(t.take(n as int) =~= t.take(n - dp));
            }
        }
        assert(out@ =~= render(self.sign, self.digits@, self.places()));
        string_from_chars(&out)
    }
}

} // verus!
