//! Safe numeric primitives and input validation for the kernel: checked
//! 128-bit addition and subtraction, exact widening multiplication into
//! 256 bits, checked narrowing, and the single rounding primitive used for
//! every internal estimate — division rounded to nearest with ties to
//! even, which avoids the systematic bias that floor or ceiling would
//! introduce over many trades.

use vstd::prelude::*;
use vstd::arithmetic::div_mod::*;
use vstd::arithmetic::mul::*;
use super::errors::AmmError;
use super::types::{MIN_RESERVE, U256, Wad, limb_base};
use super::types::lemma_u256_in_range;

verus! {

/// 2^64, the split point of the schoolbook multiplication.
const HALF_BASE: u128 = 0x1_0000_0000_0000_0000;

/// Division of `n` by `d` rounded to the nearest integer, an exact tie
/// going to whichever of the two neighbours is even.
pub open spec fn round_nearest_even(n: nat, d: nat) -> nat
    recommends
        d > 0,
{
    let q = n / d;
    let r = n % d;
    if 2 * r < d {
        q
    } else if 2 * r > d {
        q + 1
    } else if q % 2 == 0 {
        q
    } else {
        q + 1
    }
}

/// Fails with `ZeroAmount` exactly when the amount is zero.
pub fn ensure_nonzero(amount: Wad) -> (res: Result<(), AmmError>)
    ensures
        res is Ok <==> amount > 0,
        res is Err ==> res == Result::<(), AmmError>::Err(AmmError::ZeroAmount),
{
    if amount == 0 {
        Err(AmmError::ZeroAmount)
    } else {
        Ok(())
    }
}

/// Validates the reserve pair: `ZeroReserve` when either side is zero,
/// `MinReserveBreached` when either side is below the floor.
pub fn ensure_reserves(x: Wad, y: Wad) -> (res: Result<(), AmmError>)
    ensures
        res is Ok <==> (x >= MIN_RESERVE && y >= MIN_RESERVE),
        res == Result::<(), AmmError>::Err(AmmError::ZeroReserve) <==> (x == 0 || y == 0),
        res == Result::<(), AmmError>::Err(AmmError::MinReserveBreached) <==> ((x > 0 && y > 0)
            && (x < MIN_RESERVE || y < MIN_RESERVE)),
{
    if x == 0 || y == 0 {
        return Err(AmmError::ZeroReserve);
    }
    if x < MIN_RESERVE || y < MIN_RESERVE {
        return Err(AmmError::MinReserveBreached);
    }
    Ok(())
}

/// Checked 128-bit addition; fails with `Overflow` when the sum leaves
/// the 128-bit domain.
pub fn checked_add(a: Wad, b: Wad) -> (res: Result<Wad, AmmError>)
    ensures
        a + b <= u128::MAX ==> res == Result::<Wad, AmmError>::Ok((a + b) as u128),
        a + b > u128::MAX ==> res == Result::<Wad, AmmError>::Err(AmmError::Overflow),
{
    match a.checked_add(b) {
        Some(v) => Ok(v),
        None => Err(AmmError::Overflow),
    }
}

/// Checked 128-bit subtraction; fails with `Overflow` when `b > a`
/// (underflow is signalled with the same kind, not a distinct one).
pub fn checked_sub(a: Wad, b: Wad) -> (res: Result<Wad, AmmError>)
    ensures
        b <= a ==> res == Result::<Wad, AmmError>::Ok((a - b) as u128),
        b > a ==> res == Result::<Wad, AmmError>::Err(AmmError::Overflow),
{
    match a.checked_sub(b) {
        Some(v) => Ok(v),
        None => Err(AmmError::Overflow),
    }
}

/// Exact product of two 128-bit values in the 256-bit intermediate;
/// never fails.
pub fn mul_u128_to_u256(a: Wad, b: Wad) -> (r: U256)
    ensures
        r.val() == a * b,
{
    let a1 = a / HALF_BASE;
    let a0 = a % HALF_BASE;
    let b1 = b / HALF_BASE;
    let b0 = b % HALF_BASE;
    proof {
        lemma_fundamental_div_mod(a as int, HALF_BASE as int);
        lemma_fundamental_div_mod(b as int, HALF_BASE as int);
        lemma_mul_upper_bound(a0 as int, (HALF_BASE - 1) as int, b0 as int, (HALF_BASE - 1) as int);
        lemma_mul_upper_bound(a0 as int, (HALF_BASE - 1) as int, b1 as int, (HALF_BASE - 1) as int);
        lemma_mul_upper_bound(a1 as int, (HALF_BASE - 1) as int, b0 as int, (HALF_BASE - 1) as int);
        lemma_mul_upper_bound(a1 as int, (HALF_BASE - 1) as int, b1 as int, (HALF_BASE - 1) as int);
    }
    let p00 = a0 * b0;
    let p01 = a0 * b1;
    let p10 = a1 * b0;
    let p11 = a1 * b1;
    // Accumulate the partial products at weights 1, 2^64 and 2^128.
    let mid = p00 / HALF_BASE + p01;
    let mid2 = mid % HALF_BASE + p10;
    let lo = (mid2 % HALF_BASE) * HALF_BASE + p00 % HALF_BASE;
    let hi = p11 + mid / HALF_BASE + mid2 / HALF_BASE;
    proof {
        assert(a * b == p11 * (HALF_BASE * HALF_BASE) + p01 * HALF_BASE + p10 * HALF_BASE + p00)
            by (nonlinear_arith)
            requires
                a == a1 * HALF_BASE + a0,
                b == b1 * HALF_BASE + b0,
                p00 == a0 * b0,
                p01 == a0 * b1,
                p10 == a1 * b0,
                p11 == a1 * b1,
        ;
        lemma_fundamental_div_mod(p00 as int, HALF_BASE as int);
        lemma_fundamental_div_mod(mid as int, HALF_BASE as int);
        lemma_fundamental_div_mod(mid2 as int, HALF_BASE as int);
        assert(limb_base() == HALF_BASE * HALF_BASE);
        assert(hi * limb_base() == p11 * limb_base() + (mid / HALF_BASE) * limb_base() + (mid2
            / HALF_BASE) * limb_base()) by (nonlinear_arith)
            requires
                hi == p11 + mid / HALF_BASE + mid2 / HALF_BASE,
        ;
        assert(p11 * limb_base() == p11 * (HALF_BASE * HALF_BASE) && (mid / HALF_BASE)
            * limb_base() == (mid / HALF_BASE) * (HALF_BASE * HALF_BASE) && (mid2 / HALF_BASE)
            * limb_base() == (mid2 / HALF_BASE) * (HALF_BASE * HALF_BASE)) by (nonlinear_arith);
    }
    U256 { hi, lo }
}

/// Checked narrowing of a 256-bit intermediate back to the 128-bit
/// domain; fails with `Overflow` when the value does not fit.
pub fn u256_to_u128_checked(v: U256) -> (res: Result<Wad, AmmError>)
    ensures
        v.val() <= u128::MAX ==> res == Result::<Wad, AmmError>::Ok(v.val() as u128),
        v.val() > u128::MAX ==> res == Result::<Wad, AmmError>::Err(AmmError::Overflow),
{
    if v.fits_u128() {
        Ok(v.lo)
    } else {
        Err(AmmError::Overflow)
    }
}

/// Division with round-to-nearest, ties to even, over the 256-bit
/// intermediates; fails with `Overflow` exactly when the divisor is zero.
pub fn div_nearest_even_u256(n: U256, d: U256) -> (res: Result<U256, AmmError>)
    ensures
        d.val() > 0 ==> (res matches Ok(q) && q.val() == round_nearest_even(n.val(), d.val())),
        d.val() == 0 ==> res == Result::<U256, AmmError>::Err(AmmError::Overflow),
{
    if d.is_zero() {
        return Err(AmmError::Overflow);
    }
    let (q, r) = n.div_rem(&d);
    proof {
        lemma_mod_division_less_than_divisor(n.val() as int, d.val() as int);
        lemma_fundamental_div_mod(n.val() as int, d.val() as int);
        lemma_u256_in_range(n);
    }
    // Compare 2*r against d as r against d - r, which cannot overflow.
    let u = d.checked_sub(&r).unwrap();
    if r.lt(&u) {
        Ok(q)
    } else {
        proof {
            // Rounding up stays in range: the remainder is nonzero, so the
            // quotient is strictly below the dividend.
            assert(r.val() >= 1);
            assert(q.val() * d.val() >= q.val()) by (nonlinear_arith)
                requires
                    d.val() >= 1,
                    q.val() >= 0,
            ;
            assert(q.val() + 1 < U256::value_bound());
        }
        if u.lt(&r) {
            Ok(q.checked_add(&U256::from_u128(1)).unwrap())
        } else {
            // Exact tie: round to the even neighbour. The parity of the
            // value is the parity of the low limb.
            proof {
                assert(q.val() == (q.hi * (limb_base() / 2) + q.lo / 2) * 2 + q.lo % 2);
                lemma_fundamental_div_mod_converse(
                    q.val() as int,
                    2,
                    (q.hi * (limb_base() / 2) + q.lo / 2) as int,
                    (q.lo % 2) as int,
                );
            }
            if q.lo % 2 == 0 {
                Ok(q)
            } else {
                Ok(q.checked_add(&U256::from_u128(1)).unwrap())
            }
        }
    }
}

/// Nearest-even division narrowed to 128 bits: fails with `Overflow` when
/// the divisor is zero or the rounded quotient does not fit.
pub fn div_nearest_even_u256_to_u128(n: U256, d: U256) -> (res: Result<Wad, AmmError>)
    ensures
        d.val() > 0 && round_nearest_even(n.val(), d.val()) <= u128::MAX ==> res
            == Result::<Wad, AmmError>::Ok(round_nearest_even(n.val(), d.val()) as u128),
        d.val() == 0 || round_nearest_even(n.val(), d.val()) > u128::MAX ==> res
            == Result::<Wad, AmmError>::Err(AmmError::Overflow),
{
    let q = div_nearest_even_u256(n, d)?;
    u256_to_u128_checked(q)
}


/// Nearest-even rounding lands within half a divisor of the exact ratio:
/// `2*n - d <= 2*d*round_nearest_even(n, d) <= 2*n + d`.
pub proof fn lemma_round_nearest_even_error(n: nat, d: nat)
    requires
        d >= 1,
    ensures
        2 * n - d <= 2 * (d * round_nearest_even(n, d)),
        2 * (d * round_nearest_even(n, d)) <= 2 * n + d,
{
    lemma_fundamental_div_mod(n as int, d as int);
    lemma_mod_division_less_than_divisor(n as int, d as int);
    let q = n / d;
    let r = n % d;
    assert(d * (q + 1) == d * q + d) by (nonlinear_arith);
    if 2 * r < d {
        assert(round_nearest_even(n, d) == q);
    } else if 2 * r > d {
        assert(round_nearest_even(n, d) == q + 1);
    }
}


/// Nearest-even rounding is antitone in the divisor: dividing the same
/// dividend by more never rounds to more. An exact tie cannot break this,
/// because a tie pins the dividend to both divisors at once.
pub proof fn lemma_round_nearest_even_antitone(k: nat, d1: nat, d2: nat)
    requires
        1 <= d1 <= d2,
    ensures
        round_nearest_even(k, d2) <= round_nearest_even(k, d1),
{
    lemma_round_nearest_even_error(k, d1);
    lemma_round_nearest_even_error(k, d2);
    let m1 = round_nearest_even(k, d1) as int;
    let m2 = round_nearest_even(k, d2) as int;
    if m2 > m1 {
        // Both rounds sit within half a divisor of k; chaining the bounds
        // forces every inequality to be an equality.
        assert(2 * ((d1 as int) * m1) + d1 == (d1 as int) * (2 * m1 + 1)) by (nonlinear_arith);
        assert(2 * ((d2 as int) * m2) - d2 == (d2 as int) * (2 * m2 - 1)) by (nonlinear_arith);
        assert((d2 as int) * (2 * m2 - 1) >= (d2 as int) * (2 * m1 + 1)) by (nonlinear_arith)
            requires
                m2 >= m1 + 1,
                d2 >= 1,
        ;
        assert((d2 as int) * (2 * m1 + 1) >= (d1 as int) * (2 * m1 + 1)) by (nonlinear_arith)
            requires
                d2 >= d1,
                m1 >= 0,
        ;
        assert((d2 as int) * (2 * m2 - 1) == (d2 as int) * (2 * m1 + 1));
        lemma_mul_equality_converse(d2 as int, 2 * m2 - 1, 2 * m1 + 1);
        assert((2 * m1 + 1) * (d2 as int) == (2 * m1 + 1) * (d1 as int)) by (nonlinear_arith)
            requires
                (d2 as int) * (2 * m1 + 1) == (d1 as int) * (2 * m1 + 1),
        ;
        lemma_mul_equality_converse(2 * m1 + 1, d2 as int, d1 as int);
        // The divisors coincide, so the two rounds coincide: contradiction.
        assert(d1 == d2);
        assert(false);
    }
}

} // verus!
