//! Core numeric types of the kernel: the fixed-point `Wad` scale, the
//! parts-per-million fee scale, the reserve pair, and the unsigned 256-bit
//! integer used for intermediate products that can exceed 128 bits.

use vstd::prelude::*;
use vstd::arithmetic::div_mod::*;
use vstd::arithmetic::mul::*;
use vstd::arithmetic::power2::*;

verus! {

/// Largest value of a 128-bit limb.
pub const LIMB_MAX: u128 = 0xffff_ffff_ffff_ffff_ffff_ffff_ffff_ffff;

/// 2^127, the weight of the top bit of a limb.
const LIMB_TOP_BIT: u128 = 0x8000_0000_0000_0000_0000_0000_0000_0000;

/// Token quantity scaled by 10^18.
pub type Wad = u128;

/// Fee or tolerance rate in parts per million (0 = 0%, 1_000_000 = 100%).
pub type Ppm = u32;

/// One whole unit at 10^18 scale.
pub const WAD: Wad = 1_000_000_000_000_000_000;

/// Full scale of a parts-per-million rate.
pub const PPM_SCALE: Ppm = 1_000_000;

/// Floor that every reserve must keep: one whole unit.
pub const MIN_RESERVE: Wad = 1_000_000_000_000_000_000;

/// 2^128, the weight of the high limb of a `U256`.
pub open spec fn limb_base() -> nat {
    0x1_0000_0000_0000_0000_0000_0000_0000_0000nat
}

/// Unsigned 256-bit integer held as two 128-bit limbs, used exclusively for
/// intermediate products and sums that could exceed 128 bits.
///
/// The derived ordering compares `hi` first, so it agrees with the numeric
/// order of `val`.
#[derive(Clone, Copy, Debug, PartialEq, Eq, PartialOrd, Ord, Hash)]
pub struct U256 {
    /// High 128 bits.
    pub hi: u128,
    /// Low 128 bits.
    pub lo: u128,
}

impl U256 {
    /// The mathematical value of this 256-bit integer.
    pub open spec fn val(self) -> nat {
        (self.hi * limb_base() + self.lo) as nat
    }

    /// Widens a 128-bit value.
    pub fn from_u128(v: u128) -> (r: U256)
        ensures
            r.val() == v,
    {
        U256 { hi: 0, lo: v }
    }

    /// Largest representable 256-bit value plus one, i.e. 2^256.
    pub open spec fn value_bound() -> nat {
        limb_base() * limb_base()
    }

    /// True when the value is zero.
    pub fn is_zero(&self) -> (r: bool)
        ensures
            r <==> self.val() == 0,
    {
        proof {
            if self.hi > 0 {
                assert(self.hi * limb_base() >= limb_base());
            }
        }
        self.hi == 0 && self.lo == 0
    }

    /// Strict numeric comparison.
    pub fn lt(&self, other: &U256) -> (r: bool)
        ensures
            r <==> self.val() < other.val(),
    {
        proof {
            if self.hi < other.hi {
                assert((self.hi + 1) * limb_base() <= other.hi * limb_base());
                assert(self.hi * limb_base() + limb_base() == (self.hi + 1) * limb_base());
            }
            if other.hi < self.hi {
                assert((other.hi + 1) * limb_base() <= self.hi * limb_base());
                assert(other.hi * limb_base() + limb_base() == (other.hi + 1) * limb_base());
            }
        }
        self.hi < other.hi || (self.hi == other.hi && self.lo < other.lo)
    }

    /// Non-strict numeric comparison.
    pub fn le(&self, other: &U256) -> (r: bool)
        ensures
            r <==> self.val() <= other.val(),
    {
        !other.lt(self)
    }

    /// Sum, or `None` when it does not fit in 256 bits.
    pub fn checked_add(&self, other: &U256) -> (r: Option<U256>)
        ensures
            match r {
                Some(s) => s.val() == self.val() + other.val(),
                None => self.val() + other.val() >= U256::value_bound(),
            },
    {
        let mut lo: u128 = 0;
        let mut carry: u128 = 0;
        if self.lo > LIMB_MAX - other.lo {
            lo = (self.lo - (LIMB_MAX - other.lo)) - 1;
            carry = 1;
        } else {
            lo = self.lo + other.lo;
            carry = 0;
        }
        assert(lo + carry * limb_base() == self.lo + other.lo);
        match self.hi.checked_add(other.hi) {
            Some(h) => match h.checked_add(carry) {
                Some(hi) => {
                    proof {
                        assert(hi * limb_base() == self.hi * limb_base() + other.hi * limb_base()
                            + carry * limb_base());
                    }
                    Some(U256 { hi, lo })
                },
                None => {
                    proof {
                        assert(self.hi * limb_base() + other.hi * limb_base() + carry * limb_base()
                            >= limb_base() * limb_base());
                    }
                    None
                },
            },
            None => {
                proof {
                    assert(self.hi * limb_base() + other.hi * limb_base() >= limb_base()
                        * limb_base());
                }
                None
            },
        }
    }

    /// Difference, or `None` when `other` exceeds `self`.
    pub fn checked_sub(&self, other: &U256) -> (r: Option<U256>)
        ensures
            match r {
                Some(s) => {
                    &&& self.val() >= other.val()
                    &&& s.val() == self.val() - other.val()
                },
                None => self.val() < other.val(),
            },
    {
        let mut lo: u128 = 0;
        let mut borrow: u128 = 0;
        if self.lo < other.lo {
            lo = LIMB_MAX - (other.lo - self.lo) + 1;
            borrow = 1;
        } else {
            lo = self.lo - other.lo;
            borrow = 0;
        }
        assert(lo == self.lo + borrow * limb_base() - other.lo);
        if self.hi >= other.hi && self.hi - other.hi >= borrow {
            let hi = self.hi - other.hi - borrow;
            proof {
                assert(hi * limb_base() == self.hi * limb_base() - other.hi * limb_base() - borrow
                    * limb_base());
            }
            Some(U256 { hi, lo })
        } else {
            proof {
                if self.hi < other.hi {
                    assert((self.hi + 1) * limb_base() <= other.hi * limb_base());
                } else {
                    assert(self.hi == other.hi && borrow == 1);
                }
            }
            None
        }
    }

    /// Quotient and remainder of the full 256-bit division, computed by
    /// binary long division over the dividend's bits, most significant
    /// first.
    #[verifier::rlimit(60)]
    pub fn div_rem(&self, d: &U256) -> (qr: (U256, U256))
        requires
            d.val() != 0,
        ensures
            qr.0.val() == self.val() / d.val(),
            qr.1.val() == self.val() % d.val(),
    {
        let ghost n_val: nat = self.val();
        let ghost d_val: nat = d.val();
        proof {
            lemma_pow2_limbs();
            lemma_u256_in_range(*self);
            lemma_u256_in_range(*d);
            lemma_basic_div(n_val as int, pow2(256) as int);
            lemma_div_of0(d_val as int);
            lemma_small_mod(0, d_val);
            lemma_small_mod(n_val, pow2(256));
            lemma2_to64();
        }
        let mut q = U256::from_u128(0);
        let mut r = U256::from_u128(0);
        let mut h: u128 = self.hi;
        let mut l: u128 = self.lo;
        let mut i: usize = 0;
        while i < 256
            invariant
                i <= 256,
                d_val == d.val(),
                d_val != 0,
                d_val < U256::value_bound(),
                n_val < pow2(256),
                q.val() == (n_val / pow2((256 - i) as nat)) / d_val,
                r.val() == (n_val / pow2((256 - i) as nat)) % d_val,
                h * limb_base() + l == (n_val % pow2((256 - i) as nat)) * pow2(i as nat),
            decreases 256 - i,
        {
            let ghost k: nat = (256 - i) as nat;
            proof {
                lemma_div_step(n_val, k, d_val, h, l, q.val(), r.val());
            }
            // Pull the next dividend bit off the top of the register.
            let b: u128 = h / LIMB_TOP_BIT;
            let new_h: u128 = (h % LIMB_TOP_BIT) * 2 + l / LIMB_TOP_BIT;
            let new_l: u128 = (l % LIMB_TOP_BIT) * 2;
            let ghost t: nat = b as nat;
            let ghost p_new: nat = n_val / pow2((k - 1) as nat);
            // Decide whether the doubled remainder plus the new bit reaches
            // the divisor, without ever computing a 257-bit value.
            let u = d.checked_sub(&r).unwrap();
            let mut takes_divisor: bool = false;
            if !r.lt(&u) {
                takes_divisor = true;
            } else if b == 1 {
                let um1 = u.checked_sub(&U256::from_u128(1)).unwrap();
                if !r.lt(&um1) {
                    takes_divisor = true;
                }
            }
            assert(takes_divisor <==> 2 * r.val() + t >= d_val);
            let new_r = if takes_divisor {
                match r.checked_sub(&u) {
                    Some(rr) => rr.checked_add(&U256::from_u128(b)).unwrap(),
                    None => U256::from_u128(0),
                }
            } else {
                let rr = r.checked_add(&r).unwrap();
                rr.checked_add(&U256::from_u128(b)).unwrap()
            };
            let q2 = q.checked_add(&q).unwrap();
            let new_q = if takes_divisor {
                q2.checked_add(&U256::from_u128(1)).unwrap()
            } else {
                q2
            };
            assert(new_q.val() == p_new / d_val);
            assert(new_r.val() == p_new % d_val);
            q = new_q;
            r = new_r;
            h = new_h;
            l = new_l;
            i = i + 1;
        }
        proof {
            assert(pow2(0) == 1);
            assert(n_val / 1 == n_val);
        }
        (q, r)
    }

    /// True when the value fits in 128 bits.
    pub fn fits_u128(&self) -> (r: bool)
        ensures
            r <==> self.val() <= u128::MAX,
    {
        proof {
            if self.hi > 0 {
                assert(self.hi * limb_base() >= limb_base()) by (nonlinear_arith)
                    requires
                        self.hi >= 1,
                ;
            }
        }
        self.hi == 0
    }
}

/// Every two-limb value is below 2^256.
pub(crate) proof fn lemma_u256_in_range(v: U256)
    ensures
        v.val() < U256::value_bound(),
{
    assert(v.hi * limb_base() <= LIMB_MAX * limb_base());
}

/// The powers of two that bound the limbs of a `U256`.
proof fn lemma_pow2_limbs()
    ensures
        pow2(127) == LIMB_TOP_BIT,
        pow2(128) == limb_base(),
        pow2(255) == LIMB_TOP_BIT * limb_base(),
        pow2(256) == limb_base() * limb_base(),
{
    lemma2_to64();
    lemma2_to64_rest();
    lemma_pow2_adds(64, 63);
    lemma_pow2_adds(64, 64);
    lemma_pow2_adds(127, 128);
    lemma_pow2_adds(128, 128);
}

/// One step of binary long division: feeding one more bit `t` of the
/// dividend into a partial quotient `q` and remainder `r`.
proof fn lemma_euclid_step(p: int, d: int, t: int, q: int, r: int)
    requires
        0 <= p,
        0 < d,
        0 <= t <= 1,
        q == p / d,
        r == p % d,
    ensures
        0 <= r < d,
        2 * r + t < d ==> (2 * p + t) / d == 2 * q && (2 * p + t) % d == 2 * r + t,
        2 * r + t >= d ==> (2 * p + t) / d == 2 * q + 1 && (2 * p + t) % d == 2 * r + t - d,
{
    lemma_mod_division_less_than_divisor(p, d);
    lemma_mod_is_mod_recursive(p, d);
    lemma_fundamental_div_mod(p, d);
    lemma_div_pos_is_pos(p, d);
    assert(2 * p + t == (2 * q) * d + (2 * r + t)) by (nonlinear_arith)
        requires
            p == d * q + r,
    ;
    if 2 * r + t < d {
        lemma_fundamental_div_mod_converse(2 * p + t, d, 2 * q, 2 * r + t);
    } else {
        assert(2 * p + t == (2 * q + 1) * d + (2 * r + t - d)) by (nonlinear_arith)
            requires
                p == d * q + r,
        ;
        lemma_fundamental_div_mod_converse(2 * p + t, d, 2 * q + 1, 2 * r + t - d);
    }
}

/// One step of the left-aligned shift register that walks the dividend's
/// bits from the most significant end: with `k` bits still to consume and
/// the register holding the remaining bits of `n` shifted left by
/// `256 - k`, the top register bit is the next dividend bit, and dropping
/// it re-aligns the remaining `k - 1` bits.
proof fn lemma_shift_step(n: nat, k: nat, s: nat)
    requires
        1 <= k <= 256,
        n < pow2(256),
        s == (n % pow2(k)) * pow2((256 - k) as nat),
    ensures
        s / pow2(255) == (n / pow2((k - 1) as nat)) % 2,
        s / pow2(255) <= 1,
        (s % pow2(255)) * 2 == (n % pow2((k - 1) as nat)) * pow2((256 - (k - 1)) as nat),
        n / pow2((k - 1) as nat) == 2 * (n / pow2(k)) + (n / pow2((k - 1) as nat)) % 2,
        n / pow2(k) < pow2((256 - k) as nat),
{
    let i = (256 - k) as nat;
    let c = pow2((k - 1) as nat);
    lemma_pow2_pos((k - 1) as nat);
    lemma_pow2_pos(i);
    lemma_pow2_pos(k);
    lemma_pow2_unfold(k);
    assert(pow2(k) == 2 * c);
    // Split the low k bits of n into the bit at position k-1 and the rest.
    lemma_breakdown(n as int, c as int, 2);
    let t = (n as int / c as int) % 2;
    let m = n as int % c as int;
    assert(n as int % ((c as int) * 2) == (c as int) * t + m);
    lemma_mod_division_less_than_divisor(n as int, c as int);
    lemma_mod_division_less_than_divisor(n as int / c as int, 2);
    lemma_div_pos_is_pos(n as int, c as int);
    assert(n as int % (2 * (c as int)) == n as int % (pow2(k) as int));
    // s == t * pow2(255) + m * pow2(i), with m * pow2(i) < pow2(255).
    lemma_pow2_adds((k - 1) as nat, i);
    assert(c * pow2(i) == pow2(255)) by {
        assert((k - 1) as nat + i == 255);
    }
    assert(s == t * ((c as int) * (pow2(i) as int)) + m * (pow2(i) as int)) by (nonlinear_arith)
        requires
            s == ((c as int) * t + m) * (pow2(i) as int),
    ;
    assert(m * (pow2(i) as int) < (c as int) * (pow2(i) as int)) by (nonlinear_arith)
        requires
            m < c,
            (pow2(i) as int) > 0,
            0 <= m,
    ;
    lemma_mul_nonnegative(m, pow2(i) as int);
    lemma_pow2_pos(255);
    lemma_fundamental_div_mod_converse(s as int, pow2(255) as int, t, m * (pow2(i) as int));
    // Dropping the top bit and shifting left by one re-aligns the rest.
    lemma_pow2_unfold((256 - (k - 1)) as nat);
    assert((s % pow2(255)) * 2 == (m * (pow2(i) as int)) * 2);
    lemma_mul_is_associative(m, pow2(i) as int, 2);
    assert((pow2(i) as int) * 2 == 2 * (pow2(i) as int));
    lemma_mul_is_associative(m, 2, pow2(i) as int);
    assert((s % pow2(255)) * 2 == m * (2 * (pow2(i) as int)));
    assert(pow2((256 - (k - 1)) as nat) == 2 * pow2(i));
    // The next prefix of n appends bit t to the current prefix.
    lemma_div_denominator(n as int, c as int, 2);
    assert(n as int / ((c as int) * 2) == n as int / (pow2(k) as int));
    lemma_fundamental_div_mod(n as int / c as int, 2);
    // The prefix stays below pow2(256 - k).
    lemma_pow2_adds(k, i);
    assert(n < pow2(k) * pow2(i));
    lemma_multiply_divide_lt(n as int, pow2(k) as int, pow2(i) as int);
}


/// Everything one iteration of the long-division loop needs: the next
/// dividend bit read off the top of the register, the re-aligned register,
/// and the folding of that bit into the partial quotient and remainder.
#[verifier::rlimit(100)]
#[verifier::spinoff_prover]
proof fn lemma_div_step(n: nat, k: nat, d: nat, h: u128, l: u128, q: nat, r: nat)
    requires
        1 <= k <= 256,
        n < pow2(256),
        d != 0,
        h * limb_base() + l == (n % pow2(k)) * pow2((256 - k) as nat),
        q == (n / pow2(k)) / d,
        r == (n / pow2(k)) % d,
    ensures
        r < d,
        h / LIMB_TOP_BIT <= 1,
        h / LIMB_TOP_BIT == (n / pow2((k - 1) as nat)) % 2,
        ((h % LIMB_TOP_BIT) * 2 + l / LIMB_TOP_BIT) * limb_base() + (l % LIMB_TOP_BIT) * 2 == (n
            % pow2((k - 1) as nat)) * pow2((256 - (k - 1)) as nat),
        2 * r + h / LIMB_TOP_BIT < d ==> (n / pow2((k - 1) as nat)) / d == 2 * q && (n / pow2((k
            - 1) as nat)) % d == 2 * r + h / LIMB_TOP_BIT,
        2 * r + h / LIMB_TOP_BIT >= d ==> (n / pow2((k - 1) as nat)) / d == 2 * q + 1 && (n / pow2(
            (k - 1) as nat)) % d == 2 * r + h / LIMB_TOP_BIT - d,
        n / pow2((k - 1) as nat) < pow2((256 - (k - 1)) as nat),
        2 * q + 1 < U256::value_bound(),
{
    let s_val: nat = (h * limb_base() + l) as nat;
    let p_old: nat = n / pow2(k);
    let p_new: nat = n / pow2((k - 1) as nat);
    lemma_pow2_pos(k);
    lemma_pow2_pos((k - 1) as nat);
    lemma_pow2_pos((256 - k) as nat);
    lemma_pow2_pos((256 - (k - 1)) as nat);
    lemma_pow2_limbs();
    lemma_shift_step(n, k, s_val);
    // The register value decomposes around its top bit.
    lemma_fundamental_div_mod(h as int, LIMB_TOP_BIT as int);
    lemma_fundamental_div_mod(l as int, LIMB_TOP_BIT as int);
    assert(h == LIMB_TOP_BIT * (h / LIMB_TOP_BIT) + h % LIMB_TOP_BIT);
    assert(h * limb_base() == (LIMB_TOP_BIT * (h / LIMB_TOP_BIT)) * limb_base() + (h % LIMB_TOP_BIT)
        * limb_base());
    assert((LIMB_TOP_BIT * (h / LIMB_TOP_BIT)) * limb_base() == (h / LIMB_TOP_BIT) * (LIMB_TOP_BIT
        * limb_base())) by (nonlinear_arith);
    assert(s_val == (h / LIMB_TOP_BIT) * (LIMB_TOP_BIT * limb_base()) + ((h % LIMB_TOP_BIT)
        * limb_base() + l));
    lemma_fundamental_div_mod_converse(
        s_val as int,
        (LIMB_TOP_BIT * limb_base()) as int,
        (h / LIMB_TOP_BIT) as int,
        ((h % LIMB_TOP_BIT) * limb_base() + l) as int,
    );
    assert(h / LIMB_TOP_BIT == s_val / pow2(255));
    assert(((h % LIMB_TOP_BIT) * 2 + l / LIMB_TOP_BIT) * limb_base() + (l % LIMB_TOP_BIT) * 2 == (
    s_val % pow2(255)) * 2);
    // Fold the bit into the partial quotient and remainder.
    let t: nat = (h / LIMB_TOP_BIT) as nat;
    assert(p_new == 2 * p_old + t);
    lemma_euclid_step(p_old as int, d as int, t as int, q as int, r as int);
    // The doubled quotient still fits in 256 bits.
    lemma_pow2_unfold((256 - (k - 1)) as nat);
    if 256 - k < 255 {
        lemma_pow2_strictly_increases((256 - k) as nat, 255);
    }
    lemma_div_nonincreasing(p_old as int, d as int);
    assert(q <= p_old < pow2((256 - k) as nat) <= pow2(255));
}

/// Snapshot of the two pool balances.

#[derive(Clone, Copy, Debug, PartialEq, Eq, Structural)]
pub struct Reserves {
    /// Balance of asset X.
    pub x: Wad,
    /// Balance of asset Y.
    pub y: Wad,
}

impl Reserves {
    /// Packs the two balances.
    pub fn new(x: Wad, y: Wad) -> (r: Reserves)
        ensures
            r.x == x,
            r.y == y,
    {
        Reserves { x, y }
    }
}

} // verus!
