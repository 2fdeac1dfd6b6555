//! Non-negative finite binary64 numbers, computed on integers.
//!
//! The rule generator has to reproduce double precision arithmetic bit for
//! bit. A [`Double`] holds such a number as a significand and an exponent, and
//! every operation rounds its exact result to the nearest representable
//! number, ties to the even significand, as IEEE 754 prescribes.

use vstd::arithmetic::power2::{
    lemma2_to64, lemma2_to64_rest, lemma_pow2_adds, lemma_pow2_pos,
    lemma_pow2_strictly_increases, lemma_pow2_unfold, pow2,
};
use vstd::prelude::*;

verus! {

/// The number of binary digits of `m`: the least `n` with `m < 2^n`.
pub open spec fn bit_length(m: nat) -> nat
    decreases m,
{
    if m == 0 {
        0
    } else {
        1 + bit_length(m / 2)
    }
}

/// Whether `m * 2^e` is written the way a binary64 number is stored: at most
/// 53 digits, and exactly 53 unless the exponent is the least one.
pub open spec fn canonical(m: nat, e: int) -> bool {
    &&& -1074 <= e <= 971
    &&& m < 0x20_0000_0000_0000
    &&& e > -1074 ==> m >= 0x10_0000_0000_0000
}

/// How many low digits of `m` rounding `m * 2^e` gives up: those beyond the
/// 53rd, and those below the weight `2^-1074`.
pub open spec fn dropped_bits(m: nat, e: int) -> nat {
    let by_width = bit_length(m) - 53;
    let by_range = -1074 - e;
    if by_width >= by_range && by_width >= 0 {
        by_width as nat
    } else if by_range >= 0 {
        by_range as nat
    } else {
        0
    }
}

/// `m / 2^s` rounded to the nearest integer, a tie going to the even one.
pub open spec fn round_half_even(m: nat, s: nat) -> nat {
    if s == 0 {
        m
    } else {
        let q = m / pow2(s);
        let r = m % pow2(s);
        let half = pow2((s - 1) as nat);
        if r > half || (r == half && q % 2 == 1) {
            q + 1
        } else {
            q
        }
    }
}

/// How many digits a significand `q` that is shorter than 53 digits can gain
/// at exponent `e` before the exponent reaches the least one.
pub open spec fn spare_bits(q: nat, e: int) -> nat {
    let room = 53 - bit_length(q);
    let range = e + 1074;
    if room <= range && room >= 0 {
        room as nat
    } else if range >= 0 && room >= 0 {
        range as nat
    } else {
        0
    }
}

/// The binary64 number nearest to `m * 2^e`, as its canonical significand and
/// exponent. A tie goes to the even significand.
pub open spec fn nearest(m: nat, e: int) -> (nat, int) {
    let s = dropped_bits(m, e);
    let q = round_half_even(m, s);
    let f = e + s;
    if q == 0 {
        (0, -1074)
    } else if q == 0x20_0000_0000_0000 {
        (0x10_0000_0000_0000, f + 1)
    } else {
        let t = spare_bits(q, f);
        (q * pow2(t), f - t)
    }
}

/// `m * 2^e` in units of `2^-1074`, for `e >= -1074`.
pub open spec fn scaled(m: nat, e: int) -> nat {
    m * pow2((e + 1074) as nat)
}

/// A finite binary64 number that is not negative.
#[derive(Clone, Copy, Debug, PartialEq, Eq, Structural)]
pub struct Double {
    mant: u64,
    exp: i32,
}

/// One.
pub open spec fn one() -> Double {
    Double::from_parts((0x10_0000_0000_0000, -52))
}

/// The number nearest to a tenth.
pub open spec fn tenth() -> Double {
    Double::from_parts((0x19_9999_9999_999A, -56))
}

/// The number nearest to a twentieth.
pub open spec fn twentieth() -> Double {
    Double::from_parts((0x19_9999_9999_999A, -57))
}

/// The number nearest to six tenths.
pub open spec fn six_tenths() -> Double {
    Double::from_parts((0x13_3333_3333_3333, -53))
}

/// Whether `m * 2^e`, with `m` of 53 digits, is the binary64 number nearest
/// to `p / q`: it is no further from it than half the weight of its last
/// digit.
pub open spec fn nearest_to_ratio(m: nat, e: int, p: nat, q: nat) -> bool
    recommends
        e <= 0,
{
    (2 * m - 1) * q <= 2 * p * pow2((-e) as nat) <= (2 * m + 1) * q
}

/// The constants are the numbers nearest to a tenth, a twentieth and six
/// tenths.
pub proof fn lemma_constants()
    ensures
        nearest_to_ratio(0x19_9999_9999_999A, -56, 1, 10),
        nearest_to_ratio(0x19_9999_9999_999A, -57, 1, 20),
        nearest_to_ratio(0x13_3333_3333_3333, -53, 6, 10),
        nearest_to_ratio(0x10_0000_0020_0000, -83, 1, 0x7FFF_FFFF),
{
    lemma2_to64();
    lemma2_to64_rest();
    lemma_pow2_adds(64, 19);
    assert(pow2(56) == 0x100_0000_0000_0000);
    assert(pow2(57) == 0x200_0000_0000_0000);
    assert(pow2(53) == 0x20_0000_0000_0000);
    assert(pow2(83) == 0x8_0000_0000_0000_0000_0000);
    assert(pow2((-(-56int)) as nat) == pow2(56));
    assert(pow2((-(-57int)) as nat) == pow2(57));
    assert(pow2((-(-53int)) as nat) == pow2(53));
}

pub proof fn lemma_bit_length_bounds(m: nat)
    requires
        m > 0,
    ensures
        bit_length(m) >= 1,
        pow2((bit_length(m) - 1) as nat) <= m < pow2(bit_length(m)),
    decreases m,
{
    lemma2_to64();
    if m == 1 {
        assert(bit_length(1) == 1 + bit_length(0));
    } else {
        lemma_bit_length_bounds(m / 2);
        let n = bit_length(m / 2);
        assert(bit_length(m) == 1 + n);
        lemma_pow2_unfold(n);
        lemma_pow2_unfold((n + 1) as nat);
    }
}

pub proof fn lemma_bit_length_below(m: nat, n: nat)
    requires
        m < pow2(n),
    ensures
        bit_length(m) <= n,
    decreases n,
{
    if m > 0 {
        lemma_bit_length_bounds(m);
        if bit_length(m) > n {
            let k = (bit_length(m) - 1) as nat;
            if k > n {
                lemma_pow2_strictly_increases(n, k);
            }
        }
    }
}

pub proof fn lemma_bit_length_at_least(m: nat, n: nat)
    requires
        m >= pow2(n),
    ensures
        bit_length(m) > n,
{
    lemma_pow2_pos(n);
    lemma_bit_length_bounds(m);
    if bit_length(m) <= n {
        if bit_length(m) < n {
            lemma_pow2_strictly_increases(bit_length(m), n);
        }
    }
}

fn pow2_u128(s: u32) -> (r: u128)
    requires
        s < 128,
    ensures
        r == pow2(s as nat),
{
    let mut r: u128 = 1;
    let mut i: u32 = 0;
    proof {
        lemma2_to64();
    }
    while i < s
        invariant
            i <= s < 128,
            r == pow2(i as nat),
        decreases s - i,
    {
        proof {
            lemma_pow2_unfold((i + 1) as nat);
            if i + 1 < 127 {
                lemma_pow2_strictly_increases((i + 1) as nat, 127);
            }
            lemma2_to64_rest();
            lemma_pow2_adds(64, 63);
        }
        r = r * 2;
        i = i + 1;
    }
    r
}

fn bit_length_u128(m: u128) -> (n: u32)
    ensures
        n == bit_length(m as nat),
        n <= 128,
{
    let mut x: u128 = m;
    let mut n: u32 = 0;
    proof {
        lemma2_to64_rest();
        lemma_pow2_adds(64, 64);
        lemma_bit_length_below(m as nat, 128);
    }
    while x > 0
        invariant
            bit_length(m as nat) == n + bit_length(x as nat),
            bit_length(m as nat) <= 128,
        decreases x,
    {
        x = x / 2;
        n = n + 1;
    }
    n
}


/// Rounding to the nearest integer moves a number by no more than a half,
/// and by a half only towards an even integer.
pub proof fn lemma_round_half_even_is_nearest(m: nat, s: nat)
    requires
        s >= 1,
    ensures
        2 * (round_half_even(m, s) * pow2(s) - m) <= pow2(s),
        2 * (m - round_half_even(m, s) * pow2(s)) <= pow2(s),
        2 * (round_half_even(m, s) * pow2(s) - m) == pow2(s) || 2 * (m - round_half_even(m, s)
            * pow2(s)) == pow2(s) ==> round_half_even(m, s) % 2 == 0,
{
    let d = pow2(s);
    let half = pow2((s - 1) as nat);
    let q0 = m / d;
    let rem = m % d;
    let q = round_half_even(m, s);
    lemma_pow2_pos(s);
    lemma_pow2_unfold(s);
    vstd::arithmetic::div_mod::lemma_fundamental_div_mod(m as int, d as int);
    vstd::arithmetic::div_mod::lemma_mod_bound(m as int, d as int);
    assert(d == 2 * half);
    if q == q0 {
        assert(q * d - m == -rem) by (nonlinear_arith)
            requires
                q == q0,
                d * q0 + rem == m,
        ;
    } else {
        assert(q * d - m == d - rem) by (nonlinear_arith)
            requires
                q == q0 + 1,
                d * q0 + rem == m,
        ;
    }
}

proof fn lemma_round_half_even_bounds(m: nat, s: nat)
    requires
        s >= 1,
    ensures
        m / pow2(s) <= round_half_even(m, s) <= m / pow2(s) + 1,
        m < pow2(s + 53) ==> round_half_even(m, s) <= 0x20_0000_0000_0000,
        m >= pow2(s + 52) ==> round_half_even(m, s) >= 0x10_0000_0000_0000,
{
    lemma_pow2_pos(s);
    lemma2_to64();
    lemma2_to64_rest();
    let d = pow2(s);
    if m < pow2(s + 53) {
        lemma_pow2_adds(s, 53);
        assert(m / d < 0x20_0000_0000_0000) by (nonlinear_arith)
            requires
                m < d * 0x20_0000_0000_0000,
                d > 0,
        ;
    }
    if m >= pow2(s + 52) {
        lemma_pow2_adds(s, 52);
        assert(m / d >= 0x10_0000_0000_0000) by (nonlinear_arith)
            requires
                m >= d * 0x10_0000_0000_0000,
                d > 0,
        ;
    }
}

/// Rounds `m * 2^e` to the nearest binary64 number.
fn pack(m: u128, e: i32) -> (d: Double)
    requires
        m < 0x100_0000_0000_0000_0000_0000_0000_0000,
        -4000 <= e <= 1000,
        nearest(m as nat, e as int).1 <= 971,
    ensures
        d.wf(),
        (d.mant as nat, d.exp as int) == nearest(m as nat, e as int),
{
    proof {
        lemma2_to64();
        lemma2_to64_rest();
        lemma_pow2_adds(64, 56);
    }
    if m == 0 {
        assert(bit_length(0) == 0);
        assert(round_half_even(0, dropped_bits(0, e as int)) == 0) by {
            let s = dropped_bits(0, e as int);
            if s > 0 {
                lemma_pow2_pos(s);
                lemma_pow2_pos((s - 1) as nat);
                vstd::arithmetic::div_mod::lemma_small_mod(0, pow2(s));
                vstd::arithmetic::div_mod::lemma_basic_div(0, pow2(s) as int);
            }
        }
        return Double { mant: 0, exp: -1074 };
    }
    let len: u32 = bit_length_u128(m);
    proof {
        lemma_bit_length_bounds(m as nat);
        lemma_bit_length_below(m as nat, 120);
    }
    let by_width: i32 = len as i32 - 53;
    let by_range: i32 = -1074 - e;
    let s: i32 = if by_width >= by_range && by_width >= 0 {
        by_width
    } else if by_range >= 0 {
        by_range
    } else {
        0
    };
    assert(s as nat == dropped_bits(m as nat, e as int));
    let q: u128 = if s == 0 {
        m
    } else if s > 121 {
        proof {
            let sn = s as nat;
            lemma_pow2_strictly_increases(120, (sn - 1) as nat);
            lemma_pow2_unfold(sn);
            vstd::arithmetic::div_mod::lemma_small_mod(m as nat, pow2(sn));
            vstd::arithmetic::div_mod::lemma_basic_div(m as int, pow2(sn) as int);
        }
        0
    } else {
        let d: u128 = pow2_u128(s as u32);
        let half: u128 = pow2_u128((s - 1) as u32);
        proof {
            lemma_pow2_pos(s as nat);
            lemma_round_half_even_bounds(m as nat, s as nat);
        }
        let q0: u128 = m / d;
        let r: u128 = m % d;
        if r > half || (r == half && q0 % 2 == 1) {
            q0 + 1
        } else {
            q0
        }
    };
    assert(q as nat == round_half_even(m as nat, s as nat));
    let f: i32 = e + s;
    proof {
        // the rounded significand has at most 53 digits, or is 2^53
        if s > 0 && s <= 121 {
            lemma_round_half_even_bounds(m as nat, s as nat);
            if len as int - 53 <= s {
                if (len as nat) < (s + 53) as nat {
                    lemma_pow2_strictly_increases(len as nat, (s + 53) as nat);
                }
            }
        }
    }
    assert(q <= 0x20_0000_0000_0000);
    if q == 0 {
        return Double { mant: 0, exp: -1074 };
    }
    if q == 0x20_0000_0000_0000 {
        proof {
            // only a carry out of a full significand gets here
            assert(s > 0);
            if s == by_range && by_width < by_range {
                lemma_round_half_even_bounds(m as nat, s as nat);
                lemma_pow2_strictly_increases(len as nat, (s + 53) as nat);
                lemma_pow2_adds(s as nat, 52);
                lemma_pow2_adds(s as nat, 53);
                if (len as nat) < (s + 52) as nat {
                    lemma_pow2_strictly_increases(len as nat, (s + 52) as nat);
                }
                let d = pow2(s as nat);
                lemma_pow2_pos(s as nat);
                assert((m as nat) / d < 0x10_0000_0000_0000) by (nonlinear_arith)
                    requires
                        (m as nat) < d * 0x10_0000_0000_0000,
                        d > 0,
                ;
            }
        }
        return Double { mant: 0x10_0000_0000_0000, exp: f + 1 };
    }
    let qlen: u32 = bit_length_u128(q);
    proof {
        lemma_bit_length_bounds(q as nat);
        lemma_bit_length_below(q as nat, 53);
    }
    let room: i32 = 53 - qlen as i32;
    let range: i32 = f + 1074;
    let t: i32 = if room <= range && room >= 0 {
        room
    } else if range >= 0 && room >= 0 {
        range
    } else {
        0
    };
    assert(t as nat == spare_bits(q as nat, f as int));
    proof {
        if by_width == s && s > 0 {
            // a full significand was kept: nothing to widen
            lemma_round_half_even_bounds(m as nat, s as nat);
            lemma_bit_length_at_least(q as nat, 52);
        }
        if s == 0 && by_width == 0 {
            lemma_bit_length_at_least(q as nat, 52);
        }
        assert(0 <= t <= 52);
        lemma_pow2_adds(qlen as nat, t as nat);
        lemma_pow2_pos(t as nat);
        lemma_pow2_strictly_increases(t as nat, 53);
        if qlen + t < 53 {
            lemma_pow2_strictly_increases((qlen + t) as nat, 53);
        }
        assert((q as nat) * pow2(t as nat) < pow2(qlen as nat) * pow2(t as nat))
            by (nonlinear_arith)
            requires
                (q as nat) < pow2(qlen as nat),
                pow2(t as nat) > 0,
        ;
        if f - t > -1074 {
            assert(t == room);
            lemma_pow2_adds((qlen - 1) as nat, t as nat);
            assert((q as nat) * pow2(t as nat) >= pow2((qlen - 1) as nat) * pow2(t as nat))
                by (nonlinear_arith)
                requires
                    (q as nat) >= pow2((qlen - 1) as nat),
                    pow2(t as nat) > 0,
            ;
        }
    }
    let w: u128 = pow2_u128(t as u32);
    let mant: u128 = q * w;
    Double { mant: mant as u64, exp: f - t }
}

impl Double {
    /// The significand.
    pub closed spec fn mant(self) -> nat {
        self.mant as nat
    }

    /// The exponent.
    pub closed spec fn exp(self) -> int {
        self.exp as int
    }

    /// The number with the given significand and exponent.
    pub closed spec fn from_parts(parts: (nat, int)) -> Double {
        Double { mant: parts.0 as u64, exp: parts.1 as i32 }
    }

    /// The number is `mant() * 2^exp()`, written canonically.
    pub open spec fn wf(self) -> bool {
        canonical(self.mant(), self.exp())
    }

    /// The number in units of `2^-1074`.
    pub open spec fn units(self) -> nat {
        scaled(self.mant(), self.exp())
    }

    /// The bit pattern that stores the number.
    pub open spec fn bits(self) -> nat {
        ((self.exp() + 1074) * 0x10_0000_0000_0000 + self.mant()) as nat
    }

    /// The number `v`, for `v` below `2^53`.
    pub open spec fn of_nat(v: nat) -> Double {
        Double::from_parts(nearest(v, 0))
    }

    /// The product of two numbers, rounded.
    pub open spec fn times(self, rhs: Double) -> Double {
        Double::from_parts(nearest(self.mant() * rhs.mant(), self.exp() + rhs.exp()))
    }

    /// The sum of two numbers, rounded.
    pub open spec fn plus(self, rhs: Double) -> Double {
        let e = if self.exp() <= rhs.exp() {
            self.exp()
        } else {
            rhs.exp()
        };
        Double::from_parts(
            nearest(
                self.mant() * pow2((self.exp() - e) as nat) + rhs.mant() * pow2(
                    (rhs.exp() - e) as nat,
                ),
                e,
            ),
        )
    }

    /// The difference of two numbers, rounded, where `rhs` is not the
    /// greater.
    pub open spec fn minus(self, rhs: Double) -> Double {
        Double::from_parts(
            nearest(
                (self.mant() * pow2((self.exp() - rhs.exp()) as nat) - rhs.mant()) as nat,
                rhs.exp(),
            ),
        )
    }

    /// The integer part of the number.
    pub open spec fn integer_part(self) -> nat {
        if self.exp() >= 0 {
            self.mant() * pow2(self.exp() as nat)
        } else {
            self.mant() / pow2((-self.exp()) as nat)
        }
    }

    /// The parts of the number that canonical parts make.
    pub proof fn lemma_from_parts(parts: (nat, int))
        requires
            canonical(parts.0, parts.1),
        ensures
            Double::from_parts(parts).wf(),
            Double::from_parts(parts).mant() == parts.0,
            Double::from_parts(parts).exp() == parts.1,
    {
    }

    /// The number `mant * 2^exp`, given canonically.
    pub fn from_canonical(mant: u64, exp: i32) -> (d: Double)
        requires
            canonical(mant as nat, exp as int),
        ensures
            d.wf(),
            d == Double::from_parts((mant as nat, exp as int)),
            d.mant() == mant,
            d.exp() == exp,
    {
        Double { mant, exp }
    }

    /// Zero.
    pub fn zero() -> (d: Double)
        ensures
            d.wf(),
            d == Double::from_parts((0, -1074)),
            d.mant() == 0,
            d.exp() == -1074,
    {
        Double { mant: 0, exp: -1074 }
    }

    /// One.
    pub fn one() -> (d: Double)
        ensures
            d.wf(),
            d == one(),
            d.mant() == 0x10_0000_0000_0000,
            d.exp() == -52,
    {
        Double { mant: 0x10_0000_0000_0000, exp: -52 }
    }

    /// The number nearest to a tenth.
    pub fn tenth() -> (d: Double)
        ensures
            d == tenth(),
            d.wf(),
    {
        Double { mant: 0x19_9999_9999_999A, exp: -56 }
    }

    /// The number nearest to a twentieth.
    pub fn twentieth() -> (d: Double)
        ensures
            d == twentieth(),
            d.wf(),
    {
        Double { mant: 0x19_9999_9999_999A, exp: -57 }
    }

    /// The number nearest to six tenths.
    pub fn six_tenths() -> (d: Double)
        ensures
            d == six_tenths(),
            d.wf(),
    {
        Double { mant: 0x13_3333_3333_3333, exp: -53 }
    }

    /// The number stored by the bit pattern `bits`, if it is finite and not
    /// negative.
    pub fn from_bits(bits: u64) -> (r: Option<Double>)
        ensures
            r is Some <==> bits < 0x7FF0_0000_0000_0000,
            r matches Some(d) ==> d.wf() && d.bits() == bits,
    {
        if bits >= 0x7FF0_0000_0000_0000 {
            return None;
        }
        let hi: u64 = bits / 0x10_0000_0000_0000;
        let lo: u64 = bits % 0x10_0000_0000_0000;
        if hi == 0 {
            Some(Double { mant: lo, exp: -1074 })
        } else {
            Some(Double { mant: 0x10_0000_0000_0000 + lo, exp: hi as i32 - 1075 })
        }
    }

    /// The bit pattern that stores the number.
    pub fn to_bits(self) -> (bits: u64)
        requires
            self.wf(),
        ensures
            bits == self.bits(),
            bits < 0x7FF0_0000_0000_0000,
    {
        let steps: u64 = (self.exp + 1074) as u64;
        steps * 0x10_0000_0000_0000 + self.mant
    }

    /// The number `v`.
    pub fn from_u32(v: u32) -> (d: Double)
        ensures
            d.wf(),
            d == Double::of_nat(v as nat),
            d.units() == scaled(v as nat, 0),
            v > 0 ==> -52 <= d.exp() <= -21,
    {
        proof {
            lemma2_to64();
            lemma_bit_length_below(v as nat, 32);
            lemma_nearest_finite(v as nat, 0);
        }
        let d = pack(v as u128, 0);
        proof {
            lemma_nearest_exact(v as nat, 0);
            if v > 0 {
                lemma_bit_length_bounds(v as nat);
            }
        }
        d
    }

    /// The product, rounded to the nearest number.
    pub fn mul(self, rhs: Double) -> (d: Double)
        requires
            self.wf(),
            rhs.wf(),
            self.exp() + rhs.exp() <= 917,
        ensures
            d.wf(),
            d == self.times(rhs),
            d.exp() <= self.exp() + rhs.exp() + 54 || d.exp() <= -1073,
    {
        proof {
            lemma2_to64();
            lemma2_to64_rest();
            lemma_pow2_adds(53, 53);
            lemma_pow2_adds(64, 42);
            lemma_pow2_adds(64, 56);
            assert((self.mant as nat) * (rhs.mant as nat) < pow2(53) * pow2(53))
                by (nonlinear_arith)
                requires
                    (self.mant as nat) < pow2(53),
                    (rhs.mant as nat) < pow2(53),
            ;
            lemma_bit_length_below((self.mant as nat) * (rhs.mant as nat), 106);
            lemma_nearest_finite(
                (self.mant as nat) * (rhs.mant as nat),
                (self.exp + rhs.exp) as int,
            );
        }
        let m: u128 = (self.mant as u128) * (rhs.mant as u128);
        let d = pack(m, self.exp + rhs.exp);
        proof {
            lemma_nearest_exponent(m as nat, (self.exp + rhs.exp) as int);
            assert(dropped_bits(m as nat, (self.exp + rhs.exp) as int) <= 53
                || dropped_bits(m as nat, (self.exp + rhs.exp) as int) == -1074 - (self.exp
                + rhs.exp));
        }
        d
    }

    /// The sum, rounded to the nearest number.
    pub fn add(self, rhs: Double) -> (d: Double)
        requires
            self.wf(),
            rhs.wf(),
            self.exp() <= 960,
            rhs.exp() <= 960,
        ensures
            d.wf(),
            d == self.plus(rhs),
            d.exp() <= self.exp() + 2 || d.exp() <= rhs.exp() + 2,
    {
        if self.exp >= rhs.exp {
            let d = Self::add_ordered(self, rhs);
            proof {
                assert(pow2(0) == 1) by {
                    lemma2_to64();
                }
                assert(rhs.mant() * pow2(0) == rhs.mant()) by (nonlinear_arith)
                    requires
                        pow2(0) == 1,
                ;
            }
            d
        } else {
            let d = Self::add_ordered(rhs, self);
            proof {
                assert(pow2(0) == 1) by {
                    lemma2_to64();
                }
                assert(self.mant() * pow2(0) == self.mant()) by (nonlinear_arith)
                    requires
                        pow2(0) == 1,
                ;
            }
            d
        }
    }

    fn add_ordered(hi: Double, lo: Double) -> (d: Double)
        requires
            hi.wf(),
            lo.wf(),
            hi.exp() <= 960,
            hi.exp() >= lo.exp(),
        ensures
            d.wf(),
            d.mant() == nearest(
                hi.mant() * pow2((hi.exp() - lo.exp()) as nat) + lo.mant(),
                lo.exp(),
            ).0,
            d.exp() == nearest(
                hi.mant() * pow2((hi.exp() - lo.exp()) as nat) + lo.mant(),
                lo.exp(),
            ).1,
            d.exp() <= hi.exp() + 2,
    {
        let gap: i32 = hi.exp - lo.exp;
        if gap > 64 {
            proof {
                lemma_absorb(hi.mant(), lo.mant(), gap as nat, lo.exp());
            }
            return hi;
        }
        proof {
            lemma2_to64();
            lemma2_to64_rest();
            lemma_pow2_adds(64, 53);
            lemma_pow2_adds(64, 54);
            lemma_pow2_adds(64, 56);
            if gap < 64 {
                lemma_pow2_strictly_increases(gap as nat, 64);
            }
            lemma_pow2_pos(gap as nat);
            lemma_pow2_adds(gap as nat, 53);
            assert(hi.mant() * pow2(gap as nat) < pow2((gap + 53) as nat)) by (nonlinear_arith)
                requires
                    hi.mant() < pow2(53),
                    pow2(gap as nat) > 0,
                    pow2((gap + 53) as nat) == pow2(gap as nat) * pow2(53),
            ;
            if gap + 53 < 117 {
                lemma_pow2_strictly_increases((gap + 53) as nat, 117);
            }
            lemma_pow2_unfold((gap + 54) as nat);
            assert(lo.mant() < pow2((gap + 53) as nat)) by {
                if gap > 0 {
                    lemma_pow2_strictly_increases(53, (gap + 53) as nat);
                }
            }
            lemma_bit_length_below(
                hi.mant() * pow2(gap as nat) + lo.mant(),
                (gap + 54) as nat,
            );
            lemma_nearest_finite(hi.mant() * pow2(gap as nat) + lo.mant(), lo.exp());
        }
        let w: u128 = pow2_u128(gap as u32);
        let m: u128 = (hi.mant as u128) * w + lo.mant as u128;
        let d = pack(m, lo.exp);
        proof {
            lemma_nearest_exponent(m as nat, lo.exp as int);
        }
        d
    }

    /// The difference, rounded to the nearest number.
    pub fn sub(self, rhs: Double) -> (d: Double)
        requires
            self.wf(),
            rhs.wf(),
            rhs.units() <= self.units(),
        ensures
            d.wf(),
            d == self.minus(rhs),
            d.exp() <= self.exp(),
    {
        proof {
            lemma2_to64();
            lemma2_to64_rest();
            lemma_order(self.mant(), self.exp(), rhs.mant(), rhs.exp());
        }
        let gap: i32 = self.exp - rhs.exp;
        assert(gap >= 0);
        if gap > 64 {
            proof {
                lemma_absorb_difference(self.mant(), rhs.mant(), gap as nat, rhs.exp());
            }
            return self;
        }
        proof {
            lemma_pow2_adds(64, 53);
            lemma_pow2_adds(64, 56);
            if gap < 64 {
                lemma_pow2_strictly_increases(gap as nat, 64);
            }
            lemma_pow2_pos(gap as nat);
            lemma_pow2_adds(gap as nat, 53);
            assert(self.mant() * pow2(gap as nat) < pow2((gap + 53) as nat)) by (nonlinear_arith)
                requires
                    self.mant() < pow2(53),
                    pow2(gap as nat) > 0,
                    pow2((gap + 53) as nat) == pow2(gap as nat) * pow2(53),
            ;
            if gap + 53 < 117 {
                lemma_pow2_strictly_increases((gap + 53) as nat, 117);
            }
            if gap > 0 {
                lemma_pow2_unfold(gap as nat);
                assert(self.mant() * pow2(gap as nat) >= rhs.mant()) by (nonlinear_arith)
                    requires
                        self.mant() >= 0x10_0000_0000_0000,
                        rhs.mant() < 0x20_0000_0000_0000,
                        pow2(gap as nat) >= 2,
                ;
            } else {
                assert(self.mant() * pow2(0) == self.mant()) by (nonlinear_arith)
                    requires
                        pow2(0) == 1,
                ;
            }
            assert((self.mant() * pow2(gap as nat) - rhs.mant()) as nat <= 0x1F_FFFF_FFFF_FFFF
                * pow2(gap as nat)) by (nonlinear_arith)
                requires
                    self.mant() <= 0x1F_FFFF_FFFF_FFFF,
                    pow2(gap as nat) > 0,
                    self.mant() * pow2(gap as nat) >= rhs.mant(),
            ;
            lemma_nearest_capped(
                (self.mant() * pow2(gap as nat) - rhs.mant()) as nat,
                rhs.exp(),
                (gap + 53) as nat,
            );
        }
        let w: u128 = pow2_u128(gap as u32);
        let m: u128 = (self.mant as u128) * w - rhs.mant as u128;
        pack(m, rhs.exp)
    }

    /// Whether the number is less than `rhs`.
    pub fn lt(self, rhs: Double) -> (b: bool)
        requires
            self.wf(),
            rhs.wf(),
        ensures
            b <==> self.units() < rhs.units(),
            b <==> self.bits() < rhs.bits(),
    {
        proof {
            lemma_order(self.mant(), self.exp(), rhs.mant(), rhs.exp());
            lemma_order(rhs.mant(), rhs.exp(), self.mant(), self.exp());
        }
        self.exp < rhs.exp || (self.exp == rhs.exp && self.mant < rhs.mant)
    }

    /// The integer part of the number, or the largest `u32` where that is
    /// less.
    pub fn floor_u32(self) -> (v: u32)
        requires
            self.wf(),
        ensures
            v == if self.integer_part() <= u32::MAX { self.integer_part() } else { u32::MAX as nat },
    {
        proof {
            lemma2_to64();
            lemma2_to64_rest();
        }
        if self.mant == 0 {
            proof {
                if self.exp() < 0 {
                    lemma_pow2_pos((-self.exp()) as nat);
                    vstd::arithmetic::div_mod::lemma_basic_div(0, pow2((-self.exp()) as nat) as int);
                }
                assert(self.integer_part() == 0) by (nonlinear_arith)
                    requires
                        self.mant() == 0,
                        self.integer_part() == if self.exp() >= 0 {
                            self.mant() * pow2(self.exp() as nat)
                        } else {
                            self.mant() / pow2((-self.exp()) as nat)
                        },
                        self.exp() < 0 ==> 0nat / pow2((-self.exp()) as nat) == 0,
                ;
            }
            return 0;
        }
        if self.exp >= 0 {
            proof {
                lemma_pow2_pos(self.exp() as nat);
                assert(self.mant() * pow2(self.exp() as nat) >= self.mant()) by (nonlinear_arith)
                    requires
                        pow2(self.exp() as nat) > 0,
                ;
            }
            return u32::MAX;
        }
        let k: u32 = (-self.exp) as u32;
        if k >= 64 {
            proof {
                if k > 64 {
                    lemma_pow2_strictly_increases(64, k as nat);
                }
                vstd::arithmetic::div_mod::lemma_basic_div(self.mant() as int, pow2(k as nat) as int);
            }
            return 0;
        }
        let d: u128 = pow2_u128(k);
        proof {
            lemma_pow2_pos(k as nat);
        }
        let t: u128 = (self.mant as u128) / d;
        if t > u32::MAX as u128 {
            u32::MAX
        } else {
            t as u32
        }
    }
}

/// A number that fits a significand and lies in the normal range is kept as
/// it is: only its digits move up.
pub proof fn lemma_nearest_exact(m: nat, e: int)
    requires
        m < 0x20_0000_0000_0000,
        -1074 <= e,
    ensures
        scaled(nearest(m, e).0, nearest(m, e).1) == scaled(m, e),
        nearest(m, e).1 <= e,
        m > 0 ==> nearest(m, e).1 >= e - (53 - bit_length(m)),
{
    lemma2_to64();
    lemma2_to64_rest();
    lemma_bit_length_below(m, 53);
    assert(dropped_bits(m, e) == 0);
    if m > 0 {
        let t = spare_bits(m, e);
        lemma_pow2_adds(t, (e - t + 1074) as nat);
        assert(m * pow2(t) * pow2((e - t + 1074) as nat) == m * (pow2(t) * pow2(
            (e - t + 1074) as nat,
        ))) by (nonlinear_arith);
    } else {
        assert(scaled(0, e) == 0) by (nonlinear_arith)
            requires
                scaled(0, e) == 0 * pow2((e + 1074) as nat),
        ;
        assert(scaled(0, -1074) == 0) by (nonlinear_arith)
            requires
                scaled(0, -1074) == 0 * pow2(0),
        ;
    }
}

/// Rounding raises the exponent by no more than the digits it drops, and one.
pub proof fn lemma_nearest_exponent(m: nat, e: int)
    ensures
        nearest(m, e).1 <= e + dropped_bits(m, e) + 1,
{
}

/// Canonical numbers are ordered as their exponents and then their
/// significands are, and so as their bit patterns.
pub proof fn lemma_order(m1: nat, e1: int, m2: nat, e2: int)
    requires
        canonical(m1, e1),
        canonical(m2, e2),
    ensures
        (e1 < e2 || (e1 == e2 && m1 < m2)) ==> scaled(m1, e1) < scaled(m2, e2),
        (e1 == e2 && m1 == m2) ==> scaled(m1, e1) == scaled(m2, e2),
        (e1 < e2 || (e1 == e2 && m1 < m2)) <==> (e1 + 1074) * 0x10_0000_0000_0000 + m1 < (e2
            + 1074) * 0x10_0000_0000_0000 + m2,
{
    lemma2_to64();
    lemma2_to64_rest();
    let a = pow2((e1 + 1074) as nat);
    let b = pow2((e2 + 1074) as nat);
    lemma_pow2_pos((e1 + 1074) as nat);
    if e1 < e2 {
        lemma_pow2_adds((e1 + 1074) as nat, (e2 - e1) as nat);
        lemma_pow2_pos((e2 - e1) as nat);
        lemma_pow2_unfold((e2 - e1) as nat);
        let g = pow2((e2 - e1) as nat);
        assert(g >= 2);
        assert(m1 * a < m2 * (a * g)) by (nonlinear_arith)
            requires
                m1 < 0x20_0000_0000_0000,
                m2 >= 0x10_0000_0000_0000,
                g >= 2,
                a > 0,
        ;
        assert((e1 + 1074) * 0x10_0000_0000_0000 + m1 < (e2 + 1074) * 0x10_0000_0000_0000 + m2);
    } else if e1 == e2 {
        if m1 < m2 {
            assert(m1 * a < m2 * a) by (nonlinear_arith)
                requires
                    m1 < m2,
                    a > 0,
            ;
        }
    } else {
        assert((e1 + 1074) * 0x10_0000_0000_0000 + m1 >= (e2 + 1074) * 0x10_0000_0000_0000 + m2);
    }
}

/// Rounding a number of at least 53 digits, above the subnormal range, keeps
/// 53 digits and moves the number by no more than the weight of the last
/// digit kept.
pub proof fn lemma_nearest_wide(m: nat, e: int)
    requires
        m >= 0x10_0000_0000_0000,
        e + bit_length(m) - 53 >= -1074,
    ensures
        0x10_0000_0000_0000 <= nearest(m, e).0 < 0x20_0000_0000_0000,
        e + bit_length(m) - 53 <= nearest(m, e).1 <= e + bit_length(m) - 52,
        nearest(m, e).0 * pow2((nearest(m, e).1 - e) as nat) <= m + pow2(
            (bit_length(m) - 53) as nat,
        ),
        m <= nearest(m, e).0 * pow2((nearest(m, e).1 - e) as nat) + pow2(
            (bit_length(m) - 53) as nat,
        ),
{
    lemma2_to64();
    lemma2_to64_rest();
    lemma_bit_length_at_least(m, 52);
    lemma_bit_length_bounds(m);
    let len = bit_length(m);
    let s = (len - 53) as nat;
    assert(dropped_bits(m, e) == s);
    let q = round_half_even(m, s);
    let d = pow2(s);
    lemma_pow2_pos(s);
    if s == 0 {
        assert(q == m);
        assert(bit_length(q) == 53);
        assert(spare_bits(q, e) == 0);
        assert(m * pow2(0) == m) by (nonlinear_arith)
            requires
                pow2(0) == 1,
        ;
    } else {
        lemma_round_half_even_bounds(m, s);
        assert(pow2(s + 53) == pow2(len));
        assert(pow2(s + 52) == pow2((len - 1) as nat));
        vstd::arithmetic::div_mod::lemma_fundamental_div_mod(m as int, d as int);
        let q0 = m / d;
        let r = m % d;
        vstd::arithmetic::div_mod::lemma_mod_bound(m as int, d as int);
        assert(d * q0 + r == m);
        assert(q * d <= m + d) by (nonlinear_arith)
            requires
                q <= q0 + 1,
                d * q0 + r == m,
                r >= 0,
        ;
        assert(m <= q * d + d) by (nonlinear_arith)
            requires
                q >= q0,
                d * q0 + r == m,
                r < d,
        ;
        if q == 0x20_0000_0000_0000 {
            lemma_pow2_unfold(s + 1);
            assert(0x10_0000_0000_0000 * pow2(s + 1) == q * d) by (nonlinear_arith)
                requires
                    pow2(s + 1) == 2 * d,
                    q == 0x20_0000_0000_0000,
            ;
        } else {
            lemma_bit_length_at_least(q, 52);
            lemma_bit_length_below(q, 53);
            assert(spare_bits(q, e + s) == 0);
            assert(q * pow2(0) == q) by (nonlinear_arith)
                requires
                    pow2(0) == 1,
            ;
        }
    }
}

/// The parts of a positive integer below `2^53` as a number: its digits
/// moved up to fill the significand.
pub proof fn lemma_of_nat(v: nat)
    requires
        0 < v < 0x20_0000_0000_0000,
    ensures
        Double::of_nat(v).wf(),
        Double::of_nat(v).mant() == v * pow2((53 - bit_length(v)) as nat),
        Double::of_nat(v).exp() == bit_length(v) - 53,
        1 <= bit_length(v) <= 53,
{
    lemma2_to64();
    lemma2_to64_rest();
    lemma_bit_length_below(v, 53);
    lemma_bit_length_bounds(v);
    let len = bit_length(v);
    let t = (53 - len) as nat;
    assert(dropped_bits(v, 0) == 0);
    assert(spare_bits(v, 0) == t);
    assert(nearest(v, 0) == (v * pow2(t), -(t as int)));
    lemma_pow2_adds(len, t);
    lemma_pow2_adds((len - 1) as nat, t);
    lemma_pow2_pos(t);
    assert(v * pow2(t) < pow2(len) * pow2(t)) by (nonlinear_arith)
        requires
            v < pow2(len),
            pow2(t) > 0,
    ;
    assert(v * pow2(t) >= pow2((len - 1) as nat) * pow2(t)) by (nonlinear_arith)
        requires
            v >= pow2((len - 1) as nat),
            pow2(t) > 0,
    ;
    Double::lemma_from_parts(nearest(v, 0));
}

/// Zero stays zero, whatever its exponent.
pub proof fn lemma_nearest_zero(e: int)
    ensures
        nearest(0, e) == (0nat, -1074int),
{
    assert(bit_length(0) == 0);
    let s = dropped_bits(0, e);
    if s > 0 {
        lemma_pow2_pos(s);
        lemma_pow2_pos((s - 1) as nat);
        vstd::arithmetic::div_mod::lemma_small_mod(0, pow2(s));
        vstd::arithmetic::div_mod::lemma_basic_div(0, pow2(s) as int);
    }
}

/// A number that is at most the largest significand `n - 53` places up
/// does not get past the exponent `e + n - 53`: there is nothing to carry.
pub proof fn lemma_nearest_capped(m: nat, e: int, n: nat)
    requires
        e >= -1074,
        n >= 53,
        m <= 0x1F_FFFF_FFFF_FFFF * pow2((n - 53) as nat),
    ensures
        nearest(m, e).1 <= e + n - 53,
{
    lemma2_to64();
    lemma2_to64_rest();
    let w = pow2((n - 53) as nat);
    lemma_pow2_pos((n - 53) as nat);
    lemma_pow2_adds((n - 53) as nat, 53);
    assert(m < pow2(n)) by (nonlinear_arith)
        requires
            m <= 0x1F_FFFF_FFFF_FFFF * w,
            pow2(n) == w * 0x20_0000_0000_0000,
            w > 0,
    ;
    lemma_bit_length_below(m, n);
    let s = dropped_bits(m, e);
    let q = round_half_even(m, s);
    if q == 0x20_0000_0000_0000 && s >= 1 && bit_length(m) == n {
        lemma_carry_needs_room(m, s);
        lemma_pow2_unfold(s);
    }
}

/// A number below `2^1023` rounds to a finite one.
pub proof fn lemma_nearest_finite(m: nat, e: int)
    requires
        bit_length(m) + e <= 1023,
    ensures
        nearest(m, e).1 <= 971,
{
    let s = dropped_bits(m, e);
    let q = round_half_even(m, s);
    let f = e + s;
    if s == 0 {
        assert(q == m);
        assert(bit_length(m) <= 53);
        if m > 0 {
            lemma2_to64_rest();
            lemma_bit_length_bounds(m);
            if bit_length(m) < 53 {
                lemma_pow2_strictly_increases(bit_length(m), 53);
            }
        }
        if q != 0 && q != 0x20_0000_0000_0000 {
            let t = spare_bits(q, f);
            if f + 1074 >= 53 - bit_length(q) {
                assert(t == 53 - bit_length(q));
            }
        }
    } else if s == bit_length(m) - 53 {
        assert(f <= 970);
    } else {
        assert(f == -1074);
    }
}

/// Rounding `m` off by `s` digits carries into a new digit only where `m` is
/// within half a unit of the next power of two.
proof fn lemma_carry_needs_room(m: nat, s: nat)
    requires
        s >= 1,
        m < pow2(s + 53),
        round_half_even(m, s) == 0x20_0000_0000_0000,
    ensures
        m + pow2((s - 1) as nat) >= pow2(s + 53),
{
    lemma2_to64();
    lemma2_to64_rest();
    let d = pow2(s);
    let half = pow2((s - 1) as nat);
    lemma_pow2_pos(s);
    lemma_pow2_unfold(s);
    lemma_pow2_adds(s, 53);
    vstd::arithmetic::div_mod::lemma_fundamental_div_mod(m as int, d as int);
    vstd::arithmetic::div_mod::lemma_mod_bound(m as int, d as int);
    let q0 = m / d;
    let r = m % d;
    assert(q0 < 0x20_0000_0000_0000) by (nonlinear_arith)
        requires
            m < d * 0x20_0000_0000_0000,
            d * q0 + r == m,
            r >= 0,
            d > 0,
    ;
    assert(q0 == 0x1F_FFFF_FFFF_FFFF);
    assert(r >= half);
    assert(m + half >= d * 0x20_0000_0000_0000) by (nonlinear_arith)
        requires
            d * q0 + r == m,
            q0 == 0x1F_FFFF_FFFF_FFFF,
            r >= half,
            d == 2 * half,
    ;
}

/// A number more than 2^55 times larger takes a smaller one up without
/// changing.
pub proof fn lemma_absorb(hi: nat, lo: nat, gap: nat, e: int)
    requires
        0x10_0000_0000_0000 <= hi < 0x20_0000_0000_0000,
        lo < 0x20_0000_0000_0000,
        gap >= 55,
        e >= -1074,
    ensures
        nearest(hi * pow2(gap) + lo, e) == (hi, e + gap),
{
    lemma2_to64();
    lemma2_to64_rest();
    let d = pow2(gap);
    let m = hi * d + lo;
    lemma_pow2_pos(gap);
    lemma_pow2_strictly_increases(53, (gap - 1) as nat);
    lemma_pow2_unfold(gap);
    lemma_pow2_adds(gap, 52);
    lemma_pow2_adds(gap, 53);
    assert(pow2(gap + 52) <= m < pow2(gap + 53)) by (nonlinear_arith)
        requires
            m == hi * d + lo,
            0x10_0000_0000_0000 <= hi < 0x20_0000_0000_0000,
            lo < d,
            pow2(gap + 52) == d * 0x10_0000_0000_0000,
            pow2(gap + 53) == d * 0x20_0000_0000_0000,
    ;
    lemma_bit_length_at_least(m, gap + 52);
    lemma_bit_length_below(m, gap + 53);
    assert(bit_length(m) == gap + 53);
    assert(dropped_bits(m, e) == gap);
    vstd::arithmetic::div_mod::lemma_fundamental_div_mod_converse(
        m as int,
        d as int,
        hi as int,
        lo as int,
    );
    assert(round_half_even(m, gap) == hi);
    lemma_bit_length_at_least(hi, 52);
    lemma_bit_length_below(hi, 53);
    assert(spare_bits(hi, e + gap) == 0);
    assert(hi * pow2(0) == hi) by (nonlinear_arith)
        requires
            pow2(0) == 1,
    ;
}

/// A number more than 2^55 times larger does not change when a smaller one
/// is taken from it.
pub proof fn lemma_absorb_difference(hi: nat, lo: nat, gap: nat, e: int)
    requires
        0x10_0000_0000_0000 <= hi < 0x20_0000_0000_0000,
        lo < 0x20_0000_0000_0000,
        gap >= 56,
        e >= -1074,
    ensures
        hi * pow2(gap) >= lo,
        nearest((hi * pow2(gap) - lo) as nat, e) == (hi, e + gap),
{
    lemma2_to64();
    lemma2_to64_rest();
    let d = pow2(gap);
    lemma_pow2_pos(gap);
    lemma_pow2_strictly_increases(53, (gap - 2) as nat);
    lemma_pow2_unfold(gap);
    lemma_pow2_unfold((gap - 1) as nat);
    lemma_pow2_adds(gap, 52);
    lemma_pow2_adds(gap, 53);
    lemma_pow2_adds((gap - 1) as nat, 52);
    lemma_pow2_adds((gap - 1) as nat, 53);
    let half = pow2((gap - 1) as nat);
    let quarter = pow2((gap - 2) as nat);
    assert(d == 2 * half);
    assert(half == 2 * quarter);
    assert(hi * d >= d) by (nonlinear_arith)
        requires
            hi >= 1,
            d >= 0,
    ;
    let m = (hi * d - lo) as nat;
    assert(hi * pow2(0) == hi) by (nonlinear_arith)
        requires
            pow2(0) == 1,
    ;
    if lo == 0 {
        lemma_absorb(hi, 0, gap, e);
    } else if hi > 0x10_0000_0000_0000 {
        assert(pow2(gap + 52) <= m < pow2(gap + 53)) by (nonlinear_arith)
            requires
                m == hi * d - lo,
                0x10_0000_0000_0000 < hi < 0x20_0000_0000_0000,
                0 < lo < d,
                pow2(gap + 52) == d * 0x10_0000_0000_0000,
                pow2(gap + 53) == d * 0x20_0000_0000_0000,
        ;
        lemma_bit_length_at_least(m, gap + 52);
        lemma_bit_length_below(m, gap + 53);
        assert(dropped_bits(m, e) == gap);
        assert(m == d * (hi - 1) + (d - lo)) by (nonlinear_arith)
            requires
                m == hi * d - lo,
        ;
        vstd::arithmetic::div_mod::lemma_fundamental_div_mod_converse(
            m as int,
            d as int,
            hi - 1,
            d - lo,
        );
        assert(round_half_even(m, gap) == hi);
        lemma_bit_length_at_least(hi, 52);
        lemma_bit_length_below(hi, 53);
        assert(spare_bits(hi, e + gap) == 0);
    } else {
        assert(pow2(gap + 51) <= m < pow2(gap + 52)) by (nonlinear_arith)
            requires
                m == hi * d - lo,
                hi == 0x10_0000_0000_0000,
                0 < lo < half,
                d == 2 * half,
                pow2(gap + 51) == half * 0x10_0000_0000_0000,
                pow2(gap + 52) == d * 0x10_0000_0000_0000,
        ;
        lemma_bit_length_at_least(m, gap + 51);
        lemma_bit_length_below(m, gap + 52);
        assert(bit_length(m) == gap + 52);
        assert(dropped_bits(m, e) == gap - 1);
        assert(m == half * 0x1F_FFFF_FFFF_FFFF + (half - lo)) by (nonlinear_arith)
            requires
                m == hi * d - lo,
                hi == 0x10_0000_0000_0000,
                d == 2 * half,
        ;
        vstd::arithmetic::div_mod::lemma_fundamental_div_mod_converse(
            m as int,
            half as int,
            0x1F_FFFF_FFFF_FFFF,
            half - lo,
        );
        assert(round_half_even(m, (gap - 1) as nat) == 0x20_0000_0000_0000);
    }
}

/// A number with something below it is not zero.
pub proof fn lemma_units_zero(d: Double)
    ensures
        d.units() > 0 ==> d.mant() > 0,
{
    if d.mant() == 0 {
        assert(d.units() == 0) by (nonlinear_arith)
            requires
                d.units() == d.mant() * pow2((d.exp() + 1074) as nat),
                d.mant() == 0,
        ;
    }
}

/// What rounding gives is written canonically, where it is finite.
pub proof fn lemma_nearest_canonical(m: nat, e: int)
    requires
        nearest(m, e).1 <= 971,
    ensures
        canonical(nearest(m, e).0, nearest(m, e).1),
{
    lemma2_to64();
    lemma2_to64_rest();
    let s = dropped_bits(m, e);
    let q = round_half_even(m, s);
    let f = e + s;
    let len = bit_length(m);
    if m > 0 {
        lemma_bit_length_bounds(m);
    }
    // the rounded significand has at most 53 digits, or is 2^53
    if s > 0 {
        lemma_round_half_even_bounds(m, s);
        if len < s + 53 {
            lemma_pow2_strictly_increases(len, s + 53);
        }
    } else if m > 0 {
        if len < 53 {
            lemma_pow2_strictly_increases(len, 53);
        }
    }
    assert(q <= 0x20_0000_0000_0000);
    if q != 0 && q != 0x20_0000_0000_0000 {
        lemma_bit_length_bounds(q);
        lemma_bit_length_below(q, 53);
        let qlen = bit_length(q);
        let t = spare_bits(q, f);
        if len - 53 == s && s > 0 {
            lemma_bit_length_at_least(q, 52);
        }
        if s == 0 && len == 53 {
            lemma_bit_length_at_least(q, 52);
        }
        lemma_pow2_adds(qlen, t);
        lemma_pow2_pos(t);
        if qlen + t < 53 {
            lemma_pow2_strictly_increases(qlen + t, 53);
        }
        assert(q * pow2(t) < pow2(qlen) * pow2(t)) by (nonlinear_arith)
            requires
                q < pow2(qlen),
                pow2(t) > 0,
        ;
        if f - t > -1074 {
            lemma_pow2_adds((qlen - 1) as nat, t);
            assert(q * pow2(t) >= pow2((qlen - 1) as nat) * pow2(t)) by (nonlinear_arith)
                requires
                    q >= pow2((qlen - 1) as nat),
                    pow2(t) > 0,
            ;
        }
    }
}

/// A number that is not greater than one gets less, and stays written
/// canonically, when it is multiplied by one that is less than an eighth: it
/// gets strictly less unless it is zero.
pub proof fn lemma_decay(w: Double, factor: Double)
    requires
        w.wf(),
        factor.wf(),
        w.exp() <= -52,
        -60 <= factor.exp() <= -56,
    ensures
        w.times(factor).wf(),
        w.times(factor).exp() <= -52,
        w.times(factor).bits() <= w.bits(),
        w.mant() > 0 ==> w.times(factor).bits() < w.bits(),
{
    lemma2_to64();
    lemma2_to64_rest();
    let m = w.mant() * factor.mant();
    let e = w.exp() + factor.exp();
    lemma_pow2_adds(53, 53);
    assert(m < pow2(106)) by (nonlinear_arith)
        requires
            m == w.mant() * factor.mant(),
            w.mant() < 0x20_0000_0000_0000,
            factor.mant() < 0x20_0000_0000_0000,
            pow2(106) == 0x20_0000_0000_0000 * 0x20_0000_0000_0000,
    ;
    lemma_bit_length_below(m, 106);
    lemma_nearest_finite(m, e);
    lemma_nearest_canonical(m, e);
    lemma_nearest_exponent(m, e);
    let r = nearest(m, e);
    Double::lemma_from_parts(r);
    let s = dropped_bits(m, e);
    let q = round_half_even(m, s);
    if w.mant() == 0 {
        assert(m == 0) by (nonlinear_arith)
            requires
                m == w.mant() * factor.mant(),
                w.mant() == 0,
        ;
        lemma_nearest_zero(e);
    } else if s == bit_length(m) - 53 || s == 0 {
        assert(r.1 <= w.exp() - 2);
        lemma_order(r.0, r.1, w.mant(), w.exp());
    } else {
        // the product is cut off at the least exponent
        assert(e + s == -1074);
        assert(s >= 1);
        let d = pow2(s);
        lemma_pow2_pos(s);
        lemma_pow2_unfold(s);
        lemma_round_half_even_bounds(m, s);
        vstd::arithmetic::div_mod::lemma_fundamental_div_mod(m as int, d as int);
        vstd::arithmetic::div_mod::lemma_mod_bound(m as int, d as int);
        let q0 = m / d;
        let rem = m % d;
        if w.exp() >= -1072 {
            lemma_order(r.0, r.1, w.mant(), w.exp());
        } else if w.exp() == -1073 {
            lemma_pow2_strictly_increases(54, 55);
            if s > 55 {
                lemma_pow2_strictly_increases(55, s);
            }
            assert(q0 <= 0x8_0000_0000_0000) by (nonlinear_arith)
                requires
                    d * q0 + rem == m,
                    rem >= 0,
                    m == w.mant() * factor.mant(),
                    w.mant() < 0x20_0000_0000_0000,
                    factor.mant() < 0x20_0000_0000_0000,
                    d >= 0x80_0000_0000_0000,
            ;
            assert(q < 0x10_0000_0000_0000);
            if q > 0 {
                lemma_bit_length_bounds(q);
                assert(spare_bits(q, -1074) == 0);
                assert(q * pow2(0) == q) by (nonlinear_arith)
                    requires
                        pow2(0) == 1,
                ;
            }
            lemma_order(r.0, r.1, w.mant(), w.exp());
        } else {
            assert(w.exp() == -1074);
            assert(s >= 56);
            lemma_pow2_strictly_increases(55, 56);
            if s > 56 {
                lemma_pow2_strictly_increases(56, s);
            }
            assert(d >= 0x100_0000_0000_0000);
            let half = pow2((s - 1) as nat);
            assert(d == 2 * half);
            assert(8 * q0 <= w.mant()) by (nonlinear_arith)
                requires
                    d * q0 + rem == m,
                    rem >= 0,
                    m == w.mant() * factor.mant(),
                    factor.mant() < 0x20_0000_0000_0000,
                    d >= 0x100_0000_0000_0000,
            ;
            if w.mant() == 1 {
                assert(m == factor.mant()) by (nonlinear_arith)
                    requires
                        m == w.mant() * factor.mant(),
                        w.mant() == 1,
                ;
                assert(q0 == 0);
                assert(d * q0 == 0) by (nonlinear_arith)
                    requires
                        q0 == 0,
                ;
                assert(rem == m);
                assert(rem < half);
                assert(q == 0);
            }
            assert(q < w.mant());
            if q > 0 {
                lemma_bit_length_bounds(q);
                assert(spare_bits(q, -1074) == 0);
                assert(q * pow2(0) == q) by (nonlinear_arith)
                    requires
                        pow2(0) == 1,
                ;
            }
            lemma_order(r.0, r.1, w.mant(), w.exp());
        }
    }
}

/// Rounding does not step over a number: what is not more than a number
/// that can be written is not more than it after rounding either.
pub proof fn lemma_nearest_below(m: nat, e: int, bound: Double)
    requires
        e >= -1074,
        bound.wf(),
        scaled(m, e) <= bound.units(),
    ensures
        nearest(m, e).1 <= bound.exp(),
        canonical(nearest(m, e).0, nearest(m, e).1),
        scaled(nearest(m, e).0, nearest(m, e).1) <= bound.units(),
{
    lemma2_to64();
    lemma2_to64_rest();
    let len = bit_length(m);
    let s = dropped_bits(m, e);
    let top = pow2((e + 1074) as nat);
    lemma_pow2_pos((e + 1074) as nat);
    if m == 0 {
        lemma_nearest_zero(e);
        assert(scaled(0, -1074) == 0) by (nonlinear_arith)
            requires
                scaled(0, -1074) == 0 * pow2(0),
        ;
    } else if len <= 53 {
        lemma_bit_length_bounds(m);
        if len < 53 {
            lemma_pow2_strictly_increases(len, 53);
        }
        assert(s == 0);
        lemma_nearest_exact(m, e);
        let r = nearest(m, e);
        // the exponent cannot pass that of the bound
        let t = spare_bits(m, e);
        lemma_pow2_adds(len, t);
        lemma_pow2_adds((len - 1) as nat, t);
        lemma_pow2_pos(t);
        if len + t < 53 {
            lemma_pow2_strictly_increases(len + t, 53);
        }
        assert(m * pow2(t) < pow2(len) * pow2(t)) by (nonlinear_arith)
            requires
                m < pow2(len),
                pow2(t) > 0,
        ;
        if e - t > -1074 {
            assert(m * pow2(t) >= pow2((len - 1) as nat) * pow2(t)) by (nonlinear_arith)
                requires
                    m >= pow2((len - 1) as nat),
                    pow2(t) > 0,
            ;
        }
        assert(r == (m * pow2(t), e - t));
        if r.1 > bound.exp() {
            // the bound would be below the number itself
            let high = pow2((bound.exp() + 1074) as nat);
            let low = pow2((r.1 + 1074) as nat);
            lemma_pow2_pos((bound.exp() + 1074) as nat);
            lemma_pow2_unfold((r.1 + 1074) as nat);
            if bound.exp() + 1074 < r.1 + 1073 {
                lemma_pow2_strictly_increases(
                    (bound.exp() + 1074) as nat,
                    (r.1 + 1073) as nat,
                );
            }
            assert(bound.mant() * high < r.0 * low) by (nonlinear_arith)
                requires
                    bound.mant() < 0x20_0000_0000_0000,
                    r.0 >= 0x10_0000_0000_0000,
                    2 * high <= low,
                    high > 0,
            ;
            assert(false);
        }
        assert(canonical(r.0, r.1));
    } else {
        lemma_bit_length_bounds(m);
        lemma_pow2_strictly_increases(53, len);
        assert(s == len - 53);
        let d = pow2(s);
        lemma_pow2_pos(s);
        lemma_round_half_even_bounds(m, s);
        let q = round_half_even(m, s);
        vstd::arithmetic::div_mod::lemma_fundamental_div_mod(m as int, d as int);
        vstd::arithmetic::div_mod::lemma_mod_bound(m as int, d as int);
        let q0 = m / d;
        let rem = m % d;
        lemma_pow2_adds(s, 52);
        lemma_pow2_adds(s, 53);
        assert(0x10_0000_0000_0000 <= q0 < 0x20_0000_0000_0000) by (nonlinear_arith)
            requires
                d * q0 + rem == m,
                0 <= rem < d,
                pow2(s + 52) <= m < pow2(s + 53),
                pow2(s + 52) == d * 0x10_0000_0000_0000,
                pow2(s + 53) == d * 0x20_0000_0000_0000,
        ;
        let f = e + s;
        let low = pow2((f + 1074) as nat);
        lemma_pow2_adds(s, (e + 1074) as nat);
        assert(low == d * top);
        // the number rounded down is not more than the bound
        assert(scaled(q0, f) <= scaled(m, e)) by (nonlinear_arith)
            requires
                scaled(q0, f) == q0 * low,
                scaled(m, e) == m * top,
                low == d * top,
                d * q0 + rem == m,
                rem >= 0,
                top > 0,
        ;
        if f > bound.exp() {
            // the bound would be below the number rounded down
            let high = pow2((bound.exp() + 1074) as nat);
            lemma_pow2_pos((bound.exp() + 1074) as nat);
            lemma_pow2_unfold((f + 1074) as nat);
            if bound.exp() + 1074 < f + 1073 {
                lemma_pow2_strictly_increases(
                    (bound.exp() + 1074) as nat,
                    (f + 1073) as nat,
                );
            }
            assert(bound.mant() * high < q0 * low) by (nonlinear_arith)
                requires
                    bound.mant() < 0x20_0000_0000_0000,
                    q0 >= 0x10_0000_0000_0000,
                    2 * high <= low,
                    high > 0,
            ;
            assert(false);
        }
        lemma_order(q0, f, bound.mant(), bound.exp());
        lemma_order(bound.mant(), bound.exp(), q0, f);
        let r = nearest(m, e);
        if q == q0 {
            lemma_bit_length_at_least(q, 52);
            lemma_bit_length_below(q, 53);
            assert(spare_bits(q, f) == 0);
            assert(q * pow2(0) == q) by (nonlinear_arith)
                requires
                    pow2(0) == 1,
            ;
            assert(r == (q0, f));
        } else {
            assert(q == q0 + 1);
            assert(rem > 0) by {
                lemma_pow2_pos((s - 1) as nat);
            }
            assert(scaled(q0, f) < scaled(m, e)) by (nonlinear_arith)
                requires
                    scaled(q0, f) == q0 * low,
                    scaled(m, e) == m * top,
                    low == d * top,
                    d * q0 + rem == m,
                    rem > 0,
                    top > 0,
            ;
            // so the bound is above the number rounded down, and is at
            // least the next number that can be written
            assert(f < bound.exp() || (f == bound.exp() && q0 < bound.mant()));
            if q == 0x20_0000_0000_0000 {
                assert(r == (0x10_0000_0000_0000nat, f + 1));
                assert(f < bound.exp());
                lemma_order(r.0, r.1, bound.mant(), bound.exp());
            } else {
                lemma_bit_length_at_least(q, 52);
                lemma_bit_length_below(q, 53);
                assert(spare_bits(q, f) == 0);
                assert(q * pow2(0) == q) by (nonlinear_arith)
                    requires
                        pow2(0) == 1,
                ;
                assert(r == (q, f));
                lemma_order(r.0, r.1, bound.mant(), bound.exp());
            }
        }
        lemma_order(r.0, r.1, bound.mant(), bound.exp());
    }
}

/// The exact sum of two numbers, in units of `2^-1074`, is the sum of what
/// they are in those units.
pub proof fn lemma_sum_units(a: Double, b: Double)
    requires
        a.wf(),
        b.wf(),
    ensures
        ({
            let e = if a.exp() <= b.exp() {
                a.exp()
            } else {
                b.exp()
            };
            scaled(
                a.mant() * pow2((a.exp() - e) as nat) + b.mant() * pow2((b.exp() - e) as nat),
                e,
            ) == a.units() + b.units()
        }),
{
    let e = if a.exp() <= b.exp() {
        a.exp()
    } else {
        b.exp()
    };
    let base = pow2((e + 1074) as nat);
    let up_a = pow2((a.exp() - e) as nat);
    let up_b = pow2((b.exp() - e) as nat);
    lemma_pow2_adds((a.exp() - e) as nat, (e + 1074) as nat);
    lemma_pow2_adds((b.exp() - e) as nat, (e + 1074) as nat);
    assert((a.mant() * up_a + b.mant() * up_b) * base == a.mant() * (up_a * base) + b.mant() * (
    up_b * base)) by (nonlinear_arith);
}

/// A number below `2^k` units has an exponent below `k - 1126`, or the least
/// one.
pub proof fn lemma_units_exponent(d: Double, k: nat)
    requires
        d.wf(),
        d.units() < pow2(k),
    ensures
        d.exp() == -1074 || d.exp() + 1126 < k,
{
    lemma2_to64();
    lemma2_to64_rest();
    if d.exp() > -1074 && d.exp() + 1126 >= k {
        let up = pow2((d.exp() + 1074) as nat);
        lemma_pow2_adds(52, (d.exp() + 1074) as nat);
        if d.exp() + 1126 > k {
            lemma_pow2_strictly_increases(k, (d.exp() + 1126) as nat);
        }
        assert(d.mant() * up >= 0x10_0000_0000_0000 * up) by (nonlinear_arith)
            requires
                d.mant() >= 0x10_0000_0000_0000,
                up >= 0,
        ;
    }
}

/// The sum of two numbers is not more than a number that can be written
/// and that their exact sum is not more than.
pub proof fn lemma_plus_below(a: Double, b: Double, bound: Double)
    requires
        a.wf(),
        b.wf(),
        bound.wf(),
        a.units() + b.units() <= bound.units(),
    ensures
        a.plus(b).wf(),
        a.plus(b).units() <= bound.units(),
        a.plus(b).exp() <= bound.exp(),
{
    lemma_sum_units(a, b);
    let e = if a.exp() <= b.exp() {
        a.exp()
    } else {
        b.exp()
    };
    let m = a.mant() * pow2((a.exp() - e) as nat) + b.mant() * pow2((b.exp() - e) as nat);
    lemma_nearest_below(m, e, bound);
    Double::lemma_from_parts(nearest(m, e));
}

} // verus!
