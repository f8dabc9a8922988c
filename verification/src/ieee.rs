//! Arithmetic on the bit patterns of IEEE 754 numbers.
//!
//! A pattern is held in a `u64`, whichever the format. Each operation is stated
//! by the exact result over the integers and one rounding, to nearest with ties
//! to even. Operations that yield a NaN yield the quiet one that is positive and
//! has no payload.
use crate::rounding::{
    bit_len, lemma_bit_len, lemma_bit_len_unique, lemma_field_unit, magnitude,
    nearest, power_of_two, round_scaled, rounded, rounded_scaled, Format,
};
use vstd::arithmetic::div_mod::{
    lemma_fundamental_div_mod, lemma_fundamental_div_mod_converse, lemma_mod_bound,
};
use vstd::arithmetic::power2::{
    lemma2_to64, lemma_pow2_adds, lemma_pow2_pos, lemma_pow2_strictly_increases, lemma_pow2_unfold,
    pow2,
};
use vstd::prelude::*;

verus! {

impl Format {
    /// The weight of the sign bit.
    pub open spec fn sign_weight(self) -> nat {
        match self {
            Format::Binary32 => 0x8000_0000,
            Format::Binary64 => 0x8000_0000_0000_0000,
        }
    }

    /// Whether `a` is a pattern of this format.
    pub open spec fn holds(self, a: u64) -> bool {
        a < 2 * self.sign_weight()
    }

    /// The quiet NaN that is positive and has no payload.
    pub open spec fn nan(self) -> u64 {
        match self {
            Format::Binary32 => 0x7fc0_0000,
            Format::Binary64 => 0x7ff8_0000_0000_0000,
        }
    }
}

pub open spec fn negative(f: Format, a: u64) -> bool {
    a >= f.sign_weight()
}

/// The pattern `a` without its sign.
pub open spec fn body(f: Format, a: u64) -> nat {
    if negative(f, a) {
        (a - f.sign_weight()) as nat
    } else {
        a as nat
    }
}

pub open spec fn is_nan(f: Format, a: u64) -> bool {
    body(f, a) > f.infinity()
}

pub open spec fn is_infinite(f: Format, a: u64) -> bool {
    body(f, a) == f.infinity()
}

pub open spec fn is_finite(f: Format, a: u64) -> bool {
    body(f, a) < f.infinity()
}

/// The value of a finite pattern, in quanta.
pub open spec fn value(f: Format, a: u64) -> int {
    if negative(f, a) {
        -magnitude(f, body(f, a))
    } else {
        magnitude(f, body(f, a)) as int
    }
}

/// The pattern with the given sign and body.
pub open spec fn pattern(f: Format, neg: bool, m: nat) -> u64 {
    if neg {
        (f.sign_weight() + m) as u64
    } else {
        m as u64
    }
}

pub open spec fn abs(v: int) -> nat {
    if v < 0 {
        (-v) as nat
    } else {
        v as nat
    }
}

/// `a` with the other sign.
pub open spec fn negated(f: Format, a: u64) -> u64 {
    pattern(f, !negative(f, a), body(f, a))
}

pub open spec fn sum(f: Format, a: u64, b: u64) -> u64 {
    if is_nan(f, a) || is_nan(f, b) {
        f.nan()
    } else if is_infinite(f, a) {
        if is_infinite(f, b) && negative(f, a) != negative(f, b) {
            f.nan()
        } else {
            a
        }
    } else if is_infinite(f, b) {
        b
    } else {
        let v = value(f, a) + value(f, b);
        if v == 0 {
            pattern(f, negative(f, a) && negative(f, b), 0)
        } else {
            pattern(f, v < 0, rounded(f, abs(v), 1))
        }
    }
}

pub open spec fn difference(f: Format, a: u64, b: u64) -> u64 {
    sum(f, a, negated(f, b))
}

pub open spec fn product(f: Format, a: u64, b: u64) -> u64 {
    let neg = negative(f, a) != negative(f, b);
    if is_nan(f, a) || is_nan(f, b) {
        f.nan()
    } else if is_infinite(f, a) || is_infinite(f, b) {
        if body(f, a) == 0 || body(f, b) == 0 {
            f.nan()
        } else {
            pattern(f, neg, f.infinity())
        }
    } else {
        pattern(
            f,
            neg,
            rounded(f, magnitude(f, body(f, a)) * magnitude(f, body(f, b)), pow2(f.quantum())),
        )
    }
}

/// The pattern of `to` nearest to the number that `a` is in `from`.
pub open spec fn converted(from: Format, to: Format, a: u64) -> u64 {
    if is_nan(from, a) {
        to.nan()
    } else if is_infinite(from, a) {
        pattern(to, negative(from, a), to.infinity())
    } else {
        pattern(
            to,
            negative(from, a),
            rounded_scaled(to, magnitude(from, body(from, a)), to.quantum() - from.quantum()),
        )
    }
}

/// The pattern nearest to the whole number `n`.
pub open spec fn of_natural(f: Format, n: nat) -> u64 {
    rounded(f, n * pow2(f.quantum()), 1) as u64
}

/// Where a pattern that is no NaN stands in the order of numbers; both zeros stand at 0.
pub open spec fn rank(f: Format, a: u64) -> int {
    if negative(f, a) {
        -body(f, a)
    } else {
        body(f, a) as int
    }
}

/// Whether `a <= b`; false where either is a NaN.
pub open spec fn at_most(f: Format, a: u64, b: u64) -> bool {
    !is_nan(f, a) && !is_nan(f, b) && rank(f, a) <= rank(f, b)
}

/// Whether `a < b`; false where either is a NaN.
pub open spec fn less(f: Format, a: u64, b: u64) -> bool {
    !is_nan(f, a) && !is_nan(f, b) && rank(f, a) < rank(f, b)
}

/// The larger of two patterns; a NaN gives way to the other.
pub open spec fn larger(f: Format, a: u64, b: u64) -> u64 {
    if is_nan(f, a) {
        b
    } else if is_nan(f, b) || !less(f, a, b) {
        a
    } else {
        b
    }
}

impl Format {
    fn sign(self) -> (s: u64)
        ensures
            s == self.sign_weight(),
    {
        match self {
            Format::Binary32 => 0x8000_0000,
            Format::Binary64 => 0x8000_0000_0000_0000,
        }
    }

    pub(crate) fn infinite(self) -> (i: u64)
        ensures
            i == self.infinity(),
            i < self.sign_weight(),
    {
        match self {
            Format::Binary32 => 0x7f80_0000,
            Format::Binary64 => 0x7ff0_0000_0000_0000,
        }
    }

    pub(crate) fn quiet(self) -> (n: u64)
        ensures
            n == self.nan(),
            self.holds(n),
            is_nan(self, n),
    {
        match self {
            Format::Binary32 => 0x7fc0_0000,
            Format::Binary64 => 0x7ff8_0000_0000_0000,
        }
    }

    fn quantum_exponent(self) -> (q: i32)
        ensures
            q == self.quantum(),
    {
        match self {
            Format::Binary32 => 149,
            Format::Binary64 => 1074,
        }
    }
}

/// Sign and body of a pattern.
pub fn split(f: Format, a: u64) -> (r: (bool, u64))
    requires
        f.holds(a),
    ensures
        r.0 == negative(f, a),
        r.1 == body(f, a),
        r.1 < f.sign_weight(),
{
    let s = f.sign();
    if a >= s {
        (true, a - s)
    } else {
        (false, a)
    }
}

/// `pattern`, the other way about from `split`.
pub fn join(f: Format, neg: bool, m: u64) -> (r: u64)
    requires
        m < f.sign_weight(),
    ensures
        r == pattern(f, neg, m as nat),
        f.holds(r),
        negative(f, r) == neg,
        body(f, r) == m,
{
    if neg {
        f.sign() + m
    } else {
        m
    }
}

/// The digits of a finite body and the power of two that they are multiplied by.
pub(crate) fn unpack(f: Format, m: u64) -> (r: (u64, i32))
    requires
        m < f.infinity(),
    ensures
        magnitude(f, m as nat) == r.0 * pow2(r.1 as nat),
        r.0 < 2 * f.field_unit(),
        0 <= r.1 < f.field_end(),
        r.1 > 0 ==> r.0 >= f.field_unit(),
        r.1 * f.field_unit() + r.0 == m,
{
    let unit: u64 = match f {
        Format::Binary32 => 0x80_0000,
        Format::Binary64 => 0x10_0000_0000_0000,
    };
    proof {
        lemma2_to64();
        lemma_fundamental_div_mod(m as int, unit as int);
        lemma_mod_bound(m as int, unit as int);
        assert((m as int) / (unit as int) < f.field_end()) by (nonlinear_arith)
            requires
                m == unit * ((m as int) / (unit as int)) + (m as int) % (unit as int),
                (m as int) % (unit as int) >= 0,
                m < f.field_end() * unit,
                unit > 0,
        ;
    }
    let field = m / unit;
    let fraction = m % unit;
    if field == 0 {
        assert(fraction * pow2(0) == fraction);
        (fraction, 0)
    } else {
        proof {
            assert(magnitude(f, m as nat) == (unit + fraction) * pow2((field - 1) as nat));
            assert((field - 1) * unit + (unit + fraction) == m) by (nonlinear_arith)
                requires
                    m == unit * field + fraction,
            ;
        }
        (unit + fraction, (field - 1) as i32)
    }
}

pub fn is_nan_pattern(f: Format, a: u64) -> (r: bool)
    requires
        f.holds(a),
    ensures
        r == is_nan(f, a),
{
    split(f, a).1 > f.infinite()
}

pub fn negate(f: Format, a: u64) -> (r: u64)
    requires
        f.holds(a),
    ensures
        r == negated(f, a),
        f.holds(r),
{
    let (neg, m) = split(f, a);
    join(f, !neg, m)
}

/// `at_most`.
pub fn is_at_most(f: Format, a: u64, b: u64) -> (r: bool)
    requires
        f.holds(a),
        f.holds(b),
    ensures
        r == at_most(f, a, b),
{
    let (na, ma) = split(f, a);
    let (nb, mb) = split(f, b);
    let inf = f.infinite();
    if ma > inf || mb > inf {
        false
    } else if na {
        if nb {
            ma >= mb
        } else {
            true
        }
    } else if nb {
        ma == 0 && mb == 0
    } else {
        ma <= mb
    }
}

/// `less`.
pub fn is_less(f: Format, a: u64, b: u64) -> (r: bool)
    requires
        f.holds(a),
        f.holds(b),
    ensures
        r == less(f, a, b),
{
    !is_nan_pattern(f, a) && !is_nan_pattern(f, b) && !is_at_most(f, b, a)
}

/// `larger`.
pub fn max(f: Format, a: u64, b: u64) -> (r: u64)
    requires
        f.holds(a),
        f.holds(b),
    ensures
        r == larger(f, a, b),
        f.holds(r),
{
    if is_nan_pattern(f, a) {
        b
    } else if is_nan_pattern(f, b) || !is_less(f, a, b) {
        a
    } else {
        b
    }
}

/// A signed number of digits at a power of two.
pub open spec fn signed(neg: bool, k: nat, e: nat) -> int {
    if neg {
        -(k * pow2(e))
    } else {
        (k * pow2(e)) as int
    }
}

/// The pattern of the exact sum `v`, where `neg_zero` says which zero a zero is.
pub open spec fn sum_pattern(f: Format, v: int, neg_zero: bool) -> u64 {
    if v == 0 {
        pattern(f, neg_zero, 0)
    } else {
        pattern(f, v < 0, rounded(f, abs(v), 1))
    }
}

/// An addend that is far below the last digit of the other one is rounded away.
proof fn lemma_absorb(f: Format, big: nat, e: nat, small: nat, low: nat, minus: bool)
    requires
        f.field_unit() <= big < 2 * f.field_unit(),
        small < 2 * f.field_unit(),
        e > low + 64,
        e * f.field_unit() + big < f.infinity(),
    ensures
        ({
            let v = if minus {
                big * pow2(e) - small * pow2(low)
            } else {
                (big * pow2(e) + small * pow2(low)) as int
            };
            v > 0 && rounded(f, abs(v), 1) == e * f.field_unit() + big
        }),
{
    let d = (e - low) as nat;
    let p = f.precision();
    let w = pow2(d);
    let u = pow2(low);
    lemma_field_unit(f);
    lemma_pow2_adds(d, low);
    lemma_pow2_pos(low);
    lemma2_to64();
    lemma_pow2_strictly_increases(64, d);
    lemma_pow2_unfold(d);
    lemma_pow2_adds((p - 1) as nat, d);
    lemma_pow2_adds(p, d);
    let h = pow2((d - 1) as nat);
    let k: nat = if minus {
        (big * w - small) as nat
    } else {
        big * w + small
    };
    let unit = f.field_unit();
    assert(small < h / 2);
    assert(unit * w <= big * w <= (2 * unit - 1) * w) by (nonlinear_arith)
        requires
            unit <= big,
            big <= 2 * unit - 1,
            w > 0,
    ;
    assert((2 * unit - 1) * w == (2 * unit) * w - w) by (nonlinear_arith);
    assert(unit * w > small) by (nonlinear_arith)
        requires
            unit > 0,
            small < w,
            w > 0,
    ;
    assert(k * u == if minus {
        big * pow2(e) - small * u
    } else {
        (big * pow2(e) + small * u) as int
    }) by (nonlinear_arith)
        requires
            k == if minus {
                big * w - small
            } else {
                (big * w + small) as int
            },
            pow2(e) == w * u,
    ;
    assert(k * u > 0) by (nonlinear_arith)
        requires
            k > 0,
            u > 0,
    ;
    crate::rounding::lemma_rounded_scaled(f, k, low as int);
    if minus && big == unit && small > 0 {
        let t = (d - 1) as nat;
        assert(k < unit * w);
        lemma_pow2_adds((p - 1) as nat, t);
        assert(unit * w == (2 * unit) * h) by (nonlinear_arith)
            requires
                w == 2 * h,
        ;
        assert(unit * h <= k) by (nonlinear_arith)
            requires
                k == unit * w - small,
                w == 2 * h,
                small < h,
                unit >= 1,
        ;
        lemma_pow2_adds((p - 2) as nat, d);
        assert(pow2((p - 1 + d) as nat) == unit * w);
        lemma_bit_len_unique(k, (p - 1 + d) as nat);
        assert(k == (2 * unit - 1) * h + (h - small)) by (nonlinear_arith)
            requires
                k == (2 * unit) * h - small,
        ;
        lemma_fundamental_div_mod_converse(
            k as int,
            h as int,
            2 * unit - 1,
            h - small,
        );
        assert(nearest(k, h) == 2 * unit);
        assert(((e - 1) * unit) + 2 * unit == e * unit + unit) by (nonlinear_arith);
    } else {
        assert(pow2((p + d - 1) as nat) == unit * w);
        assert(pow2(p + d) == (2 * unit) * w);
        if minus && small > 0 {
            assert(unit * w + w <= big * w) by (nonlinear_arith)
                requires
                    unit + 1 <= big,
                    w > 0,
            ;
        }
        lemma_bit_len_unique(k, p + d);
        if minus && small > 0 {
            assert(k == (big - 1) * w + (w - small)) by (nonlinear_arith)
                requires
                    k == big * w - small,
            ;
            lemma_fundamental_div_mod_converse(k as int, w as int, big - 1, w - small);
            assert(nearest(k, w) == big);
        } else {
            lemma_fundamental_div_mod_converse(k as int, w as int, big as int, small as int);
            assert(nearest(k, w) == big);
        }
    }
}

/// Adds two signed whole numbers.
fn combine(na: bool, a: u128, nb: bool, b: u128) -> (r: (bool, u128))
    requires
        a + b <= u128::MAX,
    ensures
        (if r.0 {
            -r.1
        } else {
            r.1 as int
        }) == (if na {
            -a
        } else {
            a as int
        }) + (if nb {
            -b
        } else {
            b as int
        }),
        r.1 <= a + b,
{
    if na == nb {
        (na, a + b)
    } else if a > b {
        (na, a - b)
    } else {
        (nb, b - a)
    }
}

proof fn lemma_signed_sum(na: bool, a: int, nb: bool, b: int, neg: bool, k: int, u: int)
    requires
        (if neg {
            -k
        } else {
            k
        }) == (if na {
            -a
        } else {
            a
        }) + (if nb {
            -b
        } else {
            b
        }),
    ensures
        (if neg {
            -(k * u)
        } else {
            k * u
        }) == (if na {
            -(a * u)
        } else {
            a * u
        }) + (if nb {
            -(b * u)
        } else {
            b * u
        }),
{
    assert((-a) * u == -(a * u)) by (nonlinear_arith);
    assert((-b) * u == -(b * u)) by (nonlinear_arith);
    assert((-k) * u == -(k * u)) by (nonlinear_arith);
    let x = if na {
        -a
    } else {
        a
    };
    let y = if nb {
        -b
    } else {
        b
    };
    assert((x + y) * u == x * u + y * u) by (nonlinear_arith);
}

/// The sum of two finite numbers whose exponents are close.
fn add_near(f: Format, na: bool, ka: u64, ea: i32, nb: bool, kb: u64, eb: i32) -> (r: u64)
    requires
        0 <= eb <= ea < f.field_end(),
        ea <= eb + 64,
        ka < 2 * f.field_unit(),
        kb < 2 * f.field_unit(),
    ensures
        r == sum_pattern(
            f,
            signed(na, ka as nat, ea as nat) + signed(nb, kb as nat, eb as nat),
            na && nb,
        ),
        f.holds(r),
{
    let ghost u = pow2(eb as nat);
    let w = power_of_two((ea - eb) as u32);
    proof {
        lemma_pow2_pos(eb as nat);
        lemma_pow2_adds((ea - eb) as nat, eb as nat);
        assert(w <= 0x1_0000_0000_0000_0000) by {
            lemma2_to64();
            if ea - eb < 64 {
                lemma_pow2_strictly_increases((ea - eb) as nat, 64);
            }
        }
        assert(ka * w <= 0x20_0000_0000_0000 * 0x1_0000_0000_0000_0000) by (nonlinear_arith)
            requires
                ka < 0x20_0000_0000_0000,
                w <= 0x1_0000_0000_0000_0000,
        ;
        assert(ka * pow2(ea as nat) == (ka * w) * u) by (nonlinear_arith)
            requires
                pow2(ea as nat) == w * u,
        ;
    }
    let big = (ka as u128) * w;
    let (neg, k) = combine(na, big, nb, kb as u128);
    let ghost v = signed(na, ka as nat, ea as nat) + signed(nb, kb as nat, eb as nat);
    proof {
        lemma_signed_sum(na, big as int, nb, kb as int, neg, k as int, u as int);
        lemma_wide_len(k);
        assert(k > 0 ==> k * u > 0) by (nonlinear_arith)
            requires
                u > 0,
        ;
        assert(k == 0 ==> k * u == 0);
        assert(abs(v) == k * u);
    }
    if k == 0 {
        return join(f, na && nb, 0);
    }
    let m = round_scaled(f, k, eb);
    let inf = f.infinite();
    join(f, neg, m)
}

/// The sum of two finite numbers, the one with the larger exponent first.
fn add_aligned(f: Format, na: bool, ka: u64, ea: i32, nb: bool, kb: u64, eb: i32) -> (r: u64)
    requires
        0 <= eb <= ea < f.field_end(),
        ka < 2 * f.field_unit(),
        kb < 2 * f.field_unit(),
        ea > 0 ==> ka >= f.field_unit(),
        ea * f.field_unit() + ka < f.infinity(),
    ensures
        r == sum_pattern(
            f,
            signed(na, ka as nat, ea as nat) + signed(nb, kb as nat, eb as nat),
            na && nb,
        ),
        f.holds(r),
{
    if ea > eb + 64 {
        let unit: u64 = match f {
            Format::Binary32 => 0x80_0000,
            Format::Binary64 => 0x10_0000_0000_0000,
        };
        let inf = f.infinite();
        proof {
            lemma_absorb(f, ka as nat, ea as nat, kb as nat, eb as nat, na != nb);
        }
        join(f, na, (ea as u64) * unit + ka)
    } else {
        add_near(f, na, ka, ea, nb, kb, eb)
    }
}

/// `sum`.
pub fn plus(f: Format, a: u64, b: u64) -> (r: u64)
    requires
        f.holds(a),
        f.holds(b),
    ensures
        r == sum(f, a, b),
        f.holds(r),
{
    let (na, ma) = split(f, a);
    let (nb, mb) = split(f, b);
    let inf = f.infinite();
    if ma > inf || mb > inf {
        return f.quiet();
    }
    if ma == inf {
        if mb == inf && na != nb {
            return f.quiet();
        }
        return a;
    }
    if mb == inf {
        return b;
    }
    let (ka, ea) = unpack(f, ma);
    let (kb, eb) = unpack(f, mb);
    if ea >= eb {
        add_aligned(f, na, ka, ea, nb, kb, eb)
    } else {
        add_aligned(f, nb, kb, eb, na, ka, ea)
    }
}

/// `difference`.
pub fn minus(f: Format, a: u64, b: u64) -> (r: u64)
    requires
        f.holds(a),
        f.holds(b),
    ensures
        r == difference(f, a, b),
        f.holds(r),
{
    plus(f, a, negate(f, b))
}

/// `converted`.
pub fn convert(from: Format, to: Format, a: u64) -> (r: u64)
    requires
        from.holds(a),
    ensures
        r == converted(from, to, a),
        to.holds(r),
{
    let (neg, m) = split(from, a);
    let inf = from.infinite();
    if m > inf {
        return to.quiet();
    }
    if m == inf {
        return join(to, neg, to.infinite());
    }
    let (k, e) = unpack(from, m);
    let shift = to.quantum_exponent() - from.quantum_exponent();
    proof {
        lemma_wide_len(k as u128);
        lemma_rescale(to, k as nat, e as nat, shift as int);
    }
    join(to, neg, round_scaled(to, k as u128, e + shift))
}

proof fn lemma_rescale(f: Format, k: nat, e: nat, shift: int)
    ensures
        rounded_scaled(f, k * pow2(e), shift) == rounded_scaled(f, k, e + shift),
{
    if shift >= 0 {
        lemma_pow2_adds(e, shift as nat);
        assert((k * pow2(e)) * pow2(shift as nat) == k * (pow2(e) * pow2(shift as nat)))
            by (nonlinear_arith);
    } else {
        lemma_scale_down(f, k, e, (-shift) as nat);
    }
}

/// `of_natural`.
pub fn from_natural(f: Format, n: u64) -> (r: u64)
    ensures
        r == of_natural(f, n as nat),
        f.holds(r),
{
    proof {
        lemma_wide_len(n as u128);
    }
    let inf = f.infinite();
    round_scaled(f, n as u128, f.quantum_exponent())
}

/// `product`.
pub fn times(f: Format, a: u64, b: u64) -> (r: u64)
    requires
        f.holds(a),
        f.holds(b),
    ensures
        r == product(f, a, b),
        f.holds(r),
{
    let (na, ma) = split(f, a);
    let (nb, mb) = split(f, b);
    let neg = na != nb;
    let inf = f.infinite();
    if ma > inf || mb > inf {
        return f.quiet();
    }
    if ma == inf || mb == inf {
        if ma == 0 || mb == 0 {
            return f.quiet();
        }
        return join(f, neg, inf);
    }
    let (ka, ea) = unpack(f, ma);
    let (kb, eb) = unpack(f, mb);
    let q = f.quantum_exponent();
    let k: u128;
    proof {
        lemma2_to64();
        assert(ka * kb < 0x400_0000_0000_0000_0000_0000_0000) by (nonlinear_arith)
            requires
                ka < 0x20_0000_0000_0000,
                kb < 0x20_0000_0000_0000,
        ;
    }
    k = (ka as u128) * (kb as u128);
    proof {
        lemma_wide_len(k);
        let e = ea + eb;
        let x = pow2(ea as nat);
        let y = pow2(eb as nat);
        lemma_pow2_adds(ea as nat, eb as nat);
        assert((ka * x) * (kb * y) == (ka * kb) * (x * y)) by (nonlinear_arith);
        lemma_scale_down(f, k as nat, e as nat, q as nat);
    }
    let m = round_scaled(f, k, ea + eb - q);
    join(f, neg, m)
}

/// A product of two significands leaves room in 128 bits.
pub proof fn lemma_wide_len(k: u128)
    requires
        k < 0x4000_0000_0000_0000_0000_0000_0000_0000,
    ensures
        bit_len(k as nat) < 128,
{
    if k > 0 {
        lemma_bit_len(k as nat);
        let l = bit_len(k as nat);
        if l > 127 {
            lemma_pow2_adds(64, 62);
            lemma2_to64();
            lemma2_to64();
            vstd::arithmetic::power2::lemma2_to64_rest();
            lemma_pow2_strictly_increases(126, (l - 1) as nat);
        }
    }
}

/// A magnitude given in squares of the quantum, brought back to quanta.
proof fn lemma_scale_down(f: Format, k: nat, e: nat, q: nat)
    ensures
        rounded(f, k * pow2(e), pow2(q)) == rounded_scaled(f, k, e - q),
{
    if e >= q {
        lemma_pow2_adds((e - q) as nat, q);
        let w = pow2((e - q) as nat);
        assert(k * (w * pow2(q)) == (k * w) * pow2(q)) by (nonlinear_arith);
        assert(1 * pow2(q) == pow2(q));
        lemma_pow2_pos(q);
        crate::rounding::lemma_rounded_cancel(f, k * w, 1, pow2(q));
    } else {
        lemma_pow2_adds((q - e) as nat, e);
        lemma_pow2_pos(e);
        lemma_pow2_pos((q - e) as nat);
        crate::rounding::lemma_rounded_cancel(f, k, pow2((q - e) as nat), pow2(e));
    }
}

} // verus!
