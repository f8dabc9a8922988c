//! Rounding to the binary interchange formats of IEEE 754.
//!
//! A finite number of a format is a whole multiple of the format's smallest
//! positive number, its quantum. Every magnitude below is counted in quanta, so
//! all of them are natural numbers, and an exact result that lies between two
//! numbers of the format is a fraction of two natural numbers.
use vstd::arithmetic::div_mod::{
    lemma_fundamental_div_mod, lemma_fundamental_div_mod_converse,
    lemma_mod_bound,
};
use vstd::arithmetic::mul::{lemma_mul_inequality, lemma_mul_strict_inequality};
use vstd::arithmetic::power2::{
    lemma2_to64, lemma_pow2_adds, lemma_pow2_pos, lemma_pow2_strictly_increases, lemma_pow2_unfold,
    pow2,
};
use vstd::prelude::*;

verus! {

/// The two formats in use: single and double precision.
#[derive(Clone, Copy, PartialEq, Eq, Structural, Debug)]
pub enum Format {
    Binary32,
    Binary64,
}

impl Format {
    /// Significant bits, the hidden one included.
    pub open spec fn precision(self) -> nat {
        match self {
            Format::Binary32 => 24,
            Format::Binary64 => 53,
        }
    }

    /// The first value of the exponent field that no finite number has.
    pub open spec fn field_end(self) -> nat {
        match self {
            Format::Binary32 => 255,
            Format::Binary64 => 2047,
        }
    }

    /// One unit of the exponent field within a bit pattern.
    pub open spec fn field_unit(self) -> nat {
        match self {
            Format::Binary32 => 0x80_0000,
            Format::Binary64 => 0x10_0000_0000_0000,
        }
    }

    /// The pattern of positive infinity.
    pub open spec fn infinity(self) -> nat {
        self.field_end() * self.field_unit()
    }

    /// The quantum is two to the power of minus this.
    pub open spec fn quantum(self) -> nat {
        match self {
            Format::Binary32 => 149,
            Format::Binary64 => 1074,
        }
    }
}

/// How many binary digits `n` has.
pub open spec fn bit_len(n: nat) -> nat
    decreases n,
{
    if n == 0 {
        0
    } else {
        1 + bit_len(n / 2)
    }
}

/// The whole number nearest to `n / d`, the even one of two that are equally near.
pub open spec fn nearest(n: nat, d: nat) -> nat {
    let q = n / d;
    let r = n % d;
    if 2 * r < d || (2 * r == d && q % 2 == 0) {
        q
    } else {
        q + 1
    }
}

/// How many low bits of a magnitude with the whole part `q` the format drops.
pub open spec fn excess(f: Format, q: nat) -> nat {
    if bit_len(q) > f.precision() {
        (bit_len(q) - f.precision()) as nat
    } else {
        0
    }
}

/// The pattern, without sign, of the magnitude `n / d` rounded to nearest, ties to even.
pub open spec fn rounded(f: Format, n: nat, d: nat) -> nat {
    let s = excess(f, n / d);
    let b = s * f.field_unit() + nearest(n, d * pow2(s));
    if b < f.infinity() {
        b
    } else {
        f.infinity()
    }
}

/// `rounded` of `k` times two to the power of `e`.
pub open spec fn rounded_scaled(f: Format, k: nat, e: int) -> nat {
    if e >= 0 {
        rounded(f, k * pow2(e as nat), 1)
    } else {
        rounded(f, k, pow2((-e) as nat))
    }
}

/// The magnitude of a finite pattern without sign.
pub open spec fn magnitude(f: Format, m: nat) -> nat {
    let field = m / f.field_unit();
    let fraction = m % f.field_unit();
    if field == 0 {
        fraction
    } else {
        (f.field_unit() + fraction) * pow2((field - 1) as nat)
    }
}

pub proof fn lemma_field_unit(f: Format)
    ensures
        f.field_unit() == pow2((f.precision() - 1) as nat),
        2 * f.field_unit() == pow2(f.precision()),
{
    lemma2_to64();
    lemma_pow2_unfold(53);
    assert(pow2(52) == 0x10_0000_0000_0000) by {
        vstd::arithmetic::power2::lemma2_to64_rest();
    }
}

/// `bit_len` is the one length that brackets a positive number between powers of two.
pub proof fn lemma_bit_len(n: nat)
    requires
        n > 0,
    ensures
        bit_len(n) > 0,
        pow2((bit_len(n) - 1) as nat) <= n < pow2(bit_len(n)),
    decreases n,
{
    lemma2_to64();
    if n == 1 {
        assert(bit_len(0) == 0);
        assert(bit_len(1) == 1 + bit_len(0));
    } else {
        lemma_bit_len(n / 2);
        let l = bit_len(n / 2);
        lemma_pow2_unfold(l);
        lemma_pow2_unfold(l + 1);
    }
}

/// A number between two neighbouring powers of two has the length of the upper one.
pub proof fn lemma_bit_len_unique(n: nat, l: nat)
    requires
        l > 0,
        pow2((l - 1) as nat) <= n < pow2(l),
    ensures
        bit_len(n) == l,
{
    lemma_pow2_pos((l - 1) as nat);
    lemma_bit_len(n);
    let b = bit_len(n);
    if b < l {
        if b < l - 1 {
            lemma_pow2_strictly_increases(b, (l - 1) as nat);
        }
    } else if b > l {
        if l < b - 1 {
            lemma_pow2_strictly_increases(l, (b - 1) as nat);
        }
    }
}

proof fn lemma_bit_len_scale(k: nat, e: nat)
    requires
        k > 0,
    ensures
        k * pow2(e) > 0,
        bit_len(k * pow2(e)) == bit_len(k) + e,
{
    lemma_bit_len(k);
    lemma_pow2_pos(e);
    let l = bit_len(k);
    lemma_pow2_adds((l - 1) as nat, e);
    lemma_pow2_adds(l, e);
    lemma_mul_inequality(pow2((l - 1) as nat) as int, k as int, pow2(e) as int);
    lemma_mul_strict_inequality(k as int, pow2(l) as int, pow2(e) as int);
    lemma_pow2_pos((l - 1 + e) as nat);
    lemma_bit_len_unique(k * pow2(e), l + e);
}

pub proof fn lemma_bit_len_shift(k: nat, j: nat)
    ensures
        bit_len(k / pow2(j)) == if bit_len(k) > j {
            (bit_len(k) - j) as nat
        } else {
            0
        },
{
    lemma_pow2_pos(j);
    if k == 0 {
        assert(0nat / pow2(j) == 0) by (nonlinear_arith)
            requires
                pow2(j) > 0,
        ;
    } else {
        lemma_bit_len(k);
        let l = bit_len(k);
        let d = pow2(j);
        let q = k / d;
        lemma_fundamental_div_mod(k as int, d as int);
        lemma_mod_bound(k as int, d as int);
        if l <= j {
            if l < j {
                lemma_pow2_strictly_increases(l, j);
            }
            assert(q == 0) by (nonlinear_arith)
                requires
                    k == d * q + k % d,
                    0 <= k % d,
                    k < d,
                    q >= 0,
                    d > 0,
            ;
        } else {
            let lo = pow2((l - 1 - j) as nat);
            let hi = pow2((l - j) as nat);
            lemma_pow2_adds((l - 1 - j) as nat, j);
            lemma_pow2_adds((l - j) as nat, j);
            assert(lo <= q) by (nonlinear_arith)
                requires
                    k == d * q + k % d,
                    k % d < d,
                    lo * d <= k,
                    d > 0,
            ;
            assert(q < hi) by (nonlinear_arith)
                requires
                    k == d * q + k % d,
                    0 <= k % d,
                    k < hi * d,
                    d > 0,
            ;
            lemma_bit_len_unique(q, (l - j) as nat);
        }
    }
}

proof fn lemma_nearest_of_multiple(a: nat, d: nat)
    requires
        d > 0,
    ensures
        nearest(a * d, d) == a,
{
    lemma_fundamental_div_mod_converse((a * d) as int, d as int, a as int, 0);
}

pub proof fn lemma_nearest_scale(n: nat, d: nat, c: nat)
    requires
        d > 0,
        c > 0,
    ensures
        nearest(n * c, d * c) == nearest(n, d),
{
    let q = n / d;
    let r = n % d;
    lemma_fundamental_div_mod(n as int, d as int);
    lemma_mod_bound(n as int, d as int);
    assert(n * c == q * (d * c) + r * c) by (nonlinear_arith)
        requires
            n == d * q + r,
    ;
    assert(0 <= r * c < d * c) by (nonlinear_arith)
        requires
            0 <= r < d,
            c > 0,
    ;
    assert(d * c > 0) by (nonlinear_arith)
        requires
            d > 0,
            c > 0,
    ;
    lemma_fundamental_div_mod_converse((n * c) as int, (d * c) as int, q as int, (r * c) as int);
    assert((2 * r < d) == (2 * (r * c) < d * c)) by (nonlinear_arith)
        requires
            c > 0,
    ;
    assert((2 * r == d) == (2 * (r * c) == d * c)) by (nonlinear_arith)
        requires
            c > 0,
    ;
}

/// A common factor of the fraction does not matter.
pub proof fn lemma_rounded_cancel(f: Format, n: nat, d: nat, c: nat)
    requires
        d > 0,
        c > 0,
    ensures
        rounded(f, n * c, d * c) == rounded(f, n, d),
{
    let q = n / d;
    let r = n % d;
    lemma_fundamental_div_mod(n as int, d as int);
    lemma_mod_bound(n as int, d as int);
    assert(n * c == q * (d * c) + r * c) by (nonlinear_arith)
        requires
            n == d * q + r,
    ;
    assert(0 <= r * c < d * c) by (nonlinear_arith)
        requires
            0 <= r < d,
            c > 0,
    ;
    lemma_fundamental_div_mod_converse((n * c) as int, (d * c) as int, q as int, (r * c) as int);
    let w = pow2(excess(f, q));
    lemma_pow2_pos(excess(f, q));
    assert((d * c) * w == (d * w) * c) by (nonlinear_arith);
    assert(d * w > 0) by (nonlinear_arith)
        requires
            d > 0,
            w > 0,
    ;
    lemma_nearest_scale(n, d * w, c);
}

/// How many low bits are dropped from `k` times two to the power of `e`, counted in quanta.
pub open spec fn drop_len(f: Format, k: nat, e: int) -> nat {
    if bit_len(k) + e > f.precision() {
        (bit_len(k) + e - f.precision()) as nat
    } else {
        0
    }
}

/// What is left of `k` once the digits below position `t` are rounded away.
pub open spec fn kept(k: nat, t: int) -> nat {
    if t <= 0 {
        k * pow2((-t) as nat)
    } else {
        nearest(k, pow2(t as nat))
    }
}

/// Rounding works on the digits of `k` alone.
pub proof fn lemma_rounded_scaled(f: Format, k: nat, e: int)
    requires
        k > 0,
    ensures
        ({
            let s = drop_len(f, k, e);
            let b = s * f.field_unit() + kept(k, s - e);
            rounded_scaled(f, k, e) == if b < f.infinity() {
                b
            } else {
                f.infinity()
            }
        }),
{
    let s = drop_len(f, k, e);
    lemma_pow2_pos(s);
    if e >= 0 {
        let n = k * pow2(e as nat);
        lemma_pow2_pos(e as nat);
        lemma_bit_len_scale(k, e as nat);
        assert(n / 1 == n);
        assert(excess(f, n / 1) == s);
        assert(1 * pow2(s) == pow2(s));
        if s <= e {
            lemma_pow2_adds((e - s) as nat, s);
            let w = pow2((e - s) as nat);
            assert(k * (w * pow2(s)) == (k * w) * pow2(s)) by (nonlinear_arith);
            lemma_nearest_of_multiple(k * w, pow2(s));
        } else {
            lemma_pow2_adds((s - e) as nat, e as nat);
            lemma_pow2_pos((s - e) as nat);
            lemma_nearest_scale(k, pow2((s - e) as nat), pow2(e as nat));
        }
    } else {
        lemma_bit_len_shift(k, (-e) as nat);
        lemma_pow2_adds((-e) as nat, s);
    }
}

/// Zero is rounded to zero.
pub proof fn lemma_rounded_zero(f: Format, e: int)
    ensures
        rounded_scaled(f, 0, e) == 0,
{
    lemma_field_unit(f);
    let d = if e >= 0 {
        1
    } else {
        pow2((-e) as nat)
    };
    if e >= 0 {
        lemma_pow2_pos(e as nat);
    } else {
        lemma_pow2_pos((-e) as nat);
    }
    lemma2_to64();
    assert(0nat * pow2(e as nat) == 0);
    lemma_fundamental_div_mod_converse(0, d as int, 0, 0);
    assert(bit_len(0) == 0);
    assert(d * pow2(0) == d);
    assert(nearest(0, d) == 0);
}

/// At most as many digits are kept as the precision has room for, or the next power of two.
pub proof fn lemma_kept_bound(f: Format, k: nat, e: int)
    requires
        k > 0,
    ensures
        kept(k, drop_len(f, k, e) - e) <= 2 * f.field_unit(),
        drop_len(f, k, e) - e <= 0 ==> e - drop_len(f, k, e) <= f.precision(),
{
    let s = drop_len(f, k, e);
    let t = s - e;
    let p = f.precision();
    lemma_field_unit(f);
    lemma_bit_len(k);
    if t <= 0 {
        lemma_bit_len_scale(k, (-t) as nat);
        let n = k * pow2((-t) as nat);
        lemma_bit_len(n);
        assert(bit_len(n) <= p);
        if bit_len(n) < p {
            lemma_pow2_strictly_increases(bit_len(n), p);
        }
        assert(n < pow2(p));
        assert(kept(k, t) == n);
    } else {
        let q = k / pow2(t as nat);
        lemma_bit_len_shift(k, t as nat);
        lemma_pow2_pos(p);
        let m = kept(k, t);
        assert(m == q || m == q + 1);
        assert(bit_len(q) <= p);
        if q > 0 {
            lemma_bit_len(q);
            if bit_len(q) < p {
                lemma_pow2_strictly_increases(bit_len(q), p);
            }
        }
        let top = pow2(p);
        assert(q < top);
        assert(m <= top) by (nonlinear_arith)
            requires
                m == q || m == q + 1,
                q < top,
        ;
    }
}

/// The magnitude of a pattern that is put together from an exponent and digits.
pub proof fn lemma_magnitude(f: Format, s: nat, m: nat)
    requires
        m <= 2 * f.field_unit(),
        s > 0 ==> m >= f.field_unit(),
    ensures
        magnitude(f, s * f.field_unit() + m) == m * pow2(s),
{
    let unit = f.field_unit();
    let b = s * unit + m;
    lemma2_to64();
    if m < unit {
        lemma_fundamental_div_mod_converse(b as int, unit as int, 0, m as int);
    } else if m < 2 * unit {
        assert(b == (s + 1) * unit + (m - unit)) by (nonlinear_arith)
            requires
                b == s * unit + m,
        ;
        lemma_fundamental_div_mod_converse(b as int, unit as int, (s + 1) as int, m - unit);
    } else {
        assert(b == (s + 2) * unit + 0) by (nonlinear_arith)
            requires
                b == s * unit + 2 * unit,
        ;
        lemma_fundamental_div_mod_converse(b as int, unit as int, (s + 2) as int, 0);
        lemma_pow2_unfold(s + 1);
        assert(unit * (2 * pow2(s)) == (2 * unit) * pow2(s)) by (nonlinear_arith);
    }
}

/// A magnitude that has room in the format is not changed by rounding.
pub proof fn lemma_exact(f: Format, k: nat, e: nat)
    requires
        bit_len(k) <= f.precision(),
        bit_len(k) + e < f.field_end() + f.precision() - 1,
    ensures
        rounded_scaled(f, k, e as int) < f.infinity(),
        magnitude(f, rounded_scaled(f, k, e as int)) == k * pow2(e),
{
    lemma_field_unit(f);
    let unit = f.field_unit();
    if k == 0 {
        lemma_rounded_zero(f, e as int);
        lemma_fundamental_div_mod_converse(0, unit as int, 0, 0);
    } else {
        lemma_rounded_scaled(f, k, e as int);
        lemma_kept_bound(f, k, e as int);
        lemma_bit_len(k);
        let s = drop_len(f, k, e as int);
        let m = kept(k, s - e);
        assert(s <= e);
        let w = (e - s) as nat;
        lemma_bit_len_scale(k, w);
        lemma_bit_len(m);
        if bit_len(m) < f.precision() {
            lemma_pow2_strictly_increases(bit_len(m), f.precision());
        }
        assert(m < 2 * unit);
        if s > 0 {
            assert(bit_len(m) == f.precision());
        }
        assert(s * unit + m < f.field_end() * unit) by (nonlinear_arith)
            requires
                s + 2 <= f.field_end(),
                m < 2 * unit,
                unit > 0,
        ;
        lemma_magnitude(f, s, m);
        lemma_pow2_adds(w, s);
        assert((k * pow2(w)) * pow2(s) == k * (pow2(w) * pow2(s))) by (nonlinear_arith);
    }
}

proof fn lemma_nearest_tiny(k: nat, t: nat)
    requires
        bit_len(k) < t,
    ensures
        nearest(k, pow2(t)) == 0,
{
    lemma_pow2_unfold(t);
    lemma_pow2_pos((t - 1) as nat);
    if k > 0 {
        lemma_bit_len(k);
        if bit_len(k) < t - 1 {
            lemma_pow2_strictly_increases(bit_len(k), (t - 1) as nat);
        }
    }
    lemma_fundamental_div_mod_converse(k as int, pow2(t) as int, 0, k as int);
}

proof fn lemma_leading_zeros(i: u64)
    ensures
        vstd::std_specs::bits::u64_leading_zeros(i) == 64 - bit_len(i as nat),
    decreases i,
{
    reveal_with_fuel(vstd::std_specs::bits::u64_leading_zeros, 2);
    if i != 0 {
        lemma_leading_zeros(i / 2);
    }
}

/// `bit_len` of a wide integer.
pub fn wide_bit_len(k: u128) -> (l: u32)
    ensures
        l == bit_len(k as nat),
        l <= 128,
{
    let hi: u64 = (k >> 64u128) as u64;
    proof {
        assert(k >> 64u128 <= 0xffff_ffff_ffff_ffffu128) by (bit_vector);
        lemma2_to64();
        vstd::bits::lemma_u128_shr_is_div(k, 64);
        lemma_bit_len_shift(k as nat, 64);
        lemma_leading_zeros(hi);
    }
    if hi > 0 {
        proof {
            lemma_bit_len(hi as nat);
        }
        128 - hi.leading_zeros()
    } else {
        let lo: u64 = k as u64;
        proof {
            assert(k >> 64u128 == 0 ==> (k as u64) as u128 == k) by (bit_vector);
            lemma_leading_zeros(lo);
        }
        64 - lo.leading_zeros()
    }
}

/// Two to the power of `s`.
pub fn power_of_two(s: u32) -> (r: u128)
    requires
        s < 128,
    ensures
        r == pow2(s as nat),
{
    proof {
        lemma_one_shl(s as u128);
    }
    1u128 << (s as u128)
}

proof fn lemma_one_shl(s: u128)
    requires
        s < 128,
    ensures
        (1u128 << s) == pow2(s as nat),
    decreases s,
{
    if s == 0 {
        assert(1u128 << 0u128 == 1u128) by (bit_vector);
        lemma2_to64();
    } else {
        let b: u128 = (s - 1) as u128;
        lemma_one_shl(b);
        lemma_pow2_unfold(s as nat);
        assert(1u128 << s == 2 * (1u128 << b)) by (bit_vector)
            requires
                s == b + 1,
                s < 128,
        ;
    }
}

/// `nearest` where the divisor is two to the power of `t`.
fn nearest_power(k: u128, t: u32) -> (r: u128)
    requires
        0 < t < 128,
    ensures
        r == nearest(k as nat, pow2(t as nat)),
        r <= k + 1,
{
    let d = power_of_two(t);
    let q = k >> (t as u128);
    proof {
        vstd::bits::lemma_u128_shr_is_div(k, t as u128);
        lemma_pow2_pos(t as nat);
        lemma_fundamental_div_mod(k as int, d as int);
        lemma_mod_bound(k as int, d as int);
        lemma_pow2_unfold(t as nat);
        assert(d * q <= k);
        assert(q * 2 <= k) by (nonlinear_arith)
            requires
                d * q <= k,
                d >= 2,
                q >= 0,
        ;
        lemma_pow2_pos((t - 1) as nat);
    }
    let r = k - q * d;
    let half = d / 2;
    if r < half || (r == half && q % 2 == 0) {
        q
    } else {
        q + 1
    }
}

impl Format {
    fn precision_bits(self) -> (p: i32)
        ensures
            p == self.precision(),
    {
        match self {
            Format::Binary32 => 24,
            Format::Binary64 => 53,
        }
    }

    fn unit(self) -> (u: u64)
        ensures
            u == self.field_unit(),
    {
        match self {
            Format::Binary32 => 0x80_0000,
            Format::Binary64 => 0x10_0000_0000_0000,
        }
    }

    fn end(self) -> (e: u64)
        ensures
            e == self.field_end(),
    {
        match self {
            Format::Binary32 => 255,
            Format::Binary64 => 2047,
        }
    }
}

/// The pattern without sign of `k` times two to the power of `e`, in quanta.
pub fn round_scaled(f: Format, k: u128, e: i32) -> (r: u64)
    requires
        bit_len(k as nat) < 128,
        -100_000 < e < 100_000,
    ensures
        r == rounded_scaled(f, k as nat, e as int),
        r <= f.infinity(),
{
    let unit = f.unit();
    let end = f.end();
    proof {
        lemma_field_unit(f);
    }
    if k == 0 {
        proof {
            lemma_rounded_zero(f, e as int);
        }
        return 0;
    }
    let l = wide_bit_len(k) as i32;
    let p = f.precision_bits();
    let s: i32 = if l + e > p {
        l + e - p
    } else {
        0
    };
    proof {
        lemma_rounded_scaled(f, k as nat, e as int);
        lemma_kept_bound(f, k as nat, e as int);
        assert(s == drop_len(f, k as nat, e as int));
    }
    if s >= end as i32 {
        proof {
            lemma_mul_inequality(end as int, s as int, unit as int);
        }
        return end * unit;
    }
    let t = s - e;
    proof {
        lemma_mul_inequality(s as int, end as int, unit as int);
    }
    let m: u64 = if t <= 0 {
        (k * power_of_two((-t) as u32)) as u64
    } else if t < 128 {
        nearest_power(k, t as u32) as u64
    } else {
        proof {
            lemma_nearest_tiny(k as nat, t as nat);
        }
        0
    };
    let b = (s as u64) * unit + m;
    if b < end * unit {
        b
    } else {
        end * unit
    }
}

} // verus!
