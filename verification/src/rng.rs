//! A deterministic generator of pseudo-random numbers (Xorshift64).
use crate::ieee::{abs, is_finite, join, lemma_wide_len, pattern, value};
use crate::numbers::{double, single, Binary32, Binary64};
use crate::rounding::{
    bit_len, lemma_bit_len, lemma_exact, power_of_two, round_scaled, rounded_scaled, Format,
};
use vstd::arithmetic::power2::{
    lemma2_to64, lemma2_to64_rest, lemma_pow2_adds, lemma_pow2_pos, lemma_pow2_strictly_increases,
    lemma_pow2_unfold, pow2,
};
use vstd::prelude::*;

verus! {

/// A generator that yields the same sequence for the same seed.
#[derive(Debug)]
pub struct DeterministicRng {
    state: u64,
}

/// The state that a seed stands for: zero, from which nothing but zero follows, is replaced.
pub open spec fn seeded(seed: u64) -> u64 {
    if seed == 0 {
        0xDEAD_BEEF_CAFE_BABE
    } else {
        seed
    }
}

/// The state that follows `x`.
pub open spec fn advanced(x: u64) -> u64 {
    let a = x ^ (x << 13);
    let b = a ^ (a >> 7);
    b ^ (b << 17)
}

/// The state after `n` steps from `x`.
pub open spec fn advanced_by(x: u64, n: nat) -> u64
    decreases n,
{
    if n == 0 {
        x
    } else {
        advanced(advanced_by(x, (n - 1) as nat))
    }
}

/// The number `k / 2^(bits - 1) - 1`, where `k` has `bits` bits.
pub open spec fn centred(f: Format, k: nat, bits: nat) -> u64 {
    let v = k - pow2((bits - 1) as nat);
    pattern(f, v < 0, rounded_scaled(f, abs(v), f.quantum() - (bits - 1)))
}

/// The single precision number in `[-1, 1)` that the state `x` stands for: its 23 upper bits
/// `k` give `k / 2^22 - 1`.
pub open spec fn uniform_single(x: u64) -> Binary32 {
    single(centred(Format::Binary32, (x >> 41) as nat, 23))
}

/// The double precision number in `[-1, 1)` that the state `x` stands for: its 53 upper bits
/// `k` give `k / 2^52 - 1`.
pub open spec fn uniform_double(x: u64) -> Binary64 {
    double(centred(Format::Binary64, (x >> 11) as nat, 53))
}

impl View for DeterministicRng {
    type V = u64;

    closed spec fn view(&self) -> u64 {
        self.state
    }
}

impl Clone for DeterministicRng {
    fn clone(&self) -> (r: Self)
        ensures
            r == *self,
            r@ == self@,
    {
        DeterministicRng { state: self.state }
    }
}

impl DeterministicRng {
    /// Seeds the generator.
    pub fn new(seed: u64) -> (r: Self)
        ensures
            r@ == seeded(seed),
            r@ != 0,
    {
        DeterministicRng {
            state: if seed == 0 {
                0xDEAD_BEEF_CAFE_BABE
            } else {
                seed
            },
        }
    }

    /// Advances the state and returns it.
    pub fn next_u64(&mut self) -> (r: u64)
        ensures
            r == advanced(old(self)@),
            final(self)@ == r,
            old(self)@ != 0 ==> r != 0,
    {
        proof {
            lemma_advanced_nonzero(self.state);
        }
        let mut x = self.state;
        x = x ^ (x << 13);
        x = x ^ (x >> 7);
        x = x ^ (x << 17);
        self.state = x;
        x
    }

    /// Advances the state and returns the single precision number in `[-1, 1)` that it stands for.
    pub fn next_f32(&mut self) -> (r: Binary32)
        ensures
            final(self)@ == advanced(old(self)@),
            r == uniform_single(final(self)@),
            r.is_finite(),
            -pow2(149) <= r.value() < pow2(149),
    {
        let x = self.next_u64();
        let k = x >> 41;
        assert(x >> 41 < 0x80_0000) by (bit_vector);
        proof {
            lemma2_to64();
            lemma_centred(Format::Binary32, k as nat, 23);
        }
        Binary32 { bits: centre(Format::Binary32, k, 23) as u32 }
    }

    /// Advances the state and returns the double precision number in `[-1, 1)` that it stands for.
    pub fn next_f64(&mut self) -> (r: Binary64)
        ensures
            final(self)@ == advanced(old(self)@),
            r == uniform_double(final(self)@),
            r.is_finite(),
            -pow2(1074) <= r.value() < pow2(1074),
    {
        let x = self.next_u64();
        let k = x >> 11;
        assert(x >> 11 < 0x20_0000_0000_0000) by (bit_vector);
        proof {
            lemma2_to64_rest();
            lemma_centred(Format::Binary64, k as nat, 53);
        }
        Binary64 { bits: centre(Format::Binary64, k, 53) }
    }
}

/// `centred`.
fn centre(f: Format, k: u64, bits: u32) -> (r: u64)
    requires
        1 <= bits <= 53,
        k < 0x20_0000_0000_0000,
    ensures
        r == centred(f, k as nat, bits as nat),
        f.holds(r),
{
    let half = power_of_two(bits - 1) as u64;
    proof {
        assert(pow2((bits - 1) as nat) <= 0x10_0000_0000_0000) by {
            lemma2_to64();
            lemma2_to64_rest();
            if bits < 53 {
                lemma_pow2_strictly_increases((bits - 1) as nat, 52);
            }
        }
    }
    let (neg, m) = if k < half {
        (true, half - k)
    } else {
        (false, k - half)
    };
    let e: i32 = match f {
        Format::Binary32 => 150 - bits as i32,
        Format::Binary64 => 1075 - bits as i32,
    };
    proof {
        lemma_wide_len(m as u128);
    }
    let b = round_scaled(f, m as u128, e);
    join(f, neg, b)
}

/// The numbers that a generator yields lie in `[-1, 1)`, evenly spread: `k` of `bits` bits gives
/// exactly `k / 2^(bits - 1) - 1`.
pub proof fn lemma_centred(f: Format, k: nat, bits: nat)
    requires
        1 <= bits <= f.precision(),
        k < pow2(bits),
    ensures
        is_finite(f, centred(f, k, bits)),
        value(f, centred(f, k, bits)) == (k - pow2((bits - 1) as nat)) * pow2(
            (f.quantum() - (bits - 1)) as nat,
        ),
        -pow2(f.quantum()) <= value(f, centred(f, k, bits)) < pow2(f.quantum()),
{
    let h = pow2((bits - 1) as nat);
    let v = k - h;
    let e = (f.quantum() - (bits - 1)) as nat;
    let m = abs(v);
    let w = pow2(e);
    lemma_pow2_unfold(bits);
    lemma_pow2_pos(e);
    lemma_pow2_adds((bits - 1) as nat, e);
    assert(bit_len(m) <= bits) by {
        if m > 0 {
            lemma_bit_len(m);
            if bit_len(m) > bits {
                if bits < bit_len(m) - 1 {
                    lemma_pow2_strictly_increases(bits, (bit_len(m) - 1) as nat);
                }
            }
        }
    }
    lemma_exact(f, m, e);
    assert(-(m * w) == (-m) * w) by (nonlinear_arith);
    assert(-(h * w) <= v * w < h * w) by (nonlinear_arith)
        requires
            -h <= v < h,
            w > 0,
    ;
    assert((-h) * w == -(h * w)) by (nonlinear_arith);
}

/// A generator that is not dead never dies.
pub proof fn lemma_advanced_nonzero(x: u64)
    ensures
        x != 0 ==> advanced(x) != 0,
{
    assert(x != 0 ==> x ^ (x << 13) != 0) by (bit_vector);
    let a = x ^ (x << 13);
    assert(a != 0 ==> a ^ (a >> 7) != 0) by (bit_vector);
    let b = a ^ (a >> 7);
    assert(b != 0 ==> b ^ (b << 17) != 0) by (bit_vector);
}

/// The step of the generator keeps exclusive ors, so it is told by where it takes single bits.
pub proof fn lemma_advanced_is_linear(x: u64, y: u64)
    ensures
        advanced(x ^ y) == advanced(x) ^ advanced(y),
{
    assert(({
        let z = x ^ y;
        let a = z ^ (z << 13);
        let b = a ^ (a >> 7);
        b ^ (b << 17)
    }) == ({
        let a = x ^ (x << 13);
        let b = a ^ (a >> 7);
        b ^ (b << 17)
    }) ^ ({
        let a = y ^ (y << 13);
        let b = a ^ (a >> 7);
        b ^ (b << 17)
    })) by (bit_vector);
}

/// Different states are followed by different ones.
pub proof fn lemma_advanced_is_injective(x: u64, y: u64)
    requires
        advanced(x) == advanced(y),
    ensures
        x == y,
{
    lemma_advanced_is_linear(x, y);
    lemma_advanced_nonzero(x ^ y);
    let a = advanced(x);
    assert(a ^ a == 0) by (bit_vector);
    assert(x ^ y == 0 ==> x == y) by (bit_vector);
}

/// Steps add up.
pub proof fn lemma_steps_compose(x: u64, a: nat, b: nat)
    ensures
        advanced_by(x, a + b) == advanced_by(advanced_by(x, a), b),
        advanced_by(x, 0) == x,
        advanced_by(x, 1) == advanced(x),
    decreases b,
{
    reveal_with_fuel(advanced_by, 2);
    if b > 0 {
        lemma_steps_compose(x, a, (b - 1) as nat);
    }
}

/// A seed is the first state, unless it is 0; a seed of 0 stands for a state that is not.
pub proof fn lemma_seeded(seed: u64)
    ensures
        seed != 0 ==> seeded(seed) == seed,
        seeded(seed) != 0,
{
}

/// The single precision number of a state is its 23 upper bits, as a fraction of their range, spread
/// over `[-1, 1)`.
pub proof fn lemma_uniform_single(x: u64)
    ensures
        uniform_single(x).is_finite(),
        uniform_single(x).value() + pow2(149) == (x as nat / pow2(41)) * pow2(127),
{
    let k = x >> 41;
    assert(x >> 41 < 0x80_0000) by (bit_vector);
    vstd::bits::lemma_u64_shr_is_div(x, 41);
    lemma2_to64();
    lemma_centred(Format::Binary32, k as nat, 23);
    lemma_pow2_adds(22, 127);
    let w = pow2(127) as int;
    let h = pow2(22) as int;
    assert((k as int - h) * w + h * w == (k as int) * w) by (nonlinear_arith);
}

/// The double precision number of a state is its 53 upper bits, as a fraction of their range, spread
/// over `[-1, 1)`.
pub proof fn lemma_uniform_double(x: u64)
    ensures
        uniform_double(x).is_finite(),
        uniform_double(x).value() + pow2(1074) == (x as nat / pow2(11)) * pow2(1022),
{
    let k = x >> 11;
    assert(x >> 11 < 0x20_0000_0000_0000) by (bit_vector);
    vstd::bits::lemma_u64_shr_is_div(x, 11);
    lemma2_to64();
    lemma2_to64_rest();
    lemma_centred(Format::Binary64, k as nat, 53);
    lemma_pow2_adds(52, 1022);
    let w = pow2(1022) as int;
    let h = pow2(52) as int;
    assert((k as int - h) * w + h * w == (k as int) * w) by (nonlinear_arith);
}

} // verus!
