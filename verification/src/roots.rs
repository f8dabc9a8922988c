//! Reciprocals and square roots in double precision.
use crate::ieee::{body, is_infinite, is_nan, join, negative, pattern, split, unpack};
use crate::rounding::{
    bit_len, excess, kept, drop_len, lemma_bit_len, lemma_bit_len_shift, lemma_bit_len_unique,
    lemma_nearest_scale, lemma_rounded_cancel, lemma_rounded_scaled, magnitude, nearest,
    power_of_two, round_scaled, rounded, rounded_scaled, wide_bit_len, Format,
};
use vstd::arithmetic::div_mod::{
    lemma_div_denominator, lemma_fundamental_div_mod, lemma_fundamental_div_mod_converse,
    lemma_mod_bound,
};
use vstd::arithmetic::power2::{
    lemma2_to64, lemma_pow2_adds, lemma_pow2_pos, lemma_pow2_strictly_increases, lemma_pow2_unfold,
    pow2,
};
use vstd::prelude::*;

verus! {

/// Twice the whole part of `n / d`, and 1 more where there is a fraction.
pub open spec fn marked(n: nat, d: nat) -> nat {
    2 * (n / d) + if n % d == 0 {
        0nat
    } else {
        1
    }
}

/// `rounded` of `n / d` times two to the power of `y`.
pub open spec fn ratio_scaled(f: Format, n: nat, d: nat, y: int) -> nat {
    if y >= 0 {
        rounded(f, n * pow2(y as nat), d)
    } else {
        rounded(f, n, d * pow2((-y) as nat))
    }
}

proof fn lemma_nearest_marked(n: nat, d: nat, t: nat)
    requires
        d > 0,
        t > 0,
    ensures
        nearest(n, d * pow2(t)) == nearest(marked(n, d), pow2(t + 1)),
{
    let w = pow2(t);
    let half = pow2((t - 1) as nat);
    let q = n / d;
    let r = n % d;
    let a = q / w;
    let b = q % w;
    let mark: nat = if r == 0 {
        0
    } else {
        1
    };
    lemma_pow2_pos(t);
    lemma_pow2_unfold(t);
    lemma_pow2_unfold(t + 1);
    lemma_fundamental_div_mod(n as int, d as int);
    lemma_mod_bound(n as int, d as int);
    lemma_fundamental_div_mod(q as int, w as int);
    lemma_mod_bound(q as int, w as int);
    let x = d * b + r;
    let dw = d * w;
    assert(n == a * dw + x) by (nonlinear_arith)
        requires
            n == d * q + r,
            q == w * a + b,
            dw == d * w,
            x == d * b + r,
    ;
    assert(0 <= x < dw) by (nonlinear_arith)
        requires
            0 <= r < d,
            0 <= b,
            b + 1 <= w,
            dw == d * w,
            x == d * b + r,
    ;
    lemma_fundamental_div_mod_converse(n as int, dw as int, a as int, x as int);
    let m = marked(n, d);
    let z = 2 * b + mark;
    assert(m == a * (2 * w) + z) by (nonlinear_arith)
        requires
            m == 2 * q + mark,
            q == w * a + b,
            z == 2 * b + mark,
    ;
    lemma_fundamental_div_mod_converse(m as int, (2 * w) as int, a as int, z as int);
    assert(dw == 2 * (d * half)) by (nonlinear_arith)
        requires
            dw == d * w,
            w == 2 * half,
    ;
    if b < half {
        assert(x < d * half) by (nonlinear_arith)
            requires
                x == d * b + r,
                r < d,
                b + 1 <= half,
        ;
    } else if b == half {
        assert(x == d * half + r);
    } else {
        assert(x > d * half) by (nonlinear_arith)
            requires
                x == d * b + r,
                0 <= r,
                d > 0,
                b >= half + 1,
        ;
    }
}

/// For rounding, all that matters of the digits below the whole part is whether there are any,
/// as long as the whole part has more digits than the format keeps.
pub proof fn lemma_marked(f: Format, n: nat, d: nat, y: int)
    requires
        d > 0,
        bit_len(n / d) > f.precision(),
    ensures
        ratio_scaled(f, n, d, y) == rounded_scaled(f, marked(n, d), y - 1),
{
    let p = f.precision();
    let q = n / d;
    let l = bit_len(q);
    let m = marked(n, d);
    assert(m / 2 == q);
    assert(q > 0) by {
        if q == 0 {
            assert(bit_len(0) == 0);
        }
    }
    assert(bit_len(m) == l + 1);
    lemma_bit_len(q);
    lemma_fundamental_div_mod(n as int, d as int);
    lemma_mod_bound(n as int, d as int);
    lemma_rounded_scaled(f, m, y - 1);
    let s = drop_len(f, m, y - 1);
    if y >= 0 {
        let w = pow2(y as nat);
        lemma_pow2_pos(y as nat);
        let big = n * w;
        let t = (l - p) as nat;
        assert(s == y + t);
        lemma_pow2_adds((l - 1) as nat, y as nat);
        lemma_pow2_adds(l, y as nat);
        let lo = pow2((l - 1) as nat);
        let hi = pow2(l);
        let r = n % d;
        assert(d * (lo * w) <= big) by (nonlinear_arith)
            requires
                big == n * w,
                n == d * q + r,
                0 <= r,
                lo <= q,
                w > 0,
        ;
        assert(big < d * (hi * w)) by (nonlinear_arith)
            requires
                big == n * w,
                n == d * q + r,
                r < d,
                q + 1 <= hi,
                w > 0,
        ;
        let g = big / d;
        lemma_fundamental_div_mod(big as int, d as int);
        lemma_mod_bound(big as int, d as int);
        let v = big % d;
        assert(lo * w <= g) by (nonlinear_arith)
            requires
                big == d * g + v,
                v < d,
                d * (lo * w) <= big,
                d > 0,
        ;
        assert(g < hi * w) by (nonlinear_arith)
            requires
                big == d * g + v,
                0 <= v,
                big < d * (hi * w),
                d > 0,
        ;
        lemma_bit_len_unique(g, (l + y) as nat);
        assert(excess(f, g) == s);
        lemma_pow2_adds(t, y as nat);
        lemma_pow2_pos(t);
        let u = pow2(t);
        assert(d * (u * w) == (d * u) * w) by (nonlinear_arith);
        assert(d * u > 0) by (nonlinear_arith)
            requires
                d > 0,
                u > 0,
        ;
        lemma_nearest_scale(n, d * u, w);
        lemma_nearest_marked(n, d, t);
        assert(kept(m, s - (y - 1)) == nearest(m, pow2(t + 1)));
    } else {
        let z = (-y) as nat;
        let w = pow2(z);
        lemma_pow2_pos(z);
        lemma_div_denominator(n as int, d as int, w as int);
        assert(n / (d * w) == q / w);
        lemma_bit_len_shift(q, z);
        assert(excess(f, n / (d * w)) == s);
        lemma_pow2_adds(z, s);
        assert((d * w) * pow2(s) == d * (w * pow2(s))) by (nonlinear_arith);
        lemma_nearest_marked(n, d, z + s);
        assert(kept(m, s - (y - 1)) == nearest(m, pow2(z + s + 1)));
    }
}

/// The pattern nearest to 1 divided by the number that `a` stands for.
pub open spec fn inverse(a: u64) -> u64 {
    let f = Format::Binary64;
    if is_nan(f, a) {
        f.nan()
    } else if is_infinite(f, a) {
        pattern(f, negative(f, a), 0)
    } else if body(f, a) == 0 {
        pattern(f, negative(f, a), f.infinity())
    } else {
        pattern(f, negative(f, a), rounded(f, pow2(2148), magnitude(f, body(f, a))))
    }
}

/// The whole part of the square root of `n`.
pub open spec fn floor_root(n: nat) -> nat {
    choose|r: nat| r * r <= n < #[trigger] ((r + 1) * (r + 1))
}

/// The pattern nearest to the square root of the number that `a` stands for. The square root of a
/// magnitude of `v` quanta is that of `v * 2^1074`, counted in quanta: a number of more than 500
/// digits, of which only the first 53 and whether it is whole enter into the rounding.
pub open spec fn square_root(a: u64) -> u64 {
    let f = Format::Binary64;
    if is_nan(f, a) || (negative(f, a) && body(f, a) != 0) {
        f.nan()
    } else if body(f, a) == 0 || is_infinite(f, a) {
        a
    } else {
        let n = magnitude(f, body(f, a)) * pow2(1074);
        let r = floor_root(n);
        rounded(
            f,
            2 * r + if r * r == n {
                0nat
            } else {
                1
            },
            2,
        ) as u64
    }
}

/// 1 divided by the magnitude `k * 2^e`, from a quotient of 128-bit numbers.
proof fn lemma_inverse(k: nat, e: nat)
    requires
        0 < k < pow2(53),
    ensures
        rounded(Format::Binary64, pow2(2148), k * pow2(e)) == rounded_scaled(
            Format::Binary64,
            marked(pow2(124), k),
            2023 - e,
        ),
{
    let f = Format::Binary64;
    let n = pow2(124);
    let q = n / k;
    let r = n % k;
    let y = 2024 - e;
    lemma_pow2_adds(53, 71);
    lemma_pow2_pos(71);
    lemma_pow2_pos(e);
    lemma_fundamental_div_mod(n as int, k as int);
    lemma_mod_bound(n as int, k as int);
    let w = pow2(71);
    let c = pow2(53);
    assert(q >= w) by (nonlinear_arith)
        requires
            c * w == k * q + r,
            r < k,
            k < c,
            0 < w,
    ;
    lemma_bit_len(q);
    if bit_len(q) <= 53 {
        if bit_len(q) < 71 {
            lemma_pow2_strictly_increases(bit_len(q), 71);
        }
    }
    lemma_marked(f, n, k, y);
    if y >= 0 {
        let z = y as nat;
        lemma_pow2_adds(124, z);
        lemma_pow2_adds(124 + z, e);
        assert(124 + z + e == 2148);
        lemma_rounded_cancel(f, n * pow2(z), k, pow2(e));
    } else {
        let z = (-y) as nat;
        lemma_pow2_pos(z);
        lemma_pow2_adds(z, 2024);
        lemma_pow2_adds(124, 2024);
        lemma_pow2_pos(2024);
        let v = pow2(z);
        let u = pow2(2024);
        assert(e == z + 2024);
        assert((k * v) * u == k * (v * u)) by (nonlinear_arith);
        assert(k * v > 0) by (nonlinear_arith)
            requires
                k > 0,
                v > 0,
        ;
        lemma_rounded_cancel(f, n, k * v, u);
    }
}

/// `inverse`.
pub fn invert(a: u64) -> (r: u64)
    ensures
        r == inverse(a),
{
    let f = Format::Binary64;
    let (neg, m) = split(f, a);
    let inf = f.infinite();
    if m > inf {
        return f.quiet();
    }
    if m == inf {
        return join(f, neg, 0);
    }
    if m == 0 {
        return join(f, neg, inf);
    }
    let (k, e) = unpack(f, m);
    let n = power_of_two(124);
    let wide = k as u128;
    proof {
        lemma2_to64();
        lemma_pow2_adds(52, 1);
        crate::rounding::lemma_field_unit(f);
        lemma_inverse(k as nat, e as nat);
        lemma_pow2_adds(64, 60);
        vstd::arithmetic::power2::lemma2_to64_rest();
        lemma_fundamental_div_mod(n as int, k as int);
        lemma_mod_bound(n as int, k as int);
        let q = n / wide;
        let x = n % wide;
        assert(q <= n) by (nonlinear_arith)
            requires
                n == wide * q + x,
                0 <= x,
                wide >= 1,
                q >= 0,
        ;
    }
    let q = n / wide;
    let digits: u128 = 2 * q + if n % wide == 0 {
        0
    } else {
        1
    };
    proof {
        crate::ieee::lemma_wide_len(digits);
    }
    join(f, neg, round_scaled(f, digits, 2023 - e))
}

proof fn lemma_floor_root(n: nat, r: nat)
    requires
        r * r <= n < (r + 1) * (r + 1),
    ensures
        floor_root(n) == r,
{
    let g = floor_root(n);
    assert(r * r <= n < (r + 1) * (r + 1));
    assert(g * g <= n < (g + 1) * (g + 1));
    assert(g == r) by (nonlinear_arith)
        requires
            g * g <= n,
            n < (g + 1) * (g + 1),
            r * r <= n,
            n < (r + 1) * (r + 1),
            g >= 0,
            r >= 0,
    ;
}

pub proof fn lemma_floor_root_exists(n: nat)
    ensures
        floor_root(n) * floor_root(n) <= n < (floor_root(n) + 1) * (floor_root(n) + 1),
    decreases n,
{
    if n == 0 {
        let r: nat = 0;
        assert(r * r <= n < (r + 1) * (r + 1)) by (nonlinear_arith)
            requires
                r == 0,
                n == 0,
        ;
        lemma_floor_root(n, r);
    } else {
        let m = (n - 1) as nat;
        lemma_floor_root_exists(m);
        let r = floor_root(m);
        if n < (r + 1) * (r + 1) {
            lemma_floor_root(n, r);
        } else {
            let g = r + 1;
            assert(g * g <= n < (g + 1) * (g + 1)) by (nonlinear_arith)
                requires
                    n == m + 1,
                    m < g * g,
                    n >= g * g,
                    g >= 0,
            ;
            lemma_floor_root(n, g);
        }
    }
}

/// The square root of `m * 4^h`, from that of `m`.
proof fn lemma_square_root(m: nat, h: nat, s: nat)
    requires
        s * s <= m < (s + 1) * (s + 1),
        bit_len(s) > 53,
    ensures
        ({
            let n = m * pow2(2 * h);
            let r = floor_root(n);
            let digits = 2 * r + if r * r == n {
                0nat
            } else {
                1
            };
            rounded(Format::Binary64, digits, 2) == rounded_scaled(
                Format::Binary64,
                2 * s + if s * s == m {
                    0nat
                } else {
                    1
                },
                h - 1,
            )
        }),
{
    let f = Format::Binary64;
    let w = pow2(h);
    let n = m * pow2(2 * h);
    lemma_pow2_pos(h);
    lemma_pow2_adds(h, h);
    assert(n == m * (w * w));
    lemma_floor_root_exists(n);
    let r = floor_root(n);
    assert((s * w) * (s * w) <= n < ((s + 1) * w) * ((s + 1) * w)) by {
        assert((s * w) * (s * w) == (s * s) * (w * w)) by (nonlinear_arith);
        assert(((s + 1) * w) * ((s + 1) * w) == ((s + 1) * (s + 1)) * (w * w)) by (nonlinear_arith);
        let ww = w * w;
        assert(ww > 0) by (nonlinear_arith)
            requires
                w > 0,
                ww == w * w,
        ;
        let lo = s * s;
        let hi = (s + 1) * (s + 1);
        assert(lo * ww <= m * ww < hi * ww) by (nonlinear_arith)
            requires
                lo <= m < hi,
                ww > 0,
        ;
    }
    let lo = s * w;
    let hi = (s + 1) * w;
    assert(lo <= r < hi) by (nonlinear_arith)
        requires
            lo * lo <= n,
            n < hi * hi,
            r * r <= n,
            n < (r + 1) * (r + 1),
            lo >= 0,
            hi >= 0,
            r >= 0,
    ;
    let mark: nat = if r * r == n {
        0
    } else {
        1
    };
    let digits = 2 * r + mark;
    let b = (r - lo) as nat;
    assert(hi == lo + w) by (nonlinear_arith)
        requires
            lo == s * w,
            hi == (s + 1) * w,
    ;
    assert(digits == s * (2 * w) + (2 * b + mark)) by (nonlinear_arith)
        requires
            digits == 2 * r + mark,
            r == lo + b,
            lo == s * w,
    ;
    lemma_pow2_unfold(h + 1);
    lemma_fundamental_div_mod_converse(
        digits as int,
        (2 * w) as int,
        s as int,
        (2 * b + mark) as int,
    );
    assert(digits % (2 * w) == 0 <==> s * s == m) by {
        let ww = w * w;
        assert(lo * lo == (s * s) * ww) by (nonlinear_arith)
            requires
                lo == s * w,
                ww == w * w,
        ;
        assert(ww > 0) by (nonlinear_arith)
            requires
                w > 0,
                ww == w * w,
        ;
        if s * s == m {
            assert(lo * lo == n);
            assert(lo == r) by (nonlinear_arith)
                requires
                    lo * lo == n,
                    r * r <= n,
                    n < (r + 1) * (r + 1),
                    lo >= 0,
                    r >= 0,
            ;
        }
        if b == 0 && mark == 0 {
            let ss = s * s;
            assert(ss == m) by (nonlinear_arith)
                requires
                    ss * ww == m * ww,
                    ww > 0,
            ;
        }
    }
    assert(marked(digits, 2 * w) == 2 * s + if s * s == m {
        0nat
    } else {
        1
    });
    lemma_marked(f, digits, 2 * w, h as int);
    lemma_rounded_cancel(f, digits, 2, w);
}

/// The whole part of the square root of `n`.
fn wide_root(n: u128) -> (r: u128)
    requires
        n < pow2(120),
    ensures
        r * r <= n < (r + 1) * (r + 1),
        r < pow2(60),
{
    let mut r: u128 = 0;
    let mut bit: u32 = 60;
    proof {
        lemma_pow2_adds(60, 60);
        lemma2_to64();
        vstd::arithmetic::power2::lemma2_to64_rest();
        let w = pow2(60);
        assert((0 + w) * (0 + w) == w * w) by (nonlinear_arith);
    }
    while bit > 0
        invariant
            bit <= 60,
            n < pow2(120),
            pow2(60) == 0x1000_0000_0000_0000,
            r * r <= n < (r + pow2(bit as nat)) * (r + pow2(bit as nat)),
            r + pow2(bit as nat) <= pow2(60),
        decreases bit,
    {
        proof {
            lemma_pow2_unfold(bit as nat);
            lemma_pow2_pos((bit - 1) as nat);
        }
        bit = bit - 1;
        let next = r + power_of_two(bit);
        assert(next * next < 0x1000_0000_0000_0000 * 0x1000_0000_0000_0000) by (nonlinear_arith)
            requires
                next < 0x1000_0000_0000_0000,
                next >= 0,
        ;
        if next * next <= n {
            r = next;
        }
    }
    proof {
        lemma2_to64();
    }
    r
}

/// `square_root`.
pub fn take_root(a: u64) -> (r: u64)
    ensures
        r == square_root(a),
{
    let f = Format::Binary64;
    let (neg, b) = split(f, a);
    let inf = f.infinite();
    if b > inf || (neg && b != 0) {
        return f.quiet();
    }
    if b == 0 || b == inf {
        return a;
    }
    let (k, e) = unpack(f, b);
    let len = wide_bit_len(k as u128);
    let ghost v = k * pow2(e as nat);
    proof {
        lemma2_to64();
        lemma_pow2_adds(52, 1);
        crate::rounding::lemma_field_unit(f);
        lemma_bit_len(k as nat);
        if len > 53 {
            if len - 1 > 53 {
                lemma_pow2_strictly_increases(53, (len - 1) as nat);
            }
        }
    }
    let up = 117 - len;
    let odd: u32 = if (e + 1074 - up as i32) % 2 == 0 {
        0
    } else {
        1
    };
    let shift = up + odd;
    let h = (e + 1074 - shift as i32) / 2;
    proof {
        lemma_pow2_adds(len as nat, shift as nat);
        lemma_pow2_adds((len - 1) as nat, shift as nat);
        lemma_pow2_pos(shift as nat);
        let x = pow2(shift as nat);
        let lo = pow2((len - 1) as nat);
        let hi = pow2(len as nat);
        assert(lo * x <= k * x < hi * x) by (nonlinear_arith)
            requires
                lo <= k < hi,
                x > 0,
        ;
        assert(hi * x == pow2((len + shift) as nat));
        assert(lo * x == pow2((len - 1 + shift) as nat));
        if len + shift < 120 {
            lemma_pow2_strictly_increases((len + shift) as nat, 120);
        }
        lemma_pow2_adds(64, 56);
        vstd::arithmetic::power2::lemma2_to64_rest();
    }
    let m = (k as u128) * power_of_two(shift);
    let s = wide_root(m);
    let digits: u128 = 2 * s + if s * s == m {
        0
    } else {
        1
    };
    proof {
        assert(bit_len(s as nat) > 53) by {
            lemma_pow2_adds(54, 54);
            let g = pow2(54);
            assert(m >= g * g) by {
                if len - 1 + shift > 108 {
                    lemma_pow2_strictly_increases(108, (len - 1 + shift) as nat);
                }
            }
            assert(s >= g) by (nonlinear_arith)
                requires
                    m < (s + 1) * (s + 1),
                    m >= g * g,
                    s >= 0,
                    g >= 0,
            ;
            lemma_pow2_pos(54);
            lemma_bit_len(s as nat);
            if bit_len(s as nat) < 54 {
                lemma_pow2_strictly_increases(bit_len(s as nat), 54);
            }
        }
        lemma_square_root(m as nat, h as nat, s as nat);
        lemma_pow2_adds(e as nat, 1074);
        lemma_pow2_adds(shift as nat, (2 * h) as nat);
        let x = pow2(shift as nat);
        let y = pow2((2 * h) as nat);
        assert(v * pow2(1074) == k * (pow2(e as nat) * pow2(1074))) by (nonlinear_arith)
            requires
                v == k * pow2(e as nat),
        ;
        assert((k * x) * y == k * (x * y)) by (nonlinear_arith);
        crate::ieee::lemma_wide_len(digits);
    }
    round_scaled(f, digits, h - 1)
}

} // verus!
