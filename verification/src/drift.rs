//! How far rounding moves the cells of a tree, and why the loose cells make up for it.
//!
//! The centre of a cell is its parent's, moved by half the parent's half size and rounded. Every
//! rounding is off by at most one part in 2^24 of the root's half size, while the slack of a loose
//! cell shrinks with the cell. Fifteen levels down the slack still outweighs all roundings on the
//! way.
use crate::containment::{
    has_point, lemma_at_most_value, lemma_halving_is_exact, lemma_one, one,
};
use crate::geometry::{
    half_of, near, octant, octant_center, origin, upper, DEFAULT_RELAXATION,
};
use crate::ieee;
use crate::node::NodeModel;
use crate::numbers::Binary32;
use crate::order::{
    gap, lemma_bit_len_monotone, lemma_magnitude_order, lemma_nearest_range,
    lemma_rounded_magnitude, lemma_rounded_monotone,
};
use crate::rounding::{
    bit_len, excess, lemma_bit_len, lemma_magnitude, lemma_rounded_cancel, magnitude, nearest,
    rounded, Format,
};
use vstd::arithmetic::div_mod::{
    lemma_fundamental_div_mod, lemma_fundamental_div_mod_converse, lemma_mod_bound,
};
use vstd::arithmetic::power2::{
    lemma2_to64, lemma_pow2_adds, lemma_pow2_pos, lemma_pow2_strictly_increases, lemma_pow2_unfold,
    pow2,
};
use vstd::prelude::*;

verus! {

/// How many levels down loose cells of the default factor make up for rounding.
pub const STEADY_LEVELS: u32 = 15;

/// The most that rounding a coordinate of a cell in a root of half size `h` is off by.
pub open spec fn drift(h: Binary32) -> nat {
    pow2((bit_len(magnitude(Format::Binary32, h.body())) - 25) as nat)
}

/// Rounding a whole number of at most `l` digits is off by at most half of the last digit that is
/// kept.
pub proof fn lemma_rounding_error(f: Format, v: nat, l: nat)
    requires
        bit_len(v) <= l,
        l > f.precision(),
        rounded(f, v, 1) < f.infinity(),
    ensures
        gap(v as int, magnitude(f, rounded(f, v, 1)) as int) <= pow2(
            (l - f.precision() - 1) as nat,
        ),
{
    let p = f.precision();
    let s = excess(f, v / 1);
    let w = pow2(s);
    assert(v / 1 == v);
    lemma_pow2_pos(s);
    lemma_nearest_range(f, v, 1);
    assert(1 * w == w);
    let k = nearest(v, w);
    lemma_magnitude(f, s, k);
    let q = v / w;
    let r = v % w;
    lemma_fundamental_div_mod(v as int, w as int);
    lemma_mod_bound(v as int, w as int);
    assert(v == q * w + r) by (nonlinear_arith)
        requires
            v == w * q + r,
    ;
    assert((q + 1) * w == q * w + w) by (nonlinear_arith);
    assert(2 * gap(v as int, (k * w) as int) <= w);
    lemma_pow2_pos((l - p - 1) as nat);
    lemma2_to64();
    if s > 0 {
        lemma_pow2_unfold(s);
        if s < l - p {
            lemma_pow2_strictly_increases((s - 1) as nat, (l - p - 1) as nat);
        }
    }
}

/// A sum that is no larger than a finite number is finite, and is off by at most the drift that
/// belongs to that number.
proof fn lemma_sum_error(a: Binary32, b: Binary32, h: Binary32)
    requires
        a.is_finite(),
        b.is_finite(),
        h.is_finite(),
        h.is_positive(),
        one().at_most(h),
        -h.value() <= a.value() + b.value() <= h.value(),
    ensures
        a.sum(b).is_finite(),
        -drift(h) <= a.sum(b).value() - (a.value() + b.value()) <= drift(h),
{
    let f = Format::Binary32;
    let v = a.value() + b.value();
    let m = magnitude(f, h.body());
    lemma_wide_half(h);
    lemma_pow2_pos((bit_len(m) - 25) as nat);
    assert(magnitude(f, 0) == 0);
    if v != 0 {
        let x = ieee::abs(v);
        lemma_rounded_monotone(f, x, m, 1);
        lemma_rounded_magnitude(f, h.body());
        lemma_bit_len_monotone(x, m);
        lemma_rounding_error(f, x, bit_len(m));
    }
}

/// A length of at least 1 has many digits, and its drift is at most one part in 2^24 of it.
proof fn lemma_wide_half(h: Binary32)
    requires
        h.is_finite(),
        h.is_positive(),
        one().at_most(h),
    ensures
        bit_len(magnitude(Format::Binary32, h.body())) >= 150,
        h.value() == magnitude(Format::Binary32, h.body()),
        h.value() >= pow2(149),
        drift(h) > 0,
        h.value() >= 0x100_0000 * drift(h),
{
    let f = Format::Binary32;
    let m = magnitude(f, h.body());
    lemma_one();
    lemma_magnitude_order(f, one().body(), h.body());
    lemma_pow2_pos(149);
    lemma_bit_len(m);
    let l = bit_len(m);
    if l < 150 {
        if l < 149 {
            lemma_pow2_strictly_increases(l, 149);
        }
    }
    lemma2_to64();
    lemma_pow2_pos((l - 25) as nat);
    lemma_pow2_adds(24, (l - 25) as nat);
}

/// Whether a cell `k` levels down is where it should be along one axis, but for `k` roundings: its
/// centre is within the root, and `point` within the cell.
pub open spec fn steady(
    center: Binary32,
    half: Binary32,
    point: Binary32,
    h: Binary32,
    k: nat,
) -> bool {
    &&& center.is_finite()
    &&& point.is_finite()
    &&& -(h.value() - half.value() + k * drift(h)) <= center.value() <= h.value() - half.value()
        + k * drift(h)
    &&& -(half.value() + k * drift(h)) <= point.value() - center.value() <= half.value() + k
        * drift(h)
}

/// Whether a cell `k` levels below a root of half size `h` is where it should be, but for `k`
/// roundings along each axis.
pub open spec fn settled(n: NodeModel, point: Seq<Binary32>, h: Binary32, k: nat) -> bool {
    &&& n.half_size.is_finite()
    &&& n.half_size.is_positive()
    &&& n.half_size.value() * pow2(k) == h.value()
    &&& steady(n.center[0], n.half_size, point[0], h, k)
    &&& steady(n.center[1], n.half_size, point[1], h, k)
    &&& steady(n.center[2], n.half_size, point[2], h, k)
}

/// Few levels down, the powers of two are small.
proof fn lemma_small_power(k: nat)
    requires
        k <= 15,
    ensures
        0 < pow2(k) <= 32768,
        k * pow2(k) <= 491520,
{
    lemma2_to64();
    lemma_pow2_pos(k);
    if k < 15 {
        lemma_pow2_strictly_increases(k, 15);
    }
    let t = pow2(k);
    assert(k * t <= 15 * 32768) by (nonlinear_arith)
        requires
            k <= 15,
            t <= 32768,
    ;
}

/// All roundings down to a cell together are less than the slack that the cell has.
proof fn lemma_slack(half: int, h: Binary32, k: nat)
    requires
        k <= 15,
        h.is_finite(),
        h.is_positive(),
        one().at_most(h),
        half * pow2(k) == h.value(),
    ensures
        half > 0,
        half * 32768 >= pow2(149),
        (k * drift(h)) * 0x80_0000 <= 419430 * half,
        k <= 14 ==> 2 * (k * drift(h)) <= half,
{
    let t = pow2(k) as int;
    let d = drift(h) as int;
    let kd = k * d;
    lemma_small_power(k);
    lemma_wide_half(h);
    lemma_pow2_pos(149);
    assert(half > 0) by (nonlinear_arith)
        requires
            half * t > 0,
            t > 0,
    ;
    assert(half * 32768 >= half * t) by (nonlinear_arith)
        requires
            half > 0,
            t <= 32768,
    ;
    let kt = k * t;
    assert(kd * t == kt * d) by (nonlinear_arith)
        requires
            kd == k * d,
            kt == k * t,
    ;
    assert(kt * d <= 491520 * d) by (nonlinear_arith)
        requires
            kt <= 491520,
            d > 0,
    ;
    assert(half * t >= 0x100_0000 * d);
    assert(kd * 0x80_0000 <= 419430 * half) by (nonlinear_arith)
        requires
            kd * t <= 491520 * d,
            half * t >= 0x100_0000 * d,
            t > 0,
            d > 0,
    ;
    assert(2 * kd <= half) by (nonlinear_arith)
        requires
            kd * t <= 491520 * d,
            half * t >= 0x100_0000 * d,
            t > 0,
            d > 0,
    ;
}

/// Along one axis, the octant of a point is where it should be, but for one more rounding.
proof fn lemma_steady_axis(
    center: Binary32,
    half: Binary32,
    quarter: Binary32,
    point: Binary32,
    h: Binary32,
    k: nat,
)
    requires
        steady(center, half, point, h, k),
        h.is_finite(),
        h.is_positive(),
        one().at_most(h),
        quarter.is_finite(),
        quarter.is_positive(),
        2 * quarter.value() == half.value(),
        2 * (k * drift(h)) <= half.value(),
    ensures
        steady(
            center.sum(
                if center.at_most(point) {
                    quarter
                } else {
                    quarter.negated()
                },
            ),
            quarter,
            point,
            h,
            k + 1,
        ),
{
    let f = Format::Binary32;
    lemma_at_most_value(center, point);
    assert(quarter.negated().is_finite() && quarter.negated().value() == -quarter.value());
    let step = if center.at_most(point) {
        quarter
    } else {
        quarter.negated()
    };
    let d = drift(h) as int;
    assert((k + 1) * d == k * d + d) by (nonlinear_arith);
    lemma_sum_error(center, step, h);
}

/// The octant of a point is where it should be, but for one more rounding along each axis.
pub proof fn lemma_octant_is_settled(
    n: NodeModel,
    point: Seq<Binary32>,
    child: NodeModel,
    h: Binary32,
    k: nat,
)
    requires
        settled(n, point, h, k),
        k < STEADY_LEVELS,
        h.is_finite(),
        h.is_positive(),
        one().at_most(h),
        child.center == octant_center(n.center, n.half_size, octant(n.center, point)),
        child.half_size == half_of(n.half_size),
    ensures
        settled(child, point, h, k + 1),
{
    let f = Format::Binary32;
    let half = n.half_size;
    let quarter = half_of(half);
    lemma_slack(half.value(), h, k);
    lemma2_to64();
    lemma_pow2_adds(64, 85);
    assert(half.body() >= 0x100_0000) by {
        let b = half.body();
        if b < 0x100_0000 {
            lemma_fundamental_div_mod(b as int, 0x80_0000);
            lemma_mod_bound(b as int, 0x80_0000);
            let field = b / 0x80_0000;
            let fraction = b % 0x80_0000;
            if field != 0 {
                assert(field == 1);
                assert(pow2((field - 1) as nat) == 1);
                assert(magnitude(f, b) == (0x80_0000 + fraction) * 1);
            }
            assert(magnitude(f, b) < 0x100_0000);
            let x = pow2(85);
            lemma_pow2_pos(85);
            assert(0x1_0000_0000_0000_0000 * x >= 0x1_0000_0000_0000_0000) by (nonlinear_arith)
                requires
                    x >= 1,
            ;
        }
    }
    lemma_halving_is_exact(half);
    lemma_pow2_unfold(k + 1);
    let t = pow2(k) as int;
    let q = quarter.value();
    assert(q * (2 * t) == (2 * q) * t) by (nonlinear_arith);
    let o = octant(n.center, point);
    assert(upper(o, 0) == n.center[0].at_most(point[0]));
    assert(upper(o, 1) == n.center[1].at_most(point[1]));
    assert(upper(o, 2) == n.center[2].at_most(point[2]));
    lemma_steady_axis(n.center[0], half, quarter, point[0], h, k);
    lemma_steady_axis(n.center[1], half, quarter, point[1], h, k);
    lemma_steady_axis(n.center[2], half, quarter, point[2], h, k);
    let c = octant_center(n.center, half, o);
    assert(c[0] == child.center[0] && c[1] == child.center[1] && c[2] == child.center[2]);
}

/// Along one axis, the slack of the loose cell makes up for the roundings.
proof fn lemma_steady_is_near(
    center: Binary32,
    half: Binary32,
    point: Binary32,
    h: Binary32,
    k: nat,
    factor: Binary32,
)
    requires
        steady(center, half, point, h, k),
        half.is_finite(),
        half.is_positive(),
        (k * drift(h)) * 0x80_0000 <= 419430 * half.value(),
        factor.is_finite(),
        (Binary32 { bits: DEFAULT_RELAXATION }).at_most(factor),
    ensures
        near(center, half.product(factor), point),
{
    let f = Format::Binary32;
    let c = ieee::negated(f, center.pattern());
    assert(ieee::body(f, c) == center.body());
    assert(ieee::value(f, c) == -center.value());
    let v = point.value() - center.value();
    let x = ieee::abs(v);
    let m = magnitude(f, half.body());
    let fm = magnitude(f, factor.body());
    let scale = pow2(149);
    let unit = pow2(126);
    lemma_pow2_pos(149);
    lemma_pow2_pos(126);
    lemma2_to64();
    lemma_pow2_adds(23, 126);
    lemma_fundamental_div_mod_converse(DEFAULT_RELAXATION as int, 0x80_0000, 127, 0x6_6666);
    lemma_magnitude_order(f, DEFAULT_RELAXATION as nat, factor.body());
    assert(fm >= 0x86_6666 * unit);
    assert(x * 0x80_0000 <= m * 0x86_6666);
    assert(x * scale <= m * fm) by {
        assert(x * (0x80_0000 * unit) <= m * (0x86_6666 * unit)) by (nonlinear_arith)
            requires
                x * 0x80_0000 <= m * 0x86_6666,
                unit > 0,
        ;
        let least = 0x86_6666 * unit;
        assert(m * least <= m * fm) by (nonlinear_arith)
            requires
                least <= fm,
        ;
    }
    lemma_rounded_monotone(f, x * scale, m * fm, scale);
    assert(1 * scale == scale);
    lemma_rounded_cancel(f, x, 1, scale);
}

/// A settled cell has the point in its loose bounds, with the default factor or a larger one.
pub proof fn lemma_settled_cell_has_point(
    n: NodeModel,
    point: Seq<Binary32>,
    h: Binary32,
    k: nat,
    factor: Binary32,
)
    requires
        settled(n, point, h, k),
        k <= STEADY_LEVELS,
        h.is_finite(),
        h.is_positive(),
        one().at_most(h),
        factor.is_finite(),
        (Binary32 { bits: DEFAULT_RELAXATION }).at_most(factor),
    ensures
        n.loosely_contains(point, factor),
{
    lemma_slack(n.half_size.value(), h, k);
    lemma_steady_is_near(n.center[0], n.half_size, point[0], h, k, factor);
    lemma_steady_is_near(n.center[1], n.half_size, point[1], h, k, factor);
    lemma_steady_is_near(n.center[2], n.half_size, point[2], h, k, factor);
}

/// A root around the origin is where it should be.
pub proof fn lemma_root_is_settled(n: NodeModel, point: Seq<Binary32>)
    requires
        n.center == origin(),
        has_point(n, point),
    ensures
        settled(n, point, n.half_size, 0),
{
    lemma2_to64();
    assert(magnitude(Format::Binary32, 0) == 0);
    assert(origin()[0].bits == 0 && origin()[1].bits == 0 && origin()[2].bits == 0);
}

} // verus!
