//! What holds of cells and of the stretched cells that queries look into.
use crate::geometry::{half_of, near, octant, octant_center, upper, within, HALF, ONE};
use crate::ieee;
use crate::node::NodeModel;
use crate::numbers::Binary32;
use crate::order::{
    lemma_magnitude_order, lemma_rounded_below, lemma_rounded_magnitude, lemma_rounded_monotone,
};
use crate::rounding::{lemma_rounded_cancel, lemma_rounded_zero, magnitude, Format};
use vstd::arithmetic::div_mod::{lemma_fundamental_div_mod, lemma_fundamental_div_mod_converse};
use vstd::arithmetic::power2::{
    lemma2_to64, lemma_pow2_adds, lemma_pow2_pos, lemma_pow2_unfold, pow2,
};
use vstd::prelude::*;

verus! {

impl Binary32 {
    /// Whether the sign bit is clear.
    pub open spec fn is_positive(self) -> bool {
        !ieee::negative(Format::Binary32, self.pattern())
    }

    pub open spec fn is_infinite(self) -> bool {
        ieee::is_infinite(Format::Binary32, self.pattern())
    }

    /// The pattern without the sign.
    pub open spec fn body(self) -> nat {
        ieee::body(Format::Binary32, self.pattern())
    }
}

/// The number 1.
pub open spec fn one() -> Binary32 {
    Binary32 { bits: ONE }
}

/// Whether `point` is at most `half` away from `center`, without any rounding.
pub open spec fn reaches(center: Binary32, half: Binary32, point: Binary32) -> bool {
    &&& center.is_finite()
    &&& half.is_finite()
    &&& half.is_positive()
    &&& point.is_finite()
    &&& -half.value() <= point.value() - center.value() <= half.value()
}

/// Whether `point` lies in the cell, without any rounding.
pub open spec fn has_point(n: NodeModel, point: Seq<Binary32>) -> bool {
    &&& reaches(n.center[0], n.half_size, point[0])
    &&& reaches(n.center[1], n.half_size, point[1])
    &&& reaches(n.center[2], n.half_size, point[2])
}

/// Whether the octant `o` of a cell is its exact eighth: no rounding takes place when the cell is
/// divided.
pub open spec fn divides_exactly(center: Seq<Binary32>, half: Binary32, o: nat) -> bool {
    &&& half_of(half).is_finite()
    &&& half_of(half).is_positive()
    &&& 2 * half_of(half).value() == half.value()
    &&& forall|i: int|
        0 <= i < 3 ==> {
            &&& (#[trigger] octant_center(center, half, o)[i]).is_finite()
            &&& octant_center(center, half, o)[i].value() == center[i].value() + if upper(o, i) {
                half_of(half).value()
            } else {
                -half_of(half).value()
            }
        }
}

pub proof fn lemma_one()
    ensures
        magnitude(Format::Binary32, ONE as nat) == pow2(149),
        magnitude(Format::Binary32, HALF as nat) == pow2(148),
{
    lemma2_to64();
    lemma_pow2_adds(23, 126);
    lemma_pow2_adds(23, 125);
    lemma_fundamental_div_mod_converse(ONE as int, 0x80_0000, 127, 0);
    lemma_fundamental_div_mod_converse(HALF as int, 0x80_0000, 126, 0);
}

/// A difference of finite numbers is rounded to no more than any finite number above it.
proof fn lemma_difference_below(point: Binary32, center: Binary32, reach: Binary32)
    requires
        reaches(center, reach, point),
    ensures
        near(center, reach, point),
{
    let f = Format::Binary32;
    let c = ieee::negated(f, center.pattern());
    assert(ieee::body(f, c) == center.body());
    assert(ieee::value(f, c) == -center.value());
    let v = point.value() - center.value();
    if v != 0 {
        lemma_rounded_below(f, ieee::abs(v), reach.body());
    }
}

/// Stretching by a factor of at least 1 makes a length no smaller.
proof fn lemma_stretched(half: Binary32, a: Binary32, b: Binary32)
    requires
        half.is_positive(),
        half.is_finite(),
        a.is_positive(),
        b.is_positive(),
        a.is_finite(),
        b.is_finite(),
        a.at_most(b),
    ensures
        half.product(a).at_most(half.product(b)),
{
    let f = Format::Binary32;
    let h = magnitude(f, half.body());
    let x = magnitude(f, a.body());
    let y = magnitude(f, b.body());
    lemma_pow2_pos(149);
    lemma_magnitude_order(f, a.body(), b.body());
    assert(h * x <= h * y) by (nonlinear_arith)
        requires
            x <= y,
    ;
    lemma_rounded_monotone(f, h * x, h * y, pow2(149));
}

/// Stretching by 1 changes no number.
pub proof fn lemma_times_one(half: Binary32)
    requires
        !half.is_nan(),
    ensures
        half.product(one()) == half,
{
    let f = Format::Binary32;
    lemma_one();
    lemma_pow2_pos(149);
    if half.is_finite() {
        let h = magnitude(f, half.body());
        assert(1 * pow2(149) == pow2(149));
        lemma_rounded_cancel(f, h, 1, pow2(149));
        lemma_rounded_magnitude(f, half.body());
    }
}

/// With a factor of 1 the loose cell is the strict one.
pub proof fn lemma_factor_one_is_strict(n: NodeModel, point: Seq<Binary32>)
    ensures
        n.loosely_contains(point, one()) == within(n.center, n.half_size, point),
{
    if !n.half_size.is_nan() {
        lemma_times_one(n.half_size);
    }
}

/// A larger factor loses no point.
pub proof fn lemma_larger_factor_keeps_points(
    n: NodeModel,
    point: Seq<Binary32>,
    a: Binary32,
    b: Binary32,
)
    requires
        n.half_size.is_positive(),
        n.half_size.is_finite(),
        a.is_positive(),
        a.is_finite(),
        b.is_finite(),
        a.at_most(b),
        n.loosely_contains(point, a),
    ensures
        n.loosely_contains(point, b),
{
    if b.is_positive() {
        lemma_stretched(n.half_size, a, b);
    } else {
        assert(a.body() == 0 && b.body() == 0);
        let f = Format::Binary32;
        assert(magnitude(f, 0) == 0);
        assert(magnitude(f, n.half_size.body()) * 0 == 0);
        lemma_rounded_zero(f, -149);
    }
}

/// With a factor of at least 1, the loose cell has every point of the cell.
pub proof fn lemma_loose_cell_has_the_cell(n: NodeModel, point: Seq<Binary32>, factor: Binary32)
    requires
        has_point(n, point),
        factor.is_finite(),
        one().at_most(factor),
    ensures
        n.loosely_contains(point, factor),
{
    lemma_difference_below(point[0], n.center[0], n.half_size);
    lemma_difference_below(point[1], n.center[1], n.half_size);
    lemma_difference_below(point[2], n.center[2], n.half_size);
    lemma_factor_one_is_strict(n, point);
    lemma_larger_factor_keeps_points(n, point, one(), factor);
}

/// Finite patterns are ordered as their values.
pub proof fn lemma_at_most_value(a: Binary32, b: Binary32)
    requires
        a.is_finite(),
        b.is_finite(),
    ensures
        a.at_most(b) <==> a.value() <= b.value(),
{
    let f = Format::Binary32;
    lemma_magnitude_order(f, a.body(), b.body());
    lemma_magnitude_order(f, b.body(), a.body());
    lemma_magnitude_order(f, a.body(), 0);
    lemma_magnitude_order(f, b.body(), 0);
    lemma_magnitude_order(f, 0, a.body());
    lemma_magnitude_order(f, 0, b.body());
    assert(magnitude(f, 0) == 0);
}

/// The octant that a point is assigned to has the point, if the cell has it and is divided
/// exactly.
pub proof fn lemma_octant_has_point(n: NodeModel, point: Seq<Binary32>, child: NodeModel)
    requires
        has_point(n, point),
        divides_exactly(n.center, n.half_size, octant(n.center, point)),
        child.center == octant_center(n.center, n.half_size, octant(n.center, point)),
        child.half_size == half_of(n.half_size),
    ensures
        has_point(child, point),
{
    let o = octant(n.center, point);
    lemma_at_most_value(n.center[0], point[0]);
    lemma_at_most_value(n.center[1], point[1]);
    lemma_at_most_value(n.center[2], point[2]);
    assert(upper(o, 0) == n.center[0].at_most(point[0]));
    assert(upper(o, 1) == n.center[1].at_most(point[1]));
    assert(upper(o, 2) == n.center[2].at_most(point[2]));
    let c = octant_center(n.center, n.half_size, o);
    assert(reaches(c[0], child.half_size, point[0]));
    assert(reaches(c[1], child.half_size, point[1]));
    assert(reaches(c[2], child.half_size, point[2]));
}

/// Halving a finite length is exact, unless it is one of the very smallest.
pub proof fn lemma_halving_is_exact(half: Binary32)
    requires
        half.is_finite(),
        half.is_positive(),
        half.body() >= 0x100_0000,
    ensures
        half_of(half).is_finite(),
        half_of(half).is_positive(),
        2 * half_of(half).value() == half.value(),
        half_of(half).value() > 0,
{
    let f = Format::Binary32;
    let u = f.field_unit();
    let b = half.body();
    let field = b / u;
    let fraction = b % u;
    assert(field >= 2);
    let lower = (b - u) as nat;
    lemma_fundamental_div_mod(b as int, u as int);
    lemma_fundamental_div_mod_converse(
        lower as int,
        u as int,
        field - 1,
        fraction as int,
    );
    let x = magnitude(f, lower);
    let k = u + fraction;
    lemma_pow2_unfold((field - 1) as nat);
    lemma_pow2_pos((field - 2) as nat);
    let w = pow2((field - 2) as nat);
    assert(magnitude(f, b) == k * (2 * w));
    assert(x == k * w);
    assert(k * (2 * w) == 2 * (k * w) && k * w > 0) by (nonlinear_arith)
        requires
            k > 0,
            w > 0,
    ;
    lemma_one();
    lemma_pow2_unfold(149);
    let d = pow2(148);
    lemma_pow2_pos(148);
    assert((2 * x) * d == x * (2 * d)) by (nonlinear_arith);
    assert(1 * (2 * d) == 2 * d);
    lemma_rounded_cancel(f, x, 1, 2 * d);
    lemma_rounded_magnitude(f, lower);
}

} // verus!
