//! What the arithmetic comes to: every result is the number of the format nearest to the exact one.
use crate::geometry::{near, octant, octant_center, within, HALF};
use crate::ieee::{
    at_most, body, converted, difference, is_finite, is_infinite, is_nan, larger, less, negated,
    negative, of_natural, product, sum, value,
};
use crate::numbers::Binary32;
use crate::order::{gap, lemma_magnitude_order, lemma_rounded_is_nearest};
use crate::roots::inverse;
use crate::rounding::{magnitude, rounded, Format};
use vstd::arithmetic::power2::{lemma_pow2_pos, pow2};
use vstd::prelude::*;

verus! {

/// A number nearest to `n / d` among the magnitudes is nearest to it among all numbers.
proof fn lemma_nearest_signed(f: Format, neg: bool, n: nat, d: nat, c: u64)
    requires
        d > 0,
        rounded(f, n, d) < f.infinity(),
        is_finite(f, c),
        f.holds(c),
    ensures
        ({
            let exact = if neg {
                -(n as int)
            } else {
                n as int
            };
            let found = magnitude(f, rounded(f, n, d)) as int;
            gap(
                exact,
                (if neg {
                    -found
                } else {
                    found
                }) * d,
            ) <= gap(exact, value(f, c) * d)
        }),
{
    let m = body(f, c);
    let k = magnitude(f, m);
    let r = magnitude(f, rounded(f, n, d));
    lemma_rounded_is_nearest(f, n, d, m);
    lemma_rounded_is_nearest(f, n, d, 0);
    assert(magnitude(f, 0) == 0);
    assert(0 * d == 0);
    assert((-(r as int)) * d == -((r * d) as int)) by (nonlinear_arith);
    assert((-(k as int)) * d == -((k * d) as int)) by (nonlinear_arith);
    assert(k * d >= 0) by (nonlinear_arith);
}

/// A finite sum is nearest to the exact one: no number of the format is nearer.
pub proof fn lemma_sum_is_nearest(f: Format, a: u64, b: u64, c: u64)
    requires
        f.holds(a),
        f.holds(b),
        f.holds(c),
        is_finite(f, sum(f, a, b)),
        is_finite(f, c),
    ensures
        is_finite(f, a),
        is_finite(f, b),
        gap(value(f, a) + value(f, b), value(f, sum(f, a, b))) <= gap(
            value(f, a) + value(f, b),
            value(f, c),
        ),
{
    let v = value(f, a) + value(f, b);
    assert(magnitude(f, 0) == 0);
    if v != 0 {
        lemma_nearest_signed(f, v < 0, crate::ieee::abs(v), 1, c);
    }
}

/// A difference is the sum with the negative, and a negative has the opposite value.
pub proof fn lemma_difference_is_nearest(f: Format, a: u64, b: u64, c: u64)
    requires
        f.holds(a),
        f.holds(b),
        f.holds(c),
        is_finite(f, difference(f, a, b)),
        is_finite(f, c),
    ensures
        is_finite(f, a),
        is_finite(f, b),
        gap(value(f, a) - value(f, b), value(f, difference(f, a, b))) <= gap(
            value(f, a) - value(f, b),
            value(f, c),
        ),
{
    let n = negated(f, b);
    assert(body(f, n) == body(f, b));
    assert(f.holds(n));
    lemma_sum_is_nearest(f, a, n, c);
    assert(value(f, n) == -value(f, b));
}

/// A finite product is nearest to the exact one, which is counted in squares of the quantum.
pub proof fn lemma_product_is_nearest(f: Format, a: u64, b: u64, c: u64)
    requires
        f.holds(a),
        f.holds(b),
        f.holds(c),
        is_finite(f, product(f, a, b)),
        is_finite(f, c),
    ensures
        is_finite(f, a),
        is_finite(f, b),
        gap(value(f, a) * value(f, b), value(f, product(f, a, b)) * pow2(f.quantum())) <= gap(
            value(f, a) * value(f, b),
            value(f, c) * pow2(f.quantum()),
        ),
{
    let x = magnitude(f, body(f, a));
    let y = magnitude(f, body(f, b));
    let n = x * y;
    let q = pow2(f.quantum());
    lemma_pow2_pos(f.quantum());
    let na = negative(f, a);
    let nb = negative(f, b);
    let neg = na != nb;
    let va = value(f, a);
    let vb = value(f, b);
    assert(va * vb == if neg {
        -(n as int)
    } else {
        n as int
    }) by (nonlinear_arith)
        requires
            va == if na {
                -(x as int)
            } else {
                x as int
            },
            vb == if nb {
                -(y as int)
            } else {
                y as int
            },
            n == x * y,
            neg == (na != nb),
    ;
    lemma_nearest_signed(f, neg, n, q, c);
}

/// A finite number that is narrowed is nearest to what it was.
pub proof fn lemma_narrowed_is_nearest(a: u64, c: u64)
    requires
        Format::Binary32.holds(c),
        is_finite(Format::Binary32, converted(Format::Binary64, Format::Binary32, a)),
        is_finite(Format::Binary32, c),
    ensures
        is_finite(Format::Binary64, a),
        ({
            let f = Format::Binary32;
            let v = value(Format::Binary64, a);
            gap(v, value(f, converted(Format::Binary64, f, a)) * pow2(925)) <= gap(
                v,
                value(f, c) * pow2(925),
            )
        }),
{
    let g = Format::Binary64;
    let n = magnitude(g, body(g, a));
    lemma_pow2_pos(925);
    lemma_nearest_signed(Format::Binary32, negative(g, a), n, pow2(925), c);
}

/// A whole number is converted to the nearest number.
pub proof fn lemma_natural_is_nearest(f: Format, n: nat, c: u64)
    requires
        f.holds(c),
        is_finite(f, of_natural(f, n)),
        is_finite(f, c),
        rounded(f, n * pow2(f.quantum()), 1) < f.infinity(),
    ensures
        gap((n * pow2(f.quantum())) as int, value(f, of_natural(f, n))) <= gap(
            (n * pow2(f.quantum())) as int,
            value(f, c),
        ),
{
    lemma_nearest_signed(f, false, n * pow2(f.quantum()), 1, c);
}

/// A finite reciprocal is nearest to the exact one: no number of the format, times the number, is
/// nearer to 1.
pub proof fn lemma_reciprocal_is_nearest(a: u64, c: u64)
    requires
        is_finite(Format::Binary64, a),
        value(Format::Binary64, a) > 0,
        is_finite(Format::Binary64, inverse(a)),
        is_finite(Format::Binary64, c),
    ensures
        ({
            let f = Format::Binary64;
            let v = value(f, a);
            gap(pow2(2148) as int, value(f, inverse(a)) * v) <= gap(
                pow2(2148) as int,
                value(f, c) * v,
            )
        }),
{
    let f = Format::Binary64;
    let d = magnitude(f, body(f, a));
    assert(magnitude(f, 0) == 0);
    assert(!negative(f, a));
    lemma_nearest_signed(f, false, pow2(2148), d, c);
}

/// The larger of two numbers is one of them and is no less than either.
pub proof fn lemma_larger(f: Format, a: u64, b: u64)
    ensures
        larger(f, a, b) == a || larger(f, a, b) == b,
        !is_nan(f, a) && !is_nan(f, b) ==> at_most(f, a, larger(f, a, b)) && at_most(
            f,
            b,
            larger(f, a, b),
        ),
        is_nan(f, a) ==> larger(f, a, b) == b,
        is_nan(f, b) && !is_nan(f, a) ==> larger(f, a, b) == a,
{
}

/// Bit 0 of an octant tells whether the point is at or above the centre in x, bit 1 in y, bit 2 in z.
pub proof fn lemma_octant_bits(center: Seq<Binary32>, point: Seq<Binary32>)
    ensures
        octant(center, point) < 8,
        octant(center, point) % 2 == 1 <==> center[0].at_most(point[0]),
        (octant(center, point) / 2) % 2 == 1 <==> center[1].at_most(point[1]),
        octant(center, point) / 4 == 1 <==> center[2].at_most(point[2]),
{
}

/// The centre of an octant is the cell's, moved by half its half size along every axis: up where the
/// bit of the octant is set, down elsewhere.
pub proof fn lemma_octant_centers(center: Seq<Binary32>, half: Binary32, o: nat)
    ensures
        ({
            let quarter = half.product(Binary32 { bits: HALF });
            let c = octant_center(center, half, o);
            &&& c.len() == 3
            &&& c[0] == if o % 2 == 1 {
                center[0].sum(quarter)
            } else {
                center[0].sum(quarter.negated())
            }
            &&& c[1] == if (o / 2) % 2 == 1 {
                center[1].sum(quarter)
            } else {
                center[1].sum(quarter.negated())
            }
            &&& c[2] == if (o / 4) % 2 == 1 {
                center[2].sum(quarter)
            } else {
                center[2].sum(quarter.negated())
            }
        }),
{
}

/// A point that is found within reach of a centre is: the exact distance is no more than the reach, but
/// for the rounding of the distance, so that it is below the second number after the reach.
pub proof fn lemma_near_is_near(center: Binary32, reach: Binary32, point: Binary32)
    requires
        near(center, reach, point),
        center.is_finite(),
        point.is_finite(),
        reach.body() + 1 < Format::Binary32.infinity(),
    ensures
        gap(point.value(), center.value()) < magnitude(Format::Binary32, reach.body() + 1),
{
    let f = Format::Binary32;
    let c = negated(f, center.pattern());
    assert(body(f, c) == center.body());
    assert(value(f, c) == -center.value());
    let v = point.value() - center.value();
    let x = crate::ieee::abs(v);
    let next = reach.body() + 1;
    if x >= magnitude(f, next) {
        crate::order::lemma_rounded_monotone(f, magnitude(f, next), x, 1);
        crate::order::lemma_rounded_magnitude(f, next);
        if v == 0 {
            lemma_magnitude_order(f, next, 0);
            assert(magnitude(f, 0) == 0);
        }
    }
}

/// A point is within reach of a centre exactly where it is along all three axes.
pub proof fn lemma_within_is_near_along_all_axes(
    center: Seq<Binary32>,
    reach: Binary32,
    point: Seq<Binary32>,
)
    ensures
        within(center, reach, point) <==> forall|i: int|
            0 <= i < 3 ==> #[trigger] near(center[i], reach, point[i]),
{
    if forall|i: int| 0 <= i < 3 ==> #[trigger] near(center[i], reach, point[i]) {
        assert(near(center[0], reach, point[0]));
        assert(near(center[1], reach, point[1]));
        assert(near(center[2], reach, point[2]));
    }
}

/// A sum is no number only where one of its parts is none or infinities of both signs meet, and it is
/// finite wherever the exact sum is no larger than the largest number of the format.
pub proof fn lemma_sum_range(f: Format, a: u64, b: u64)
    requires
        f.holds(a),
        f.holds(b),
    ensures
        is_nan(f, sum(f, a, b)) <==> is_nan(f, a) || is_nan(f, b) || (is_infinite(f, a)
            && is_infinite(f, b) && negative(f, a) != negative(f, b)),
        is_finite(f, a) && is_finite(f, b) && crate::ieee::abs(value(f, a) + value(f, b)) <= magnitude(
            f,
            (f.infinity() - 1) as nat,
        ) ==> is_finite(f, sum(f, a, b)),
{
    let v = value(f, a) + value(f, b);
    let x = crate::ieee::abs(v);
    let top = (f.infinity() - 1) as nat;
    if x <= magnitude(f, top) {
        crate::order::lemma_rounded_below(f, x, top);
    }
}

/// A product is no number only where one of its factors is none or an infinity meets a zero, and it is
/// finite wherever the exact product is no larger than the largest number of the format.
pub proof fn lemma_product_range(f: Format, a: u64, b: u64)
    requires
        f.holds(a),
        f.holds(b),
    ensures
        is_nan(f, product(f, a, b)) <==> is_nan(f, a) || is_nan(f, b) || (is_infinite(f, a) && body(
            f,
            b,
        ) == 0) || (is_infinite(f, b) && body(f, a) == 0),
        is_finite(f, a) && is_finite(f, b) && magnitude(f, body(f, a)) * magnitude(f, body(f, b))
            <= magnitude(f, (f.infinity() - 1) as nat) * pow2(f.quantum()) ==> is_finite(
            f,
            product(f, a, b),
        ),
{
    let q = pow2(f.quantum());
    lemma_pow2_pos(f.quantum());
    let top = (f.infinity() - 1) as nat;
    let n = magnitude(f, body(f, a)) * magnitude(f, body(f, b));
    let m = magnitude(f, top) * q;
    if n <= m {
        crate::order::lemma_rounded_monotone(f, n, m, q);
        assert(1 * q == q);
        crate::rounding::lemma_rounded_cancel(f, magnitude(f, top), 1, q);
        crate::order::lemma_rounded_magnitude(f, top);
    }
}

/// Finite numbers are ordered as their values.
pub proof fn lemma_order_of_values(f: Format, a: u64, b: u64)
    requires
        f.holds(a),
        f.holds(b),
        is_finite(f, a),
        is_finite(f, b),
    ensures
        at_most(f, a, b) <==> value(f, a) <= value(f, b),
        less(f, a, b) <==> value(f, a) < value(f, b),
{
    lemma_magnitude_order(f, body(f, a), body(f, b));
    lemma_magnitude_order(f, body(f, b), body(f, a));
    lemma_magnitude_order(f, body(f, a), 0);
    lemma_magnitude_order(f, body(f, b), 0);
    lemma_magnitude_order(f, 0, body(f, a));
    lemma_magnitude_order(f, 0, body(f, b));
    assert(magnitude(f, 0) == 0);
}

/// An infinity is beyond every finite number, and what is no number is beyond none.
pub proof fn lemma_order_of_the_rest(f: Format, a: u64, b: u64)
    requires
        f.holds(a),
        f.holds(b),
    ensures
        is_nan(f, a) || is_nan(f, b) ==> !at_most(f, a, b) && !less(f, a, b),
        is_infinite(f, b) && !negative(f, b) && !is_nan(f, a) ==> at_most(f, a, b),
        is_infinite(f, a) && negative(f, a) && !is_nan(f, b) ==> at_most(f, a, b),
        is_infinite(f, b) && !negative(f, b) && is_finite(f, a) ==> less(f, a, b),
        is_infinite(f, a) && !negative(f, a) && is_finite(f, b) ==> !at_most(f, a, b),
{
}

/// Negation and absolute value do what they say, to finite numbers and to others.
pub proof fn lemma_signs(a: Binary32)
    ensures
        a.is_finite() ==> a.negated().is_finite() && a.negated().value() == -a.value(),
        a.is_finite() ==> a.absolute().is_finite() && a.absolute().value() == (if a.value() < 0 {
            -a.value()
        } else {
            a.value()
        }),
        a.negated().is_nan() == a.is_nan(),
        a.absolute().is_nan() == a.is_nan(),
        a.negated().negated() == a,
{
    assert(magnitude(Format::Binary32, 0) == 0);
}

/// A number no larger than the largest of single precision stays finite when it is narrowed.
pub proof fn lemma_narrowed_range(a: u64)
    requires
        is_finite(Format::Binary64, a),
        crate::ieee::abs(value(Format::Binary64, a)) <= magnitude(
            Format::Binary32,
            (Format::Binary32.infinity() - 1) as nat,
        ) * pow2(925),
    ensures
        is_finite(Format::Binary32, converted(Format::Binary64, Format::Binary32, a)),
{
    let f = Format::Binary32;
    let g = Format::Binary64;
    let n = magnitude(g, body(g, a));
    let d = pow2(925);
    lemma_pow2_pos(925);
    let top = (f.infinity() - 1) as nat;
    crate::order::lemma_rounded_monotone(f, n, magnitude(f, top) * d, d);
    assert(1 * d == d);
    crate::rounding::lemma_rounded_cancel(f, magnitude(f, top), 1, d);
    crate::order::lemma_rounded_magnitude(f, top);
}

} // verus!
