//! Cells of the octree: which eighth of a cell a point falls into, and how far a
//! cell reaches.
use crate::numbers::Binary32;
use vstd::prelude::*;

verus! {

/// The bit pattern of one half.
pub const HALF: u32 = 0x3f00_0000;

/// The bit pattern of one.
pub const ONE: u32 = 0x3f80_0000;

/// The bit pattern of one and a half.
pub const ONE_AND_A_HALF: u32 = 0x3fc0_0000;

/// The bit pattern of the single precision number nearest to 21/20.
pub const DEFAULT_RELAXATION: u32 = 0x3f86_6666;

pub open spec fn half_of(h: Binary32) -> Binary32 {
    h.product(Binary32 { bits: HALF })
}

pub open spec fn origin() -> Seq<Binary32> {
    seq![Binary32 { bits: 0 }, Binary32 { bits: 0 }, Binary32 { bits: 0 }]
}

/// The weight `w` where `point` is not below `center` along the axis, 0 elsewhere.
pub open spec fn side(center: Binary32, point: Binary32, w: nat) -> nat {
    if center.at_most(point) {
        w
    } else {
        0
    }
}

/// The octant of `point` as seen from `center`: bit 0 for x, bit 1 for y, bit 2 for z.
pub open spec fn octant(center: Seq<Binary32>, point: Seq<Binary32>) -> nat {
    side(center[0], point[0], 1) + side(center[1], point[1], 2) + side(center[2], point[2], 4)
}

/// Whether bit `axis` of the octant `o` is set.
pub open spec fn upper(o: nat, axis: int) -> bool {
    if axis == 0 {
        o % 2 == 1
    } else if axis == 1 {
        (o / 2) % 2 == 1
    } else {
        (o / 4) % 2 == 1
    }
}

/// The centre of octant `o` of a cell.
pub open spec fn octant_center(center: Seq<Binary32>, half: Binary32, o: nat) -> Seq<Binary32> {
    Seq::new(
        3,
        |i: int|
            center[i].sum(
                if upper(o, i) {
                    half_of(half)
                } else {
                    half_of(half).negated()
                },
            ),
    )
}

/// Whether `point` is within `reach` of `center` along one axis.
pub open spec fn near(center: Binary32, reach: Binary32, point: Binary32) -> bool {
    point.difference(center).absolute().at_most(reach)
}

/// Whether `point` is within `reach` of `center` along every axis.
pub open spec fn within(center: Seq<Binary32>, reach: Binary32, point: Seq<Binary32>) -> bool {
    &&& near(center[0], reach, point[0])
    &&& near(center[1], reach, point[1])
    &&& near(center[2], reach, point[2])
}

/// `octant`.
pub fn octant_of(center: [Binary32; 3], point: [Binary32; 3]) -> (o: usize)
    ensures
        o == octant(center@, point@),
        o < 8,
{
    let mut index: usize = 0;
    if center[0].is_at_most(point[0]) {
        index = index + 1;
    }
    if center[1].is_at_most(point[1]) {
        index = index + 2;
    }
    if center[2].is_at_most(point[2]) {
        index = index + 4;
    }
    index
}

/// `octant_center`.
pub fn center_of_octant(center: [Binary32; 3], half: Binary32, o: usize) -> (r: [Binary32; 3])
    ensures
        r@ == octant_center(center@, half, o as nat),
{
    let quarter = half.times(Binary32 { bits: HALF });
    let below = quarter.negate();
    let r = [
        center[0].plus(if o % 2 == 1 { quarter } else { below }),
        center[1].plus(if (o / 2) % 2 == 1 { quarter } else { below }),
        center[2].plus(if (o / 4) % 2 == 1 { quarter } else { below }),
    ];
    assert(r@ =~= octant_center(center@, half, o as nat));
    r
}

/// `within`.
pub fn is_within(center: [Binary32; 3], reach: Binary32, point: [Binary32; 3]) -> (r: bool)
    ensures
        r == within(center@, reach, point@),
{
    point[0].minus(center[0]).abs().is_at_most(reach)
        && point[1].minus(center[1]).abs().is_at_most(reach)
        && point[2].minus(center[2]).abs().is_at_most(reach)
}

} // verus!
