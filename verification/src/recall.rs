//! What was inserted is found again.
use crate::containment::{
    divides_exactly, has_point, lemma_halving_is_exact, lemma_loose_cell_has_the_cell,
    lemma_octant_has_point, lemma_times_one, one, reaches,
};
use crate::drift::{
    lemma_octant_is_settled, lemma_root_is_settled, lemma_settled_cell_has_point, settled,
    STEADY_LEVELS,
};
use crate::geometry::{
    half_of, near, octant, octant_center, origin, upper, DEFAULT_RELAXATION, HALF, ONE,
    ONE_AND_A_HALF,
};
use crate::insertion::{lemma_rest_is_end, lemma_rooted, resting, root_half};
use crate::lookup::{
    claims, first_claim, lemma_first_claim, located, next_cell, next_octant, MAX_DEPTH,
};
use crate::memory::{is_tree, links, MemoryModel};
use crate::node::{NodeId, NodeModel};
use crate::numbers::Binary32;
use crate::order::{lemma_magnitude_order, lemma_rounded_magnitude, lemma_rounded_monotone};
use crate::projection::projected;
use crate::rounding::{magnitude, Format};
use vstd::arithmetic::power2::{lemma_pow2_pos, pow2};
use vstd::prelude::*;

verus! {

/// Whether the node has no children.
pub open spec fn is_leaf(n: NodeModel) -> bool {
    forall|o: int| 0 <= o < 8 ==> #[trigger] n.children[o] is None
}

/// Whether every node below `at` on the descent of `point` has the point in its loose cell.
pub open spec fn on_course(
    nodes: Seq<NodeModel>,
    point: Seq<Binary32>,
    min: Binary32,
    factor: Binary32,
    at: int,
    steps: nat,
) -> bool
    decreases steps,
{
    if !(0 <= at < nodes.len()) || nodes[at].half_size.at_most(min) {
        true
    } else {
        match nodes[at].children[octant(nodes[at].center, point) as int] {
            None => true,
            Some(c) => nodes[c as int].loosely_contains(point, factor) && (steps == 0 || on_course(
                nodes,
                point,
                min,
                factor,
                c as int,
                (steps - 1) as nat,
            )),
        }
    }
}

proof fn lemma_more_steps(
    nodes: Seq<NodeModel>,
    point: Seq<Binary32>,
    min: Binary32,
    at: int,
    few: nat,
    many: nat,
)
    requires
        few <= many,
        resting(nodes, point, min, at, few) is Some,
    ensures
        resting(nodes, point, min, at, many) == resting(nodes, point, min, at, few),
    decreases few,
{
    if !nodes[at].half_size.at_most(min) {
        match nodes[at].children[octant(nodes[at].center, point) as int] {
            None => {},
            Some(c) => {
                lemma_more_steps(nodes, point, min, c as int, (few - 1) as nat, (many - 1) as nat);
            },
        }
    }
}

proof fn lemma_leaf_ends_lookup(
    nodes: Seq<NodeModel>,
    at: int,
    point: Seq<Binary32>,
    factor: Binary32,
)
    requires
        is_leaf(nodes[at]),
    ensures
        next_cell(nodes, at, point, factor) is None,
{
    lemma_first_claim(nodes, at, 0, point, factor);
    let o = first_claim(nodes, at, 0, point, factor);
    let own = octant(nodes[at].center, point) as int;
    assert(nodes[at].children[own] is None);
    if o < 8 {
        assert(nodes[at].children[o] is None);
    }
}

/// A lookup goes the way of the descent, and ends at the descent's end or at the one node below it
/// that is new, if nothing draws it further down.
proof fn lemma_follow(
    before: Seq<NodeModel>,
    after: Seq<NodeModel>,
    arena_len: nat,
    point: Seq<Binary32>,
    min: Binary32,
    factor: Binary32,
    at: int,
    steps: nat,
    more: nat,
    end: int,
    id: NodeId,
)
    requires
        is_tree(before, arena_len),
        before.len() <= after.len(),
        0 <= at < before.len(),
        resting(before, point, min, at, steps) == Some(end),
        on_course(before, point, min, factor, at, steps),
        forall|i: int|
            0 <= i < before.len() ==> (#[trigger] after[i]).center == before[i].center
                && after[i].half_size == before[i].half_size && (i != end ==> after[i].children
                == before[i].children),
        id == end || {
            &&& !before[end].half_size.at_most(min)
            &&& after[end].children[octant(before[end].center, point) as int] == Some(id)
            &&& after[id as int].loosely_contains(point, factor)
        },
        next_cell(after, id as int, point, factor) is None,
        more >= steps,
        id == end || more > steps,
    ensures
        located(after, at, point, factor, more) == id,
        at <= end,
    decreases steps,
{
    let o = octant(before[at].center, point) as int;
    if before[at].half_size.at_most(min) || before[at].children[o] is None {
        if id != end {
            assert(claims(after, at, o, point, factor));
            assert(next_cell(after, at, point, factor) == Some(id));
            assert(located(after, id as int, point, factor, (more - 1) as nat) == id);
        }
    } else {
        let rest = (more - 1) as nat;
        let c = before[at].children[o]->0;
        assert(links(before, at, o, c));
        lemma_follow(
            before,
            after,
            arena_len,
            point,
            min,
            factor,
            c as int,
            (steps - 1) as nat,
            rest,
            end,
            id,
        );
        assert(after[at].children == before[at].children);
        assert(after[c as int].center == before[c as int].center);
        assert(claims(after, at, o, point, factor));
        assert(next_cell(after, at, point, factor) == Some(c));
    }
}

/// How many steps the descent of an insertion may take so that a lookup, which also has to step to
/// a new node, still comes to its end.
pub open spec fn reachable_depth(is_new: bool) -> nat {
    if is_new {
        (MAX_DEPTH - 1) as nat
    } else {
        MAX_DEPTH as nat
    }
}

/// Whether a lookup of what is inserted takes the way that the insertion took: the node where it
/// is placed is at most 128 levels down, every cell on the way has the point in its loose bounds,
/// and no cell below does.
pub open spec fn lookup_follows(
    m: MemoryModel,
    point: Seq<Binary32>,
    payload: Option<Seq<u8>>,
    min: Binary32,
) -> bool {
    let base = m.rooted(point, payload);
    let (after, id) = m.inserted(point, payload, min);
    let is_new = id >= base.nodes.len();
    let depth = reachable_depth(is_new);
    &&& resting(base.nodes, point, min, 0, depth) is Some
    &&& on_course(base.nodes, point, min, m.relaxation, 0, depth)
    &&& is_new ==> after.nodes[id as int].loosely_contains(point, m.relaxation)
    &&& !is_new ==> next_cell(after.nodes, id as int, point, m.relaxation) is None
}

/// What was inserted is found at the node where it was placed, if the lookup takes the way that
/// the insertion took.
pub proof fn lemma_inserted_is_located(
    m: MemoryModel,
    point: Seq<Binary32>,
    payload: Option<Seq<u8>>,
    min: Binary32,
)
    requires
        m.well_formed(),
        m.rooted(point, payload).nodes.len() <= usize::MAX,
        m.staged(payload).arena.len() <= usize::MAX,
        lookup_follows(m, point, payload, min),
    ensures
        m.inserted(point, payload, min).0.location(point) == Some(
            m.inserted(point, payload, min).1,
        ),
{
    let base = m.rooted(point, payload);
    let (after, id) = m.inserted(point, payload, min);
    let is_new = id >= base.nodes.len();
    let depth = reachable_depth(is_new);
    lemma_rooted(m, point, payload, min);
    lemma_tree_of_rooted(m, point, payload);
    assert(base.root == Some(0usize));
    let n = base.nodes.len();
    let end = base.rest(point, min)->0;
    if n <= depth {
        lemma_more_steps(base.nodes, point, min, 0, n, depth);
    } else {
        lemma_more_steps(base.nodes, point, min, 0, depth, n);
    }
    lemma_rest_is_end(base.nodes, point, min, 0, n);
    if is_new {
        lemma_leaf_ends_lookup(after.nodes, id as int, point, m.relaxation);
    }
    lemma_follow(
        base.nodes,
        after.nodes,
        m.staged(payload).arena.len(),
        point,
        min,
        m.relaxation,
        0,
        depth,
        MAX_DEPTH as nat,
        end,
        id,
    );
}

proof fn lemma_tree_of_rooted(m: MemoryModel, point: Seq<Binary32>, payload: Option<Seq<u8>>)
    requires
        m.well_formed(),
        m.rooted(point, payload).nodes.len() <= usize::MAX,
        m.staged(payload).arena.len() <= usize::MAX,
    ensures
        is_tree(m.rooted(point, payload).nodes, m.staged(payload).arena.len()),
{
    let base = m.rooted(point, payload);
    assert forall|i: int, o: int, c: NodeId| #[trigger] links(base.nodes, i, o, c) implies links(
        m.nodes,
        i,
        o,
        c,
    ) by {}
}

/// The root that is made for a point has it, unless the root is infinitely large.
proof fn lemma_root_has_point(point: Seq<Binary32>)
    requires
        point[0].is_finite(),
        point[1].is_finite(),
        point[2].is_finite(),
    ensures
        root_half(point).is_positive(),
        !root_half(point).is_nan(),
        one().at_most(root_half(point)),
        point[0].absolute().at_most(root_half(point)),
        point[1].absolute().at_most(root_half(point)),
        point[2].absolute().at_most(root_half(point)),
{
    let most = point[0].absolute().larger(point[1].absolute()).larger(point[2].absolute());
    let factor = Binary32 { bits: ONE_AND_A_HALF };
    assert(most.is_finite() && most.is_positive());
    let f = Format::Binary32;
    let h = magnitude(f, most.body());
    lemma_times_one(most);
    lemma_pow2_pos(149);
    lemma_magnitude_order(f, ONE as nat, ONE_AND_A_HALF as nat);
    let x = magnitude(f, ONE as nat);
    let y = magnitude(f, ONE_AND_A_HALF as nat);
    assert(h * x <= h * y) by (nonlinear_arith)
        requires
            x <= y,
    ;
    lemma_rounded_monotone(f, h * x, h * y, pow2(149));
    assert(most.at_most(most.product(factor)));
}

/// The root that is made for a point is divided exactly, unless it is infinitely large.
proof fn lemma_root_divides_exactly(half: Binary32, o: nat)
    requires
        half.is_finite(),
        half.is_positive(),
        one().at_most(half),
    ensures
        divides_exactly(origin(), half, o),
{
    let f = Format::Binary32;
    lemma_halving_is_exact(half);
    let quarter = half_of(half);
    lemma_rounded_magnitude(f, quarter.body());
    assert(magnitude(f, 0) == 0);
    let c = octant_center(origin(), half, o);
    assert forall|i: int| 0 <= i < 3 implies {
        &&& (#[trigger] c[i]).is_finite()
        &&& c[i].value() == origin()[i].value() + if upper(o, i) {
            quarter.value()
        } else {
            -quarter.value()
        }
    } by {
        assert(origin()[i].bits == 0);
        assert(quarter.negated().value() == -quarter.value());
    }
}

/// A finite point is in the loose bounds of the octant that is made for it below a new root.
proof fn lemma_first_octant_has_point(point: Seq<Binary32>, child: NodeModel, factor: Binary32)
    requires
        point[0].is_finite(),
        point[1].is_finite(),
        point[2].is_finite(),
        child.center == octant_center(origin(), root_half(point), octant(origin(), point)),
        child.half_size == half_of(root_half(point)),
        factor.is_finite(),
        one().at_most(factor),
    ensures
        child.loosely_contains(point, factor),
{
    let half = root_half(point);
    let o = octant(origin(), point);
    let f = Format::Binary32;
    lemma_root_has_point(point);
    if half.is_finite() {
        assert(magnitude(f, 0) == 0);
        assert forall|i: int| 0 <= i < 3 implies reaches(
            #[trigger] origin()[i],
            half,
            point[i],
        ) by {
            lemma_magnitude_order(f, point[i].body(), half.body());
        }
        assert(reaches(origin()[0], half, point[0]));
        assert(reaches(origin()[1], half, point[1]));
        assert(reaches(origin()[2], half, point[2]));
        let root = NodeModel::leaf(0, origin(), half, 0, 0, 0, false);
        lemma_root_divides_exactly(half, o);
        lemma_octant_has_point(root, point, child);
        lemma_loose_cell_has_the_cell(child, point, factor);
    } else {
        let reach = child.half_size.product(factor);
        assert(half_of(half) == half);
        assert(reach == half);
        assert forall|i: int| 0 <= i < 3 implies near(#[trigger] child.center[i], reach, point[i]) by {
            assert(origin()[i].bits == 0);
            assert(child.center[i] == half || child.center[i] == half.negated());
        }
        assert(near(child.center[0], reach, point[0]));
        assert(near(child.center[1], reach, point[1]));
        assert(near(child.center[2], reach, point[2]));
    }
}

/// What is inserted first is found at the node where it was placed, wherever the point is: the
/// root is made large enough for it.
pub proof fn lemma_first_inserted_is_located(
    m: MemoryModel,
    point: Seq<Binary32>,
    payload: Option<Seq<u8>>,
    min: Binary32,
)
    requires
        m.well_formed(),
        m.nodes.len() == 0,
        m.staged(payload).arena.len() <= usize::MAX,
        m.relaxation.is_finite(),
        one().at_most(m.relaxation),
        point[0].is_finite(),
        point[1].is_finite(),
        point[2].is_finite(),
    ensures
        lookup_follows(m, point, payload, min),
        m.inserted(point, payload, min).0.location(point) == Some(
            m.inserted(point, payload, min).1,
        ),
{
    let base = m.rooted(point, payload);
    let (after, id) = m.inserted(point, payload, min);
    let root = base.nodes[0];
    assert(root.children == Seq::new(8, |i: int| None::<NodeId>));
    assert(resting(base.nodes, point, min, 0, base.nodes.len()) == Some(0int));
    if root.half_size.at_most(min) {
        lemma_leaf_ends_lookup(after.nodes, 0, point, m.relaxation);
    } else {
        assert(id == 1);
        lemma_first_octant_has_point(point, after.nodes[1], m.relaxation);
    }
    lemma_inserted_is_located(m, point, payload, min);
}

/// Whether every cell is divided exactly.
pub open spec fn all_divide_exactly(nodes: Seq<NodeModel>) -> bool {
    forall|i: int, o: nat|
        0 <= i < nodes.len() && o < 8 ==> #[trigger] divides_exactly(
            nodes[i].center,
            nodes[i].half_size,
            o,
        )
}

proof fn lemma_exact_descent(
    nodes: Seq<NodeModel>,
    arena_len: nat,
    point: Seq<Binary32>,
    min: Binary32,
    factor: Binary32,
    at: int,
    steps: nat,
)
    requires
        is_tree(nodes, arena_len),
        all_divide_exactly(nodes),
        0 <= at < nodes.len(),
        has_point(nodes[at], point),
        factor.is_finite(),
        one().at_most(factor),
    ensures
        on_course(nodes, point, min, factor, at, steps),
        resting(nodes, point, min, at, steps) matches Some(end) ==> has_point(nodes[end], point),
    decreases steps,
{
    let o = octant(nodes[at].center, point);
    match nodes[at].children[o as int] {
        None => {},
        Some(c) => {
            assert(links(nodes, at, o as int, c));
            assert(divides_exactly(nodes[at].center, nodes[at].half_size, o));
            lemma_octant_has_point(nodes[at], point, nodes[c as int]);
            lemma_loose_cell_has_the_cell(nodes[c as int], point, factor);
            if steps > 0 {
                lemma_exact_descent(
                    nodes,
                    arena_len,
                    point,
                    min,
                    factor,
                    c as int,
                    (steps - 1) as nat,
                );
            }
        },
    }
}

/// A point within the root's cell is found at the node where it was placed, whatever else is in
/// the memory: if the cells are divided without rounding, the node is at most 128 levels down and
/// no cell below it claims the point.
pub proof fn lemma_point_in_root_is_located(
    m: MemoryModel,
    point: Seq<Binary32>,
    payload: Option<Seq<u8>>,
    min: Binary32,
)
    requires
        m.well_formed(),
        0 < m.nodes.len() <= usize::MAX,
        m.staged(payload).arena.len() <= usize::MAX,
        m.relaxation.is_finite(),
        one().at_most(m.relaxation),
        has_point(m.nodes[0], point),
        all_divide_exactly(m.nodes),
        ({
            let (after, id) = m.inserted(point, payload, min);
            let is_new = id >= m.nodes.len();
            &&& resting(m.nodes, point, min, 0, reachable_depth(is_new)) is Some
            &&& !is_new ==> next_cell(after.nodes, id as int, point, m.relaxation) is None
        }),
    ensures
        lookup_follows(m, point, payload, min),
        m.inserted(point, payload, min).0.location(point) == Some(
            m.inserted(point, payload, min).1,
        ),
{
    let (after, id) = m.inserted(point, payload, min);
    let depth = reachable_depth(id >= m.nodes.len());
    let n = m.nodes.len();
    lemma_exact_descent(m.nodes, m.arena.len(), point, min, m.relaxation, 0, depth);
    lemma_exact_descent(m.nodes, m.arena.len(), point, min, m.relaxation, 0, n);
    lemma_rooted(m, point, payload, min);
    let end = m.rest(point, min)->0;
    lemma_rest_is_end(m.nodes, point, min, 0, n);
    let cell = m.nodes[end];
    if !cell.half_size.at_most(min) {
        let o = octant(cell.center, point);
        assert(divides_exactly(cell.center, cell.half_size, o));
        let child = after.nodes[id as int];
        lemma_octant_has_point(cell, point, child);
        lemma_loose_cell_has_the_cell(child, point, m.relaxation);
    }
    lemma_inserted_is_located(m, point, payload, min);
}

proof fn lemma_on_course_further(
    nodes: Seq<NodeModel>,
    point: Seq<Binary32>,
    min: Binary32,
    factor: Binary32,
    at: int,
    few: nat,
    many: nat,
)
    requires
        few <= many,
        resting(nodes, point, min, at, few) is Some,
        on_course(nodes, point, min, factor, at, few),
    ensures
        on_course(nodes, point, min, factor, at, many),
    decreases few,
{
    if !nodes[at].half_size.at_most(min) {
        match nodes[at].children[octant(nodes[at].center, point) as int] {
            None => {},
            Some(c) => {
                lemma_on_course_further(
                    nodes,
                    point,
                    min,
                    factor,
                    c as int,
                    (few - 1) as nat,
                    (many - 1) as nat,
                );
            },
        }
    }
}

/// A descent of few steps through settled cells stays on course and ends at a settled cell.
proof fn lemma_settled_descent(
    nodes: Seq<NodeModel>,
    arena_len: nat,
    point: Seq<Binary32>,
    min: Binary32,
    factor: Binary32,
    h: Binary32,
    at: int,
    k: nat,
    steps: nat,
) -> (level: nat)
    requires
        is_tree(nodes, arena_len),
        0 <= at < nodes.len(),
        settled(nodes[at], point, h, k),
        k + steps <= STEADY_LEVELS,
        h.is_finite(),
        h.is_positive(),
        one().at_most(h),
        factor.is_finite(),
        (Binary32 { bits: DEFAULT_RELAXATION }).at_most(factor),
        resting(nodes, point, min, at, steps) is Some,
    ensures
        on_course(nodes, point, min, factor, at, steps),
        level <= k + steps,
        settled(nodes[resting(nodes, point, min, at, steps)->0], point, h, level),
    decreases steps,
{
    if nodes[at].half_size.at_most(min) {
        k
    } else {
        let o = octant(nodes[at].center, point);
        match nodes[at].children[o as int] {
            None => k,
            Some(c) => {
                assert(links(nodes, at, o as int, c));
                lemma_octant_is_settled(nodes[at], point, nodes[c as int], h, k);
                lemma_settled_cell_has_point(nodes[c as int], point, h, k + 1, factor);
                lemma_settled_descent(
                    nodes,
                    arena_len,
                    point,
                    min,
                    factor,
                    h,
                    c as int,
                    k + 1,
                    (steps - 1) as nat,
                )
            },
        }
    }
}

/// A point within the root's cell is found at the node where it was placed, whatever else is in
/// the memory and however its cells were rounded: if the factor is the default one or larger, the
/// node is at most 15 levels down and no cell below it claims the point.
pub proof fn lemma_shallow_point_is_located(
    m: MemoryModel,
    point: Seq<Binary32>,
    payload: Option<Seq<u8>>,
    min: Binary32,
)
    requires
        m.well_formed(),
        0 < m.nodes.len() <= usize::MAX,
        m.staged(payload).arena.len() <= usize::MAX,
        m.relaxation.is_finite(),
        (Binary32 { bits: DEFAULT_RELAXATION }).at_most(m.relaxation),
        has_point(m.nodes[0], point),
        ({
            let (after, id) = m.inserted(point, payload, min);
            let is_new = id >= m.nodes.len();
            &&& resting(
                m.nodes,
                point,
                min,
                0,
                if is_new {
                    (STEADY_LEVELS - 1) as nat
                } else {
                    STEADY_LEVELS as nat
                },
            ) is Some
            &&& !is_new ==> next_cell(after.nodes, id as int, point, m.relaxation) is None
        }),
    ensures
        lookup_follows(m, point, payload, min),
        m.inserted(point, payload, min).0.location(point) == Some(
            m.inserted(point, payload, min).1,
        ),
{
    let (after, id) = m.inserted(point, payload, min);
    let is_new = id >= m.nodes.len();
    let few: nat = if is_new {
        (STEADY_LEVELS - 1) as nat
    } else {
        STEADY_LEVELS as nat
    };
    let depth = reachable_depth(is_new);
    let n = m.nodes.len();
    let h = m.nodes[0].half_size;
    let factor = m.relaxation;
    lemma_root_is_settled(m.nodes[0], point);
    let level = lemma_settled_descent(
        m.nodes,
        m.arena.len(),
        point,
        min,
        factor,
        h,
        0,
        0,
        few,
    );
    lemma_on_course_further(m.nodes, point, min, factor, 0, few, depth);
    lemma_more_steps(m.nodes, point, min, 0, few, depth);
    lemma_rooted(m, point, payload, min);
    let end = m.rest(point, min)->0;
    if n <= few {
        lemma_more_steps(m.nodes, point, min, 0, n, few);
    } else {
        lemma_more_steps(m.nodes, point, min, 0, few, n);
    }
    lemma_rest_is_end(m.nodes, point, min, 0, n);
    let cell = m.nodes[end];
    if !cell.half_size.at_most(min) {
        assert(is_new);
        let child = after.nodes[id as int];
        lemma_octant_is_settled(cell, point, child, h, level);
        lemma_settled_cell_has_point(child, point, h, level + 1, factor);
    }
    lemma_inserted_is_located(m, point, payload, min);
}

/// A new node has the payload that was inserted, or an empty one where none was given.
pub proof fn lemma_new_node_has_payload(
    m: MemoryModel,
    point: Seq<Binary32>,
    payload: Option<Seq<u8>>,
    min: Binary32,
)
    requires
        m.insertable(point, min),
        m.rooted(point, payload).nodes.len() <= usize::MAX,
        m.staged(payload).arena.len() <= usize::MAX,
        m.inserted(point, payload, min).1 >= m.nodes.len(),
    ensures
        m.inserted(point, payload, min).0.payload(m.inserted(point, payload, min).1 as int) == Some(
            match payload {
                Some(data) => data,
                None => Seq::empty(),
            },
        ),
{
    let base = m.rooted(point, payload);
    let (after, id) = m.inserted(point, payload, min);
    lemma_rooted(m, point, payload, min);
    lemma_rest_is_end(base.nodes, point, min, base.root->0 as int, base.nodes.len());
    match payload {
        Some(data) => {
            assert(after.arena == m.arena + data);
            assert((m.arena + data).subrange(
                m.arena.len() as int,
                (m.arena.len() + data.len()) as int,
            ) =~= data);
        },
        None => {
            assert(after.arena.subrange(0, 0) =~= Seq::<u8>::empty());
        },
    }
}

/// A new node tells whether a payload was inserted.
proof fn lemma_new_node_tells(
    m: MemoryModel,
    point: Seq<Binary32>,
    payload: Option<Seq<u8>>,
    min: Binary32,
)
    requires
        m.insertable(point, min),
        m.rooted(point, payload).nodes.len() <= usize::MAX,
        m.staged(payload).arena.len() <= usize::MAX,
        m.inserted(point, payload, min).1 >= m.nodes.len(),
    ensures
        ({
            let (after, id) = m.inserted(point, payload, min);
            after.nodes[id as int].has_payload == payload is Some
        }),
{
    let base = m.rooted(point, payload);
    lemma_rooted(m, point, payload, min);
    lemma_rest_is_end(base.nodes, point, min, base.root->0 as int, base.nodes.len());
}

/// A query with an embedding that was inserted without payload at a new node yields nothing, if
/// the lookup takes the way that the insertion took.
pub proof fn lemma_query_of_no_payload_yields_none(
    m: MemoryModel,
    embedding: Seq<Binary32>,
    point: Seq<Binary32>,
    min: Binary32,
)
    requires
        m.well_formed(),
        m.rooted(point, None).nodes.len() <= usize::MAX,
        m.arena.len() <= usize::MAX,
        projected(embedding, m.projection, m.high_dim as nat) == Some(point),
        m.inserted(point, None, min).1 >= m.nodes.len(),
        lookup_follows(m, point, None, min),
    ensures
        m.inserted(point, None, min).0.answer(embedding) is None,
{
    lemma_inserted_is_located(m, point, None, min);
    lemma_new_node_tells(m, point, None, min);
}

/// A query with an embedding that was inserted at a new node yields the payload, if the lookup
/// takes the way that the insertion took.
pub proof fn lemma_query_yields_what_was_inserted(
    m: MemoryModel,
    embedding: Seq<Binary32>,
    point: Seq<Binary32>,
    data: Seq<u8>,
    min: Binary32,
)
    requires
        m.well_formed(),
        m.rooted(point, Some(data)).nodes.len() <= usize::MAX,
        m.staged(Some(data)).arena.len() <= usize::MAX,
        projected(embedding, m.projection, m.high_dim as nat) == Some(point),
        m.inserted(point, Some(data), min).1 >= m.nodes.len(),
        lookup_follows(m, point, Some(data), min),
    ensures
        m.inserted(point, Some(data), min).0.answer(embedding) == Some(data),
{
    lemma_inserted_is_located(m, point, Some(data), min);
    lemma_new_node_has_payload(m, point, Some(data), min);
    lemma_new_node_tells(m, point, Some(data), min);
}

/// A query with the embedding that was inserted first yields its payload.
pub proof fn lemma_query_yields_the_first(
    m: MemoryModel,
    embedding: Seq<Binary32>,
    point: Seq<Binary32>,
    data: Seq<u8>,
    min: Binary32,
)
    requires
        m.well_formed(),
        m.nodes.len() == 0,
        m.staged(Some(data)).arena.len() <= usize::MAX,
        m.relaxation.is_finite(),
        one().at_most(m.relaxation),
        projected(embedding, m.projection, m.high_dim as nat) == Some(point),
        point[0].is_finite(),
        point[1].is_finite(),
        point[2].is_finite(),
    ensures
        m.inserted(point, Some(data), min).0.answer(embedding) == Some(data),
{
    lemma_first_inserted_is_located(m, point, Some(data), min);
    lemma_new_node_has_payload(m, point, Some(data), min);
    lemma_new_node_tells(m, point, Some(data), min);
}

/// An insertion leaves every payload as it was, and every node but for the one octant that it
/// fills. It adds one node, and a root where there was none; it adds no node where it ends at a
/// cell that is not divided further.
pub proof fn lemma_insertion_keeps_the_rest(
    m: MemoryModel,
    point: Seq<Binary32>,
    payload: Option<Seq<u8>>,
    min: Binary32,
    i: int,
)
    requires
        m.insertable(point, min),
        m.rooted(point, payload).nodes.len() <= usize::MAX,
        0 <= i < m.nodes.len(),
    ensures
        ({
            let (after, id) = m.inserted(point, payload, min);
            &&& after.nodes[i] == (NodeModel { children: after.nodes[i].children, ..m.nodes[i] })
            &&& forall|o: int|
                0 <= o < 8 && m.nodes[i].children.len() == 8 && (#[trigger] m.nodes[i].children[o]
                    != after.nodes[i].children[o]) ==> after.nodes[i].children[o] == Some(id)
                    && !m.nodes[i].half_size.at_most(min)
            &&& m.payload(i) is Some ==> after.payload(i) == m.payload(i)
            &&& after.nodes.len() == m.nodes.len() + (if m.root is None {
                1int
            } else {
                0
            }) + if id < m.rooted(point, payload).nodes.len() {
                0int
            } else {
                1
            }
        }),
{
    let base = m.rooted(point, payload);
    let (after, id) = m.inserted(point, payload, min);
    lemma_rooted(m, point, payload, min);
    lemma_rest_is_end(base.nodes, point, min, base.root->0 as int, base.nodes.len());
    let offset = m.nodes[i].payload_offset as int;
    let end = offset + m.nodes[i].payload_len;
    if end <= m.arena.len() {
        assert(after.arena.subrange(offset, end) =~= m.arena.subrange(offset, end));
    }
}

/// Whether the tree below node `at` has at most `levels` levels.
pub open spec fn at_most_levels(nodes: Seq<NodeModel>, at: int, levels: nat) -> bool
    decreases levels,
{
    forall|o: int|
        0 <= o < 8 ==> match #[trigger] nodes[at].children[o] {
            Some(c) => levels > 0 && at_most_levels(nodes, c as int, (levels - 1) as nat),
            None => true,
        }
}

/// A tree of few nodes has few levels.
pub proof fn lemma_few_nodes_few_levels(
    nodes: Seq<NodeModel>,
    arena_len: nat,
    at: int,
    levels: nat,
)
    requires
        is_tree(nodes, arena_len),
        0 <= at < nodes.len(),
        nodes.len() - at <= levels + 1,
    ensures
        at_most_levels(nodes, at, levels),
    decreases levels,
{
    assert forall|o: int| 0 <= o < 8 implies match #[trigger] nodes[at].children[o] {
        Some(c) => levels > 0 && at_most_levels(nodes, c as int, (levels - 1) as nat),
        None => true,
    } by {
        match nodes[at].children[o] {
            Some(c) => {
                assert(links(nodes, at, o, c));
                lemma_few_nodes_few_levels(nodes, arena_len, c as int, (levels - 1) as nat);
            },
            None => {},
        }
    }
}

proof fn lemma_located(
    nodes: Seq<NodeModel>,
    arena_len: nat,
    at: int,
    point: Seq<Binary32>,
    factor: Binary32,
    steps: nat,
)
    requires
        is_tree(nodes, arena_len),
        0 <= at < nodes.len(),
    ensures
        ({
            let end = located(nodes, at, point, factor, steps);
            &&& at <= end < nodes.len()
            &&& end == at || nodes[end].loosely_contains(point, factor)
            &&& at_most_levels(nodes, at, steps) ==> next_cell(nodes, end, point, factor) is None
        }),
    decreases steps,
{
    if steps > 0 {
        match next_cell(nodes, at, point, factor) {
            Some(c) => {
                let o = next_octant(nodes, at, point, factor);
                lemma_first_claim(nodes, at, 0, point, factor);
                assert(links(nodes, at, o, c));
                assert(nodes[at].children[o] == Some(c));
                lemma_located(nodes, arena_len, c as int, point, factor, (steps - 1) as nat);
            },
            None => {},
        }
    } else if at_most_levels(nodes, at, 0) {
        assert forall|o: int| 0 <= o < 8 implies #[trigger] nodes[at].children[o] is None by {}
        lemma_leaf_ends_lookup(nodes, at, point, factor);
    }
}

/// A lookup ends at a node of the memory: at the root, or at one whose loose cell has the point.
/// In a tree of at most 128 levels no child of that node claims the point. It ends nowhere only in
/// an empty memory.
pub proof fn lemma_location(m: MemoryModel, point: Seq<Binary32>)
    requires
        m.well_formed(),
        m.nodes.len() <= usize::MAX,
    ensures
        m.location(point) is None <==> m.nodes.len() == 0,
        m.location(point) matches Some(id) ==> {
            &&& id < m.nodes.len()
            &&& id == 0 || m.nodes[id as int].loosely_contains(point, m.relaxation)
            &&& at_most_levels(m.nodes, 0, MAX_DEPTH as nat) ==> forall|o: int|
                0 <= o < 8 ==> !#[trigger] claims(m.nodes, id as int, o, point, m.relaxation)
        },
{
    if m.nodes.len() > 0 {
        lemma_located(m.nodes, m.arena.len(), 0, point, m.relaxation, MAX_DEPTH as nat);
        let id = m.location(point)->0;
        lemma_first_claim(m.nodes, id as int, 0, point, m.relaxation);
        if at_most_levels(m.nodes, 0, MAX_DEPTH as nat) {
            assert forall|o: int| 0 <= o < 8 implies !#[trigger] claims(
                m.nodes,
                id as int,
                o,
                point,
                m.relaxation,
            ) by {
                if claims(m.nodes, id as int, o, point, m.relaxation) {
                    assert(next_cell(m.nodes, id as int, point, m.relaxation) is Some);
                }
            }
        }
    }
}

/// A query whose lookup ends at a node that was given a payload yields the bytes of that node's range,
/// whether or not the node has children.
pub proof fn lemma_query_yields_the_payload(
    m: MemoryModel,
    embedding: Seq<Binary32>,
    point: Seq<Binary32>,
    id: NodeId,
)
    requires
        projected(embedding, m.projection, m.high_dim as nat) == Some(point),
        m.location(point) == Some(id),
        id < m.nodes.len(),
        m.nodes[id as int].has_payload,
        m.nodes[id as int].payload_offset + m.nodes[id as int].payload_len <= m.arena.len(),
    ensures
        ({
            let offset = m.nodes[id as int].payload_offset;
            let len = m.nodes[id as int].payload_len;
            m.answer(embedding) matches Some(data) && data.len() == len && forall|i: int|
                0 <= i < len ==> #[trigger] data[i] == m.arena[offset + i]
        }),
{
}

/// A query yields nothing exactly where the embedding has another length than the memory takes, the
/// memory is empty, or the lookup ends at a node that was given no payload.
pub proof fn lemma_query_yields_none(m: MemoryModel, embedding: Seq<Binary32>)
    requires
        m.well_formed(),
        m.nodes.len() <= usize::MAX,
    ensures
        m.answer(embedding) is None <==> {
            ||| embedding.len() != m.high_dim
            ||| m.nodes.len() == 0
            ||| !m.nodes[m.location(
                projected(embedding, m.projection, m.high_dim as nat)->0,
            )->0 as int].has_payload
        },
{
    match projected(embedding, m.projection, m.high_dim as nat) {
        None => {},
        Some(point) => {
            lemma_location(m, point);
        },
    }
}

/// An insertion that does not change where an embedding is located does not change what a query with
/// it yields.
pub proof fn lemma_query_survives_insertion(
    m: MemoryModel,
    embedding: Seq<Binary32>,
    point: Seq<Binary32>,
    other: Seq<Binary32>,
    payload: Option<Seq<u8>>,
    min: Binary32,
)
    requires
        m.well_formed(),
        0 < m.nodes.len() <= usize::MAX,
        m.staged(payload).arena.len() <= usize::MAX,
        projected(embedding, m.projection, m.high_dim as nat) == Some(point),
        m.inserted(other, payload, min).0.location(point) == m.location(point),
    ensures
        m.inserted(other, payload, min).0.answer(embedding) == m.answer(embedding),
{
    lemma_location(m, point);
    let id = m.location(point)->0;
    lemma_insertion_keeps_the_rest(m, other, payload, min, id as int);
}

proof fn lemma_unclaimed_node_is_passed_by(
    before: Seq<NodeModel>,
    after: Seq<NodeModel>,
    arena_len: nat,
    at: int,
    point: Seq<Binary32>,
    factor: Binary32,
    steps: nat,
    fresh: NodeId,
)
    requires
        is_tree(before, arena_len),
        0 <= at < before.len() < after.len(),
        forall|i: int|
            0 <= i < before.len() ==> (#[trigger] after[i]).center == before[i].center
                && after[i].half_size == before[i].half_size && after[i].children.len() == 8,
        forall|i: int, o: int|
            0 <= i < before.len() && 0 <= o < 8 ==> #[trigger] after[i].children[o]
                == before[i].children[o] || (before[i].children[o] is None && after[i].children[o]
                == Some(fresh)),
        !after[fresh as int].loosely_contains(point, factor),
    ensures
        located(after, at, point, factor, steps) == located(before, at, point, factor, steps),
    decreases steps,
{
    if steps > 0 {
        assert forall|o: int| 0 <= o < 8 implies #[trigger] claims(after, at, o, point, factor)
            == claims(before, at, o, point, factor) by {
            assert(after[at].children[o] == before[at].children[o] || after[at].children[o] == Some(
                fresh,
            ));
            match before[at].children[o] {
                Some(c) => {
                    assert(links(before, at, o, c));
                    assert(after[c as int].center == before[c as int].center);
                },
                None => {},
            }
        }
        lemma_first_claim(before, at, 0, point, factor);
        lemma_first_claim(after, at, 0, point, factor);
        let a = first_claim(after, at, 0, point, factor);
        let b = first_claim(before, at, 0, point, factor);
        if a < b {
            assert(claims(before, at, a, point, factor));
        }
        if b < a {
            assert(claims(after, at, b, point, factor));
        }
        assert(a == b);
        let o = next_octant(before, at, point, factor);
        if 0 <= o < 8 {
            assert(claims(before, at, o, point, factor));
            assert(after[at].children[o] == before[at].children[o] || before[at].children[o] is None);
        }
        match next_cell(before, at, point, factor) {
            Some(c) => {
                assert(links(before, at, o, c));
                lemma_unclaimed_node_is_passed_by(
                    before,
                    after,
                    arena_len,
                    c as int,
                    point,
                    factor,
                    (steps - 1) as nat,
                    fresh,
                );
            },
            None => {},
        }
    }
}

/// An insertion whose new node does not have a point in its loose cell changes neither where the point
/// is located nor what a query for it yields.
pub proof fn lemma_insertion_elsewhere_changes_nothing(
    m: MemoryModel,
    embedding: Seq<Binary32>,
    point: Seq<Binary32>,
    other: Seq<Binary32>,
    payload: Option<Seq<u8>>,
    min: Binary32,
)
    requires
        m.well_formed(),
        0 < m.nodes.len() <= usize::MAX,
        m.staged(payload).arena.len() <= usize::MAX,
        projected(embedding, m.projection, m.high_dim as nat) == Some(point),
        ({
            let (after, id) = m.inserted(other, payload, min);
            id < m.nodes.len() || !after.nodes[id as int].loosely_contains(point, m.relaxation)
        }),
    ensures
        m.inserted(other, payload, min).0.location(point) == m.location(point),
        m.inserted(other, payload, min).0.answer(embedding) == m.answer(embedding),
{
    let (after, id) = m.inserted(other, payload, min);
    lemma_rooted(m, other, payload, min);
    lemma_rest_is_end(m.nodes, other, min, 0, m.nodes.len());
    if id >= m.nodes.len() {
        lemma_unclaimed_node_is_passed_by(
            m.nodes,
            after.nodes,
            m.arena.len(),
            0,
            point,
            m.relaxation,
            MAX_DEPTH as nat,
            id,
        );
    } else {
        assert(after.nodes =~= m.nodes);
    }
    lemma_query_survives_insertion(m, embedding, point, other, payload, min);
}

/// Whether a lookup steps from one node to another: to the child in the octant of the point if its
/// loose cell has the point, else to the first child whose loose cell has it.
pub open spec fn is_lookup_step(
    nodes: Seq<NodeModel>,
    from: int,
    to: int,
    point: Seq<Binary32>,
    factor: Binary32,
) -> bool {
    let own = octant(nodes[from].center, point) as int;
    exists|o: int|
        {
            &&& 0 <= o < 8
            &&& #[trigger] nodes[from].children[o] == Some(to as NodeId)
            &&& has_claimant(nodes, from, o, point, factor)
            &&& o != own ==> !has_claimant(nodes, from, own, point, factor) && forall|u: int|
                0 <= u < o ==> !#[trigger] has_claimant(nodes, from, u, point, factor)
        }
}

/// Whether `path` is the way of a lookup of at most `steps` steps: it goes on until no child's loose
/// cell has the point or all steps were taken.
pub open spec fn is_lookup_path(
    nodes: Seq<NodeModel>,
    point: Seq<Binary32>,
    factor: Binary32,
    path: Seq<int>,
    steps: nat,
) -> bool {
    &&& 0 < path.len() <= steps + 1
    &&& forall|i: int| 0 <= i < path.len() ==> 0 <= #[trigger] path[i] < nodes.len()
    &&& forall|i: int|
        0 <= i < path.len() - 1 ==> is_lookup_step(
            nodes,
            #[trigger] path[i],
            path[i + 1],
            point,
            factor,
        )
    &&& path.len() == steps + 1 || forall|o: int|
        0 <= o < 8 ==> !#[trigger] has_claimant(nodes, path.last(), o, point, factor)
}

/// Whether octant `o` of the node `at` holds a node that is within reach of the point along every
/// axis, with its half size stretched by the factor.
pub open spec fn has_claimant(
    nodes: Seq<NodeModel>,
    at: int,
    o: int,
    point: Seq<Binary32>,
    factor: Binary32,
) -> bool {
    nodes[at].children[o] is Some && {
        let child = nodes[nodes[at].children[o]->0 as int];
        let reach = child.half_size.product(factor);
        forall|i: int|
            0 <= i < 3 ==> #[trigger] point[i].difference(child.center[i]).absolute().at_most(reach)
    }
}

proof fn lemma_claimant(
    nodes: Seq<NodeModel>,
    at: int,
    o: int,
    point: Seq<Binary32>,
    factor: Binary32,
)
    ensures
        has_claimant(nodes, at, o, point, factor) == claims(nodes, at, o, point, factor),
{
    if nodes[at].children[o] is Some {
        let child = nodes[nodes[at].children[o]->0 as int];
        let reach = child.half_size.product(factor);
        assert(near(child.center[0], reach, point[0]) == point[0].difference(
            child.center[0],
        ).absolute().at_most(reach));
        if has_claimant(nodes, at, o, point, factor) {
            assert(point[0].difference(child.center[0]).absolute().at_most(reach));
            assert(point[1].difference(child.center[1]).absolute().at_most(reach));
            assert(point[2].difference(child.center[2]).absolute().at_most(reach));
        }
    }
}

proof fn lemma_lookup_step(nodes: Seq<NodeModel>, at: int, point: Seq<Binary32>, factor: Binary32)
    requires
        nodes[at].children.len() == 8,
        nodes.len() <= usize::MAX,
    ensures
        match next_cell(nodes, at, point, factor) {
            Some(c) => is_lookup_step(nodes, at, c as int, point, factor),
            None => forall|o: int|
                0 <= o < 8 ==> !#[trigger] has_claimant(nodes, at, o, point, factor),
        },
{
    let own = octant(nodes[at].center, point) as int;
    lemma_first_claim(nodes, at, 0, point, factor);
    assert forall|o: int| #[trigger]
        has_claimant(nodes, at, o, point, factor) == claims(nodes, at, o, point, factor) by {
        lemma_claimant(nodes, at, o, point, factor);
    }
    match next_cell(nodes, at, point, factor) {
        Some(c) => {
            let o = next_octant(nodes, at, point, factor);
            assert(nodes[at].children[o] == Some(c));
            assert(has_claimant(nodes, at, o, point, factor) == claims(nodes, at, o, point, factor));
            assert(has_claimant(nodes, at, own, point, factor) == claims(
                nodes,
                at,
                own,
                point,
                factor,
            ));
        },
        None => {},
    }
}

proof fn lemma_lookup_path(
    nodes: Seq<NodeModel>,
    arena_len: nat,
    at: int,
    point: Seq<Binary32>,
    factor: Binary32,
    steps: nat,
) -> (path: Seq<int>)
    requires
        is_tree(nodes, arena_len),
        0 <= at < nodes.len() <= usize::MAX,
    ensures
        is_lookup_path(nodes, point, factor, path, steps),
        path[0] == at,
        path.last() == located(nodes, at, point, factor, steps),
    decreases steps,
{
    if steps == 0 {
        seq![at]
    } else {
        lemma_lookup_step(nodes, at, point, factor);
        match next_cell(nodes, at, point, factor) {
            None => seq![at],
            Some(c) => {
                let o = next_octant(nodes, at, point, factor);
                lemma_first_claim(nodes, at, 0, point, factor);
                assert(links(nodes, at, o, c));
                let rest = lemma_lookup_path(
                    nodes,
                    arena_len,
                    c as int,
                    point,
                    factor,
                    (steps - 1) as nat,
                );
                let path = seq![at] + rest;
                assert(path.last() == rest.last());
                assert forall|i: int| 0 <= i < path.len() - 1 implies is_lookup_step(
                    nodes,
                    #[trigger] path[i],
                    path[i + 1],
                    point,
                    factor,
                ) by {
                    if i > 0 {
                        assert(path[i] == rest[i - 1]);
                        assert(path[i + 1] == rest[i]);
                    }
                }
                path
            },
        }
    }
}

/// A lookup goes from the root to the node that it ends at by such a path, in at most 128 steps.
pub proof fn lemma_lookup_takes_the_path(m: MemoryModel, point: Seq<Binary32>)
    requires
        m.well_formed(),
        0 < m.nodes.len() <= usize::MAX,
    ensures
        exists|path: Seq<int>| #[trigger]
            is_lookup_path(m.nodes, point, m.relaxation, path, 128) && path[0] == 0 && m.location(
                point,
            ) == Some(path.last() as NodeId),
{
    let path = lemma_lookup_path(
        m.nodes,
        m.arena.len(),
        0,
        point,
        m.relaxation,
        MAX_DEPTH as nat,
    );
    assert(is_lookup_path(m.nodes, point, m.relaxation, path, 128));
}

/// Whether `path` is the way of an insertion: from the root down through the octants of the point, as
/// long as the cells are larger than `min` and the octants are filled.
pub open spec fn is_descent(
    nodes: Seq<NodeModel>,
    point: Seq<Binary32>,
    min: Binary32,
    path: Seq<int>,
) -> bool {
    &&& 0 < path.len()
    &&& forall|i: int| 0 <= i < path.len() ==> 0 <= #[trigger] path[i] < nodes.len()
    &&& forall|i: int|
        0 <= i < path.len() - 1 ==> {
            let node = nodes[#[trigger] path[i]];
            &&& !node.half_size.at_most(min)
            &&& node.children[octant(node.center, point) as int] == Some(path[i + 1] as NodeId)
        }
    &&& {
        let node = nodes[path.last()];
        node.half_size.at_most(min) || node.children[octant(node.center, point) as int] is None
    }
}

proof fn lemma_descent_path(
    nodes: Seq<NodeModel>,
    point: Seq<Binary32>,
    min: Binary32,
    at: int,
    steps: nat,
) -> (path: Seq<int>)
    requires
        resting(nodes, point, min, at, steps) is Some,
        nodes.len() <= usize::MAX,
    ensures
        is_descent(nodes, point, min, path),
        path[0] == at,
        path.last() == resting(nodes, point, min, at, steps)->0,
    decreases steps,
{
    if nodes[at].half_size.at_most(min) {
        seq![at]
    } else {
        match nodes[at].children[octant(nodes[at].center, point) as int] {
            None => seq![at],
            Some(c) => {
                let rest = lemma_descent_path(nodes, point, min, c as int, (steps - 1) as nat);
                let path = seq![at] + rest;
                assert(path.last() == rest.last());
                assert forall|i: int| 0 <= i < path.len() - 1 implies {
                    let node = nodes[#[trigger] path[i]];
                    &&& !node.half_size.at_most(min)
                    &&& node.children[octant(node.center, point) as int] == Some(
                        path[i + 1] as NodeId,
                    )
                } by {
                    if i > 0 {
                        assert(path[i] == rest[i - 1]);
                        assert(path[i + 1] == rest[i]);
                    }
                }
                path
            },
        }
    }
}

/// An insertion follows the octants of the point to the end of their way. There it either stops at a
/// cell that is small enough, and only the payload is added, or it fills the empty octant with a new
/// node of half the size, whose centre is the cell's, moved by a quarter of the cell's edge towards
/// the point's side along each axis.
pub proof fn lemma_insertion_takes_the_descent(
    m: MemoryModel,
    point: Seq<Binary32>,
    payload: Option<Seq<u8>>,
    min: Binary32,
)
    requires
        m.well_formed(),
        0 < m.nodes.len() < usize::MAX,
        m.staged(payload).arena.len() <= usize::MAX,
    ensures
        exists|path: Seq<int>| #[trigger]
            is_descent(m.nodes, point, min, path) && path[0] == 0 && {
                let (after, id) = m.inserted(point, payload, min);
                let cell = m.nodes[path.last()];
                let o = octant(cell.center, point) as int;
                if cell.half_size.at_most(min) {
                    id == path.last() && after.nodes == m.nodes
                } else {
                    let quarter = cell.half_size.product(Binary32 { bits: HALF });
                    let child = after.nodes[id as int];
                    &&& id == m.nodes.len()
                    &&& after.nodes.len() == m.nodes.len() + 1
                    &&& after.nodes[path.last()].children[o] == Some(id)
                    &&& child.id == id
                    &&& child.embedding_id == m.nodes.len()
                    &&& child.half_size == quarter
                    &&& child.center.len() == 3
                    &&& forall|i: int|
                        0 <= i < 3 ==> #[trigger] child.center[i] == if cell.center[i].at_most(
                            point[i],
                        ) {
                            cell.center[i].sum(quarter)
                        } else {
                            cell.center[i].sum(quarter.negated())
                        }
                    &&& is_leaf(child)
                }
            },
        ({
            let after = m.inserted(point, payload, min).0;
            &&& after.root == m.root
            &&& after.projection == m.projection
            &&& after.high_dim == m.high_dim
            &&& after.relaxation == m.relaxation
            &&& after.arena == m.arena + match payload {
                Some(data) => data,
                None => Seq::empty(),
            }
        }),
{
    lemma_rooted(m, point, payload, min);
    let path = lemma_descent_path(m.nodes, point, min, 0, m.nodes.len());
    lemma_rest_is_end(m.nodes, point, min, 0, m.nodes.len());
    let (after, id) = m.inserted(point, payload, min);
    let cell = m.nodes[path.last()];
    let o = octant(cell.center, point);
    assert(m.arena + Seq::<u8>::empty() =~= m.arena);
    assert(upper(o, 0) == cell.center[0].at_most(point[0]));
    assert(upper(o, 1) == cell.center[1].at_most(point[1]));
    assert(upper(o, 2) == cell.center[2].at_most(point[2]));
    if cell.half_size.at_most(min) {
        assert(after.nodes =~= m.nodes);
    } else {
        let child = after.nodes[id as int];
        let quarter = cell.half_size.product(Binary32 { bits: HALF });
        assert forall|i: int| 0 <= i < 3 implies #[trigger] child.center[i]
            == if cell.center[i].at_most(point[i]) {
            cell.center[i].sum(quarter)
        } else {
            cell.center[i].sum(quarter.negated())
        } by {
            assert(child.center[i] == octant_center(cell.center, cell.half_size, o)[i]);
            assert(i == 0 || i == 1 || i == 2);
        }
    }
    assert(is_descent(m.nodes, point, min, path));
}

/// A first insertion makes a root around the origin, with a half size of 1 or one and a half times the
/// largest coordinate, whichever is larger, and for it one octant unless the root is small enough.
pub proof fn lemma_first_insertion_makes_a_root(
    m: MemoryModel,
    point: Seq<Binary32>,
    payload: Option<Seq<u8>>,
    min: Binary32,
)
    requires
        m.well_formed(),
        m.nodes.len() == 0,
        m.staged(payload).arena.len() <= usize::MAX,
        point[0].is_finite(),
        point[1].is_finite(),
        point[2].is_finite(),
    ensures
        ({
            let (after, id) = m.inserted(point, payload, min);
            let root = after.nodes[0];
            let scaled = |i: int| point[i].absolute().product(Binary32 { bits: ONE_AND_A_HALF });
            &&& after.root == Some(0usize)
            &&& root.embedding_id == 0
            &&& root.has_payload == payload is Some
            &&& after.payload(0) == Some(
                match payload {
                    Some(data) => data,
                    None => Seq::empty(),
                },
            )
            &&& root.center.len() == 3
            &&& root.center[0].bits == 0 && root.center[1].bits == 0 && root.center[2].bits == 0
            &&& root.half_size == one() || root.half_size == scaled(0) || root.half_size == scaled(1)
                || root.half_size == scaled(2)
            &&& one().at_most(root.half_size)
            &&& scaled(0).at_most(root.half_size)
            &&& scaled(1).at_most(root.half_size)
            &&& scaled(2).at_most(root.half_size)
            &&& if root.half_size.at_most(min) {
                id == 0 && after.nodes.len() == 1
            } else {
                id == 1 && after.nodes.len() == 2 && root.children[octant(
                    root.center,
                    point,
                ) as int] == Some(1usize)
            }
        }),
{
    lemma_root_has_point(point);
    let base = m.rooted(point, payload);
    assert(base.nodes[0].children == Seq::new(8, |i: int| None::<NodeId>));
    assert(resting(base.nodes, point, min, 0, base.nodes.len()) == Some(0int));
    let factor = Binary32 { bits: ONE_AND_A_HALF };
    let most = point[0].absolute().larger(point[1].absolute()).larger(point[2].absolute());
    assert(most.is_finite() && most.is_positive());
    lemma_stretched_by(point[0].absolute(), most, factor);
    lemma_stretched_by(point[1].absolute(), most, factor);
    lemma_stretched_by(point[2].absolute(), most, factor);
    let after = m.inserted(point, payload, min).0;
    match payload {
        Some(data) => {
            assert(after.arena == m.arena + data);
            assert((m.arena + data).subrange(
                m.arena.len() as int,
                (m.arena.len() + data.len()) as int,
            ) =~= data);
        },
        None => {
            assert(after.arena.subrange(0, 0) =~= Seq::<u8>::empty());
        },
    }
}

proof fn lemma_stretched_by(a: Binary32, b: Binary32, factor: Binary32)
    requires
        a.is_finite(),
        b.is_finite(),
        a.is_positive(),
        b.is_positive(),
        factor.is_finite(),
        factor.is_positive(),
        a.at_most(b),
    ensures
        a.product(factor).at_most(b.product(factor)),
        a.product(factor).is_positive(),
        b.product(factor).is_positive(),
{
    let f = Format::Binary32;
    let x = magnitude(f, a.body());
    let y = magnitude(f, b.body());
    let h = magnitude(f, factor.body());
    lemma_pow2_pos(149);
    lemma_magnitude_order(f, a.body(), b.body());
    assert(x * h <= y * h) by (nonlinear_arith)
        requires
            x <= y,
    ;
    lemma_rounded_monotone(f, x * h, y * h, pow2(149));
}

} // verus!
