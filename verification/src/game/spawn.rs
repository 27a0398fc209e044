//! Where a new world lets its player begin.
//!
//! Columns are tried in rings around the origin, far apart, until some column of a
//! ring has dry ground to stand on. Of those the nearest is taken.

use crate::double::Double;
use crate::world::block::Block;
use crate::world::column::{surface_y, terrain_at, Column, ColumnGen, SEA_Y, Y_MIN};
use vstd::prelude::*;

verus! {

/// Blocks between two columns that are tried.
pub const SEARCH_STEP: i64 = 128;

/// How far from the origin columns are tried.
pub const MAX_SEARCH_RADIUS: i64 = 32_768;

/// The last ring.
pub const MAX_RING: i64 = 256;

/// The number of columns of a ring.
pub open spec fn ring_len(ring: int) -> nat {
    if ring <= 0 {
        1
    } else {
        (8 * ring) as nat
    }
}

/// The columns of a ring in the order in which they are tried: in turn on the north
/// and south sides from west to east, then in turn on the west and east sides from
/// north to south.
pub open spec fn ring_position(ring: int, i: int) -> (i64, i64) {
    let wide = 2 * (2 * ring + 1);
    if ring <= 0 {
        (0, 0)
    } else if i < wide {
        (
            ((i / 2 - ring) * SEARCH_STEP) as i64,
            (if i % 2 == 0 {
                -ring * SEARCH_STEP
            } else {
                ring * SEARCH_STEP
            }) as i64,
        )
    } else {
        let k = i - wide;
        (
            (if k % 2 == 0 {
                -ring * SEARCH_STEP
            } else {
                ring * SEARCH_STEP
            }) as i64,
            ((k / 2 - ring + 1) * SEARCH_STEP) as i64,
        )
    }
}

/// The columns of a ring in the order in which they are tried.
pub fn ring_positions(ring: i64) -> (r: Vec<(i64, i64)>)
    requires
        0 <= ring <= MAX_RING,
    ensures
        r@ == Seq::new(ring_len(ring as int), |i: int| ring_position(ring as int, i)),
{
    let mut out: Vec<(i64, i64)> = Vec::new();
    if ring == 0 {
        out.push((0, 0));
        assert(out@ =~= Seq::new(ring_len(0), |i: int| ring_position(0, i)));
        return out;
    }
    let mut x: i64 = -ring;
    while x <= ring
        invariant
            0 < ring <= MAX_RING,
            -ring <= x <= ring + 1,
            out@.len() == 2 * (x + ring),
            forall|i: int|
                0 <= i < out@.len() ==> #[trigger] out@[i] == ring_position(ring as int, i),
        decreases ring + 1 - x,
    {
        out.push((x * SEARCH_STEP, -ring * SEARCH_STEP));
        out.push((x * SEARCH_STEP, ring * SEARCH_STEP));
        x += 1;
    }
    let mut z: i64 = -ring + 1;
    while z < ring
        invariant
            0 < ring <= MAX_RING,
            -ring + 1 <= z <= ring,
            out@.len() == 2 * (2 * ring + 1) + 2 * (z + ring - 1),
            forall|i: int|
                0 <= i < out@.len() ==> #[trigger] out@[i] == ring_position(ring as int, i),
        decreases ring - z,
    {
        out.push((-ring * SEARCH_STEP, z * SEARCH_STEP));
        out.push((ring * SEARCH_STEP, z * SEARCH_STEP));
        z += 1;
    }
    assert(out@ =~= Seq::new(ring_len(ring as int), |i: int| ring_position(ring as int, i)));
    out
}

/// Whether a player has room in a cell.
pub open spec fn is_open(block: Block) -> bool {
    !block.spec_solid() && block != Block::Water
}

/// Whether a player can begin at a layer of a column: on its highest solid block,
/// with two open cells above it.
pub open spec fn is_safe(column: &Column, y: int) -> bool {
    &&& column.solid_top_is(y - 1)
    &&& column.block(y - 1).spec_solid()
    &&& is_open(column.block(y))
    &&& is_open(column.block(y + 1))
}

/// The layer of a column at which a player can begin.
pub fn safe_spawn_y(column: &Column) -> (r: Option<i64>)
    requires
        column.blocks@.len() < i64::MAX,
    ensures
        match r {
            Some(y) => is_safe(column, y as int),
            None => forall|y: int| !#[trigger] is_safe(column, y),
        },
{
    let floor_y: i64 = column.top_solid();
    let floor = column.get(floor_y);
    let feet = column.get(floor_y + 1);
    let head = column.get(floor_y + 2);
    proof {
        assert forall|y: int| #[trigger] is_safe(column, y) implies y == floor_y + 1 by {
            lemma_one_top(column, y - 1, floor_y as int);
        }
    }
    if !floor.is_solid() || feet.is_solid() || feet.is_fluid() || head.is_solid()
        || head.is_fluid() {
        return None;
    }
    Some(floor_y + 1)
}

proof fn lemma_one_top(column: &Column, a: int, b: int)
    requires
        column.solid_top_is(a),
        column.solid_top_is(b),
    ensures
        a == b,
{
    if a < b {
        assert(!column.block(b).spec_solid());
    }
    if b < a {
        assert(!column.block(a).spec_solid());
    }
}

/// The layer at which a player can begin in a column of terrain.
pub fn spawn_candidate(seed: u64, x: i64, z: i64, height: Double) -> (r: Option<i64>)
    ensures
        match r {
            Some(y) => is_safe_ground(seed, x, z, height, y as int),
            None => forall|y: int| !#[trigger] is_safe_ground(seed, x, z, height, y),
        },
{
    let column = ColumnGen::new(seed).generate(x, z, height);
    proof {
        assert forall|y: int| #[trigger] is_safe_ground(seed, x, z, height, y) == is_safe(
            &column,
            y,
        ) by {
            lemma_safe_column(&column, seed, x, z, height, y);
        }
    }
    safe_spawn_y(&column)
}

proof fn lemma_safe_column(column: &Column, seed: u64, x: i64, z: i64, height: Double, y: int)
    requires
        forall|k: int| #[trigger] column.block(k) == terrain_at(seed, x, k, z, height),
    ensures
        is_safe_ground(seed, x, z, height, y) == is_safe(column, y),
{
    if is_safe_ground(seed, x, z, height, y) {
        assert forall|k: int| k > y - 1 implies !(#[trigger] column.block(k)).spec_solid() by {
            assert(!terrain_at(seed, x, k, z, height).spec_solid());
        }
        assert(column.block(y - 1) == terrain_at(seed, x, y - 1, z, height));
        assert(column.block(y) == terrain_at(seed, x, y, z, height));
        assert(column.block(y + 1) == terrain_at(seed, x, y + 1, z, height));
    }
    if is_safe(column, y) {
        assert forall|k: int| k >= y implies !(#[trigger] terrain_at(
            seed,
            x,
            k,
            z,
            height,
        )).spec_solid() by {
            assert(!column.block(k).spec_solid());
        }
    }
}

/// Whether a player can begin at a layer of a column of terrain: its highest solid
/// block lies below, and the two cells above it are open.
pub open spec fn is_safe_ground(seed: u64, x: i64, z: i64, height: Double, y: int) -> bool {
    &&& terrain_at(seed, x, y - 1, z, height).spec_solid()
    &&& forall|k: int| k >= y ==> !(#[trigger] terrain_at(seed, x, k, z, height)).spec_solid()
    &&& y > Y_MIN
    &&& is_open(terrain_at(seed, x, y, z, height))
    &&& is_open(terrain_at(seed, x, y + 1, z, height))
}

/// The square of the distance of a column from the origin.
pub open spec fn square_distance(p: (i64, i64)) -> int {
    p.0 * p.0 + p.1 * p.1
}

/// Whether a column of a ring is the one to begin in: none with a safe layer is
/// nearer, and of those as near it comes first.
pub open spec fn is_nearest(
    positions: Seq<(i64, i64)>,
    layers: Seq<Option<i64>>,
    n: int,
    k: int,
) -> bool {
    &&& 0 <= k < n
    &&& layers[k] is Some
    &&& forall|j: int|
        0 <= j < n && layers[j] is Some ==> square_distance(positions[k]) <= square_distance(
            #[trigger] positions[j],
        )
    &&& forall|j: int|
        0 <= j < k && layers[j] is Some ==> square_distance(positions[k]) < square_distance(
            #[trigger] positions[j],
        )
}

/// Whether a coordinate is one that may be searched.
pub open spec fn in_search(v: int) -> bool {
    -MAX_SEARCH_RADIUS <= v <= MAX_SEARCH_RADIUS
}

/// Picks the column to begin in from those of a ring.
pub fn nearest_spawn(positions: &Vec<(i64, i64)>, layers: &Vec<Option<i64>>) -> (r: Option<usize>)
    requires
        positions@.len() == layers@.len(),
        forall|i: int|
            0 <= i < positions@.len() ==> in_search((#[trigger] positions@[i]).0 as int)
                && in_search(positions@[i].1 as int),
    ensures
        match r {
            Some(k) => is_nearest(positions@, layers@, positions@.len() as int, k as int),
            None => forall|i: int| 0 <= i < layers@.len() ==> (#[trigger] layers@[i]) is None,
        },
{
    let mut best: Option<usize> = None;
    let mut best_distance: i64 = 0;
    let mut i: usize = 0;
    while i < positions.len()
        invariant
            i <= positions@.len(),
            positions@.len() == layers@.len(),
            forall|i: int|
                0 <= i < positions@.len() ==> in_search((#[trigger] positions@[i]).0 as int)
                    && in_search(positions@[i].1 as int),
            match best {
                Some(k) => {
                    &&& is_nearest(positions@, layers@, i as int, k as int)
                    &&& best_distance == square_distance(positions@[k as int])
                },
                None => forall|j: int| 0 <= j < i ==> (#[trigger] layers@[j]) is None,
            },
        decreases positions@.len() - i,
    {
        let (x, z) = positions[i];
        assert(positions@[i as int] == (x, z));
        proof {
            lemma_square_small(x as int);
            lemma_square_small(z as int);
        }
        if layers[i].is_some() {
            let distance: i64 = x * x + z * z;
            match best {
                Some(_) => {
                    if distance < best_distance {
                        best = Some(i);
                        best_distance = distance;
                    }
                },
                None => {
                    best = Some(i);
                    best_distance = distance;
                },
            }
        }
        i += 1;
    }
    best
}

proof fn lemma_square_small(v: int)
    requires
        in_search(v),
    ensures
        0 <= v * v <= 0x4000_0000,
{
    assert(0 <= v * v <= 0x4000_0000) by (nonlinear_arith)
        requires
            -32_768 <= v <= 32_768,
    ;
}

/// What follows after the columns of a ring have been tried.
#[derive(Clone, Copy, Debug, PartialEq, Eq, Structural)]
pub enum SearchStep {
    /// The player begins in this column, at this layer.
    Found { x: i64, z: i64, y: i64 },
    /// The next ring is tried.
    Next(i64),
    /// There is nowhere to begin.
    Failed,
}

/// The columns of a ring.
pub open spec fn ring_columns(ring: int) -> Seq<(i64, i64)> {
    Seq::new(ring_len(ring), |i: int| ring_position(ring, i))
}

/// Decides how the search goes on, from the layers at which a player can begin in the
/// columns of a ring: in the nearest column that has one, else with the next ring, as
/// long as there is one.
pub fn search_step(ring: i64, layers: &Vec<Option<i64>>) -> (r: SearchStep)
    requires
        0 <= ring <= MAX_RING,
        layers@.len() == ring_len(ring as int),
    ensures
        (exists|i: int| 0 <= i < layers@.len() && (#[trigger] layers@[i]) is Some) ==> (exists|
            k: int,
        | #[trigger]
            is_nearest(ring_columns(ring as int), layers@, layers@.len() as int, k) && r
                == (SearchStep::Found {
                x: ring_columns(ring as int)[k].0,
                z: ring_columns(ring as int)[k].1,
                y: layers@[k]->0,
            })),
        (forall|i: int| 0 <= i < layers@.len() ==> (#[trigger] layers@[i]) is None) ==> r == (
        if ring < MAX_RING {
            SearchStep::Next((ring + 1) as i64)
        } else {
            SearchStep::Failed
        }),
{
    let positions = ring_positions(ring);
    assert(positions@ =~= ring_columns(ring as int));
    assert forall|i: int| 0 <= i < positions@.len() implies in_search(
        (#[trigger] positions@[i]).0 as int,
    ) && in_search(positions@[i].1 as int) by {
        assert(positions@[i] == ring_position(ring as int, i));
    }
    match nearest_spawn(&positions, layers) {
        Some(k) => {
            let (x, z) = positions[k];
            match layers[k] {
                Some(y) => SearchStep::Found { x, z, y },
                None => SearchStep::Failed,
            }
        },
        None => if ring < MAX_RING {
            SearchStep::Next(ring + 1)
        } else {
            SearchStep::Failed
        },
    }
}

/// Whether a column of the search grid belongs to a ring: its longer coordinate is
/// that of the ring.
pub open spec fn on_ring(ring: int, a: int, b: int) -> bool {
    -ring <= a <= ring && -ring <= b <= ring && (a == ring || a == -ring || b == ring || b == -ring)
}

/// A ring has every column of the search grid at its distance, and no other.
pub proof fn rings_are_complete(ring: int, a: int, b: int)
    requires
        0 <= ring <= MAX_RING,
        -MAX_RING <= a <= MAX_RING,
        -MAX_RING <= b <= MAX_RING,
    ensures
        on_ring(ring, a, b) <==> exists|i: int|
            0 <= i < ring_len(ring) && #[trigger] ring_position(ring, i) == (
                (a * SEARCH_STEP) as i64,
                (b * SEARCH_STEP) as i64,
            ),
{
    if on_ring(ring, a, b) {
        let i = if ring == 0 {
            0
        } else if b == -ring {
            2 * (a + ring)
        } else if b == ring {
            2 * (a + ring) + 1
        } else if a == -ring {
            2 * (2 * ring + 1) + 2 * (b + ring - 1)
        } else {
            2 * (2 * ring + 1) + 2 * (b + ring - 1) + 1
        };
        assert(0 <= i < ring_len(ring));
        assert(ring_position(ring, i) == ((a * SEARCH_STEP) as i64, (b * SEARCH_STEP) as i64));
    }
}

/// A player begins on the surface, and not in water: the ground there reaches the
/// water's surface at least.
pub proof fn spawns_are_dry(seed: u64, x: i64, z: i64, height: Double, y: int)
    requires
        is_safe_ground(seed, x, z, height, y),
    ensures
        y == surface_y(height) + 1,
        surface_y(height) >= SEA_Y,
        forall|k: int| k >= y ==> #[trigger] terrain_at(seed, x, k, z, height) == Block::Air,
{
    let top = surface_y(height);
    assert(terrain_at(seed, x, top, z, height).spec_solid());
    if y <= top {
        assert(!terrain_at(seed, x, top, z, height).spec_solid());
    }
    if top < SEA_Y {
        assert(terrain_at(seed, x, top + 1, z, height) == Block::Water);
        if y > top + 1 {
            assert(!terrain_at(seed, x, y - 1, z, height).spec_solid());
        }
    }
}

/// A player begins on a solid block with air for feet and head, above which nothing is solid;
/// and wherever there is such a place in a column, it is safe.
pub proof fn safe_places_are_free(column: &Column, y: int)
    ensures
        is_safe(column, y) <==> {
            &&& y > Y_MIN
            &&& column.block(y - 1) != Block::Air && column.block(y - 1) != Block::Water
            &&& column.block(y) == Block::Air
            &&& column.block(y + 1) == Block::Air
            &&& forall|k: int|
                k >= y ==> (#[trigger] column.block(k)) == Block::Air || column.block(k)
                    == Block::Water
        },
{
    if is_safe(column, y) {
        assert forall|k: int| k >= y implies (#[trigger] column.block(k)) == Block::Air
            || column.block(k) == Block::Water by {
            assert(!column.block(k).spec_solid());
        }
    }
}

/// The nearest place is the one at the least distance, which is measured straight: the square
/// of it is the sum of the squares along both axes.
pub proof fn distances_are_straight(a: (i64, i64), b: (i64, i64))
    ensures
        square_distance(a) >= 0,
        square_distance(a) == 0 <==> a == (0i64, 0i64),
        a.0 == b.0 && a.1 == -b.1 ==> square_distance(a) == square_distance(b),
        a.0 == b.1 && a.1 == b.0 ==> square_distance(a) == square_distance(b),
        a.1 == 0 ==> square_distance(a) == a.0 * a.0,
        a.0 == b.0 && b.1 == 0 ==> square_distance(a) == square_distance(b) + a.1 * a.1,
{
    let (x, z) = (a.0 as int, a.1 as int);
    assert(x * x >= 0 && z * z >= 0) by (nonlinear_arith);
    assert(x != 0 ==> x * x > 0) by (nonlinear_arith);
    assert(z != 0 ==> z * z > 0) by (nonlinear_arith);
    assert((-z) * (-z) == z * z) by (nonlinear_arith);
    assert(0 * 0 == 0);
}

} // verus!
