//! Chunks of columns and their levels of detail.

use vstd::arithmetic::div_mod::{
    lemma_fundamental_div_mod, lemma_fundamental_div_mod_converse, lemma_mod_bound,
};
use vstd::prelude::*;

verus! {

/// Edge length of a chunk in blocks. Both coarse steps divide it.
pub const CHUNK_SIZE: i64 = 32;

/// View distance in blocks.
pub const VIEW_RADIUS: i64 = 192;

/// Chunks to each side of the centre that cover the view distance.
pub const CHUNK_VIEW_RADIUS: i64 = 6;

/// Up to this distance a chunk is drawn at full resolution.
pub const LOD_NEAR_RADIUS: i64 = 64;

/// Up to this distance a chunk is sampled every `LOD_MID_STEP` blocks.
pub const LOD_MID_RADIUS: i64 = 128;

/// Sample step of the middle ring.
pub const LOD_MID_STEP: i64 = 2;

/// Sample step of the outer ring.
pub const LOD_FAR_STEP: i64 = 4;

/// A chunk of 32 by 32 columns.
#[derive(Clone, Copy, Debug, PartialEq, Eq, Hash, PartialOrd, Ord, Structural)]
pub struct ChunkKey {
    pub cx: i32,
    pub cz: i32,
}

/// How far a position lies outside an interval.
pub open spec fn outside_by(v: int, low: int, high: int) -> int {
    if v < low {
        low - v
    } else if v > high {
        v - high
    } else {
        0
    }
}

/// The larger of two numbers.
pub open spec fn larger(a: int, b: int) -> int {
    if a >= b {
        a
    } else {
        b
    }
}

/// Whether a block coordinate belongs to a chunk that has a number.
pub open spec fn in_some_chunk(v: int) -> bool {
    i32::MIN * CHUNK_SIZE <= v < (i32::MAX + 1) * CHUNK_SIZE
}

/// The quotient of two numbers, rounded down.
pub fn floor_div(v: i64, by: i64) -> (r: i64)
    requires
        by > 0,
    ensures
        r == v as int / by as int,
        r * by <= v < r * by + by,
{
    let r: i64 = if v >= 0 {
        v / by
    } else {
        -((-(v + 1)) / by) - 1
    };
    proof {
        if v < 0 {
            let low = -(v + 1);
            lemma_fundamental_div_mod(low, by as int);
            lemma_mod_bound(low, by as int);
            let q = low / (by as int);
            let m = low % (by as int);
            assert(v == (-q - 1) * by + (by - 1 - m)) by (nonlinear_arith)
                requires
                    low == by * q + m,
                    low == -(v + 1),
            ;
            lemma_fundamental_div_mod_converse(v as int, by as int, -q - 1, by - 1 - m);
        } else {
            lemma_fundamental_div_mod(v as int, by as int);
            lemma_mod_bound(v as int, by as int);
        }
        lemma_fundamental_div_mod(v as int, by as int);
        lemma_mod_bound(v as int, by as int);
        assert(r * by == by * r) by (nonlinear_arith);
    }
    r
}

impl ChunkKey {
    /// The lowest x of the chunk.
    pub open spec fn west(self) -> int {
        self.cx * CHUNK_SIZE
    }

    /// The lowest z of the chunk.
    pub open spec fn north(self) -> int {
        self.cz * CHUNK_SIZE
    }

    /// Whether a column belongs to the chunk.
    pub open spec fn covers(self, x: int, z: int) -> bool {
        self.west() <= x < self.west() + CHUNK_SIZE && self.north() <= z < self.north()
            + CHUNK_SIZE
    }

    /// Distance from a column to the nearest column of the chunk, along the longer axis.
    pub open spec fn spec_distance(self, x: int, z: int) -> int {
        larger(
            outside_by(x, self.west(), self.west() + CHUNK_SIZE - 1),
            outside_by(z, self.north(), self.north() + CHUNK_SIZE - 1),
        )
    }

    /// The chunk of a column. Along an axis on which the column lies too far out for
    /// any chunk, the number of the chunk is cut down to its low bits.
    #[verifier::truncate]
    pub fn from_block(x: i64, z: i64) -> (r: ChunkKey)
        ensures
            in_some_chunk(x as int) ==> r.west() <= x < r.west() + CHUNK_SIZE,
            in_some_chunk(z as int) ==> r.north() <= z < r.north() + CHUNK_SIZE,
            r.cx == (x as int / CHUNK_SIZE as int) as i32,
            r.cz == (z as int / CHUNK_SIZE as int) as i32,
    {
        let cx: i64 = floor_div(x, CHUNK_SIZE);
        let cz: i64 = floor_div(z, CHUNK_SIZE);
        ChunkKey { cx: cx as i32, cz: cz as i32 }
    }

    pub fn min_x(self) -> (r: i64)
        ensures
            r == self.west(),
    {
        self.cx as i64 * CHUNK_SIZE
    }

    pub fn min_z(self) -> (r: i64)
        ensures
            r == self.north(),
    {
        self.cz as i64 * CHUNK_SIZE
    }

    pub fn max_x(self) -> (r: i64)
        ensures
            r == self.west() + CHUNK_SIZE - 1,
    {
        self.min_x() + CHUNK_SIZE - 1
    }

    pub fn max_z(self) -> (r: i64)
        ensures
            r == self.north() + CHUNK_SIZE - 1,
    {
        self.min_z() + CHUNK_SIZE - 1
    }

    /// The column in the middle of the chunk.
    pub fn center(self) -> (r: (i64, i64))
        ensures
            r.0 == self.west() + CHUNK_SIZE / 2,
            r.1 == self.north() + CHUNK_SIZE / 2,
    {
        (self.min_x() + CHUNK_SIZE / 2, self.min_z() + CHUNK_SIZE / 2)
    }

    /// Distance from a column to the nearest column of the chunk, along the longer
    /// axis: the corners of a chunk are no farther away than its nearest side.
    pub fn distance_to(self, x: i64, z: i64) -> (r: i64)
        requires
            self.spec_distance(x as int, z as int) <= i64::MAX,
        ensures
            r == self.spec_distance(x as int, z as int),
    {
        let dx: i64 = if x < self.min_x() {
            self.min_x() - x
        } else if x > self.max_x() {
            x - self.max_x()
        } else {
            0
        };
        let dz: i64 = if z < self.min_z() {
            self.min_z() - z
        } else if z > self.max_z() {
            z - self.max_z()
        } else {
            0
        };
        if dx >= dz {
            dx
        } else {
            dz
        }
    }
}

/// How finely a chunk is drawn.
#[derive(Clone, Copy, Debug, PartialEq, Eq, Structural)]
pub enum LodLevel {
    Near,
    Mid,
    Far,
}

impl LodLevel {
    /// Blocks between two samples.
    pub open spec fn spec_step(self) -> i64 {
        match self {
            LodLevel::Near => 1,
            LodLevel::Mid => LOD_MID_STEP,
            LodLevel::Far => LOD_FAR_STEP,
        }
    }

    /// The level for a distance.
    pub open spec fn at_distance(distance: int) -> LodLevel {
        if distance <= LOD_NEAR_RADIUS {
            LodLevel::Near
        } else if distance <= LOD_MID_RADIUS {
            LodLevel::Mid
        } else {
            LodLevel::Far
        }
    }

    pub fn step(self) -> (r: i64)
        ensures
            r == self.spec_step(),
    {
        match self {
            LodLevel::Near => 1,
            LodLevel::Mid => LOD_MID_STEP,
            LodLevel::Far => LOD_FAR_STEP,
        }
    }

    pub fn from_distance(distance: i64) -> (r: LodLevel)
        ensures
            r == LodLevel::at_distance(distance as int),
    {
        if distance <= LOD_NEAR_RADIUS {
            LodLevel::Near
        } else if distance <= LOD_MID_RADIUS {
            LodLevel::Mid
        } else {
            LodLevel::Far
        }
    }
}

/// Every column belongs to one chunk only.
pub proof fn chunks_do_not_overlap(a: ChunkKey, b: ChunkKey, x: int, z: int)
    requires
        a.covers(x, z),
        b.covers(x, z),
    ensures
        a == b,
{
}

/// The distance to a chunk is that to its nearest column: none of its columns is
/// nearer, and one is that near.
pub proof fn chunk_distance_is_least(key: ChunkKey, x: int, z: int)
    ensures
        forall|a: int, b: int| #[trigger]
            key.covers(a, b) ==> key.spec_distance(x, z) <= larger(
                outside_by(x, a, a),
                outside_by(z, b, b),
            ),
        exists|a: int, b: int| #[trigger]
            key.covers(a, b) && key.spec_distance(x, z) == larger(
                outside_by(x, a, a),
                outside_by(z, b, b),
            ),
{
    let a = if x < key.west() {
        key.west()
    } else if x > key.west() + CHUNK_SIZE - 1 {
        key.west() + CHUNK_SIZE - 1
    } else {
        x
    };
    let b = if z < key.north() {
        key.north()
    } else if z > key.north() + CHUNK_SIZE - 1 {
        key.north() + CHUNK_SIZE - 1
    } else {
        z
    };
    assert(key.covers(a, b));
}

/// Every chunk holds a whole number of cells of each level, and the chunks around
/// the centre reach the view distance wherever in its chunk the viewer stands.
pub proof fn chunks_fit_levels(level: LodLevel, x: int, viewer: ChunkKey)
    requires
        viewer.west() <= x < viewer.west() + CHUNK_SIZE,
    ensures
        CHUNK_SIZE as int % level.spec_step() as int == 0,
        viewer.west() - CHUNK_VIEW_RADIUS * CHUNK_SIZE <= x - VIEW_RADIUS,
        x + VIEW_RADIUS < viewer.west() + (CHUNK_VIEW_RADIUS + 1) * CHUNK_SIZE,
{
    assert(32int % 1 == 0 && 32int % 2 == 0 && 32int % 4 == 0);
}

/// What is farther away is never drawn finer, what is within the near radius is drawn in
/// full, and what is beyond the middle radius is drawn as coarsely as can be.
pub proof fn farther_chunks_are_coarser(near: int, far: int)
    requires
        near <= far,
    ensures
        LodLevel::at_distance(near).spec_step() <= LodLevel::at_distance(far).spec_step(),
        near <= LOD_NEAR_RADIUS <==> LodLevel::at_distance(near).spec_step() == 1,
        near > LOD_MID_RADIUS <==> LodLevel::at_distance(near).spec_step() == 4,
        LOD_NEAR_RADIUS < near <= LOD_MID_RADIUS <==> LodLevel::at_distance(near).spec_step() == 2,
        0 < LOD_NEAR_RADIUS < LOD_MID_RADIUS,
{
}

/// Every column that has a chunk has just one, which begins at the multiple of its width at
/// or before the column.
pub proof fn columns_have_a_chunk(x: int, z: int, key: ChunkKey)
    ensures
        key.covers(x, z) <==> key.cx == x / 32 && key.cz == z / 32,
        key.covers(x, z) ==> key.spec_distance(x, z) == 0,
        !key.covers(x, z) ==> key.spec_distance(x, z) > 0,
{
}

/// The distance of a chunk is how far away its nearest column is, along the axis on which
/// that is farther.
pub proof fn chunks_are_as_far_as_their_nearest_column(key: ChunkKey, x: int, z: int, a: int, b: int)
    ensures
        ({
            let d = key.spec_distance(x, z);
            &&& d >= 0
            &&& key.covers(a, b) ==> x - a >= d || a - x >= d || z - b >= d || b - z >= d
            &&& exists|e: int, f: int| #[trigger]
                key.covers(e, f) && -d <= x - e <= d && -d <= z - f <= d
        }),
{
    chunk_distance_is_least(key, x, z);
    let (e, f) = choose|e: int, f: int| #[trigger]
        key.covers(e, f) && key.spec_distance(x, z) == larger(
            outside_by(x, e, e),
            outside_by(z, f, f),
        );
    assert(key.covers(e, f));
}

} // verus!
