//! Which block the player aims at.

use crate::double::{infinity_is_farthest, zero_is_nothing, Double};
use crate::render::probe::cells_of;
use crate::world::block::Block;
use crate::world::generator::inside;
use crate::world::skylight::Cells;
use crate::world::voxel::{known_between, still_known, VoxelWorld};
use vstd::prelude::*;

verus! {

/// A block that is aimed at, and the cell in front of the face that is hit.
#[derive(Clone, Copy, Debug, PartialEq, Eq)]
pub struct BlockHit {
    pub block: (i64, i64, i64),
    pub place: (i64, i64, i64),
}

/// The coordinate of a cell along an axis.
pub open spec fn spec_axis(voxel: (i64, i64, i64), axis: int) -> i64 {
    if axis == 0 {
        voxel.0
    } else if axis == 1 {
        voxel.1
    } else {
        voxel.2
    }
}

/// A cell with another coordinate along an axis.
pub open spec fn with_axis(voxel: (i64, i64, i64), axis: int, value: i64) -> (i64, i64, i64) {
    if axis == 0 {
        (value, voxel.1, voxel.2)
    } else if axis == 1 {
        (voxel.0, value, voxel.2)
    } else {
        (voxel.0, voxel.1, value)
    }
}

/// The coordinate of a cell along an axis.
pub fn voxel_axis(voxel: (i64, i64, i64), axis: usize) -> (r: i64)
    requires
        axis < 3,
    ensures
        r == spec_axis(voxel, axis as int),
{
    match axis {
        0 => voxel.0,
        1 => voxel.1,
        _ => voxel.2,
    }
}

/// Changes the coordinate of a cell along an axis.
pub fn set_voxel_axis(voxel: &mut (i64, i64, i64), axis: usize, value: i64)
    requires
        axis < 3,
    ensures
        *final(voxel) == with_axis(*old(voxel), axis as int, value),
{
    *voxel = match axis {
        0 => (value, voxel.1, voxel.2),
        1 => (voxel.0, value, voxel.2),
        _ => (voxel.0, voxel.1, value),
    };
}

/// A ray through cells: where it starts, which way it goes along each axis, and how
/// far from its start it crosses into the next cell along each axis, time and again.
/// Along an axis that has no more crossings the ray crosses nothing.
pub struct RayPath {
    pub start: (i64, i64, i64),
    pub step_x: i64,
    pub step_y: i64,
    pub step_z: i64,
    pub crossings_x: Vec<Double>,
    pub crossings_y: Vec<Double>,
    pub crossings_z: Vec<Double>,
}

/// How far the crossings along each axis have been used.
pub struct Progress {
    pub x: nat,
    pub y: nat,
    pub z: nat,
}

/// The bits of infinity.
pub const INFINITY_BITS: u64 = 0x7ff0_0000_0000_0000;

/// The distance of a crossing; infinity if there is none.
pub open spec fn crossing(list: Seq<Double>, n: nat) -> Double {
    if n < list.len() {
        list[n as int]
    } else {
        Double { bits: INFINITY_BITS }
    }
}

impl RayPath {
    /// Whether the ray keeps away from the limits of coordinates.
    pub open spec fn fits(&self) -> bool {
        let reach = self.crossings_x@.len() + self.crossings_y@.len() + self.crossings_z@.len();
        &&& -1 <= self.step_x <= 1
        &&& -1 <= self.step_y <= 1
        &&& -1 <= self.step_z <= 1
        &&& inside(self.start.0 - reach)
        &&& inside(self.start.0 + reach)
        &&& inside(self.start.1 - reach)
        &&& inside(self.start.1 + reach)
        &&& inside(self.start.2 - reach)
        &&& inside(self.start.2 + reach)
    }

    /// Whether the columns that the ray can enter are known.
    pub open spec fn is_known<W: VoxelWorld>(&self, world: &W) -> bool {
        let reach = self.crossings_x@.len() + self.crossings_y@.len() + self.crossings_z@.len();
        known_between(
            world,
            self.start.0 - reach,
            self.start.0 + reach,
            self.start.2 - reach,
            self.start.2 + reach,
        )
    }

    /// The axis along which the ray crosses next: that of the nearest crossing, the
    /// earlier axis where two are as near.
    pub open spec fn next_axis(&self, p: Progress) -> int {
        let x = crossing(self.crossings_x@, p.x);
        let y = crossing(self.crossings_y@, p.y);
        let z = crossing(self.crossings_z@, p.z);
        if x.spec_at_most(y) && x.spec_at_most(z) {
            0
        } else if y.spec_at_most(z) {
            1
        } else {
            2
        }
    }

    /// How far the next crossing is.
    pub open spec fn next_distance(&self, p: Progress) -> Double {
        let axis = self.next_axis(p);
        if axis == 0 {
            crossing(self.crossings_x@, p.x)
        } else if axis == 1 {
            crossing(self.crossings_y@, p.y)
        } else {
            crossing(self.crossings_z@, p.z)
        }
    }

    /// Whether the next crossing is listed.
    pub open spec fn goes_on(&self, p: Progress) -> bool {
        let axis = self.next_axis(p);
        if axis == 0 {
            p.x < self.crossings_x@.len()
        } else if axis == 1 {
            p.y < self.crossings_y@.len()
        } else {
            p.z < self.crossings_z@.len()
        }
    }

    /// The crossings after the next one.
    pub open spec fn advanced(&self, p: Progress) -> Progress {
        let axis = self.next_axis(p);
        if axis == 0 {
            Progress { x: p.x + 1, ..p }
        } else if axis == 1 {
            Progress { y: p.y + 1, ..p }
        } else {
            Progress { z: p.z + 1, ..p }
        }
    }

    /// The cell of the ray after some crossings.
    pub open spec fn cell_after(&self, p: Progress) -> (int, int, int) {
        (
            self.start.0 + self.step_x * p.x,
            self.start.1 + self.step_y * p.y,
            self.start.2 + self.step_z * p.z,
        )
    }

    /// What the ray hits from some crossings on: the first solid cell that it enters
    /// within its reach.
    pub open spec fn hit_after(&self, cells: Cells, reach: Double, p: Progress) -> Option<BlockHit>
        decreases
            self.crossings_x@.len() - p.x + self.crossings_y@.len() - p.y + self.crossings_z@.len()
                - p.z,
        when p.x <= self.crossings_x@.len() && p.y <= self.crossings_y@.len() && p.z
        <= self.crossings_z@.len()
    {
        if !self.goes_on(p) || reach.spec_less(self.next_distance(p)) {
            None
        } else {
            let next = self.advanced(p);
            let from = self.cell_after(p);
            let into = self.cell_after(next);
            if cells(into.0, into.1, into.2).spec_solid() {
                Some(
                    BlockHit {
                        block: (into.0 as i64, into.1 as i64, into.2 as i64),
                        place: (from.0 as i64, from.1 as i64, from.2 as i64),
                    },
                )
            } else {
                self.hit_after(cells, reach, next)
            }
        }
    }

    /// What the ray hits: nothing if it has no reach or starts in a solid block.
    pub open spec fn spec_hit(&self, cells: Cells, reach: Double) -> Option<BlockHit> {
        let (x, y, z) = self.start;
        if reach.spec_at_most(Double { bits: 0 }) || cells(
            x as int,
            y as int,
            z as int,
        ).spec_solid() {
            None
        } else {
            self.hit_after(cells, reach, Progress { x: 0, y: 0, z: 0 })
        }
    }
}

fn crossing_at(list: &Vec<Double>, n: usize) -> (r: Double)
    ensures
        r == crossing(list@, n as nat),
{
    if n < list.len() {
        Double { bits: list[n].bits }
    } else {
        Double { bits: INFINITY_BITS }
    }
}

/// The first solid block that a ray enters within its reach, and the cell from which
/// it enters. A ray without reach, or one that starts in a solid block, hits nothing.
pub fn raycast_block<W: VoxelWorld>(world: &mut W, path: &RayPath, reach: Double) -> (r: Option<
    BlockHit,
>)
    requires
        old(world).valid(),
        path.fits(),
        path.is_known(old(world)),
    ensures
        r == path.spec_hit(cells_of(old(world)), reach),
        final(world).valid(),
        still_known(old(world), final(world)),
        cells_of(final(world)) == cells_of(old(world)),
{
    let ghost cells = cells_of(world);
    if reach.at_most(Double { bits: 0 }) {
        return None;
    }
    let mut voxel = path.start;
    let first = world.block_at(voxel.0, voxel.1, voxel.2);
    assert(cells_of(world) =~= cells);
    if first.is_solid() {
        return None;
    }
    let mut nx: usize = 0;
    let mut ny: usize = 0;
    let mut nz: usize = 0;
    let ghost mut p = Progress { x: 0, y: 0, z: 0 };
    loop
        invariant
            path.fits(),
            path.is_known(world),
            still_known(old(world), world),
            world.valid(),
            cells_of(world) == cells,
            cells == cells_of(old(world)),
            !reach.spec_at_most(Double { bits: 0 }),
            !cells(
                path.start.0 as int,
                path.start.1 as int,
                path.start.2 as int,
            ).spec_solid(),
            p == (Progress { x: nx as nat, y: ny as nat, z: nz as nat }),
            nx <= path.crossings_x@.len(),
            ny <= path.crossings_y@.len(),
            nz <= path.crossings_z@.len(),
            path.cell_after(p) == (voxel.0 as int, voxel.1 as int, voxel.2 as int),
            path.hit_after(cells, reach, p) == path.hit_after(
                cells,
                reach,
                Progress { x: 0, y: 0, z: 0 },
            ),
        decreases
            path.crossings_x@.len() - nx + path.crossings_y@.len() - ny + path.crossings_z@.len()
                - nz,
    {
        let tx = crossing_at(&path.crossings_x, nx);
        let ty = crossing_at(&path.crossings_y, ny);
        let tz = crossing_at(&path.crossings_z, nz);
        let axis: usize = if tx.at_most(ty) && tx.at_most(tz) {
            0
        } else if ty.at_most(tz) {
            1
        } else {
            2
        };
        let listed = if axis == 0 {
            nx < path.crossings_x.len()
        } else if axis == 1 {
            ny < path.crossings_y.len()
        } else {
            nz < path.crossings_z.len()
        };
        let distance = if axis == 0 {
            tx
        } else if axis == 1 {
            ty
        } else {
            tz
        };
        if !listed || reach.less(distance) {
            return None;
        }
        let place = voxel;
        let step: i64 = if axis == 0 {
            nx += 1;
            path.step_x
        } else if axis == 1 {
            ny += 1;
            path.step_y
        } else {
            nz += 1;
            path.step_z
        };
        let ghost next = path.advanced(p);
        proof {
            lemma_cell_steps(path, p);
            lemma_cell_near(path, p);
        }
        let value: i64 = voxel_axis(voxel, axis) + step;
        set_voxel_axis(&mut voxel, axis, value);
        proof {
            lemma_cell_near(path, next);
            p = next;
        }
        let ghost before = *world;
        let block = world.block_at(voxel.0, voxel.1, voxel.2);
        assert(cells_of(world) =~= cells_of(&before));
        if block.is_solid() {
            return Some(BlockHit { block: voxel, place });
        }
    }
}

/// Crossing moves the ray by one step along the axis that it crosses.
proof fn lemma_cell_steps(path: &RayPath, p: Progress)
    ensures
        ({
            let from = path.cell_after(p);
            let into = path.cell_after(path.advanced(p));
            let axis = path.next_axis(p);
            into == if axis == 0 {
                (from.0 + path.step_x, from.1, from.2)
            } else if axis == 1 {
                (from.0, from.1 + path.step_y, from.2)
            } else {
                (from.0, from.1, from.2 + path.step_z)
            }
        }),
{
    assert(path.step_x * (p.x + 1) == path.step_x * p.x + path.step_x) by (nonlinear_arith);
    assert(path.step_y * (p.y + 1) == path.step_y * p.y + path.step_y) by (nonlinear_arith);
    assert(path.step_z * (p.z + 1) == path.step_z * p.z + path.step_z) by (nonlinear_arith);
}

/// The cells of a ray are no farther away than it has crossings.
proof fn lemma_cell_near(path: &RayPath, p: Progress)
    requires
        path.fits(),
        p.x <= path.crossings_x@.len(),
        p.y <= path.crossings_y@.len(),
        p.z <= path.crossings_z@.len(),
    ensures
        inside(path.cell_after(p).0),
        inside(path.cell_after(p).1),
        inside(path.cell_after(p).2),
        ({
            let reach = path.crossings_x@.len() + path.crossings_y@.len()
                + path.crossings_z@.len();
            &&& path.start.0 - reach <= path.cell_after(p).0 <= path.start.0 + reach
            &&& path.start.2 - reach <= path.cell_after(p).2 <= path.start.2 + reach
        }),
{
    assert(-p.x <= path.step_x * p.x <= p.x) by (nonlinear_arith)
        requires
            -1 <= path.step_x <= 1,
            p.x >= 0,
    ;
    assert(-p.y <= path.step_y * p.y <= p.y) by (nonlinear_arith)
        requires
            -1 <= path.step_y <= 1,
            p.y >= 0,
    ;
    assert(-p.z <= path.step_z * p.z <= p.z) by (nonlinear_arith)
        requires
            -1 <= path.step_z <= 1,
            p.z >= 0,
    ;
}

/// A hit block is solid, the cell in front of it is not, and the two share a face.
pub proof fn hits_have_a_free_side(path: &RayPath, cells: Cells, reach: Double, p: Progress)
    requires
        path.fits(),
        p.x <= path.crossings_x@.len(),
        p.y <= path.crossings_y@.len(),
        p.z <= path.crossings_z@.len(),
        !cells(path.cell_after(p).0, path.cell_after(p).1, path.cell_after(p).2).spec_solid(),
    ensures
        path.hit_after(cells, reach, p) is Some ==> {
            let hit = path.hit_after(cells, reach, p)->0;
            &&& cells(hit.block.0 as int, hit.block.1 as int, hit.block.2 as int).spec_solid()
            &&& !cells(hit.place.0 as int, hit.place.1 as int, hit.place.2 as int).spec_solid()
            &&& is_beside(hit.block, hit.place)
        },
    decreases
        path.crossings_x@.len() - p.x + path.crossings_y@.len() - p.y + path.crossings_z@.len()
            - p.z,
{
    if path.goes_on(p) && !reach.spec_less(path.next_distance(p)) {
        let next = path.advanced(p);
        lemma_cell_steps(path, p);
        lemma_cell_near(path, p);
        lemma_cell_near(path, next);
        let into = path.cell_after(next);
        if !cells(into.0, into.1, into.2).spec_solid() {
            hits_have_a_free_side(path, cells, reach, next);
        }
    }
}

/// Whether distances are numbers, in order.
pub open spec fn in_order(list: Seq<Double>) -> bool {
    &&& forall|i: int| 0 <= i < list.len() ==> (#[trigger] list[i]).spec_finite()
    &&& forall|i: int, j: int|
        0 <= i <= j < list.len() ==> (#[trigger] list[i]).units() <= (#[trigger] list[j]).units()
}

/// Whether a ray has its crossings in order along each axis.
pub open spec fn is_sorted(path: &RayPath) -> bool {
    in_order(path.crossings_x@) && in_order(path.crossings_y@) && in_order(path.crossings_z@)
}

/// Whether the first `n` distances of a list are less than a distance, and the others more.
pub open spec fn split_at(list: Seq<Double>, n: nat, distance: int) -> bool {
    &&& n <= list.len()
    &&& forall|i: int| 0 <= i < n ==> (#[trigger] list[i]).units() < distance
    &&& forall|i: int| n <= i < list.len() ==> distance < (#[trigger] list[i]).units()
}

/// Whether a ray that has gone a distance has made just so many crossings along each axis.
pub open spec fn is_at(path: &RayPath, p: Progress, distance: int) -> bool {
    &&& split_at(path.crossings_x@, p.x, distance)
    &&& split_at(path.crossings_y@, p.y, distance)
    &&& split_at(path.crossings_z@, p.z, distance)
}

/// Whether the first `n` distances of a list are at most a distance, and the others at
/// least.
pub open spec fn parts_at(list: Seq<Double>, n: nat, distance: int) -> bool {
    &&& n <= list.len()
    &&& forall|i: int| 0 <= i < n ==> (#[trigger] list[i]).units() <= distance
    &&& forall|i: int| n <= i < list.len() ==> distance <= (#[trigger] list[i]).units()
}

/// Whether a ray may have made just so many crossings along each axis when it has gone a
/// distance: where it crosses at that distance, it may have done so or not.
pub open spec fn may_be_at(path: &RayPath, p: Progress, distance: int) -> bool {
    &&& parts_at(path.crossings_x@, p.x, distance)
    &&& parts_at(path.crossings_y@, p.y, distance)
    &&& parts_at(path.crossings_z@, p.z, distance)
}

/// The cell that a ray is in once it has crossed so often along each axis: each crossing
/// leads one cell on along its axis.
pub open spec fn is_cell_of(path: &RayPath, p: Progress, cell: (int, int, int)) -> bool {
    &&& cell.0 - path.start.0 == path.step_x * p.x
    &&& cell.1 - path.start.1 == path.step_y * p.y
    &&& cell.2 - path.start.2 == path.step_z * p.z
}

/// A ray crosses next where the boundary is nearest: no crossing that is left is less far,
/// and the ray goes on as long as one is left.
pub proof fn the_nearest_boundary_is_crossed_next(path: &RayPath, p: Progress)
    requires
        is_sorted(path),
    ensures
        path.goes_on(p) <==> p.x < path.crossings_x@.len() || p.y < path.crossings_y@.len() || p.z
            < path.crossings_z@.len(),
        p.x < path.crossings_x@.len() ==> path.next_distance(p).units()
            <= path.crossings_x@[p.x as int].units(),
        p.y < path.crossings_y@.len() ==> path.next_distance(p).units()
            <= path.crossings_y@[p.y as int].units(),
        p.z < path.crossings_z@.len() ==> path.next_distance(p).units()
            <= path.crossings_z@[p.z as int].units(),
        path.goes_on(p) ==> path.next_distance(p).spec_finite() && {
            let next = path.advanced(p);
            ||| next == (Progress { x: p.x + 1, ..p }) && p.x < path.crossings_x@.len()
                && path.next_distance(p) == path.crossings_x@[p.x as int]
            ||| next == (Progress { y: p.y + 1, ..p }) && p.y < path.crossings_y@.len()
                && path.next_distance(p) == path.crossings_y@[p.y as int]
            ||| next == (Progress { z: p.z + 1, ..p }) && p.z < path.crossings_z@.len()
                && path.next_distance(p) == path.crossings_z@[p.z as int]
        },
{
    let far = Double { bits: INFINITY_BITS };
    let zero = Double { bits: 0 };
    zero_is_nothing(zero);
    infinity_is_farthest(zero, far);
    if p.x < path.crossings_x@.len() {
        infinity_is_farthest(path.crossings_x@[p.x as int], far);
    }
    if p.y < path.crossings_y@.len() {
        infinity_is_farthest(path.crossings_y@[p.y as int], far);
    }
    if p.z < path.crossings_z@.len() {
        infinity_is_farthest(path.crossings_z@[p.z as int], far);
    }
}

/// Where a ray meets boundaries at one distance, it crosses along x first, then along y,
/// then along z.
pub proof fn corners_are_turned_in_order(path: &RayPath, p: Progress)
    requires
        is_sorted(path),
        p.x < path.crossings_x@.len(),
        p.y < path.crossings_y@.len(),
        p.z < path.crossings_z@.len(),
    ensures
        ({
            let x = path.crossings_x@[p.x as int].units();
            let y = path.crossings_y@[p.y as int].units();
            let z = path.crossings_z@[p.z as int].units();
            &&& path.advanced(p).x > p.x <==> x <= y && x <= z
            &&& path.advanced(p).y > p.y <==> y < x && y <= z || z < x && y <= z
            &&& path.advanced(p).z > p.z <==> z < x && z < y
        }),
{
}

/// Axes are told apart: what is set along one is read along that one, and along no other.
pub proof fn axes_are_apart(voxel: (i64, i64, i64), a: int, b: int, value: i64)
    requires
        0 <= a < 3,
        0 <= b < 3,
    ensures
        spec_axis(with_axis(voxel, a, value), a) == value,
        a != b ==> spec_axis(with_axis(voxel, a, value), b) == spec_axis(voxel, b),
        (spec_axis(voxel, 0), spec_axis(voxel, 1), spec_axis(voxel, 2)) == voxel,
{
}

/// Whether one has crossed no more often than another along any axis.
pub open spec fn is_before(p: Progress, q: Progress) -> bool {
    p.x <= q.x && p.y <= q.y && p.z <= q.z
}

/// Rays do not pass through walls: where the cell that a ray is in at some distance within
/// its reach is solid, the ray has hit that cell or one that it was in before.
pub proof fn rays_stop_at_the_first_wall(
    path: &RayPath,
    cells: Cells,
    reach: Double,
    q: Progress,
    distance: int,
    wall: (int, int, int),
)
    requires
        path.fits(),
        is_sorted(path),
        reach.spec_finite(),
        0 < reach.units(),
        !cells(path.start.0 as int, path.start.1 as int, path.start.2 as int).spec_solid(),
        is_at(path, q, distance),
        distance <= reach.units(),
        is_cell_of(path, q, wall),
        cells(wall.0, wall.1, wall.2).spec_solid(),
    ensures
        path.spec_hit(cells, reach) is Some,
        exists|p: Progress| #[trigger]
            is_before(p, q) && {
                let hit = (path.spec_hit(cells, reach)->0).block;
                is_cell_of(path, p, (hit.0 as int, hit.1 as int, hit.2 as int))
            },
{
    let start = Progress { x: 0, y: 0, z: 0 };
    zero_is_nothing(Double { bits: 0 });
    assert(path.step_x * 0 == 0 && path.step_y * 0 == 0 && path.step_z * 0 == 0);
    assert(q != start);
    lemma_wall_is_met(path, cells, reach, start, q, distance);
}

proof fn lemma_wall_is_met(
    path: &RayPath,
    cells: Cells,
    reach: Double,
    p: Progress,
    q: Progress,
    distance: int,
)
    requires
        path.fits(),
        is_sorted(path),
        reach.spec_finite(),
        is_at(path, q, distance),
        distance <= reach.units(),
        is_before(p, q),
        p != q,
        cells(path.cell_after(q).0, path.cell_after(q).1, path.cell_after(q).2).spec_solid(),
    ensures
        path.hit_after(cells, reach, p) is Some,
        exists|r: Progress| #[trigger]
            is_before(r, q) && {
                let hit = (path.hit_after(cells, reach, p)->0).block;
                is_cell_of(path, r, (hit.0 as int, hit.1 as int, hit.2 as int))
            },
    decreases q.x - p.x + q.y - p.y + q.z - p.z,
{
    the_nearest_boundary_is_crossed_next(path, p);
    let next = path.advanced(p);
    assert(path.next_distance(p).units() < distance);
    assert(is_before(next, q));
    lemma_cell_near(path, next);
    let into = path.cell_after(next);
    if cells(into.0, into.1, into.2).spec_solid() {
        let hit = (path.hit_after(cells, reach, p)->0).block;
        assert(is_cell_of(path, next, (hit.0 as int, hit.1 as int, hit.2 as int)));
    } else {
        lemma_wall_is_met(path, cells, reach, next, q, distance);
    }
}

/// What a ray hits lies on it, within its reach: the ray may be in that cell once it has
/// gone some distance that is no more than its reach.
pub proof fn hits_lie_on_the_ray(path: &RayPath, cells: Cells, reach: Double)
    requires
        path.fits(),
        is_sorted(path),
        reach.spec_finite(),
        path.spec_hit(cells, reach) is Some,
    ensures
        exists|p: Progress, distance: int| #[trigger]
            may_be_at(path, p, distance) && distance <= reach.units() && {
                let hit = (path.spec_hit(cells, reach)->0).block;
                &&& is_cell_of(path, p, (hit.0 as int, hit.1 as int, hit.2 as int))
                &&& cells(hit.0 as int, hit.1 as int, hit.2 as int).spec_solid()
            },
{
    lemma_hit_on_ray(path, cells, reach, Progress { x: 0, y: 0, z: 0 });
}

proof fn lemma_hit_on_ray(path: &RayPath, cells: Cells, reach: Double, p: Progress)
    requires
        path.fits(),
        is_sorted(path),
        reach.spec_finite(),
        p.x <= path.crossings_x@.len(),
        p.y <= path.crossings_y@.len(),
        p.z <= path.crossings_z@.len(),
        path.goes_on(p) ==> may_be_at(path, p, path.next_distance(p).units()),
        path.hit_after(cells, reach, p) is Some,
    ensures
        exists|q: Progress, distance: int| #[trigger]
            may_be_at(path, q, distance) && distance <= reach.units() && {
                let hit = (path.hit_after(cells, reach, p)->0).block;
                &&& is_cell_of(path, q, (hit.0 as int, hit.1 as int, hit.2 as int))
                &&& cells(hit.0 as int, hit.1 as int, hit.2 as int).spec_solid()
            },
    decreases
        path.crossings_x@.len() - p.x + path.crossings_y@.len() - p.y + path.crossings_z@.len()
            - p.z,
{
    the_nearest_boundary_is_crossed_next(path, p);
    let next = path.advanced(p);
    let distance = path.next_distance(p).units();
    assert(may_be_at(path, next, distance));
    lemma_cell_near(path, next);
    let into = path.cell_after(next);
    if cells(into.0, into.1, into.2).spec_solid() {
        let hit = (path.hit_after(cells, reach, p)->0).block;
        assert(is_cell_of(path, next, (hit.0 as int, hit.1 as int, hit.2 as int)));
    } else {
        the_nearest_boundary_is_crossed_next(path, next);
        lemma_hit_on_ray(path, cells, reach, next);
    }
}

/// Whether two cells share a face: they are one apart along one axis.
pub open spec fn is_beside(a: (i64, i64, i64), b: (i64, i64, i64)) -> bool {
    ||| (a.0 == b.0 + 1 || a.0 == b.0 - 1) && a.1 == b.1 && a.2 == b.2
    ||| a.0 == b.0 && (a.1 == b.1 + 1 || a.1 == b.1 - 1) && a.2 == b.2
    ||| a.0 == b.0 && a.1 == b.1 && (a.2 == b.2 + 1 || a.2 == b.2 - 1)
}

/// A ray that starts inside a block hits nothing, and neither does one without reach.
pub proof fn rays_from_within_hit_nothing(path: &RayPath, cells: Cells, reach: Double)
    requires
        !reach.spec_nan(),
    ensures
        reach.units() <= 0 ==> path.spec_hit(cells, reach) is None,
        ({
            let block = cells(path.start.0 as int, path.start.1 as int, path.start.2 as int);
            block != Block::Air && block != Block::Water ==> path.spec_hit(cells, reach) is None
        }),
{
    zero_is_nothing(Double { bits: 0 });
}

} // verus!
