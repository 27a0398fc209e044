//! Probes of the sky: how far rays get from a grid of positions around the viewer.
//!
//! What a ray sees is counted in steps: all of [`RAY_RANGE`] for a ray that meets
//! nothing or leaves the world at the top, none for one that leaves it at the bottom,
//! else the step at which it is blocked.

use crate::world::block::Block;
use crate::world::column::{Y_MAX, Y_MIN};
use crate::world::generator::inside;
use crate::world::skylight::Cells;
use crate::world::voxel::{known_between, still_known, VoxelWorld};
use vstd::prelude::*;

verus! {

/// Blocks between two probes.
pub const SPACING: i64 = 8;

/// Probes along x.
pub const DIM_X: usize = 24;

/// Probes along y.
pub const DIM_Y: usize = 16;

/// Probes along z.
pub const DIM_Z: usize = 24;

/// Number of probes.
pub const TEXELS: usize = DIM_X * DIM_Y * DIM_Z;

/// Steps that a ray takes.
pub const RAY_RANGE: i64 = 40;

/// A ray as the cells that it meets, one per step, relative to its start.
pub type Ray = Vec<(i64, i64, i64)>;

/// What a probe sees along each ray; nothing where the probe is buried.
pub type Probe = Option<Vec<u32>>;

/// Whether a block hides the sky from probes. Glass does not.
pub open spec fn spec_blocks_sky(block: Block) -> bool {
    block.spec_opaque() || block == Block::Water || block == Block::OakLeaves
}

/// Whether a block hides the sky from probes.
pub fn blocks_sky(block: Block) -> (r: bool)
    ensures
        r == spec_blocks_sky(block),
{
    block.is_opaque() || block.is_fluid() || block == Block::OakLeaves
}

/// The blocks of a world.
pub open spec fn cells_of<W: VoxelWorld>(world: &W) -> Cells {
    |x: int, y: int, z: int| world.cell(x as i64, y as i64, z as i64)
}

/// Whether a ray keeps within its range.
pub open spec fn in_range(ray: Seq<(i64, i64, i64)>) -> bool {
    &&& ray.len() <= RAY_RANGE
    &&& forall|i: int|
        0 <= i < ray.len() ==> -RAY_RANGE <= (#[trigger] ray[i]).0 <= RAY_RANGE && -RAY_RANGE
            <= ray[i].1 <= RAY_RANGE && -RAY_RANGE <= ray[i].2 <= RAY_RANGE
}

/// What a ray sees from its step `i` on.
pub open spec fn seen_from(
    cells: Cells,
    x: int,
    y: int,
    z: int,
    ray: Seq<(i64, i64, i64)>,
    i: int,
) -> int
    decreases ray.len() - i,
{
    if i >= ray.len() {
        RAY_RANGE as int
    } else {
        let (dx, dy, dz) = ray[i];
        if y + dy > Y_MAX {
            RAY_RANGE as int
        } else if y + dy < Y_MIN {
            0
        } else if spec_blocks_sky(cells(x + dx, y + dy, z + dz)) {
            i + 1
        } else {
            seen_from(cells, x, y, z, ray, i + 1)
        }
    }
}

/// Whether a position leaves room for rays.
pub open spec fn rays_fit(x: int, y: int, z: int) -> bool {
    &&& inside(x - RAY_RANGE)
    &&& inside(x + RAY_RANGE)
    &&& inside(z - RAY_RANGE)
    &&& inside(z + RAY_RANGE)
    &&& Y_MIN <= y <= Y_MAX
}

/// Whether the columns that rays from a position can meet are known.
pub open spec fn known_to_rays<W: VoxelWorld>(world: &W, x: int, z: int) -> bool {
    known_between(world, x - RAY_RANGE, x + RAY_RANGE, z - RAY_RANGE, z + RAY_RANGE)
}

/// What a ray sees, in steps.
pub fn ray_visibility<W: VoxelWorld>(
    world: &mut W,
    x: i64,
    y: i64,
    z: i64,
    ray: &Ray,
) -> (r: u32)
    requires
        old(world).valid(),
        known_to_rays(old(world), x as int, z as int),
        rays_fit(x as int, y as int, z as int),
        in_range(ray@),
    ensures
        r == seen_from(cells_of(old(world)), x as int, y as int, z as int, ray@, 0),
        r <= RAY_RANGE,
        final(world).valid(),
        still_known(old(world), final(world)),
        cells_of(final(world)) == cells_of(old(world)),
{
    let ghost cells = cells_of(old(world));
    let mut i: usize = 0;
    while i < ray.len()
        invariant
            i <= ray@.len(),
            world.valid(),
            known_to_rays(world, x as int, z as int),
            still_known(old(world), world),
            cells_of(world) == cells,
            cells == cells_of(old(world)),
            rays_fit(x as int, y as int, z as int),
            in_range(ray@),
            seen_from(cells, x as int, y as int, z as int, ray@, i as int) == seen_from(
                cells,
                x as int,
                y as int,
                z as int,
                ray@,
                0,
            ),
        decreases ray@.len() - i,
    {
        let (dx, dy, dz) = ray[i];
        assert(ray@[i as int] == (dx, dy, dz));
        let sy: i64 = y + dy;
        if sy > Y_MAX {
            return RAY_RANGE as u32;
        }
        if sy < Y_MIN {
            return 0;
        }
        let ghost before = *world;
        let block = world.block_at(x + dx, sy, z + dz);
        proof {
            assert(cells(x + dx, sy as int, z + dz) == block);
            assert(cells_of(world) =~= cells_of(&before));
        }
        if blocks_sky(block) {
            return (i + 1) as u32;
        }
        i += 1;
    }
    RAY_RANGE as u32
}

/// Whether a probe sees what its rays see.
pub open spec fn is_probe(
    cells: Cells,
    x: int,
    y: int,
    z: int,
    rays: Seq<Ray>,
    probe: Probe,
) -> bool {
    match probe {
        None => spec_blocks_sky(cells(x, y, z)),
        Some(seen) => {
            &&& !spec_blocks_sky(cells(x, y, z))
            &&& seen@.len() == rays.len()
            &&& forall|i: int|
                0 <= i < rays.len() ==> #[trigger] seen@[i] == seen_from(
                    cells,
                    x,
                    y,
                    z,
                    rays[i]@,
                    0,
                )
        },
    }
}

/// What a probe sees along each ray.
pub fn sky_visibility<W: VoxelWorld>(
    world: &mut W,
    x: i64,
    y: i64,
    z: i64,
    rays: &Vec<Ray>,
) -> (r: Probe)
    requires
        old(world).valid(),
        known_to_rays(old(world), x as int, z as int),
        rays_fit(x as int, y as int, z as int),
        forall|i: int| 0 <= i < rays@.len() ==> in_range((#[trigger] rays@[i])@),
    ensures
        is_probe(cells_of(old(world)), x as int, y as int, z as int, rays@, r),
        final(world).valid(),
        still_known(old(world), final(world)),
        cells_of(final(world)) == cells_of(old(world)),
{
    let ghost cells = cells_of(old(world));
    let block = world.block_at(x, y, z);
    proof {
        assert(cells(x as int, y as int, z as int) == block);
        assert(cells_of(world) =~= cells);
    }
    if blocks_sky(block) {
        return None;
    }
    let mut seen: Vec<u32> = Vec::new();
    let mut i: usize = 0;
    while i < rays.len()
        invariant
            i <= rays@.len(),
            world.valid(),
            known_to_rays(world, x as int, z as int),
            still_known(old(world), world),
            cells_of(world) == cells,
            rays_fit(x as int, y as int, z as int),
            forall|i: int| 0 <= i < rays@.len() ==> in_range((#[trigger] rays@[i])@),
            seen@.len() == i,
            forall|k: int|
                0 <= k < i ==> #[trigger] seen@[k] == seen_from(
                    cells,
                    x as int,
                    y as int,
                    z as int,
                    rays@[k]@,
                    0,
                ),
        decreases rays@.len() - i,
    {
        let value: u32 = ray_visibility(world, x, y, z, &rays[i]);
        seen.push(value);
        i += 1;
    }
    Some(seen)
}

/// The lowest corner of the grid around a centre.
pub open spec fn grid_origin(center: (i64, i64)) -> (int, int) {
    (center.0 - 96, center.1 - 96)
}

/// How far from the centre of the grid rays can end.
pub const PROBE_REACH: i64 = 132;

/// Whether the columns that the rays of a grid can meet are known.
pub open spec fn known_to_probes<W: VoxelWorld>(world: &W, center: (i64, i64)) -> bool {
    known_between(
        world,
        center.0 - PROBE_REACH,
        center.0 + PROBE_REACH,
        center.1 - PROBE_REACH,
        center.1 + PROBE_REACH,
    )
}

/// The position of a probe of the grid.
pub open spec fn probe_position(center: (i64, i64), x: int, y: int, z: int) -> (int, int, int) {
    let origin = grid_origin(center);
    (
        origin.0 + x * SPACING + SPACING / 2,
        Y_MIN + y * SPACING + SPACING / 2,
        origin.1 + z * SPACING + SPACING / 2,
    )
}

/// The place of a probe in the grid.
pub open spec fn probe_index(x: int, y: int, z: int) -> int {
    (z * DIM_Y + y) * DIM_X + x
}

/// The probes around a viewer.
pub struct ProbeVolume {
    /// The lowest corner of the grid.
    pub origin: (i64, i64, i64),
    /// The probes, along x first, then y, then z.
    pub probes: Vec<Probe>,
}

/// Whether probes are those of the grid, as far as the first `n`.
pub open spec fn is_baked(
    cells: Cells,
    center: (i64, i64),
    rays: Seq<Ray>,
    probes: Seq<Probe>,
    n: int,
) -> bool {
    forall|x: int, y: int, z: int|
        0 <= x < DIM_X && 0 <= y < DIM_Y && 0 <= z < DIM_Z && #[trigger] probe_index(x, y, z) < n
            ==> {
            let at = probe_position(center, x, y, z);
            is_probe(cells, at.0, at.1, at.2, rays, probes[probe_index(x, y, z)])
        }
}

impl ProbeVolume {
    /// Asks a grid of probes around a centre.
    pub fn bake_in<W: VoxelWorld>(world: &mut W, center: (i64, i64), rays: &Vec<Ray>) -> (r:
        ProbeVolume)
        requires
            old(world).valid(),
            known_to_probes(old(world), center),
            inside(center.0 - 200),
            inside(center.0 + 200),
            inside(center.1 - 200),
            inside(center.1 + 200),
            forall|i: int| 0 <= i < rays@.len() ==> in_range((#[trigger] rays@[i])@),
        ensures
            r.origin.0 == grid_origin(center).0,
            r.origin.1 == Y_MIN,
            r.origin.2 == grid_origin(center).1,
            r.probes@.len() == TEXELS,
            is_baked(cells_of(old(world)), center, rays@, r.probes@, TEXELS as int),
            final(world).valid(),
            still_known(old(world), final(world)),
            cells_of(final(world)) == cells_of(old(world)),
    {
        let ghost cells = cells_of(old(world));
        let west: i64 = center.0 - 96;
        let north: i64 = center.1 - 96;
        let mut probes: Vec<Probe> = Vec::new();
        let mut n: usize = 0;
        while n < TEXELS
            invariant
                n <= TEXELS,
                probes@.len() == n,
                west == center.0 - 96,
                north == center.1 - 96,
                inside(center.0 - 200),
                inside(center.0 + 200),
                inside(center.1 - 200),
                inside(center.1 + 200),
                world.valid(),
                known_to_probes(world, center),
                still_known(old(world), world),
                cells_of(world) == cells,
                forall|i: int| 0 <= i < rays@.len() ==> in_range((#[trigger] rays@[i])@),
                is_baked(cells, center, rays@, probes@, n as int),
            decreases TEXELS - n,
        {
            let x: usize = n % DIM_X;
            let y: usize = n / DIM_X % DIM_Y;
            let z: usize = n / DIM_X / DIM_Y;
            let px: i64 = west + x as i64 * SPACING + SPACING / 2;
            let py: i64 = Y_MIN + y as i64 * SPACING + SPACING / 2;
            let pz: i64 = north + z as i64 * SPACING + SPACING / 2;
            let probe = sky_visibility(world, px, py, pz, rays);
            let ghost had = probes@;
            probes.push(probe);
            proof {
                assert forall|a: int, b: int, c: int|
                    0 <= a < DIM_X && 0 <= b < DIM_Y && 0 <= c < DIM_Z && #[trigger] probe_index(
                        a,
                        b,
                        c,
                    ) < n + 1 implies {
                    let at = probe_position(center, a, b, c);
                    is_probe(cells, at.0, at.1, at.2, rays@, probes@[probe_index(a, b, c)])
                } by {
                    let i = probe_index(a, b, c);
                    if i < n {
                        assert(probes@[i] == had[i]);
                    } else {
                        assert(a == x && b == y && c == z);
                    }
                }
            }
            n += 1;
        }
        ProbeVolume { origin: (west, Y_MIN, north), probes }
    }

    /// The place of a probe in the grid.
    pub fn index(x: usize, y: usize, z: usize) -> (r: usize)
        requires
            probe_index(x as int, y as int, z as int) <= usize::MAX,
        ensures
            r == probe_index(x as int, y as int, z as int),
    {
        (z * DIM_Y + y) * DIM_X + x
    }
}

/// Every probe of the grid has a place of its own.
pub proof fn probes_have_places(x: int, y: int, z: int, a: int, b: int, c: int)
    requires
        0 <= x < DIM_X,
        0 <= y < DIM_Y,
        0 <= z < DIM_Z,
        0 <= a < DIM_X,
        0 <= b < DIM_Y,
        0 <= c < DIM_Z,
    ensures
        0 <= probe_index(x, y, z) < TEXELS,
        probe_index(x, y, z) == probe_index(a, b, c) ==> x == a && y == b && z == c,
{
}

/// A ray that nothing blocks and that stays above the bottom sees the whole sky.
pub proof fn open_sky_is_seen(
    cells: Cells,
    x: int,
    y: int,
    z: int,
    ray: Seq<(i64, i64, i64)>,
    i: int,
)
    requires
        0 <= i,
        forall|k: int|
            i <= k < ray.len() ==> y + (#[trigger] ray[k]).1 >= Y_MIN && !spec_blocks_sky(
                cells(x + ray[k].0, y + ray[k].1, z + ray[k].2),
            ),
    ensures
        seen_from(cells, x, y, z, ray, i) == RAY_RANGE,
    decreases ray.len() - i,
{
    if i < ray.len() {
        open_sky_is_seen(cells, x, y, z, ray, i + 1);
    }
}

/// Among more blocks a ray that stays above the bottom sees no farther.
pub proof fn blocks_only_darken(
    cells: Cells,
    more: Cells,
    x: int,
    y: int,
    z: int,
    ray: Seq<(i64, i64, i64)>,
    i: int,
)
    requires
        in_range(ray),
        0 <= i <= ray.len(),
        forall|a: int, b: int, c: int|
            spec_blocks_sky(#[trigger] cells(a, b, c)) ==> spec_blocks_sky(more(a, b, c)),
        forall|k: int| 0 <= k < ray.len() ==> y + (#[trigger] ray[k]).1 >= Y_MIN,
    ensures
        seen_from(more, x, y, z, ray, i) <= seen_from(cells, x, y, z, ray, i),
    decreases ray.len() - i,
{
    if i < ray.len() {
        let (dx, dy, dz) = ray[i];
        assert(spec_blocks_sky(cells(x + dx, y + dy, z + dz)) ==> spec_blocks_sky(
            more(x + dx, y + dy, z + dz),
        ));
        blocks_only_darken(cells, more, x, y, z, ray, i + 1);
        lemma_seen_later(cells, x, y, z, ray, i + 1);
    }
}

/// What a ray sees from a step on is no less than that step, unless it leaves the
/// world at the bottom.
proof fn lemma_seen_later(
    cells: Cells,
    x: int,
    y: int,
    z: int,
    ray: Seq<(i64, i64, i64)>,
    i: int,
)
    requires
        in_range(ray),
        0 <= i <= ray.len(),
    ensures
        0 <= seen_from(cells, x, y, z, ray, i) <= RAY_RANGE,
        (forall|k: int| 0 <= k < ray.len() ==> y + (#[trigger] ray[k]).1 >= Y_MIN) ==> seen_from(
            cells,
            x,
            y,
            z,
            ray,
            i,
        ) >= i,
    decreases ray.len() - i,
{
    if i < ray.len() {
        lemma_seen_later(cells, x, y, z, ray, i + 1);
    }
}

/// Whether blocks agree in all layers.
pub open spec fn agree_in_layers(cells: Cells, others: Cells) -> bool {
    forall|a: int, b: int, c: int|
        Y_MIN <= b <= Y_MAX ==> #[trigger] cells(a, b, c) == others(a, b, c)
}

proof fn lemma_same_seen(
    cells: Cells,
    others: Cells,
    x: int,
    y: int,
    z: int,
    ray: Seq<(i64, i64, i64)>,
    i: int,
)
    requires
        agree_in_layers(cells, others),
        0 <= i,
    ensures
        seen_from(cells, x, y, z, ray, i) == seen_from(others, x, y, z, ray, i),
    decreases ray.len() - i,
{
    if i < ray.len() {
        let (dx, dy, dz) = ray[i];
        lemma_same_seen(cells, others, x, y, z, ray, i + 1);
        if Y_MIN <= y + dy <= Y_MAX {
            assert(cells(x + dx, y + dy, z + dz) == others(x + dx, y + dy, z + dz));
        }
    }
}

/// Probes see nothing but the layers of the world.
pub proof fn probes_see_layers_only(
    cells: Cells,
    others: Cells,
    center: (i64, i64),
    rays: Seq<Ray>,
    probes: Seq<Probe>,
    n: int,
)
    requires
        agree_in_layers(cells, others),
        is_baked(cells, center, rays, probes, n),
    ensures
        is_baked(others, center, rays, probes, n),
{
    assert forall|x: int, y: int, z: int|
        0 <= x < DIM_X && 0 <= y < DIM_Y && 0 <= z < DIM_Z && #[trigger] probe_index(x, y, z)
            < n implies {
        let at = probe_position(center, x, y, z);
        is_probe(others, at.0, at.1, at.2, rays, probes[probe_index(x, y, z)])
    } by {
        let at = probe_position(center, x, y, z);
        let probe = probes[probe_index(x, y, z)];
        assert(is_probe(cells, at.0, at.1, at.2, rays, probe));
        assert(cells(at.0, at.1, at.2) == others(at.0, at.1, at.2));
        if let Some(seen) = probe {
            assert forall|i: int| 0 <= i < rays.len() implies #[trigger] seen@[i] == seen_from(
                others,
                at.0,
                at.1,
                at.2,
                rays[i]@,
                0,
            ) by {
                lemma_same_seen(cells, others, at.0, at.1, at.2, rays[i]@, 0);
            }
        }
    }
}

/// Everything but air and glass blocks the sky.
pub proof fn the_sky_is_seen_through_air_and_glass(block: Block)
    ensures
        spec_blocks_sky(block) <==> block != Block::Air && block != Block::Glass,
{
}

/// A ray sees as far as the first block in its way: where its first steps lead through air
/// and glass, and the next into anything else, it sees as many steps as it has made. Where
/// it leaves the layers at the top before that it sees the whole sky, and where it leaves
/// them at the bottom it sees none.
pub proof fn rays_see_up_to_the_first_block(
    cells: Cells,
    x: int,
    y: int,
    z: int,
    ray: Seq<(i64, i64, i64)>,
    i: int,
    k: int,
)
    requires
        0 <= i <= k < ray.len(),
        forall|j: int|
            i <= j < k ==> 0 <= y + (#[trigger] ray[j]).1 <= 127 && (cells(
                x + ray[j].0,
                y + ray[j].1,
                z + ray[j].2,
            ) == Block::Air || cells(x + ray[j].0, y + ray[j].1, z + ray[j].2) == Block::Glass),
    ensures
        ({
            let seen = seen_from(cells, x, y, z, ray, i);
            let block = cells(x + ray[k].0, y + ray[k].1, z + ray[k].2);
            &&& y + ray[k].1 > 127 ==> seen == RAY_RANGE
            &&& y + ray[k].1 < 0 ==> seen == 0
            &&& 0 <= y + ray[k].1 <= 127 && block != Block::Air && block != Block::Glass ==> seen
                == k + 1
        }),
    decreases k - i,
{
    if i < k {
        let first = ray[i];
        rays_see_up_to_the_first_block(cells, x, y, z, ray, i + 1, k);
    }
}

/// Probes are evenly spread around the centre: each is a step from the next along its axis,
/// the outermost are as far from the centre on one side as on the other, and from the
/// lowest to the highest they span all layers.
pub proof fn probes_are_evenly_spread(center: (i64, i64), x: int, y: int, z: int)
    ensures
        ({
            let p = probe_position(center, x, y, z);
            let next = probe_position(center, x + 1, y + 1, z + 1);
            let other = probe_position(center, DIM_X - 1 - x, DIM_Y - 1 - y, DIM_Z - 1 - z);
            &&& next.0 - p.0 == SPACING && next.1 - p.1 == SPACING && next.2 - p.2 == SPACING
            &&& p.0 + other.0 == 2 * center.0
            &&& p.2 + other.2 == 2 * center.1
            &&& p.1 + other.1 == 128
            &&& SPACING * DIM_Y == 128
            &&& SPACING > 0
        }),
{
}

/// Probes in the open see, and buried ones do not: a probe in air or glass has, for each ray,
/// how far that sees, and one in anything else has nothing.
pub proof fn open_probes_see(
    cells: Cells,
    x: int,
    y: int,
    z: int,
    rays: Seq<Ray>,
    probe: Probe,
    i: int,
)
    requires
        is_probe(cells, x, y, z, rays, probe),
    ensures
        probe is Some <==> cells(x, y, z) == Block::Air || cells(x, y, z) == Block::Glass,
        probe is Some ==> (probe->0)@.len() == rays.len(),
        probe is Some && 0 <= i < rays.len() ==> (probe->0)@[i] == seen_from(
            cells,
            x,
            y,
            z,
            rays[i]@,
            0,
        ),
{
}

} // verus!
