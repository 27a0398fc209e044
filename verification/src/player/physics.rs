//! Where a body meets blocks, and how it moves through them.
//!
//! A body covers a box of cells; which cells those are, and how fast it moves, its
//! owner computes. What stops it, and by which rules it moves, is decided here.

use crate::render::probe::cells_of;
use crate::world::block::Block;
use crate::world::generator::inside;
use crate::world::skylight::Cells;
use crate::world::voxel::{known_between, still_known, VoxelWorld};
use vstd::prelude::*;

verus! {

/// A box of cells, both ends included. It is empty if an end lies before its start.
#[derive(Clone, Copy, Debug, PartialEq, Eq, Structural)]
pub struct BlockBox {
    pub min_x: i64,
    pub max_x: i64,
    pub min_y: i64,
    pub max_y: i64,
    pub min_z: i64,
    pub max_z: i64,
}

impl BlockBox {
    /// Whether a cell belongs to the box.
    pub open spec fn has(self, x: int, y: int, z: int) -> bool {
        &&& self.min_x <= x <= self.max_x
        &&& self.min_y <= y <= self.max_y
        &&& self.min_z <= z <= self.max_z
    }

    /// Whether the columns of the box are known.
    pub open spec fn is_known<W: VoxelWorld>(self, world: &W) -> bool {
        known_between(
            world,
            self.min_x as int,
            self.max_x as int,
            self.min_z as int,
            self.max_z as int,
        )
    }

    /// Whether the box keeps away from the limits of coordinates.
    pub open spec fn fits(self) -> bool {
        &&& inside(self.min_x as int)
        &&& inside(self.max_x as int)
        &&& inside(self.min_z as int)
        &&& inside(self.max_z as int)
        &&& self.max_y < i64::MAX
    }
}

/// An axis of movement.
#[derive(Clone, Copy, Debug, PartialEq, Eq, Structural)]
pub enum Axis {
    X,
    Y,
    Z,
}

/// The coordinate of a cell along an axis.
pub open spec fn along(axis: Axis, x: int, y: int, z: int) -> int {
    match axis {
        Axis::X => x,
        Axis::Y => y,
        Axis::Z => z,
    }
}

/// What is looked for in cells.
#[derive(Clone, Copy, Debug, PartialEq, Eq, Structural)]
pub enum Matter {
    Solid,
    Fluid,
}

/// Whether a block is of a kind of matter.
pub open spec fn is_matter(block: Block, matter: Matter) -> bool {
    match matter {
        Matter::Solid => block.spec_solid(),
        Matter::Fluid => block == Block::Water,
    }
}

fn made_of(block: Block, matter: Matter) -> (r: bool)
    ensures
        r == is_matter(block, matter),
{
    match matter {
        Matter::Solid => block.is_solid(),
        Matter::Fluid => block.is_fluid(),
    }
}

/// Whether a box has matter in a cell.
pub open spec fn meets(
    cells: Cells,
    within: BlockBox,
    matter: Matter,
    x: int,
    y: int,
    z: int,
) -> bool {
    within.has(x, y, z) && is_matter(cells(x, y, z), matter)
}

/// Whether a box has matter in any cell.
pub open spec fn meets_any(cells: Cells, within: BlockBox, matter: Matter) -> bool {
    exists|x: int, y: int, z: int| #[trigger] meets(cells, within, matter, x, y, z)
}

/// Whether one coordinate stops a movement before another one does.
pub open spec fn stops_first(positive: bool, a: int, b: int) -> bool {
    if positive {
        a <= b
    } else {
        a >= b
    }
}

/// Whether a coordinate is that of the matter that stops a movement along an axis: of
/// all matter of a box, none would stop it earlier.
pub open spec fn is_stop(
    cells: Cells,
    within: BlockBox,
    matter: Matter,
    axis: Axis,
    positive: bool,
    at: int,
) -> bool {
    &&& exists|x: int, y: int, z: int| #[trigger]
        meets(cells, within, matter, x, y, z) && along(axis, x, y, z) == at
    &&& forall|x: int, y: int, z: int| #[trigger]
        meets(cells, within, matter, x, y, z) ==> stops_first(positive, at, along(axis, x, y, z))
}

/// Whether a search of the cells before a place has found the stop among them.
spec fn found_so_far(
    cells: Cells,
    within: BlockBox,
    matter: Matter,
    axis: Axis,
    positive: bool,
    found: Option<i64>,
    x: int,
    y: int,
    z: int,
) -> bool {
    match found {
        Some(at) => {
            &&& exists|a: int, b: int, c: int| #[trigger]
                meets(cells, within, matter, a, b, c) && along(axis, a, b, c) == at
            &&& forall|a: int, b: int, c: int| #[trigger]
                meets(cells, within, matter, a, b, c) && precedes(a, b, c, x, y, z)
                    ==> stops_first(positive, at as int, along(axis, a, b, c))
        },
        None => forall|a: int, b: int, c: int| #[trigger]
            meets(cells, within, matter, a, b, c) ==> !precedes(a, b, c, x, y, z),
    }
}

/// The order in which cells are searched.
spec fn precedes(a: int, b: int, c: int, x: int, y: int, z: int) -> bool {
    a < x || (a == x && (b < y || (b == y && c < z)))
}

fn pick(axis: Axis, x: i64, y: i64, z: i64) -> (r: i64)
    ensures
        r == along(axis, x as int, y as int, z as int),
{
    match axis {
        Axis::X => x,
        Axis::Y => y,
        Axis::Z => z,
    }
}

/// Looks at one cell of a search.
fn look_at<W: VoxelWorld>(
    world: &mut W,
    within: BlockBox,
    matter: Matter,
    axis: Axis,
    positive: bool,
    found: Option<i64>,
    at: (i64, i64, i64),
) -> (r: Option<i64>)
    requires
        old(world).valid(),
        within.fits(),
        within.is_known(old(world)),
        within.has(at.0 as int, at.1 as int, at.2 as int),
        found_so_far(
            cells_of(old(world)),
            within,
            matter,
            axis,
            positive,
            found,
            at.0 as int,
            at.1 as int,
            at.2 as int,
        ),
    ensures
        final(world).valid(),
        cells_of(final(world)) == cells_of(old(world)),
        still_known(old(world), final(world)),
        found_so_far(
            cells_of(old(world)),
            within,
            matter,
            axis,
            positive,
            r,
            at.0 as int,
            at.1 as int,
            at.2 + 1,
        ),
{
    let (x, y, z) = at;
    let ghost cells = cells_of(world);
    let block = world.block_at(x, y, z);
    assert(cells_of(world) =~= cells);
    if !made_of(block, matter) {
        assert(!meets(cells, within, matter, x as int, y as int, z as int));
        return found;
    }
    let here: i64 = pick(axis, x, y, z);
    assert(meets(cells, within, matter, x as int, y as int, z as int));
    match found {
        Some(best) => {
            if (positive && here < best) || (!positive && here > best) {
                Some(here)
            } else {
                found
            }
        },
        None => Some(here),
    }
}

fn search_line<W: VoxelWorld>(
    world: &mut W,
    within: BlockBox,
    matter: Matter,
    axis: Axis,
    positive: bool,
    first: Option<i64>,
    x: i64,
    y: i64,
) -> (r: Option<i64>)
    requires
        old(world).valid(),
        within.fits(),
        within.is_known(old(world)),
        within.min_z <= within.max_z,
        within.has(x as int, y as int, within.min_z as int),
        found_so_far(
            cells_of(old(world)),
            within,
            matter,
            axis,
            positive,
            first,
            x as int,
            y as int,
            within.min_z as int,
        ),
    ensures
        final(world).valid(),
        cells_of(final(world)) == cells_of(old(world)),
        still_known(old(world), final(world)),
        found_so_far(
            cells_of(old(world)),
            within,
            matter,
            axis,
            positive,
            r,
            x as int,
            y + 1,
            within.min_z as int,
        ),
{
    let ghost cells = cells_of(world);
    let mut found = first;
    let mut z: i64 = within.min_z;
    while z <= within.max_z
        invariant
            within.fits(),
            within.is_known(world),
            still_known(old(world), world),
            within.min_z <= z <= within.max_z + 1,
            within.has(x as int, y as int, within.min_z as int),
            world.valid(),
            cells_of(world) == cells,
            found_so_far(
                cells,
                within,
                matter,
                axis,
                positive,
                found,
                x as int,
                y as int,
                z as int,
            ),
        decreases within.max_z + 1 - z,
    {
        found = look_at(world, within, matter, axis, positive, found, (x, y, z));
        z += 1;
    }
    found
}

fn search_slice<W: VoxelWorld>(
    world: &mut W,
    within: BlockBox,
    matter: Matter,
    axis: Axis,
    positive: bool,
    first: Option<i64>,
    x: i64,
) -> (r: Option<i64>)
    requires
        old(world).valid(),
        within.fits(),
        within.is_known(old(world)),
        within.min_z <= within.max_z,
        within.min_y <= within.max_y,
        within.min_x <= x <= within.max_x,
        found_so_far(
            cells_of(old(world)),
            within,
            matter,
            axis,
            positive,
            first,
            x as int,
            within.min_y as int,
            within.min_z as int,
        ),
    ensures
        final(world).valid(),
        cells_of(final(world)) == cells_of(old(world)),
        still_known(old(world), final(world)),
        found_so_far(
            cells_of(old(world)),
            within,
            matter,
            axis,
            positive,
            r,
            x + 1,
            within.min_y as int,
            within.min_z as int,
        ),
{
    let ghost cells = cells_of(world);
    let mut found = first;
    let mut y: i64 = within.min_y;
    while y <= within.max_y
        invariant
            within.fits(),
            within.is_known(world),
            still_known(old(world), world),
            within.min_z <= within.max_z,
            within.min_y <= y <= within.max_y + 1,
            within.min_x <= x <= within.max_x,
            world.valid(),
            cells_of(world) == cells,
            found_so_far(
                cells,
                within,
                matter,
                axis,
                positive,
                found,
                x as int,
                y as int,
                within.min_z as int,
            ),
        decreases within.max_y + 1 - y,
    {
        found = search_line(world, within, matter, axis, positive, found, x, y);
        y += 1;
    }
    found
}

/// The coordinate, along an axis, of the matter of a box that a movement along that
/// axis meets first.
pub fn first_stop<W: VoxelWorld>(
    world: &mut W,
    within: BlockBox,
    matter: Matter,
    axis: Axis,
    positive: bool,
) -> (r: Option<i64>)
    requires
        old(world).valid(),
        within.fits(),
        within.is_known(old(world)),
    ensures
        final(world).valid(),
        cells_of(final(world)) == cells_of(old(world)),
        still_known(old(world), final(world)),
        r is Some <==> meets_any(cells_of(old(world)), within, matter),
        r is Some ==> is_stop(
            cells_of(old(world)),
            within,
            matter,
            axis,
            positive,
            r->0 as int,
        ),
{
    let ghost cells = cells_of(world);
    if within.min_z > within.max_z || within.min_y > within.max_y {
        assert forall|x: int, y: int, z: int| !#[trigger] meets(
            cells,
            within,
            matter,
            x,
            y,
            z,
        ) by {}
        return None;
    }
    let mut found: Option<i64> = None;
    let mut x: i64 = within.min_x;
    while x <= within.max_x
        invariant
            within.fits(),
            within.is_known(world),
            still_known(old(world), world),
            within.min_z <= within.max_z,
            within.min_y <= within.max_y,
            within.min_x <= x,
            x <= within.max_x + 1 || x == within.min_x,
            world.valid(),
            cells_of(world) == cells,
            found_so_far(
                cells,
                within,
                matter,
                axis,
                positive,
                found,
                x as int,
                within.min_y as int,
                within.min_z as int,
            ),
        decreases within.max_x + 1 - x,
    {
        found = search_slice(world, within, matter, axis, positive, found, x);
        x += 1;
    }
    proof {
        assert forall|a: int, b: int, c: int| #[trigger]
            meets(cells, within, matter, a, b, c) implies precedes(
            a,
            b,
            c,
            x as int,
            within.min_y as int,
            within.min_z as int,
        ) by {}
        if let Some(at) = found {
            let (a, b, c) = choose|a: int, b: int, c: int| #[trigger]
                meets(cells, within, matter, a, b, c) && along(axis, a, b, c) == at;
            assert(meets(cells, within, matter, a, b, c));
        }
    }
    found
}

/// Whether a body meets a solid block.
pub fn collides<W: VoxelWorld>(world: &mut W, within: BlockBox) -> (r: bool)
    requires
        old(world).valid(),
        within.fits(),
        within.is_known(old(world)),
    ensures
        final(world).valid(),
        cells_of(final(world)) == cells_of(old(world)),
        still_known(old(world), final(world)),
        r == meets_any(cells_of(old(world)), within, Matter::Solid),
{
    first_stop(world, within, Matter::Solid, Axis::X, true).is_some()
}

/// Whether a body is in a fluid.
pub fn intersects_fluid<W: VoxelWorld>(world: &mut W, within: BlockBox) -> (r: bool)
    requires
        old(world).valid(),
        within.fits(),
        within.is_known(old(world)),
    ensures
        final(world).valid(),
        cells_of(final(world)) == cells_of(old(world)),
        still_known(old(world), final(world)),
        r == meets_any(cells_of(old(world)), within, Matter::Fluid),
{
    first_stop(world, within, Matter::Fluid, Axis::X, true).is_some()
}

/// Whether the head of a body, at the given layer, is in a fluid.
pub fn head_intersects_fluid<W: VoxelWorld>(world: &mut W, within: BlockBox, head_y: i64) -> (r:
    bool)
    requires
        old(world).valid(),
        within.fits(),
        within.is_known(old(world)),
        head_y < i64::MAX,
    ensures
        final(world).valid(),
        cells_of(final(world)) == cells_of(old(world)),
        still_known(old(world), final(world)),
        r == meets_any(
            cells_of(old(world)),
            (BlockBox { min_y: head_y, max_y: head_y, ..within }),
            Matter::Fluid,
        ),
{
    let head = BlockBox {
        min_x: within.min_x,
        max_x: within.max_x,
        min_y: head_y,
        max_y: head_y,
        min_z: within.min_z,
        max_z: within.max_z,
    };
    intersects_fluid(world, head)
}

/// What a step did.
#[derive(Clone, Copy, Debug, PartialEq, Eq, Structural)]
pub struct StepResult {
    pub collided_x: bool,
    pub collided_y: bool,
    pub collided_z: bool,
    pub landed: bool,
    pub hit_ceiling: bool,
}

impl StepResult {
    /// A step that did nothing.
    pub open spec fn nothing() -> StepResult {
        StepResult {
            collided_x: false,
            collided_y: false,
            collided_z: false,
            landed: false,
            hit_ceiling: false,
        }
    }

    /// The result of a step: what it met along each axis. A body that falls onto
    /// something has landed; one that rises against something has hit the ceiling.
    pub fn of(
        collided_x: bool,
        collided_y: bool,
        collided_z: bool,
        falling: bool,
        rising: bool,
    ) -> (r: StepResult)
        ensures
            r == (StepResult {
                collided_x,
                collided_y,
                collided_z,
                landed: collided_y && falling,
                hit_ceiling: collided_y && rising,
            }),
            !collided_y ==> !r.landed && !r.hit_ceiling,
            collided_y && falling ==> r.landed,
            collided_y && rising ==> r.hit_ceiling,
            !falling ==> !r.landed,
            !rising ==> !r.hit_ceiling,
    {
        StepResult {
            collided_x,
            collided_y,
            collided_z,
            landed: collided_y && falling,
            hit_ceiling: collided_y && rising,
        }
    }
}

impl Default for StepResult {
    fn default() -> (r: Self)
        ensures
            r == StepResult::nothing(),
    {
        StepResult {
            collided_x: false,
            collided_y: false,
            collided_z: false,
            landed: false,
            hit_ceiling: false,
        }
    }
}

/// What a body moves through.
#[derive(Clone, Copy, Debug, PartialEq, Eq, Structural)]
pub enum Footing {
    Water,
    Ground,
    Air,
}

/// How a body moves up and down: it swims up, down or not at all, sinks, or falls,
/// with or without a jump before.
#[derive(Clone, Copy, Debug, PartialEq, Eq, Structural)]
pub enum Lift {
    Swim(i8),
    Sink,
    Fall { jump: bool },
}

/// What the player wants.
#[derive(Clone, Copy, Debug, PartialEq, Eq, Structural)]
pub struct LiftInput {
    pub jump: bool,
    pub swim_up: bool,
    pub swim_down: bool,
}

impl LiftInput {
    /// Which way the player wants to swim: up, down, or neither.
    pub open spec fn swim(self) -> int {
        (self.swim_up || self.jump) as int - self.swim_down as int
    }
}

/// What a body moves through: water wherever it touches any, else the ground that it
/// stands on, else air.
pub fn footing(in_fluid: bool, on_ground: bool) -> (r: Footing)
    ensures
        r == if in_fluid {
            Footing::Water
        } else if on_ground {
            Footing::Ground
        } else {
            Footing::Air
        },
        r == Footing::Water <==> in_fluid,
        r == Footing::Ground <==> on_ground && !in_fluid,
        r == Footing::Air <==> !on_ground && !in_fluid,
{
    if in_fluid {
        Footing::Water
    } else if on_ground {
        Footing::Ground
    } else {
        Footing::Air
    }
}

/// How a body moves up and down. Under water it floats or swims; with its head above
/// water it sinks unless it swims; elsewhere it falls, after a jump if it stands on
/// the ground and wants to jump.
pub fn lift(in_fluid: bool, submerged: bool, on_ground: bool, input: LiftInput) -> (r: Lift)
    ensures
        r == if in_fluid && submerged {
            Lift::Swim(input.swim() as i8)
        } else if in_fluid {
            if input.swim() == 0 {
                Lift::Sink
            } else {
                Lift::Swim(input.swim() as i8)
            }
        } else {
            Lift::Fall { jump: input.jump && on_ground }
        },
        in_fluid <==> !(r is Fall),
        r == Lift::Sink ==> !submerged,
        r == (Lift::Fall { jump: true }) ==> on_ground && input.jump,
        !in_fluid && on_ground && input.jump ==> r == (Lift::Fall { jump: true }),
        in_fluid && (input.jump || input.swim_up) && !input.swim_down ==> r == Lift::Swim(1),
        in_fluid && !input.jump && !input.swim_up && input.swim_down ==> r == Lift::Swim(-1i8),
        in_fluid && submerged && (input.jump || input.swim_up) == input.swim_down ==> r
            == Lift::Swim(0),
        in_fluid && !submerged && (input.jump || input.swim_up) == input.swim_down ==> r
            == Lift::Sink,
{
    let up: i8 = if input.swim_up || input.jump { 1 } else { 0 };
    let down: i8 = if input.swim_down { 1 } else { 0 };
    let swim: i8 = up - down;
    if in_fluid && submerged {
        Lift::Swim(swim)
    } else if in_fluid {
        if swim == 0 {
            Lift::Sink
        } else {
            Lift::Swim(swim)
        }
    } else {
        Lift::Fall { jump: input.jump && on_ground }
    }
}

/// A body that ends at the stop meets nothing beyond it: with the cells from the stop
/// on taken away, the rest of the box is clear.
pub proof fn stopping_clears_the_way(
    cells: Cells,
    within: BlockBox,
    axis: Axis,
    positive: bool,
    at: int,
    x: int,
    y: int,
    z: int,
)
    requires
        is_stop(cells, within, Matter::Solid, axis, positive, at),
        within.has(x, y, z),
        stops_first(positive, along(axis, x, y, z), at),
        along(axis, x, y, z) != at,
    ensures
        !cells(x, y, z).spec_solid(),
{
    if cells(x, y, z).spec_solid() {
        assert(meets(cells, within, Matter::Solid, x, y, z));
    }
}

/// Everything but air and water stops a body, and water alone is what it swims in: a box
/// meets such a block exactly if one of its cells holds one.
pub proof fn bodies_meet_what_is_solid(
    cells: Cells,
    within: BlockBox,
    x: int,
    y: int,
    z: int,
)
    requires
        within.min_x <= x <= within.max_x,
        within.min_y <= y <= within.max_y,
        within.min_z <= z <= within.max_z,
    ensures
        cells(x, y, z) != Block::Air && cells(x, y, z) != Block::Water ==> meets_any(
            cells,
            within,
            Matter::Solid,
        ),
        cells(x, y, z) == Block::Water ==> meets_any(cells, within, Matter::Fluid),
{
    if cells(x, y, z).spec_solid() {
        assert(meets(cells, within, Matter::Solid, x, y, z));
    }
    if cells(x, y, z) == Block::Water {
        assert(meets(cells, within, Matter::Fluid, x, y, z));
    }
}

/// A box in which no cell holds anything solid is free, and one without water is dry.
pub proof fn clear_boxes_meet_nothing(cells: Cells, within: BlockBox)
    ensures
        (forall|x: int, y: int, z: int|
            within.min_x <= x <= within.max_x && within.min_y <= y <= within.max_y && within.min_z
                <= z <= within.max_z ==> (#[trigger] cells(x, y, z)) == Block::Air || cells(x, y, z)
                == Block::Water) ==> !meets_any(cells, within, Matter::Solid),
        (forall|x: int, y: int, z: int|
            within.min_x <= x <= within.max_x && within.min_y <= y <= within.max_y && within.min_z
                <= z <= within.max_z ==> (#[trigger] cells(x, y, z)) != Block::Water)
            ==> !meets_any(cells, within, Matter::Fluid),
{
    if meets_any(cells, within, Matter::Solid) {
        let (x, y, z) = choose|x: int, y: int, z: int| #[trigger]
            meets(cells, within, Matter::Solid, x, y, z);
        assert(cells(x, y, z).spec_solid());
    }
    if meets_any(cells, within, Matter::Fluid) {
        let (x, y, z) = choose|x: int, y: int, z: int| #[trigger]
            meets(cells, within, Matter::Fluid, x, y, z);
        assert(cells(x, y, z) == Block::Water);
    }
}

/// A movement stops at the nearest wall: no solid cell of the box lies before the stop along
/// the way, and one lies at it.
pub proof fn movement_stops_at_the_nearest_wall(
    cells: Cells,
    within: BlockBox,
    axis: Axis,
    positive: bool,
    at: int,
    x: int,
    y: int,
    z: int,
)
    requires
        is_stop(cells, within, Matter::Solid, axis, positive, at),
        within.min_x <= x <= within.max_x,
        within.min_y <= y <= within.max_y,
        within.min_z <= z <= within.max_z,
        cells(x, y, z) != Block::Air,
        cells(x, y, z) != Block::Water,
    ensures
        axis == Axis::X && positive ==> at <= x,
        axis == Axis::X && !positive ==> at >= x,
        axis == Axis::Y && positive ==> at <= y,
        axis == Axis::Y && !positive ==> at >= y,
        axis == Axis::Z && positive ==> at <= z,
        axis == Axis::Z && !positive ==> at >= z,
        exists|a: int, b: int, c: int|
            {
                &&& within.min_x <= a <= within.max_x
                &&& within.min_y <= b <= within.max_y
                &&& within.min_z <= c <= within.max_z
                &&& (#[trigger] cells(a, b, c)) != Block::Air && cells(a, b, c) != Block::Water
                &&& axis == Axis::X ==> a == at
                &&& axis == Axis::Y ==> b == at
                &&& axis == Axis::Z ==> c == at
            },
{
    assert(meets(cells, within, Matter::Solid, x, y, z));
    let (a, b, c) = choose|a: int, b: int, c: int| #[trigger]
        meets(cells, within, Matter::Solid, a, b, c) && along(axis, a, b, c) == at;
    assert(cells(a, b, c).spec_solid());
}

} // verus!
