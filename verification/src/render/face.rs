//! The faces of blocks: directions, textures and shading.

use crate::world::atlas::{tile_number, TileTable};
use crate::world::block::{should_draw_face, spec_draw_face, Block, Face, LIGHT_MAX};
use crate::world::skylight::Cells;
use vstd::prelude::*;

verus! {

/// The level of light at each position.
pub type Levels = spec_fn(int, int, int) -> u8;

/// Parts of a block edge: corners lie at whole parts.
pub const PARTS: i64 = 8;

/// Height of a fluid's surface, in parts. A fluid fills its cell, but is seen a
/// little lower.
pub const WATER_SURFACE_PARTS: i64 = 7;

/// Which way a face looks.
#[derive(Clone, Copy, Debug, PartialEq, Eq, Structural)]
pub enum Direction {
    Up,
    Down,
    North,
    South,
    West,
    East,
}

/// Number of directions.
pub const DIRECTION_COUNT: usize = 6;

/// All directions, in the order in which the faces of a block are drawn.
pub const DIRECTIONS: [Direction; DIRECTION_COUNT] = [
    Direction::Up,
    Direction::Down,
    Direction::North,
    Direction::South,
    Direction::West,
    Direction::East,
];

impl Direction {
    /// The step from a block to the cell that the face looks at.
    pub open spec fn spec_offset(self) -> (int, int, int) {
        match self {
            Direction::Up => (0, 1, 0),
            Direction::Down => (0, -1, 0),
            Direction::North => (0, 0, -1),
            Direction::South => (0, 0, 1),
            Direction::West => (-1, 0, 0),
            Direction::East => (1, 0, 0),
        }
    }

    /// The corners of the face in drawing order, each coordinate 0 or 1.
    pub open spec fn spec_corner(self, k: int) -> (int, int, int) {
        match self {
            Direction::Up => if k == 0 {
                (0, 1, 0)
            } else if k == 1 {
                (1, 1, 0)
            } else if k == 2 {
                (1, 1, 1)
            } else {
                (0, 1, 1)
            },
            Direction::Down => if k == 0 {
                (0, 0, 1)
            } else if k == 1 {
                (1, 0, 1)
            } else if k == 2 {
                (1, 0, 0)
            } else {
                (0, 0, 0)
            },
            Direction::North => if k == 0 {
                (1, 0, 0)
            } else if k == 1 {
                (0, 0, 0)
            } else if k == 2 {
                (0, 1, 0)
            } else {
                (1, 1, 0)
            },
            Direction::South => if k == 0 {
                (0, 0, 1)
            } else if k == 1 {
                (1, 0, 1)
            } else if k == 2 {
                (1, 1, 1)
            } else {
                (0, 1, 1)
            },
            Direction::West => if k == 0 {
                (0, 0, 0)
            } else if k == 1 {
                (0, 0, 1)
            } else if k == 2 {
                (0, 1, 1)
            } else {
                (0, 1, 0)
            },
            Direction::East => if k == 0 {
                (1, 0, 1)
            } else if k == 1 {
                (1, 0, 0)
            } else if k == 2 {
                (1, 1, 0)
            } else {
                (1, 1, 1)
            },
        }
    }

    /// The way in which the texture runs to the right.
    pub open spec fn spec_tangent(self) -> (int, int, int) {
        match self {
            Direction::Up | Direction::Down | Direction::South => (1, 0, 0),
            Direction::North => (-1, 0, 0),
            Direction::West => (0, 0, 1),
            Direction::East => (0, 0, -1),
        }
    }

    /// The way in which the texture runs down.
    pub open spec fn spec_bitangent(self) -> (int, int, int) {
        match self {
            Direction::Up => (0, 0, -1),
            Direction::Down => (0, 0, 1),
            _ => (0, -1, 0),
        }
    }

    /// The kind of face.
    pub open spec fn spec_face(self) -> Face {
        match self {
            Direction::Up => Face::Top,
            Direction::Down => Face::Bottom,
            _ => Face::Side,
        }
    }

    pub fn offset(self) -> (r: (i64, i64, i64))
        ensures
            r.0 == self.spec_offset().0,
            r.1 == self.spec_offset().1,
            r.2 == self.spec_offset().2,
    {
        match self {
            Direction::Up => (0, 1, 0),
            Direction::Down => (0, -1, 0),
            Direction::North => (0, 0, -1),
            Direction::South => (0, 0, 1),
            Direction::West => (-1, 0, 0),
            Direction::East => (1, 0, 0),
        }
    }

    pub fn corner(self, k: usize) -> (r: (i64, i64, i64))
        requires
            k < 4,
        ensures
            r.0 == self.spec_corner(k as int).0,
            r.1 == self.spec_corner(k as int).1,
            r.2 == self.spec_corner(k as int).2,
    {
        let right = k == 1 || k == 2;
        let upper: i64 = if k >= 2 { 1 } else { 0 };
        match self {
            Direction::Up => (if right { 1 } else { 0 }, 1, upper),
            Direction::Down => (if right { 1 } else { 0 }, 0, 1 - upper),
            Direction::North => (if right { 0 } else { 1 }, upper, 0),
            Direction::South => (if right { 1 } else { 0 }, upper, 1),
            Direction::West => (0, upper, if right { 1 } else { 0 }),
            Direction::East => (1, upper, if right { 0 } else { 1 }),
        }
    }

    pub fn tangent(self) -> (r: (i64, i64, i64))
        ensures
            r.0 == self.spec_tangent().0,
            r.1 == self.spec_tangent().1,
            r.2 == self.spec_tangent().2,
    {
        match self {
            Direction::Up | Direction::Down | Direction::South => (1, 0, 0),
            Direction::North => (-1, 0, 0),
            Direction::West => (0, 0, 1),
            Direction::East => (0, 0, -1),
        }
    }

    pub fn bitangent(self) -> (r: (i64, i64, i64))
        ensures
            r.0 == self.spec_bitangent().0,
            r.1 == self.spec_bitangent().1,
            r.2 == self.spec_bitangent().2,
    {
        match self {
            Direction::Up => (0, 0, -1),
            Direction::Down => (0, 0, 1),
            _ => (0, -1, 0),
        }
    }

    pub fn face(self) -> (r: Face)
        ensures
            r == self.spec_face(),
    {
        match self {
            Direction::Up => Face::Top,
            Direction::Down => Face::Bottom,
            _ => Face::Side,
        }
    }
}

/// The part of a tile that a face shows, and whether it is mirrored. `region` holds
/// the place of the part and the number of parts, each along u and v.
#[derive(Clone, Copy, Debug, PartialEq, Eq)]
pub struct FaceTexture {
    pub region: [u32; 4],
    pub mirror_u: bool,
    pub mirror_v: bool,
}

impl FaceTexture {
    /// The whole tile, as it is.
    pub open spec fn spec_complete() -> FaceTexture {
        FaceTexture { region: [0, 0, 1, 1], mirror_u: false, mirror_v: false }
    }

    /// The whole tile, as it is.
    pub fn complete() -> (r: FaceTexture)
        ensures
            r == FaceTexture::spec_complete(),
    {
        FaceTexture { region: [0, 0, 1, 1], mirror_u: false, mirror_v: false }
    }

    /// Where a corner of a face lies in the part that is shown.
    pub open spec fn spec_local_uv(self, k: int) -> (u32, u32) {
        let right = k == 1 || k == 2;
        let lower = k < 2;
        (
            if right != self.mirror_u {
                1
            } else {
                0
            },
            if lower != self.mirror_v {
                1
            } else {
                0
            },
        )
    }

    /// Where a corner of a face lies in the part that is shown.
    pub fn local_uv(self, k: usize) -> (r: (u32, u32))
        ensures
            r == self.spec_local_uv(k as int),
    {
        let right = k == 1 || k == 2;
        let lower = k < 2;
        (if right != self.mirror_u { 1 } else { 0 }, if lower != self.mirror_v { 1 } else { 0 })
    }
}

/// Whether a face shows a whole tile that was drawn for it.
pub open spec fn is_complete_face(block: Block, face: Face) -> bool {
    match block {
        Block::Glass | Block::Bookshelf | Block::Beehive | Block::Furnace | Block::Piston => true,
        Block::OakLog => face != Face::Side,
        _ => false,
    }
}

/// The position of a block along the texture axes of a face.
pub open spec fn spec_axes(direction: Direction, x: int, y: int, z: int) -> (int, int) {
    match direction {
        Direction::Up => (x, -z),
        Direction::Down => (x, z),
        Direction::North => (-x, -y),
        Direction::South => (x, -y),
        Direction::West => (z, -y),
        Direction::East => (-z, -y),
    }
}

/// The part of its tile that a face shows: neighbouring blocks show neighbouring
/// quarters, so that a tile runs on over two blocks each way. The sides of grass
/// take halves, with the turf on top.
pub open spec fn spec_face_texture(
    block: Block,
    direction: Direction,
    x: int,
    y: int,
    z: int,
) -> FaceTexture {
    let (u, v) = spec_axes(direction, x, y, z);
    if is_complete_face(block, direction.spec_face()) {
        FaceTexture::spec_complete()
    } else if block == Block::GrassBlock && direction.spec_face() == Face::Side {
        FaceTexture { region: [(u % 2) as u32, 0, 2, 1], mirror_u: false, mirror_v: false }
    } else {
        FaceTexture {
            region: [(u % 2) as u32, (v % 2) as u32, 2, 2],
            mirror_u: false,
            mirror_v: false,
        }
    }
}

/// The position of a block along the texture axes of a face: opposite faces are
/// wound in opposite ways.
pub fn face_axes(direction: Direction, x: i64, y: i64, z: i64) -> (r: (i64, i64))
    requires
        x > i64::MIN,
        y > i64::MIN,
        z > i64::MIN,
    ensures
        r.0 == spec_axes(direction, x as int, y as int, z as int).0,
        r.1 == spec_axes(direction, x as int, y as int, z as int).1,
{
    match direction {
        Direction::Up => (x, -z),
        Direction::Down => (x, z),
        Direction::North => (-x, -y),
        Direction::South => (x, -y),
        Direction::West => (z, -y),
        Direction::East => (-z, -y),
    }
}

/// Whether a number is odd.
fn parity(v: i64) -> (r: u32)
    ensures
        r == v as int % 2,
        r < 2,
{
    let low: i64 = if v >= 0 {
        v % 2
    } else {
        let up: i64 = -(v + 1);
        1 - up % 2
    };
    assert(v < 0 ==> v as int % 2 == 1 - (-(v + 1)) % 2);
    low as u32
}

/// The part of its tile that a face shows.
pub fn face_texture(block: Block, direction: Direction, x: i64, y: i64, z: i64) -> (r: FaceTexture)
    requires
        x > i64::MIN,
        y > i64::MIN,
        z > i64::MIN,
    ensures
        r == spec_face_texture(block, direction, x as int, y as int, z as int),
{
    let face = direction.face();
    let complete_face = matches!(
        block,
        Block::Glass | Block::Bookshelf | Block::Beehive | Block::Furnace | Block::Piston
    ) || (block == Block::OakLog && face != Face::Side);
    if complete_face {
        return FaceTexture::complete();
    }
    let axes = face_axes(direction, x, y, z);
    let region_x: u32 = parity(axes.0);
    if block == Block::GrassBlock && face == Face::Side {
        FaceTexture { region: [region_x, 0, 2, 1], mirror_u: false, mirror_v: false }
    } else {
        let region_y: u32 = parity(axes.1);
        FaceTexture { region: [region_x, region_y, 2, 2], mirror_u: false, mirror_v: false }
    }
}

/// Whether a block is natural ground, which fades into its neighbours at the edges.
pub open spec fn spec_blendable(block: Block) -> bool {
    match block {
        Block::GrassBlock
        | Block::Dirt
        | Block::Stone
        | Block::Cobblestone
        | Block::Sand
        | Block::Sandstone
        | Block::Gravel
        | Block::Clay
        | Block::Bedrock
        | Block::Obsidian => true,
        _ => false,
    }
}

/// Whether a block is natural ground.
pub fn blendable(block: Block) -> (r: bool)
    ensures
        r == spec_blendable(block),
{
    matches!(
        block,
        Block::GrassBlock
            | Block::Dirt
            | Block::Stone
            | Block::Cobblestone
            | Block::Sand
            | Block::Sandstone
            | Block::Gravel
            | Block::Clay
            | Block::Bedrock
            | Block::Obsidian
    )
}

/// The tile that a face fades into at the edge towards a neighbour: the
/// neighbour's, if both are natural ground and the neighbour shows a face on the
/// same side.
pub open spec fn blend_tile(
    cells: Cells,
    x: int,
    y: int,
    z: int,
    direction: Direction,
    block: Block,
    to: (int, int, int),
) -> u32 {
    let o = direction.spec_offset();
    let neighbor = cells(x + to.0, y + to.1, z + to.2);
    let outer = cells(x + to.0 + o.0, y + to.1 + o.1, z + to.2 + o.2);
    if spec_blendable(block) && spec_blendable(neighbor) && spec_draw_face(neighbor, outer) {
        tile_number(neighbor, direction.spec_face())
    } else {
        tile_number(block, direction.spec_face())
    }
}

/// The opposite step.
pub open spec fn back(step: (int, int, int)) -> (int, int, int) {
    (-step.0, -step.1, -step.2)
}

/// The tiles at the four edges of a face: left, right, upper and lower, as far as
/// the texture is not mirrored.
pub open spec fn spec_blend_tiles(
    cells: Cells,
    x: int,
    y: int,
    z: int,
    direction: Direction,
    block: Block,
    texture: FaceTexture,
) -> [u32; 4] {
    let left = blend_tile(cells, x, y, z, direction, block, back(direction.spec_tangent()));
    let right = blend_tile(cells, x, y, z, direction, block, direction.spec_tangent());
    let upper = blend_tile(cells, x, y, z, direction, block, back(direction.spec_bitangent()));
    let lower = blend_tile(cells, x, y, z, direction, block, direction.spec_bitangent());
    [
        if texture.mirror_u {
            right
        } else {
            left
        },
        if texture.mirror_u {
            left
        } else {
            right
        },
        if texture.mirror_v {
            lower
        } else {
            upper
        },
        if texture.mirror_v {
            upper
        } else {
            lower
        },
    ]
}

/// What a corner of a face is seen in: how many of the cells around it block the
/// light, and the sky light of the open ones, summed up and counted.
#[derive(Clone, Copy, Debug, PartialEq, Eq, Structural)]
pub struct Shade {
    pub occlusion: u8,
    pub light: u32,
    pub samples: u32,
}

/// Whether a coordinate is away from its face's plane: -1 or 1.
pub open spec fn sign_of(bit: int) -> int {
    if bit == 0 {
        -1
    } else {
        1
    }
}

/// The two cells beside the corner of a face, in front of the face, as steps from
/// the block. The first lies along x, or along z where the face looks along x; the
/// second along z for faces that look up or down, along y for the others.
pub open spec fn spec_sides(direction: Direction, k: int) -> ((int, int, int), (int, int, int)) {
    let o = direction.spec_offset();
    let c = direction.spec_corner(k);
    let along_x = (o.0 + sign_of(c.0), o.1, o.2);
    let along_y = (o.0, o.1 + sign_of(c.1), o.2);
    let along_z = (o.0, o.1, o.2 + sign_of(c.2));
    match direction {
        Direction::Up | Direction::Down => (along_x, along_z),
        Direction::North | Direction::South => (along_x, along_y),
        Direction::West | Direction::East => (along_z, along_y),
    }
}

/// The cell across the corner of a face, in front of the face.
pub open spec fn spec_diagonal(direction: Direction, k: int) -> (int, int, int) {
    let o = direction.spec_offset();
    let (a, b) = spec_sides(direction, k);
    (a.0 + b.0 - o.0, a.1 + b.1 - o.1, a.2 + b.2 - o.2)
}

/// The block that lies a step away from a position.
pub open spec fn at_step(cells: Cells, x: int, y: int, z: int, step: (int, int, int)) -> Block {
    cells(x + step.0, y + step.1, z + step.2)
}

/// The light that lies a step away from a position.
pub open spec fn light_at_step(
    sky: Levels,
    x: int,
    y: int,
    z: int,
    step: (int, int, int),
) -> u8 {
    sky(x + step.0, y + step.1, z + step.2)
}

/// The shade at a corner from what is around it. Where both sides are opaque the
/// corner is as dark as can be and takes the light in front of the face alone;
/// else the open cells among the four count.
pub open spec fn spec_shade_of(
    side_a: bool,
    side_b: bool,
    diagonal: bool,
    front: u8,
    light_a: u8,
    light_b: u8,
    light_diagonal: u8,
) -> Shade {
    if side_a && side_b {
        Shade { occlusion: 3, light: front as u32, samples: 1 }
    } else {
        Shade {
            occlusion: ((if side_a {
                1int
            } else {
                0
            }) + (if side_b {
                1int
            } else {
                0
            }) + (if diagonal {
                1int
            } else {
                0
            })) as u8,
            light: (front + (if side_a {
                0
            } else {
                light_a as int
            }) + (if side_b {
                0
            } else {
                light_b as int
            }) + (if diagonal {
                0
            } else {
                light_diagonal as int
            })) as u32,
            samples: (1 + (if side_a {
                0int
            } else {
                1
            }) + (if side_b {
                0int
            } else {
                1
            }) + (if diagonal {
                0int
            } else {
                1
            })) as u32,
        }
    }
}

/// The shade at a corner of a face.
pub open spec fn spec_shade(
    cells: Cells,
    sky: Levels,
    x: int,
    y: int,
    z: int,
    direction: Direction,
    k: int,
) -> Shade {
    let (a, b) = spec_sides(direction, k);
    let c = spec_diagonal(direction, k);
    spec_shade_of(
        at_step(cells, x, y, z, a).spec_opaque(),
        at_step(cells, x, y, z, b).spec_opaque(),
        at_step(cells, x, y, z, c).spec_opaque(),
        light_at_step(sky, x, y, z, direction.spec_offset()),
        light_at_step(sky, x, y, z, a),
        light_at_step(sky, x, y, z, b),
        light_at_step(sky, x, y, z, c),
    )
}

/// A corner of a drawn face: its place in parts of a block from the base of the
/// quad, its place in the texture, and its shade.
#[derive(Clone, Copy, Debug, PartialEq, Eq, Structural)]
pub struct Corner {
    pub dx: i64,
    pub dy: i64,
    pub dz: i64,
    pub u: u32,
    pub v: u32,
    pub shade: Shade,
}

/// A drawn face.
#[derive(Clone, Copy, Debug, PartialEq, Eq)]
pub struct Quad {
    pub x: i64,
    pub y: i64,
    pub z: i64,
    pub direction: Direction,
    pub block: Block,
    pub tile: u32,
    pub texture: FaceTexture,
    pub blend_tiles: [u32; 4],
    pub corners: [Corner; 4],
}

/// Height of the upper corners of a block, in parts.
pub open spec fn top_parts(block: Block) -> int {
    if block == Block::Water {
        WATER_SURFACE_PARTS as int
    } else {
        PARTS as int
    }
}

/// A corner of the face of a block.
pub open spec fn spec_corner(
    cells: Cells,
    sky: Levels,
    x: int,
    y: int,
    z: int,
    direction: Direction,
    block: Block,
    k: int,
) -> Corner {
    let c = direction.spec_corner(k);
    let uv = spec_face_texture(block, direction, x, y, z).spec_local_uv(k);
    Corner {
        dx: (c.0 * PARTS) as i64,
        dy: (c.1 * top_parts(block)) as i64,
        dz: (c.2 * PARTS) as i64,
        u: uv.0,
        v: uv.1,
        shade: spec_shade(cells, sky, x, y, z, direction, k),
    }
}

/// The face of a block in a direction.
#[verifier::opaque]
pub open spec fn spec_quad(
    cells: Cells,
    sky: Levels,
    x: int,
    y: int,
    z: int,
    direction: Direction,
    block: Block,
) -> Quad {
    let texture = spec_face_texture(block, direction, x, y, z);
    Quad {
        x: x as i64,
        y: y as i64,
        z: z as i64,
        direction,
        block,
        tile: tile_number(block, direction.spec_face()),
        texture,
        blend_tiles: spec_blend_tiles(cells, x, y, z, direction, block, texture),
        corners: [
            spec_corner(cells, sky, x, y, z, direction, block, 0),
            spec_corner(cells, sky, x, y, z, direction, block, 1),
            spec_corner(cells, sky, x, y, z, direction, block, 2),
            spec_corner(cells, sky, x, y, z, direction, block, 3),
        ],
    }
}

/// Blocks and light that faces are made of.
pub trait BlockSource: Sized {
    /// The block at each position.
    spec fn cells(&self) -> Cells;

    /// The sky light at each position.
    spec fn sky(&self) -> Levels;

    /// Whether a column may be asked for.
    spec fn covers(&self, x: int, z: int) -> bool;

    fn block(&mut self, x: i64, y: i64, z: i64) -> (r: Block)
        requires
            old(self).covers(x as int, z as int),
        ensures
            r == old(self).cells()(x as int, y as int, z as int),
            final(self).cells() == old(self).cells(),
            final(self).sky() == old(self).sky(),
            forall|a: int, b: int|
                #![trigger old(self).covers(a, b)]
                #![trigger final(self).covers(a, b)]
                old(self).covers(a, b) ==> final(self).covers(a, b),
    ;

    fn light(&mut self, x: i64, y: i64, z: i64) -> (r: u8)
        requires
            old(self).covers(x as int, z as int),
        ensures
            r == old(self).sky()(x as int, y as int, z as int),
            r <= LIGHT_MAX,
            final(self).cells() == old(self).cells(),
            final(self).sky() == old(self).sky(),
            forall|a: int, b: int|
                #![trigger old(self).covers(a, b)]
                #![trigger final(self).covers(a, b)]
                old(self).covers(a, b) ==> final(self).covers(a, b),
    ;
}

/// Whether a source may be asked for a column and the columns around it.
pub open spec fn covers_around<S: BlockSource>(source: &S, x: int, z: int) -> bool {
    forall|a: int, b: int|
        x - 1 <= a <= x + 1 && z - 1 <= b <= z + 1 ==> #[trigger] source.covers(a, b)
}

/// Whether asking has changed nothing that can be asked for.
pub open spec fn unchanged<S: BlockSource>(before: &S, after: &S) -> bool {
    &&& after.cells() == before.cells()
    &&& after.sky() == before.sky()
    &&& forall|a: int, b: int|
        #![trigger before.covers(a, b)]
        #![trigger after.covers(a, b)]
        before.covers(a, b) ==> after.covers(a, b)
}

/// Whether coordinates leave room for a step in each direction.
pub open spec fn has_room(x: int, y: int, z: int) -> bool {
    &&& i64::MIN + 2 < x < i64::MAX - 2
    &&& i64::MIN + 2 < y < i64::MAX - 2
    &&& i64::MIN + 2 < z < i64::MAX - 2
}

/// The tile at one edge of a face.
fn edge_tile<S: BlockSource>(
    source: &mut S,
    position: (i64, i64, i64),
    direction: Direction,
    block: Block,
    to: (i64, i64, i64),
    tiles: &TileTable,
) -> (r: u32)
    requires
        block != Block::Air,
        tiles.wf(),
        has_room(position.0 as int, position.1 as int, position.2 as int),
        covers_around(old(source), position.0 as int, position.2 as int),
        -1 <= to.0 <= 1,
        -1 <= to.1 <= 1,
        -1 <= to.2 <= 1,
        -1 <= to.0 + direction.spec_offset().0 <= 1,
        -1 <= to.2 + direction.spec_offset().2 <= 1,
    ensures
        r == blend_tile(
            old(source).cells(),
            position.0 as int,
            position.1 as int,
            position.2 as int,
            direction,
            block,
            (to.0 as int, to.1 as int, to.2 as int),
        ),
        unchanged(old(source), final(source)),
{
    let own: u32 = tiles.number(block, direction.face());
    if !blendable(block) {
        return own;
    }
    let x: i64 = position.0 + to.0;
    let y: i64 = position.1 + to.1;
    let z: i64 = position.2 + to.2;
    let neighbor = source.block(x, y, z);
    if !blendable(neighbor) {
        return own;
    }
    let o = direction.offset();
    let outer = source.block(x + o.0, y + o.1, z + o.2);
    if !should_draw_face(neighbor, outer) {
        return own;
    }
    tiles.number(neighbor, direction.face())
}

fn reverse(step: (i64, i64, i64)) -> (r: (i64, i64, i64))
    requires
        -1 <= step.0 <= 1,
        -1 <= step.1 <= 1,
        -1 <= step.2 <= 1,
    ensures
        (r.0 as int, r.1 as int, r.2 as int) == back(
            (step.0 as int, step.1 as int, step.2 as int),
        ),
{
    (-step.0, -step.1, -step.2)
}

/// The tiles at the four edges of a face.
fn edge_blend_tiles<S: BlockSource>(
    source: &mut S,
    position: (i64, i64, i64),
    direction: Direction,
    block: Block,
    texture: FaceTexture,
    tiles: &TileTable,
) -> (r: [u32; 4])
    requires
        block != Block::Air,
        tiles.wf(),
        has_room(position.0 as int, position.1 as int, position.2 as int),
        covers_around(old(source), position.0 as int, position.2 as int),
    ensures
        r == spec_blend_tiles(
            old(source).cells(),
            position.0 as int,
            position.1 as int,
            position.2 as int,
            direction,
            block,
            texture,
        ),
        unchanged(old(source), final(source)),
{
    let tangent = direction.tangent();
    let bitangent = direction.bitangent();
    let left: u32 = edge_tile(source, position, direction, block, reverse(tangent), tiles);
    let right: u32 = edge_tile(source, position, direction, block, tangent, tiles);
    let upper: u32 = edge_tile(source, position, direction, block, reverse(bitangent), tiles);
    let lower: u32 = edge_tile(source, position, direction, block, bitangent, tiles);
    [
        if texture.mirror_u { right } else { left },
        if texture.mirror_u { left } else { right },
        if texture.mirror_v { lower } else { upper },
        if texture.mirror_v { upper } else { lower },
    ]
}

fn sign(bit: i64) -> (r: i64)
    ensures
        r == sign_of(bit as int),
{
    if bit == 0 {
        -1
    } else {
        1
    }
}

/// The two cells beside the corner of a face.
fn sides(direction: Direction, k: usize) -> (r: ((i64, i64, i64), (i64, i64, i64)))
    requires
        k < 4,
    ensures
        ((r.0.0 as int, r.0.1 as int, r.0.2 as int), (r.1.0 as int, r.1.1 as int, r.1.2 as int))
            == spec_sides(direction, k as int),
{
    let o = direction.offset();
    let c = direction.corner(k);
    let along_x = (o.0 + sign(c.0), o.1, o.2);
    let along_y = (o.0, o.1 + sign(c.1), o.2);
    let along_z = (o.0, o.1, o.2 + sign(c.2));
    match direction {
        Direction::Up | Direction::Down => (along_x, along_z),
        Direction::North | Direction::South => (along_x, along_y),
        Direction::West | Direction::East => (along_z, along_y),
    }
}

fn opaque_at<S: BlockSource>(
    source: &mut S,
    position: (i64, i64, i64),
    step: (i64, i64, i64),
) -> (r: bool)
    requires
        has_room(position.0 as int, position.1 as int, position.2 as int),
        covers_around(old(source), position.0 as int, position.2 as int),
        -1 <= step.0 <= 1,
        -1 <= step.1 <= 1,
        -1 <= step.2 <= 1,
    ensures
        r == at_step(
            old(source).cells(),
            position.0 as int,
            position.1 as int,
            position.2 as int,
            (step.0 as int, step.1 as int, step.2 as int),
        ).spec_opaque(),
        unchanged(old(source), final(source)),
{
    source.block(position.0 + step.0, position.1 + step.1, position.2 + step.2).is_opaque()
}

fn light_near<S: BlockSource>(
    source: &mut S,
    position: (i64, i64, i64),
    step: (i64, i64, i64),
) -> (r: u32)
    requires
        has_room(position.0 as int, position.1 as int, position.2 as int),
        covers_around(old(source), position.0 as int, position.2 as int),
        -1 <= step.0 <= 1,
        -1 <= step.1 <= 1,
        -1 <= step.2 <= 1,
    ensures
        r == light_at_step(
            old(source).sky(),
            position.0 as int,
            position.1 as int,
            position.2 as int,
            (step.0 as int, step.1 as int, step.2 as int),
        ),
        r <= LIGHT_MAX,
        unchanged(old(source), final(source)),
{
    source.light(position.0 + step.0, position.1 + step.1, position.2 + step.2) as u32
}

/// The shade at a corner of a face: how far the cells around it close it in, and
/// the sky light of the open ones.
pub fn corner_ao_and_sky_light<S: BlockSource>(
    source: &mut S,
    position: (i64, i64, i64),
    direction: Direction,
    k: usize,
) -> (r: Shade)
    requires
        k < 4,
        has_room(position.0 as int, position.1 as int, position.2 as int),
        covers_around(old(source), position.0 as int, position.2 as int),
    ensures
        r == spec_shade(
            old(source).cells(),
            old(source).sky(),
            position.0 as int,
            position.1 as int,
            position.2 as int,
            direction,
            k as int,
        ),
        unchanged(old(source), final(source)),
{
    let o = direction.offset();
    let (a, b) = sides(direction, k);
    proof {
        lemma_steps_are_short(direction, k as int);
    }
    let c = (a.0 + b.0 - o.0, a.1 + b.1 - o.1, a.2 + b.2 - o.2);
    let side_a = opaque_at(source, position, a);
    let side_b = opaque_at(source, position, b);
    let diagonal = opaque_at(source, position, c);
    let mut light: u32 = light_near(source, position, o);
    if side_a && side_b {
        return Shade { occlusion: 3, light, samples: 1 };
    }
    let mut samples: u32 = 1;
    let mut occlusion: u8 = 0;
    if side_a {
        occlusion += 1;
    } else {
        light += light_near(source, position, a);
        samples += 1;
    }
    if side_b {
        occlusion += 1;
    } else {
        light += light_near(source, position, b);
        samples += 1;
    }
    if diagonal {
        occlusion += 1;
    } else {
        light += light_near(source, position, c);
        samples += 1;
    }
    Shade { occlusion, light, samples }
}

fn quad_corner<S: BlockSource>(
    source: &mut S,
    position: (i64, i64, i64),
    direction: Direction,
    block: Block,
    texture: FaceTexture,
    k: usize,
) -> (r: Corner)
    requires
        k < 4,
        has_room(position.0 as int, position.1 as int, position.2 as int),
        covers_around(old(source), position.0 as int, position.2 as int),
        texture == spec_face_texture(
            block,
            direction,
            position.0 as int,
            position.1 as int,
            position.2 as int,
        ),
    ensures
        r == spec_corner(
            old(source).cells(),
            old(source).sky(),
            position.0 as int,
            position.1 as int,
            position.2 as int,
            direction,
            block,
            k as int,
        ),
        unchanged(old(source), final(source)),
{
    let c = direction.corner(k);
    let uv = texture.local_uv(k);
    let top: i64 = if block.is_fluid() { WATER_SURFACE_PARTS } else { PARTS };
    let shade = corner_ao_and_sky_light(source, position, direction, k);
    assert(c.1 == 0 || c.1 == 1);
    let dy: i64 = if c.1 == 0 { 0 } else { top };
    Corner { dx: c.0 * PARTS, dy, dz: c.2 * PARTS, u: uv.0, v: uv.1, shade }
}

/// The face of a block in a direction, with its texture, edges and shade.
pub fn face_quad<S: BlockSource>(
    source: &mut S,
    position: (i64, i64, i64),
    direction: Direction,
    block: Block,
    tiles: &TileTable,
) -> (r: Quad)
    requires
        block != Block::Air,
        tiles.wf(),
        has_room(position.0 as int, position.1 as int, position.2 as int),
        covers_around(old(source), position.0 as int, position.2 as int),
    ensures
        r == spec_quad(
            old(source).cells(),
            old(source).sky(),
            position.0 as int,
            position.1 as int,
            position.2 as int,
            direction,
            block,
        ),
        unchanged(old(source), final(source)),
{
    reveal(spec_quad);
    let texture = face_texture(block, direction, position.0, position.1, position.2);
    let blend_tiles = edge_blend_tiles(source, position, direction, block, texture, tiles);
    let a = quad_corner(source, position, direction, block, texture, 0);
    let b = quad_corner(source, position, direction, block, texture, 1);
    let c = quad_corner(source, position, direction, block, texture, 2);
    let d = quad_corner(source, position, direction, block, texture, 3);
    Quad {
        x: position.0,
        y: position.1,
        z: position.2,
        direction,
        block,
        tile: tiles.number(block, direction.face()),
        texture,
        blend_tiles,
        corners: [a, b, c, d],
    }
}

/// The corners of a face lie in its plane, its texture runs along its edges, and
/// it looks along the remaining axis.
pub proof fn corners_span_the_face(direction: Direction, k: int)
    requires
        0 <= k < 4,
    ensures
        ({
            let o = direction.spec_offset();
            let c = direction.spec_corner(k);
            let t = direction.spec_tangent();
            let b = direction.spec_bitangent();
            let c0 = direction.spec_corner(0);
            let c1 = direction.spec_corner(1);
            let c3 = direction.spec_corner(3);
            &&& 0 <= c.0 <= 1 && 0 <= c.1 <= 1 && 0 <= c.2 <= 1
            &&& o.0 != 0 ==> 2 * c.0 - 1 == o.0
            &&& o.1 != 0 ==> 2 * c.1 - 1 == o.1
            &&& o.2 != 0 ==> 2 * c.2 - 1 == o.2
            &&& t == (c1.0 - c0.0, c1.1 - c0.1, c1.2 - c0.2)
            &&& b == (c0.0 - c3.0, c0.1 - c3.1, c0.2 - c3.2)
            &&& (t.0 != 0) as int + (b.0 != 0) as int + (o.0 != 0) as int == 1
            &&& (t.1 != 0) as int + (b.1 != 0) as int + (o.1 != 0) as int == 1
            &&& (t.2 != 0) as int + (b.2 != 0) as int + (o.2 != 0) as int == 1
        }),
{
}

/// The photo runs on from each block to the next along both texture axes: where one
/// block shows the last part, its neighbour shows the first.
pub proof fn photo_runs_on(block: Block, direction: Direction, x: int, y: int, z: int)
    requires
        !is_complete_face(block, direction.spec_face()),
    ensures
        ({
            let t = direction.spec_tangent();
            let b = direction.spec_bitangent();
            let here = spec_face_texture(block, direction, x, y, z).region@;
            let right = spec_face_texture(block, direction, x + t.0, y + t.1, z + t.2).region@;
            let below = spec_face_texture(block, direction, x + b.0, y + b.1, z + b.2).region@;
            &&& right[0] == (here[0] + 1) % (here[2] as int)
            &&& right[1] == here[1] && right[2] == here[2] && right[3] == here[3]
            &&& below[1] == (here[1] + 1) % (here[3] as int)
            &&& below[0] == here[0] && below[2] == here[2] && below[3] == here[3]
        }),
{
    let t = direction.spec_tangent();
    let b = direction.spec_bitangent();
    let (u, v) = spec_axes(direction, x, y, z);
    let right = spec_axes(direction, x + t.0, y + t.1, z + t.2);
    let below = spec_axes(direction, x + b.0, y + b.1, z + b.2);
    assert(right == (u + 1, v));
    assert(below == (u, v + 1));
    assert((u + 1) % 2 == (u % 2 + 1) % 2);
    assert((v + 1) % 2 == (v % 2 + 1) % 2);
}

/// No face is mirrored, and the sides of grass keep the turf on top.
pub proof fn textures_keep_their_way(block: Block, direction: Direction, x: int, y: int, z: int)
    ensures
        !spec_face_texture(block, direction, x, y, z).mirror_u,
        !spec_face_texture(block, direction, x, y, z).mirror_v,
        block == Block::GrassBlock && direction.spec_face() == Face::Side ==> {
            let region = spec_face_texture(block, direction, x, y, z).region@;
            region[1] == 0 && region[3] == 1
        },
{
}

/// A corner takes light from at least one cell and at most four, and is closed in
/// by at most three.
pub proof fn shades_are_bounded(
    cells: Cells,
    sky: Levels,
    x: int,
    y: int,
    z: int,
    direction: Direction,
    k: int,
)
    requires
        forall|a: int, b: int, c: int| #[trigger] sky(a, b, c) <= LIGHT_MAX,
    ensures
        ({
            let shade = spec_shade(cells, sky, x, y, z, direction, k);
            &&& shade.occlusion <= 3
            &&& 1 <= shade.samples <= 4
            &&& shade.light <= shade.samples * LIGHT_MAX
            &&& shade.samples == 4 <==> shade.occlusion == 0
        }),
{
}

/// A face depends on the cells around its block alone.
pub proof fn faces_depend_on_their_surroundings(
    cells: Cells,
    sky: Levels,
    other_cells: Cells,
    other_sky: Levels,
    x: int,
    y: int,
    z: int,
    direction: Direction,
    block: Block,
)
    requires
        forall|a: int, b: int, c: int|
            x - 1 <= a <= x + 1 && y - 1 <= b <= y + 1 && z - 1 <= c <= z + 1 ==> #[trigger] cells(
                a,
                b,
                c,
            ) == other_cells(a, b, c),
        forall|a: int, b: int, c: int|
            x - 1 <= a <= x + 1 && y - 1 <= b <= y + 1 && z - 1 <= c <= z + 1 ==> #[trigger] sky(
                a,
                b,
                c,
            ) == other_sky(a, b, c),
    ensures
        spec_quad(cells, sky, x, y, z, direction, block) == spec_quad(
            other_cells,
            other_sky,
            x,
            y,
            z,
            direction,
            block,
        ),
{
    reveal(spec_quad);
    lemma_same_edges(cells, other_cells, x, y, z, direction, block);
    lemma_same_shade(cells, sky, other_cells, other_sky, x, y, z, direction, block, 0);
    lemma_same_shade(cells, sky, other_cells, other_sky, x, y, z, direction, block, 1);
    lemma_same_shade(cells, sky, other_cells, other_sky, x, y, z, direction, block, 2);
    lemma_same_shade(cells, sky, other_cells, other_sky, x, y, z, direction, block, 3);
}

/// Around every corner, only cells next to the block count.
proof fn lemma_steps_are_short(direction: Direction, k: int)
    ensures
        ({
            let (a, b) = spec_sides(direction, k);
            let c = spec_diagonal(direction, k);
            let o = direction.spec_offset();
            &&& -1 <= a.0 <= 1 && -1 <= a.1 <= 1 && -1 <= a.2 <= 1
            &&& -1 <= b.0 <= 1 && -1 <= b.1 <= 1 && -1 <= b.2 <= 1
            &&& -1 <= c.0 <= 1 && -1 <= c.1 <= 1 && -1 <= c.2 <= 1
            &&& -1 <= o.0 <= 1 && -1 <= o.1 <= 1 && -1 <= o.2 <= 1
        }),
{
}

proof fn lemma_same_shade(
    cells: Cells,
    sky: Levels,
    other_cells: Cells,
    other_sky: Levels,
    x: int,
    y: int,
    z: int,
    direction: Direction,
    block: Block,
    k: int,
)
    requires
        forall|a: int, b: int, c: int|
            x - 1 <= a <= x + 1 && y - 1 <= b <= y + 1 && z - 1 <= c <= z + 1 ==> #[trigger] cells(
                a,
                b,
                c,
            ) == other_cells(a, b, c),
        forall|a: int, b: int, c: int|
            x - 1 <= a <= x + 1 && y - 1 <= b <= y + 1 && z - 1 <= c <= z + 1 ==> #[trigger] sky(
                a,
                b,
                c,
            ) == other_sky(a, b, c),
    ensures
        spec_corner(cells, sky, x, y, z, direction, block, k) == spec_corner(
            other_cells,
            other_sky,
            x,
            y,
            z,
            direction,
            block,
            k,
        ),
{
    lemma_steps_are_short(direction, k);
    let (a, b) = spec_sides(direction, k);
    let c = spec_diagonal(direction, k);
    let o = direction.spec_offset();
    assert(at_step(cells, x, y, z, a) == at_step(other_cells, x, y, z, a));
    assert(at_step(cells, x, y, z, b) == at_step(other_cells, x, y, z, b));
    assert(at_step(cells, x, y, z, c) == at_step(other_cells, x, y, z, c));
    assert(light_at_step(sky, x, y, z, a) == light_at_step(other_sky, x, y, z, a));
    assert(light_at_step(sky, x, y, z, b) == light_at_step(other_sky, x, y, z, b));
    assert(light_at_step(sky, x, y, z, c) == light_at_step(other_sky, x, y, z, c));
    assert(light_at_step(sky, x, y, z, o) == light_at_step(other_sky, x, y, z, o));
}

proof fn lemma_same_edges(
    cells: Cells,
    others: Cells,
    x: int,
    y: int,
    z: int,
    direction: Direction,
    block: Block,
)
    requires
        forall|a: int, b: int, c: int|
            x - 1 <= a <= x + 1 && y - 1 <= b <= y + 1 && z - 1 <= c <= z + 1 ==> #[trigger] cells(
                a,
                b,
                c,
            ) == others(a, b, c),
    ensures
        ({
            let texture = spec_face_texture(block, direction, x, y, z);
            spec_blend_tiles(cells, x, y, z, direction, block, texture) == spec_blend_tiles(
                others,
                x,
                y,
                z,
                direction,
                block,
                texture,
            )
        }),
{
    let t = direction.spec_tangent();
    let b = direction.spec_bitangent();
    assert(blend_tile(cells, x, y, z, direction, block, back(t)) == blend_tile(
        others,
        x,
        y,
        z,
        direction,
        block,
        back(t),
    ));
    assert(blend_tile(cells, x, y, z, direction, block, t) == blend_tile(
        others,
        x,
        y,
        z,
        direction,
        block,
        t,
    ));
    assert(blend_tile(cells, x, y, z, direction, block, back(b)) == blend_tile(
        others,
        x,
        y,
        z,
        direction,
        block,
        back(b),
    ));
    assert(blend_tile(cells, x, y, z, direction, block, b) == blend_tile(
        others,
        x,
        y,
        z,
        direction,
        block,
        b,
    ));
}

/// A face lies on the side of its block that it looks at, and reaches to the edges of that
/// side: the top of water lies a little lower.
pub proof fn faces_lie_on_their_side(
    cells: Cells,
    sky: Levels,
    x: int,
    y: int,
    z: int,
    direction: Direction,
    block: Block,
    k: int,
)
    requires
        0 <= k < 4,
    ensures
        ({
            let c = spec_corner(cells, sky, x, y, z, direction, block, k);
            let high = if block == Block::Water {
                WATER_SURFACE_PARTS
            } else {
                PARTS
            };
            &&& 0 < WATER_SURFACE_PARTS < PARTS
            &&& c.dx == 0 || c.dx == PARTS
            &&& c.dy == 0 || c.dy == high
            &&& c.dz == 0 || c.dz == PARTS
            &&& direction == Direction::Up ==> c.dy == high
            &&& direction == Direction::Down ==> c.dy == 0
            &&& direction == Direction::North ==> c.dz == 0
            &&& direction == Direction::South ==> c.dz == PARTS
            &&& direction == Direction::West ==> c.dx == 0
            &&& direction == Direction::East ==> c.dx == PARTS
        }),
{
    let c = direction.spec_corner(k);
    let top = top_parts(block);
    assert(c.1 == 0 || c.1 == 1);
    assert(0 * top == 0 && 1 * top == top);
    assert(c.1 * top == if c.1 == 1 {
        top
    } else {
        0
    });
}

/// The corners of a face are four different ones, each next to the one before: going round
/// them, one coordinate changes at a time.
pub proof fn corners_go_round_the_face(direction: Direction, k: int)
    requires
        0 <= k < 4,
    ensures
        ({
            let a = direction.spec_corner(k);
            let b = direction.spec_corner((k + 1) % 4);
            let c = direction.spec_corner((k + 2) % 4);
            &&& (a.0 != b.0) as int + (a.1 != b.1) as int + (a.2 != b.2) as int == 1
            &&& (a.0 != c.0) as int + (a.1 != c.1) as int + (a.2 != c.2) as int == 2
        }),
{
}

/// Sides stand upright: the first two corners of a side are at its foot, the other two
/// above them.
pub proof fn sides_stand_upright(direction: Direction)
    requires
        direction != Direction::Up,
        direction != Direction::Down,
    ensures
        direction.spec_corner(0).1 == 0,
        direction.spec_corner(1).1 == 0,
        direction.spec_corner(2).1 == 1,
        direction.spec_corner(3).1 == 1,
{
}

/// A direction leads one cell on, along its axis, and two different ones lead to different
/// cells; the opposite of each leads back.
pub proof fn directions_lead_one_cell_on(a: Direction, b: Direction)
    ensures
        ({
            let (p, q) = (a.spec_offset(), b.spec_offset());
            &&& apart((0, 0, 0), p) == 1
            &&& -1 <= p.0 <= 1 && -1 <= p.1 <= 1 && -1 <= p.2 <= 1
            &&& p == q ==> a == b
            &&& a.spec_face() == Face::Top <==> p.1 == 1
            &&& a.spec_face() == Face::Bottom <==> p.1 == -1
        }),
        Direction::Up.spec_offset().1 == 1,
        Direction::North.spec_offset().2 == -1,
        Direction::South.spec_offset().2 == 1,
        Direction::West.spec_offset().0 == -1,
        Direction::East.spec_offset().0 == 1,
{
}

/// A texture lies on its face as it is: from the corner where it begins it runs along the
/// tangent and down along the bitangent, and a mirrored one runs the other way.
pub proof fn textures_lie_along_the_face(direction: Direction, texture: FaceTexture, k: int)
    requires
        0 <= k < 4,
    ensures
        ({
            let (u, v) = texture.spec_local_uv(k);
            let none = (0int, 0int, 0int);
            let t = if (u == 1) != texture.mirror_u {
                direction.spec_tangent()
            } else {
                none
            };
            let d = if (v == 1) != texture.mirror_v {
                direction.spec_bitangent()
            } else {
                none
            };
            let from = direction.spec_corner(3);
            &&& u <= 1 && v <= 1
            &&& direction.spec_corner(k) == (
                from.0 + t.0 + d.0,
                from.1 + t.1 + d.1,
                from.2 + t.2 + d.2,
            )
        }),
{
}

/// Glass, furniture and the ends of logs show their whole texture; everything else shows a
/// quarter of it, or half of it on the sides of grass, and blocks with even coordinates
/// show the first part.
pub proof fn photos_are_cut_by_position(
    block: Block,
    direction: Direction,
    x: int,
    y: int,
    z: int,
)
    ensures
        ({
            let texture = spec_face_texture(block, direction, x, y, z);
            let r = texture.region@;
            let side = direction != Direction::Up && direction != Direction::Down;
            let whole = block == Block::Glass || block == Block::Bookshelf || block
                == Block::Beehive || block == Block::Furnace || block == Block::Piston || block
                == Block::OakLog && !side;
            &&& whole ==> r[0] == 0 && r[1] == 0 && r[2] == 1 && r[3] == 1
            &&& !whole ==> r[0] < 2 && r[2] == 2
            &&& !whole && !(block == Block::GrassBlock && side) ==> r[1] < 2 && r[3] == 2
            &&& !whole && block == Block::GrassBlock && side ==> r[1] == 0 && r[3] == 1
            &&& x % 2 == 0 && y % 2 == 0 && z % 2 == 0 ==> r[0] == 0 && r[1] == 0
        }),
{
    assert((-x) % 2 == x % 2 && (-y) % 2 == y % 2 && (-z) % 2 == z % 2);
}

/// A corner of a face is shaded by the cells in front of the face that touch it: two beside
/// the cell in front, and one across the corner from it.
pub proof fn shade_comes_from_cells_at_the_corner(direction: Direction, k: int)
    requires
        0 <= k < 4,
    ensures
        ({
            let o = direction.spec_offset();
            let c = direction.spec_corner(k);
            let (a, b) = spec_sides(direction, k);
            let d = spec_diagonal(direction, k);
            &&& touches(o, c, a) && touches(o, c, b) && touches(o, c, d)
            &&& apart(o, a) == 1 && apart(o, b) == 1 && apart(o, d) == 2
            &&& a != b
        }),
{
}

/// Whether a cell lies in front of a face and touches one of its corners.
pub open spec fn touches(
    front: (int, int, int),
    corner: (int, int, int),
    cell: (int, int, int),
) -> bool {
    &&& front.0 != 0 ==> cell.0 == front.0
    &&& front.1 != 0 ==> cell.1 == front.1
    &&& front.2 != 0 ==> cell.2 == front.2
    &&& corner.0 - 1 <= cell.0 <= corner.0
    &&& corner.1 - 1 <= cell.1 <= corner.1
    &&& corner.2 - 1 <= cell.2 <= corner.2
}

/// Along how many axes two cells differ.
pub open spec fn apart(a: (int, int, int), b: (int, int, int)) -> int {
    (a.0 != b.0) as int + (a.1 != b.1) as int + (a.2 != b.2) as int
}

/// Open corners take the light of all four cells around them. Each cell beside or across
/// that is closed takes its light away and darkens the corner by one, and a corner that is
/// closed from both sides is as dark as can be and has the light of the cell in front
/// alone.
pub proof fn closed_cells_darken_corners(
    across: bool,
    front: u8,
    left: u8,
    right: u8,
    far: u8,
)
    requires
        front <= LIGHT_MAX,
        left <= LIGHT_MAX,
        right <= LIGHT_MAX,
        far <= LIGHT_MAX,
    ensures
        ({
            let open = spec_shade_of(false, false, false, front, left, right, far);
            &&& open.occlusion == 0 && open.samples == 4
            &&& open.light == front + left + right + far
        }),
        ({
            let open = spec_shade_of(false, false, across, front, left, right, far);
            let one = spec_shade_of(true, false, across, front, left, right, far);
            let other = spec_shade_of(false, true, across, front, left, right, far);
            let both = spec_shade_of(true, true, across, front, left, right, far);
            &&& one.occlusion == open.occlusion + 1 && one.samples == open.samples - 1
            &&& one.light == open.light - left
            &&& other.occlusion == open.occlusion + 1 && other.samples == open.samples - 1
            &&& other.light == open.light - right
            &&& both.occlusion == 3 && both.samples == 1 && both.light == front
        }),
        ({
            let open = spec_shade_of(false, false, false, front, left, right, far);
            let closed = spec_shade_of(false, false, true, front, left, right, far);
            &&& closed.occlusion == 1 && closed.samples == 3
            &&& closed.light == open.light - far
        }),
{
}

/// Opaque blocks close corners, and light is taken from where it falls: a corner whose
/// surroundings in front are clear is open, and its light is that of the four cells.
pub proof fn clear_corners_are_bright(
    cells: Cells,
    sky: Levels,
    x: int,
    y: int,
    z: int,
    direction: Direction,
    k: int,
)
    requires
        0 <= k < 4,
        forall|a: int, b: int, c: int| #[trigger] sky(a, b, c) <= LIGHT_MAX,
        ({
            let o = direction.spec_offset();
            let corner = direction.spec_corner(k);
            forall|a: int, b: int, c: int|
                touches(o, corner, (a, b, c)) ==> {
                    let block = #[trigger] cells(x + a, y + b, z + c);
                    block == Block::Air || block == Block::Water || block == Block::Glass || block
                        == Block::OakLeaves
                }
        }),
    ensures
        ({
            let shade = spec_shade(cells, sky, x, y, z, direction, k);
            let o = direction.spec_offset();
            let (a, b) = spec_sides(direction, k);
            let d = spec_diagonal(direction, k);
            &&& shade.occlusion == 0
            &&& shade.samples == 4
            &&& shade.light == sky(x + o.0, y + o.1, z + o.2) + sky(x + a.0, y + a.1, z + a.2)
                + sky(x + b.0, y + b.1, z + b.2) + sky(x + d.0, y + d.1, z + d.2)
        }),
{
    let (a, b) = spec_sides(direction, k);
    let d = spec_diagonal(direction, k);
    shade_comes_from_cells_at_the_corner(direction, k);
    assert(!cells(x + a.0, y + a.1, z + a.2).spec_opaque());
    assert(!cells(x + b.0, y + b.1, z + b.2).spec_opaque());
    assert(!cells(x + d.0, y + d.1, z + d.2).spec_opaque());
}

/// Faces blend into their neighbours along their edges: at each edge of the face of a
/// natural block lies the texture of the block across that edge, if that is natural too and
/// shows its own face there. Made things and plants blend with nothing.
pub proof fn natural_ground_blends(
    cells: Cells,
    x: int,
    y: int,
    z: int,
    direction: Direction,
    block: Block,
    edge: int,
)
    requires
        0 <= edge < 4,
    ensures
        ({
            let c0 = direction.spec_corner(0);
            let c1 = direction.spec_corner(1);
            let c3 = direction.spec_corner(3);
            let to = if edge == 0 {
                (c0.0 - c1.0, c0.1 - c1.1, c0.2 - c1.2)
            } else if edge == 1 {
                (c1.0 - c0.0, c1.1 - c0.1, c1.2 - c0.2)
            } else if edge == 2 {
                (c3.0 - c0.0, c3.1 - c0.1, c3.2 - c0.2)
            } else {
                (c0.0 - c3.0, c0.1 - c3.1, c0.2 - c3.2)
            };
            let o = direction.spec_offset();
            let texture = spec_face_texture(block, direction, x, y, z);
            let tile = spec_blend_tiles(cells, x, y, z, direction, block, texture)@[edge];
            let beside = cells(x + to.0, y + to.1, z + to.2);
            let before = cells(x + to.0 + o.0, y + to.1 + o.1, z + to.2 + o.2);
            let natural = |b: Block|
                b == Block::GrassBlock || b == Block::Dirt || b == Block::Stone || b
                    == Block::Cobblestone || b == Block::Sand || b == Block::Sandstone || b
                    == Block::Gravel || b == Block::Clay || b == Block::Bedrock || b
                    == Block::Obsidian;
            let shown = before == Block::Air || before == Block::Water || before == Block::Glass
                || before == Block::OakLeaves;
            &&& natural(block) && natural(beside) && shown ==> tile == tile_number(
                beside,
                direction.spec_face(),
            )
            &&& !(natural(block) && natural(beside) && shown) ==> tile == tile_number(
                block,
                direction.spec_face(),
            )
        }),
{
    corners_span_the_face(direction, 0);
}

/// A corner is lit by the cells at it that let light through, and darkened by one for each
/// that does not; where both cells beside the one in front are closed, it is as dark as can
/// be and lit by the cell in front alone.
pub proof fn corners_are_lit_by_the_clear_cells_around(
    cells: Cells,
    sky: Levels,
    x: int,
    y: int,
    z: int,
    direction: Direction,
    k: int,
)
    requires
        0 <= k < 4,
        forall|a: int, b: int, c: int| #[trigger] sky(a, b, c) <= LIGHT_MAX,
    ensures
        ({
            let clear = |p: (int, int, int)|
                {
                    let block = cells(x + p.0, y + p.1, z + p.2);
                    block == Block::Air || block == Block::Water || block == Block::Glass || block
                        == Block::OakLeaves
                };
            let light = |p: (int, int, int)| sky(x + p.0, y + p.1, z + p.2) as int;
            let shade = spec_shade(cells, sky, x, y, z, direction, k);
            let o = direction.spec_offset();
            let (a, b) = spec_sides(direction, k);
            let d = spec_diagonal(direction, k);
            let lit = |p: (int, int, int)|
                if clear(p) {
                    light(p)
                } else {
                    0
                };
            let closed = |p: (int, int, int)|
                if clear(p) {
                    0int
                } else {
                    1
                };
            &&& clear(a) || clear(b) ==> shade.light == light(o) + lit(a) + lit(b) + lit(d)
            &&& clear(a) || clear(b) ==> shade.occlusion == closed(a) + closed(b) + closed(d)
            &&& clear(a) || clear(b) ==> shade.samples == 4 - closed(a) - closed(b) - closed(d)
            &&& !clear(a) && !clear(b) ==> shade.light == light(o) && shade.occlusion == 3
                && shade.samples == 1
        }),
{
}

/// A face shows the texture of the side of its block that it is: the top, the bottom or one
/// of the sides; its corners are those of the side, with the texture laid along them and the
/// light that falls there.
pub proof fn faces_show_their_side(
    cells: Cells,
    sky: Levels,
    x: int,
    y: int,
    z: int,
    direction: Direction,
    block: Block,
    k: int,
)
    requires
        0 <= k < 4,
    ensures
        ({
            let quad = spec_quad(cells, sky, x, y, z, direction, block);
            let corner = quad.corners@[k];
            let c = direction.spec_corner(k);
            let uv = quad.texture.spec_local_uv(k);
            &&& quad.tile == tile_number(
                block,
                if direction == Direction::Up {
                    Face::Top
                } else if direction == Direction::Down {
                    Face::Bottom
                } else {
                    Face::Side
                },
            )
            &&& quad.texture == spec_face_texture(block, direction, x, y, z)
            &&& quad.blend_tiles@[k] == spec_blend_tiles(
                cells,
                x,
                y,
                z,
                direction,
                block,
                quad.texture,
            )@[k]
            &&& corner.dx == PARTS * c.0 && corner.dz == PARTS * c.2
            &&& corner.u == uv.0 && corner.v == uv.1
            &&& corner.shade == spec_shade(cells, sky, x, y, z, direction, k)
            &&& corner.dy == spec_corner(cells, sky, x, y, z, direction, block, k).dy
        }),
{
    reveal(spec_quad);
    let c = direction.spec_corner(k);
    assert(0 <= c.0 <= 1 && 0 <= c.2 <= 1);
    assert(k == 0 || k == 1 || k == 2 || k == 3);
}

} // verus!
