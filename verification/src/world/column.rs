//! Terrain columns: from a surface height to the blocks of one column.
//!
//! From the bottom up: bedrock, stone with ores, three layers of padding, the
//! surface, and water up to sea level where the surface lies below it. Beaches
//! and shallow sea have sand with sandstone under it, deep sea has gravel with
//! lenses of clay.

use crate::double::{one, Double};
use crate::world::block::Block;
use crate::world::hash::{hash53, spec_hash53};
use vstd::arithmetic::power2::{lemma2_to64, lemma_pow2_adds, pow2};
use vstd::prelude::*;

verus! {

/// The lowest layer.
pub const Y_MIN: i64 = 0;

/// The highest layer.
pub const Y_MAX: i64 = 127;

/// The layer of the water's surface.
pub const SEA_Y: i64 = 60;

/// Sea level, 60.5, as the bits of a double.
pub const SEA_LEVEL_BITS: u64 = 0x404e_4000_0000_0000;

/// The upper end of beaches, 62.5, as the bits of a double.
pub const BEACH_TOP_BITS: u64 = 0x404f_4000_0000_0000;

/// The lower end of shallow sea, 56.5, as the bits of a double.
pub const SHALLOW_BOTTOM_BITS: u64 = 0x404c_4000_0000_0000;

/// The bits of the three heights are those of 60.5, 62.5 and 56.5.
pub proof fn shore_heights_in_halves()
    ensures
        2 * (Double { bits: SEA_LEVEL_BITS }).units() == 121 * one(),
        2 * (Double { bits: BEACH_TOP_BITS }).units() == 125 * one(),
        2 * (Double { bits: SHALLOW_BOTTOM_BITS }).units() == 113 * one(),
        !(Double { bits: SEA_LEVEL_BITS }).spec_nan(),
        !(Double { bits: BEACH_TOP_BITS }).spec_nan(),
        !(Double { bits: SHALLOW_BOTTOM_BITS }).spec_nan(),
{
    lemma2_to64();
    lemma_pow2_adds(1027, 47);
    let p = pow2(1027) as int;
    assert(pow2(47) == 0x8000_0000_0000) by {
        vstd::arithmetic::power2::lemma2_to64_rest();
    }
    assert(2 * (0x1e_4000_0000_0000 * p) == 121 * (p * 0x8000_0000_0000)) by (nonlinear_arith);
    assert(2 * (0x1f_4000_0000_0000 * p) == 125 * (p * 0x8000_0000_0000)) by (nonlinear_arith);
    assert(2 * (0x1c_4000_0000_0000 * p) == 113 * (p * 0x8000_0000_0000)) by (nonlinear_arith);
}

/// Whether a height lies above sea level.
pub open spec fn is_land(h: Double) -> bool {
    (Double { bits: SEA_LEVEL_BITS }).spec_less(h)
}

/// Whether a height is land that the sea touches.
pub open spec fn is_beach(h: Double) -> bool {
    is_land(h) && h.spec_at_most(Double { bits: BEACH_TOP_BITS })
}

/// Whether a height is sea floor close to the surface.
pub open spec fn is_shallow(h: Double) -> bool {
    !is_land(h) && (Double { bits: SHALLOW_BOTTOM_BITS }).spec_at_most(h)
}

/// The layer of the surface for a height.
pub open spec fn surface_y(h: Double) -> int {
    let y = h.spec_floor();
    if y < Y_MIN {
        Y_MIN as int
    } else if y > Y_MAX {
        Y_MAX as int
    } else {
        y
    }
}

/// The highest layer that a column holds: its surface or its water's.
pub open spec fn column_top(h: Double) -> int {
    if surface_y(h) > SEA_Y {
        surface_y(h)
    } else {
        SEA_Y as int
    }
}

/// The seed of the clay lenses.
pub open spec fn clay_seed(seed: u64) -> u64 {
    seed ^ 0xC1A9
}

/// The surface block of a column. A position of the deep sea has clay with a
/// chance of 0.08.
pub open spec fn surface_block(seed: u64, x: i64, z: i64, h: Double) -> Block {
    if is_land(h) && !is_beach(h) {
        Block::GrassBlock
    } else if is_beach(h) || is_shallow(h) {
        Block::Sand
    } else if spec_hash53(x, 0, z, clay_seed(seed)) < 720_575_940_379_280 {
        Block::Clay
    } else {
        Block::Gravel
    }
}

/// What lies in the stone at a position: the rarer ores only deep down. The
/// bounds are chances in units of 2^-53.
pub open spec fn stone_at(seed: u64, x: i64, y: i64, z: i64) -> Block {
    let r = spec_hash53(x, y, z, seed);
    if y <= 16 {
        ore_band(r, 72_057_594_037_928, 117_093_590_311_633, 252_201_579_132_748, 450_359_962_737_050)
    } else if y <= 32 {
        ore_band(r, 0, 54_043_195_528_446, 180_143_985_094_820, 405_323_966_463_345)
    } else if y <= 64 {
        ore_band(r, 0, 0, 108_086_391_056_892, 315_251_973_915_935)
    } else {
        ore_band(r, 0, 0, 0, 180_143_985_094_820)
    }
}

/// The ore of a roll: each bound is where the chances of one ore end.
pub open spec fn ore_band(r: u64, diamond: u64, gold: u64, iron: u64, coal: u64) -> Block {
    if r < diamond {
        Block::DiamondOre
    } else if r < gold {
        Block::GoldOre
    } else if r < iron {
        Block::IronOre
    } else if r < coal {
        Block::CoalOre
    } else {
        Block::Stone
    }
}

/// The block of a terrain column at any layer.
pub open spec fn terrain_at(seed: u64, x: i64, y: int, z: i64, h: Double) -> Block {
    let top = surface_y(h);
    let surface = surface_block(seed, x, z, h);
    if y < Y_MIN || y > column_top(h) {
        Block::Air
    } else if y == Y_MIN {
        Block::Bedrock
    } else if y > top {
        Block::Water
    } else if y == top {
        surface
    } else if y >= top - 3 {
        match surface {
            Block::GrassBlock => Block::Dirt,
            Block::Sand => Block::Sand,
            _ => Block::Gravel,
        }
    } else if y >= top - 5 && surface == Block::Sand {
        Block::Sandstone
    } else {
        stone_at(seed, x, y as i64, z)
    }
}

/// The blocks of one column, from the lowest layer up.
pub struct Column {
    pub x: i64,
    pub z: i64,
    pub blocks: Vec<Block>,
}

impl Clone for Column {
    fn clone(&self) -> (r: Self)
        ensures
            r.x == self.x,
            r.z == self.z,
            r.blocks@ == self.blocks@,
    {
        Column { x: self.x, z: self.z, blocks: self.blocks.clone() }
    }
}

/// The generator of terrain columns.
pub struct ColumnGen {
    pub seed: u64,
}

fn ore_of(r: u64, diamond: u64, gold: u64, iron: u64, coal: u64) -> (b: Block)
    ensures
        b == ore_band(r, diamond, gold, iron, coal),
{
    if r < diamond {
        Block::DiamondOre
    } else if r < gold {
        Block::GoldOre
    } else if r < iron {
        Block::IronOre
    } else if r < coal {
        Block::CoalOre
    } else {
        Block::Stone
    }
}

impl ColumnGen {
    /// A generator for a seed.
    pub fn new(seed: u64) -> (r: ColumnGen)
        ensures
            r.seed == seed,
    {
        ColumnGen { seed }
    }

    /// The column at a position whose surface has the height `h`. The same
    /// arguments always give the same column.
    pub fn generate(&self, x: i64, z: i64, h: Double) -> (r: Column)
        ensures
            r.x == x,
            r.z == z,
            r.blocks.len() == column_top(h) + 1,
            forall|y: int| #[trigger] r.block(y) == terrain_at(self.seed, x, y, z, h),
    {
        let level: i64 = h.floor();
        let top: i64 = if level < Y_MIN {
            Y_MIN
        } else if level > Y_MAX {
            Y_MAX
        } else {
            level
        };
        let stored_top: i64 = if top > SEA_Y { top } else { SEA_Y };
        let land = (Double { bits: SEA_LEVEL_BITS }).less(h);
        let beach = land && h.at_most(Double { bits: BEACH_TOP_BITS });
        let shallow = !land && (Double { bits: SHALLOW_BOTTOM_BITS }).at_most(h);
        let surface = if land && !beach {
            Block::GrassBlock
        } else if beach || shallow {
            Block::Sand
        } else if hash53(x, 0, z, self.seed ^ 0xC1A9) < 720_575_940_379_280 {
            Block::Clay
        } else {
            Block::Gravel
        };
        let mut blocks: Vec<Block> = Vec::new();
        let mut y: i64 = Y_MIN;
        while y <= stored_top
            invariant
                0 <= y <= stored_top + 1,
                top == surface_y(h),
                stored_top == column_top(h),
                stored_top <= Y_MAX,
                surface == surface_block(self.seed, x, z, h),
                blocks.len() == y,
                forall|k: int|
                    0 <= k < y ==> #[trigger] blocks@[k] == terrain_at(self.seed, x, k, z, h),
            decreases stored_top + 1 - y,
        {
            let block = if y == Y_MIN {
                Block::Bedrock
            } else if y > top {
                Block::Water
            } else if y == top {
                surface
            } else if y >= top - 3 {
                match surface {
                    Block::GrassBlock => Block::Dirt,
                    Block::Sand => Block::Sand,
                    _ => Block::Gravel,
                }
            } else if y >= top - 5 && surface == Block::Sand {
                Block::Sandstone
            } else {
                self.stone_or_ore(x, y, z)
            };
            blocks.push(block);
            y += 1;
        }
        Column { x, z, blocks }
    }

    /// What lies in the stone at a position.
    fn stone_or_ore(&self, x: i64, y: i64, z: i64) -> (r: Block)
        ensures
            r == stone_at(self.seed, x, y, z),
    {
        let r: u64 = hash53(x, y, z, self.seed);
        if y <= 16 {
            ore_of(
                r,
                72_057_594_037_928,
                117_093_590_311_633,
                252_201_579_132_748,
                450_359_962_737_050,
            )
        } else if y <= 32 {
            ore_of(r, 0, 54_043_195_528_446, 180_143_985_094_820, 405_323_966_463_345)
        } else if y <= 64 {
            ore_of(r, 0, 0, 108_086_391_056_892, 315_251_973_915_935)
        } else {
            ore_of(r, 0, 0, 0, 180_143_985_094_820)
        }
    }
}

impl Column {
    /// The block at a layer; air outside the stored layers.
    pub open spec fn block(&self, y: int) -> Block {
        if Y_MIN <= y < Y_MIN + self.blocks@.len() {
            self.blocks@[y - Y_MIN]
        } else {
            Block::Air
        }
    }

    /// Whether a column has its highest solid block at `y`: zero where it has none.
    pub open spec fn solid_top_is(&self, y: int) -> bool {
        &&& forall|k: int| k > y ==> !(#[trigger] self.block(k)).spec_solid()
        &&& self.block(y).spec_solid() || (y == Y_MIN && !self.block(Y_MIN as int).spec_solid())
        &&& y >= Y_MIN
    }

    /// The block at a layer; air outside the stored layers.
    pub fn get(&self, y: i64) -> (r: Block)
        ensures
            r == self.block(y as int),
    {
        if y < Y_MIN || (y as u64) >= self.blocks.len() as u64 {
            return Block::Air;
        }
        self.blocks[y as usize]
    }

    /// The highest solid layer. Fluids and air are no ground.
    pub fn top_solid(&self) -> (r: i64)
        requires
            self.blocks.len() <= i64::MAX,
        ensures
            self.solid_top_is(r as int),
    {
        let mut y: usize = self.blocks.len();
        while y > 0
            invariant
                y <= self.blocks.len() <= i64::MAX,
                forall|k: int| k >= y ==> !(#[trigger] self.block(k)).spec_solid(),
            decreases y,
        {
            y -= 1;
            if self.blocks[y].is_solid() {
                assert(self.block(y as int).spec_solid());
                return y as i64;
            }
        }
        Y_MIN
    }
}

/// Whether a block is one of the ores that columns hold.
pub open spec fn is_column_ore(block: Block) -> bool {
    block == Block::CoalOre || block == Block::IronOre || block == Block::GoldOre || block
        == Block::DiamondOre
}

/// From the bottom to the surface a column is solid throughout.
pub proof fn ground_has_no_holes(seed: u64, x: i64, y: int, z: i64, h: Double)
    requires
        Y_MIN <= y <= surface_y(h),
    ensures
        terrain_at(seed, x, y, z, h).spec_solid(),
{
}

/// Water lies between the surface and sea level, and nowhere else; what is
/// above both is air.
pub proof fn water_fills_up_to_sea_level(seed: u64, x: i64, y: int, z: i64, h: Double)
    ensures
        terrain_at(seed, x, y, z, h) == Block::Water <==> surface_y(h) < y <= SEA_Y,
        y > surface_y(h) && y > SEA_Y ==> terrain_at(seed, x, y, z, h) == Block::Air,
{
}

/// Ores replace stone only: never the surface, the three layers under it, or the
/// sandstone under sand.
pub proof fn ores_lie_in_stone(seed: u64, x: i64, y: int, z: i64, h: Double)
    requires
        is_column_ore(terrain_at(seed, x, y, z, h)),
    ensures
        Y_MIN < y < surface_y(h) - 3,
        surface_block(seed, x, z, h) == Block::Sand ==> y < surface_y(h) - 5,
{
}

/// Columns are layered: bedrock at the bottom and nowhere else, stone and ores up to a few
/// layers below the surface, then earth under grass, sandstone and sand under sand, or
/// gravel under the deep sea. Grass grows where the ground rises above 62.5, sand lies from
/// there down to 56.5, and what is deeper is gravel, or clay in eight of a hundred columns.
pub proof fn columns_are_layered(seed: u64, x: i64, y: int, z: i64, h: Double)
    requires
        !h.spec_nan(),
    ensures
        ({
            let block = terrain_at(seed, x, y, z, h);
            let floor = h.spec_floor();
            let top = if floor < 0 {
                0
            } else if floor > 127 {
                127
            } else {
                floor
            };
            let twice = 2 * h.units();
            let grassy = twice > 125 * one();
            let sandy = 113 * one() <= twice <= 125 * one();
            let clay = spec_hash53(x, 0, z, seed ^ 0xC1A9) * 100 < 8 * 0x20_0000_0000_0000;
            &&& block == Block::Bedrock <==> y == 0
            &&& y < 0 ==> block == Block::Air
            &&& y > top && y > 60 ==> block == Block::Air
            &&& top < y <= 60 && y > 0 ==> block == Block::Water
            &&& y == top && y > 0 && grassy ==> block == Block::GrassBlock
            &&& y == top && y > 0 && sandy ==> block == Block::Sand
            &&& y == top && y > 0 && !grassy && !sandy ==> block == if clay {
                Block::Clay
            } else {
                Block::Gravel
            }
            &&& top - 3 <= y < top && y > 0 && grassy ==> block == Block::Dirt
            &&& top - 3 <= y < top && y > 0 && sandy ==> block == Block::Sand
            &&& top - 3 <= y < top && y > 0 && !grassy && !sandy ==> block == Block::Gravel
            &&& top - 5 <= y < top - 3 && y > 0 && sandy ==> block == Block::Sandstone
            &&& 0 < y < top - 3 && !(sandy && y >= top - 5) ==> block == Block::Stone || block
                == Block::CoalOre || block == Block::IronOre || block == Block::GoldOre || block
                == Block::DiamondOre
        }),
{
    shore_heights_in_halves();
}

/// Ores have their depths: of a thousand blocks of stone on the lowest layers eight hold
/// diamonds, five gold, fifteen iron and twenty-two coal. There are no diamonds above layer
/// 16, no gold above 32 and no iron above 64, and the rest gets rarer on the way up.
pub proof fn ores_have_their_depths(seed: u64, x: i64, y: i64, z: i64)
    ensures
        ({
            let roll = spec_hash53(x, y, z, seed) * 1000;
            let all: int = 0x20_0000_0000_0000;
            let block = stone_at(seed, x, y, z);
            let (diamond, gold, iron, coal): (int, int, int, int) = if y <= 16 {
                (8, 13, 28, 50)
            } else if y <= 32 {
                (0, 6, 20, 45)
            } else if y <= 64 {
                (0, 0, 12, 35)
            } else {
                (0, 0, 0, 20)
            };
            &&& block == Block::DiamondOre <==> roll < diamond * all
            &&& block == Block::GoldOre <==> diamond * all <= roll < gold * all
            &&& block == Block::IronOre <==> gold * all <= roll < iron * all
            &&& block == Block::CoalOre <==> iron * all <= roll < coal * all
            &&& block == Block::Stone <==> roll >= coal * all
        }),
{
}

} // verus!
