//! The block registry: stable ids, properties and texture names.
//!
//! Ids are what saves store; an id that was assigned once is never reused, and
//! `Air` is id 0. A face is the top, the bottom or one of the four sides, which
//! share a texture.

use vstd::prelude::*;

verus! {

/// A block id, as saves store it.
pub type BlockId = u16;

/// Every kind of block, in the order of the ids.
#[derive(Clone, Copy, PartialEq, Eq, Hash, Debug, Structural)]
pub enum Block {
    Air,
    GrassBlock,
    Dirt,
    Stone,
    Cobblestone,
    Sand,
    Sandstone,
    Gravel,
    Clay,
    OakLog,
    OakPlanks,
    OakLeaves,
    Glass,
    Bedrock,
    Obsidian,
    CoalOre,
    IronOre,
    GoldOre,
    DiamondOre,
    Water,
    Bookshelf,
    Beehive,
    Furnace,
    Piston,
    RedstoneOre,
    DeepslateRedstoneOre,
}

/// The number of blocks, air included.
pub const COUNT: usize = 26;

/// The strongest light level.
pub const LIGHT_MAX: u8 = 15;

/// The attenuation of an opaque block: more than any light level survives.
pub const LIGHT_OPAQUE: u8 = 16;

/// All blocks in the order of their ids, so that an id is also an index.
pub const ALL: [Block; COUNT] = [
    Block::Air,
    Block::GrassBlock,
    Block::Dirt,
    Block::Stone,
    Block::Cobblestone,
    Block::Sand,
    Block::Sandstone,
    Block::Gravel,
    Block::Clay,
    Block::OakLog,
    Block::OakPlanks,
    Block::OakLeaves,
    Block::Glass,
    Block::Bedrock,
    Block::Obsidian,
    Block::CoalOre,
    Block::IronOre,
    Block::GoldOre,
    Block::DiamondOre,
    Block::Water,
    Block::Bookshelf,
    Block::Beehive,
    Block::Furnace,
    Block::Piston,
    Block::RedstoneOre,
    Block::DeepslateRedstoneOre,
];

/// The faces that can have a texture of their own.
#[derive(Clone, Copy, PartialEq, Eq, Debug, Structural)]
pub enum Face {
    Top,
    Bottom,
    Side,
}

/// How a block takes part in drawing and culling.
#[derive(Clone, Copy, PartialEq, Eq, Debug, Structural)]
pub enum RenderClass {
    /// Never drawn.
    Hidden,
    /// Hides the faces of its neighbours.
    Opaque,
    /// Drawn with holes; culled only against its own kind.
    Cutout,
    /// Blended; culled only against its own kind.
    Transparent,
    /// A blended fluid; culled only against its own kind.
    Fluid,
}

/// One row of the registry.
#[derive(Clone, Copy, Debug)]
pub struct BlockDef {
    pub id: BlockId,
    /// The registered name.
    pub name: &'static str,
    /// The name that players see.
    pub display: &'static str,
    /// The texture file of the top face.
    pub top: &'static str,
    /// The texture file of the side faces.
    pub side: &'static str,
    /// The texture file of the bottom face.
    pub bottom: &'static str,
    pub render: RenderClass,
    /// Whether the block stops bodies.
    pub solid: bool,
    pub fluid: bool,
    /// Whether the block falls when nothing is below it.
    pub gravity: bool,
    /// Mining hardness in tenths; `None` where the block cannot be mined.
    pub hardness: Option<u32>,
    /// Blast resistance in tenths.
    pub blast: u32,
}

/// How each block takes part in drawing.
pub open spec fn spec_render(block: Block) -> RenderClass {
    match block {
        Block::Air => RenderClass::Hidden,
        Block::OakLeaves => RenderClass::Cutout,
        Block::Glass => RenderClass::Transparent,
        Block::Water => RenderClass::Fluid,
        _ => RenderClass::Opaque,
    }
}

/// A registry row from what is listed per block; the rest follows from the kind.
pub open spec fn spec_row(
    block: Block,
    names: (&'static str, &'static str),
    tiles: (&'static str, &'static str, &'static str),
    hardness: Option<u32>,
    blast: u32,
) -> BlockDef {
    BlockDef {
        id: block.spec_id(),
        name: names.0,
        display: names.1,
        top: tiles.0,
        side: tiles.1,
        bottom: tiles.2,
        render: spec_render(block),
        solid: block.spec_solid(),
        fluid: block == Block::Water,
        gravity: block == Block::Sand || block == Block::Gravel,
        hardness,
        blast,
    }
}

fn row(
    block: Block,
    names: (&'static str, &'static str),
    tiles: (&'static str, &'static str, &'static str),
    hardness: Option<u32>,
    blast: u32,
) -> (r: BlockDef)
    ensures
        r == spec_row(block, names, tiles, hardness, blast),
{
    BlockDef {
        id: block.id(),
        name: names.0,
        display: names.1,
        top: tiles.0,
        side: tiles.1,
        bottom: tiles.2,
        render: match block {
            Block::Air => RenderClass::Hidden,
            Block::OakLeaves => RenderClass::Cutout,
            Block::Glass => RenderClass::Transparent,
            Block::Water => RenderClass::Fluid,
            _ => RenderClass::Opaque,
        },
        solid: block != Block::Air && block != Block::Water,
        fluid: block == Block::Water,
        gravity: block == Block::Sand || block == Block::Gravel,
        hardness,
        blast,
    }
}

impl Block {
    /// The id of the block.
    pub open spec fn spec_id(self) -> BlockId {
        match self {
            Block::Air => 0,
            Block::GrassBlock => 1,
            Block::Dirt => 2,
            Block::Stone => 3,
            Block::Cobblestone => 4,
            Block::Sand => 5,
            Block::Sandstone => 6,
            Block::Gravel => 7,
            Block::Clay => 8,
            Block::OakLog => 9,
            Block::OakPlanks => 10,
            Block::OakLeaves => 11,
            Block::Glass => 12,
            Block::Bedrock => 13,
            Block::Obsidian => 14,
            Block::CoalOre => 15,
            Block::IronOre => 16,
            Block::GoldOre => 17,
            Block::DiamondOre => 18,
            Block::Water => 19,
            Block::Bookshelf => 20,
            Block::Beehive => 21,
            Block::Furnace => 22,
            Block::Piston => 23,
            Block::RedstoneOre => 24,
            Block::DeepslateRedstoneOre => 25,
        }
    }

    /// Whether the block stops bodies: all but air and water do.
    pub open spec fn spec_solid(self) -> bool {
        self != Block::Air && self != Block::Water
    }

    /// Whether the block hides its neighbours' faces and stops light.
    pub open spec fn spec_opaque(self) -> bool {
        spec_render(self) == RenderClass::Opaque
    }

    /// The registry.
    pub open spec fn spec_def(self) -> BlockDef {
        match self {
            Block::Air => spec_row(
                self,
                ("mc:air", "空气"),
                ("", "", ""),
                None,
                0,
            ),
            Block::GrassBlock => spec_row(
                self,
                ("mc:grass_block", "草方块"),
                ("grass_block_top.png", "grass_block_side_overlay.png", "dirt.png"),
                Some(6),
                6,
            ),
            Block::Dirt => spec_row(
                self,
                ("mc:dirt", "泥土"),
                ("dirt.png", "dirt.png", "dirt.png"),
                Some(5),
                5,
            ),
            Block::Stone => spec_row(
                self,
                ("mc:stone", "石头"),
                ("stone.png", "stone.png", "stone.png"),
                Some(15),
                60,
            ),
            Block::Cobblestone => spec_row(
                self,
                ("mc:cobblestone", "圆石"),
                ("cobblestone.png", "cobblestone.png", "cobblestone.png"),
                Some(20),
                60,
            ),
            Block::Sand => spec_row(
                self,
                ("mc:sand", "沙子"),
                ("sand.png", "sand.png", "sand.png"),
                Some(5),
                5,
            ),
            Block::Sandstone => spec_row(
                self,
                ("mc:sandstone", "砂岩"),
                ("sandstone_top.png", "sandstone.png", "sandstone_bottom.png"),
                Some(8),
                8,
            ),
            Block::Gravel => spec_row(
                self,
                ("mc:gravel", "沙砾"),
                ("gravel.png", "gravel.png", "gravel.png"),
                Some(6),
                6,
            ),
            Block::Clay => spec_row(
                self,
                ("mc:clay", "黏土块"),
                ("clay.png", "clay.png", "clay.png"),
                Some(6),
                6,
            ),
            Block::OakLog => spec_row(
                self,
                ("mc:oak_log", "橡木原木"),
                ("oak_log_top.png", "oak_log.png", "oak_log_top.png"),
                Some(20),
                20,
            ),
            Block::OakPlanks => spec_row(
                self,
                ("mc:oak_planks", "橡木板"),
                ("oak_planks.png", "oak_planks.png", "oak_planks.png"),
                Some(20),
                30,
            ),
            Block::OakLeaves => spec_row(
                self,
                ("mc:oak_leaves", "橡树叶"),
                ("oak_leaves.png", "oak_leaves.png", "oak_leaves.png"),
                Some(2),
                2,
            ),
            Block::Glass => spec_row(
                self,
                ("mc:glass", "玻璃"),
                ("glass.png", "glass.png", "glass.png"),
                Some(3),
                3,
            ),
            Block::Bedrock => spec_row(
                self,
                ("mc:bedrock", "基岩"),
                ("bedrock.png", "bedrock.png", "bedrock.png"),
                None,
                36000000,
            ),
            Block::Obsidian => spec_row(
                self,
                ("mc:obsidian", "黑曜石"),
                ("obsidian.png", "obsidian.png", "obsidian.png"),
                Some(500),
                12000,
            ),
            Block::CoalOre => spec_row(
                self,
                ("mc:coal_ore", "煤矿"),
                ("coal_ore.png", "coal_ore.png", "coal_ore.png"),
                Some(30),
                30,
            ),
            Block::IronOre => spec_row(
                self,
                ("mc:iron_ore", "铁矿"),
                ("iron_ore.png", "iron_ore.png", "iron_ore.png"),
                Some(30),
                30,
            ),
            Block::GoldOre => spec_row(
                self,
                ("mc:gold_ore", "金矿"),
                ("gold_ore.png", "gold_ore.png", "gold_ore.png"),
                Some(30),
                30,
            ),
            Block::DiamondOre => spec_row(
                self,
                ("mc:diamond_ore", "钻石矿"),
                ("diamond_ore.png", "diamond_ore.png", "diamond_ore.png"),
                Some(30),
                30,
            ),
            Block::Water => spec_row(
                self,
                ("mc:water", "水"),
                ("water_overlay.png", "water_overlay.png", "water_overlay.png"),
                None,
                1000,
            ),
            Block::Bookshelf => spec_row(
                self,
                ("mc:bookshelf", "书架"),
                ("bookshelf_top.png", "bookshelf.png", "bookshelf_top.png"),
                Some(15),
                15,
            ),
            Block::Beehive => spec_row(
                self,
                ("mc:beehive", "蜂箱"),
                ("beehive_end.png", "beehive_side.png", "beehive_end.png"),
                Some(6),
                6,
            ),
            Block::Furnace => spec_row(
                self,
                ("mc:furnace", "熔炉"),
                ("furnace_top.png", "furnace_side.png", "furnace_top.png"),
                Some(35),
                35,
            ),
            Block::Piston => spec_row(
                self,
                ("mc:piston", "活塞"),
                ("piston_top.png", "piston_side.png", "piston_inner.png"),
                Some(15),
                15,
            ),
            Block::RedstoneOre => spec_row(
                self,
                ("mc:redstone_ore", "红石矿"),
                ("redstone_ore.png", "redstone_ore.png", "redstone_ore.png"),
                Some(30),
                30,
            ),
            Block::DeepslateRedstoneOre => spec_row(
                self,
                ("mc:deepslate_redstone_ore", "深层红石矿"),
                ("redstone_ore.png", "redstone_ore.png", "redstone_ore.png"),
                Some(45),
                30,
            ),
        }
    }

    /// The texture file of a face.
    pub open spec fn spec_tile(self, face: Face) -> &'static str {
        match face {
            Face::Top => self.spec_def().top,
            Face::Bottom => self.spec_def().bottom,
            Face::Side => self.spec_def().side,
        }
    }

    /// The light that one cell of the block takes away.
    pub open spec fn spec_attenuation(self) -> u8 {
        if self.spec_opaque() {
            LIGHT_OPAQUE
        } else if self == Block::Water || self == Block::OakLeaves {
            2
        } else {
            1
        }
    }

    /// The code by which shaders tell materials apart: 0 ordinary, 1 fluid,
    /// 2 leaves, 3 grass, 4 sand.
    pub open spec fn spec_material(self) -> u32 {
        match self {
            Block::Water => 1,
            Block::OakLeaves => 2,
            Block::GrassBlock => 3,
            Block::Sand => 4,
            _ => 0,
        }
    }

    /// The stable id of the block.
    pub fn id(self) -> (r: BlockId)
        ensures
            r == self.spec_id(),
    {
        match self {
            Block::Air => 0,
            Block::GrassBlock => 1,
            Block::Dirt => 2,
            Block::Stone => 3,
            Block::Cobblestone => 4,
            Block::Sand => 5,
            Block::Sandstone => 6,
            Block::Gravel => 7,
            Block::Clay => 8,
            Block::OakLog => 9,
            Block::OakPlanks => 10,
            Block::OakLeaves => 11,
            Block::Glass => 12,
            Block::Bedrock => 13,
            Block::Obsidian => 14,
            Block::CoalOre => 15,
            Block::IronOre => 16,
            Block::GoldOre => 17,
            Block::DiamondOre => 18,
            Block::Water => 19,
            Block::Bookshelf => 20,
            Block::Beehive => 21,
            Block::Furnace => 22,
            Block::Piston => 23,
            Block::RedstoneOre => 24,
            Block::DeepslateRedstoneOre => 25,
        }
    }

    /// The registry row of the block.
    pub fn def(self) -> (r: BlockDef)
        ensures
            r == self.spec_def(),
    {
        match self {
            Block::Air => row(
                self,
                ("mc:air", "空气"),
                ("", "", ""),
                None,
                0,
            ),
            Block::GrassBlock => row(
                self,
                ("mc:grass_block", "草方块"),
                ("grass_block_top.png", "grass_block_side_overlay.png", "dirt.png"),
                Some(6),
                6,
            ),
            Block::Dirt => row(
                self,
                ("mc:dirt", "泥土"),
                ("dirt.png", "dirt.png", "dirt.png"),
                Some(5),
                5,
            ),
            Block::Stone => row(
                self,
                ("mc:stone", "石头"),
                ("stone.png", "stone.png", "stone.png"),
                Some(15),
                60,
            ),
            Block::Cobblestone => row(
                self,
                ("mc:cobblestone", "圆石"),
                ("cobblestone.png", "cobblestone.png", "cobblestone.png"),
                Some(20),
                60,
            ),
            Block::Sand => row(
                self,
                ("mc:sand", "沙子"),
                ("sand.png", "sand.png", "sand.png"),
                Some(5),
                5,
            ),
            Block::Sandstone => row(
                self,
                ("mc:sandstone", "砂岩"),
                ("sandstone_top.png", "sandstone.png", "sandstone_bottom.png"),
                Some(8),
                8,
            ),
            Block::Gravel => row(
                self,
                ("mc:gravel", "沙砾"),
                ("gravel.png", "gravel.png", "gravel.png"),
                Some(6),
                6,
            ),
            Block::Clay => row(
                self,
                ("mc:clay", "黏土块"),
                ("clay.png", "clay.png", "clay.png"),
                Some(6),
                6,
            ),
            Block::OakLog => row(
                self,
                ("mc:oak_log", "橡木原木"),
                ("oak_log_top.png", "oak_log.png", "oak_log_top.png"),
                Some(20),
                20,
            ),
            Block::OakPlanks => row(
                self,
                ("mc:oak_planks", "橡木板"),
                ("oak_planks.png", "oak_planks.png", "oak_planks.png"),
                Some(20),
                30,
            ),
            Block::OakLeaves => row(
                self,
                ("mc:oak_leaves", "橡树叶"),
                ("oak_leaves.png", "oak_leaves.png", "oak_leaves.png"),
                Some(2),
                2,
            ),
            Block::Glass => row(
                self,
                ("mc:glass", "玻璃"),
                ("glass.png", "glass.png", "glass.png"),
                Some(3),
                3,
            ),
            Block::Bedrock => row(
                self,
                ("mc:bedrock", "基岩"),
                ("bedrock.png", "bedrock.png", "bedrock.png"),
                None,
                36000000,
            ),
            Block::Obsidian => row(
                self,
                ("mc:obsidian", "黑曜石"),
                ("obsidian.png", "obsidian.png", "obsidian.png"),
                Some(500),
                12000,
            ),
            Block::CoalOre => row(
                self,
                ("mc:coal_ore", "煤矿"),
                ("coal_ore.png", "coal_ore.png", "coal_ore.png"),
                Some(30),
                30,
            ),
            Block::IronOre => row(
                self,
                ("mc:iron_ore", "铁矿"),
                ("iron_ore.png", "iron_ore.png", "iron_ore.png"),
                Some(30),
                30,
            ),
            Block::GoldOre => row(
                self,
                ("mc:gold_ore", "金矿"),
                ("gold_ore.png", "gold_ore.png", "gold_ore.png"),
                Some(30),
                30,
            ),
            Block::DiamondOre => row(
                self,
                ("mc:diamond_ore", "钻石矿"),
                ("diamond_ore.png", "diamond_ore.png", "diamond_ore.png"),
                Some(30),
                30,
            ),
            Block::Water => row(
                self,
                ("mc:water", "水"),
                ("water_overlay.png", "water_overlay.png", "water_overlay.png"),
                None,
                1000,
            ),
            Block::Bookshelf => row(
                self,
                ("mc:bookshelf", "书架"),
                ("bookshelf_top.png", "bookshelf.png", "bookshelf_top.png"),
                Some(15),
                15,
            ),
            Block::Beehive => row(
                self,
                ("mc:beehive", "蜂箱"),
                ("beehive_end.png", "beehive_side.png", "beehive_end.png"),
                Some(6),
                6,
            ),
            Block::Furnace => row(
                self,
                ("mc:furnace", "熔炉"),
                ("furnace_top.png", "furnace_side.png", "furnace_top.png"),
                Some(35),
                35,
            ),
            Block::Piston => row(
                self,
                ("mc:piston", "活塞"),
                ("piston_top.png", "piston_side.png", "piston_inner.png"),
                Some(15),
                15,
            ),
            Block::RedstoneOre => row(
                self,
                ("mc:redstone_ore", "红石矿"),
                ("redstone_ore.png", "redstone_ore.png", "redstone_ore.png"),
                Some(30),
                30,
            ),
            Block::DeepslateRedstoneOre => row(
                self,
                ("mc:deepslate_redstone_ore", "深层红石矿"),
                ("redstone_ore.png", "redstone_ore.png", "redstone_ore.png"),
                Some(45),
                30,
            ),
        }
    }

    /// The block of an id.
    pub fn from_id(id: BlockId) -> (r: Option<Block>)
        ensures
            r is Some <==> id < COUNT,
            r is Some ==> (r->0).spec_id() == id,
    {
        if (id as usize) < COUNT {
            Some(ALL[id as usize])
        } else {
            None
        }
    }

    /// The block of a registered name.
    pub fn from_name(name: &str) -> (r: Option<Block>)
        ensures
            r is Some ==> (r->0).spec_def().name@ == name@,
            r is None ==> forall|b: Block| (#[trigger] b.spec_def()).name@ != name@,
    {
        let wanted = name.to_owned();
        let mut i: usize = 0;
        while i < COUNT
            invariant
                i <= COUNT,
                wanted@ == name@,
                forall|j: int| 0 <= j < i ==> (#[trigger] ALL@[j]).spec_def().name@ != name@,
            decreases COUNT - i,
        {
            let block = ALL[i];
            if block.def().name.to_owned() == wanted {
                return Some(block);
            }
            i += 1;
        }
        proof {
            assert forall|b: Block| (#[trigger] b.spec_def()).name@ != name@ by {
                assert(ALL@[b.spec_id() as int] == b);
            }
        }
        None
    }

    /// The texture file of a face.
    pub fn tile(self, face: Face) -> (r: &'static str)
        ensures
            r == self.spec_tile(face),
    {
        let def = self.def();
        match face {
            Face::Top => def.top,
            Face::Bottom => def.bottom,
            Face::Side => def.side,
        }
    }

    /// Whether the block hides its neighbours' faces.
    pub fn is_opaque(self) -> (r: bool)
        ensures
            r == self.spec_opaque(),
    {
        self.def().render == RenderClass::Opaque
    }

    /// Whether the block stops bodies.
    pub fn is_solid(self) -> (r: bool)
        ensures
            r == self.spec_solid(),
    {
        self.def().solid
    }

    /// Whether the block is a fluid.
    pub fn is_fluid(self) -> (r: bool)
        ensures
            r == (self == Block::Water),
    {
        self.def().fluid
    }

    /// Whether the block is drawn blended.
    pub fn is_transparent(self) -> (r: bool)
        ensures
            r == (self == Block::Glass || self == Block::Water),
    {
        matches!(self.def().render, RenderClass::Transparent | RenderClass::Fluid)
    }

    /// The code by which shaders tell materials apart: 0 ordinary, 1 fluid,
    /// 2 leaves, 3 grass, 4 sand.
    pub fn render_material(self) -> (r: u32)
        ensures
            r == self.spec_material(),
    {
        if self == Block::Sand {
            return 4;
        }
        if self == Block::GrassBlock {
            return 3;
        }
        match self.def().render {
            RenderClass::Fluid => 1,
            RenderClass::Cutout => 2,
            _ => 0,
        }
    }

    /// Whether the block is part of a generated tree.
    pub fn is_tree(self) -> (r: bool)
        ensures
            r == (self == Block::OakLog || self == Block::OakLeaves),
    {
        matches!(self, Block::OakLog | Block::OakLeaves)
    }

    /// The light that one cell of the block takes away: everything for opaque
    /// blocks, more for water and leaves than for air.
    pub fn light_attenuation(self) -> (r: u8)
        ensures
            r == self.spec_attenuation(),
    {
        if self.is_opaque() {
            return LIGHT_OPAQUE;
        }
        match self {
            Block::Water => 2,
            Block::OakLeaves => 2,
            _ => 1,
        }
    }

    /// The light that the block gives off. No registered block glows.
    pub fn light_emission(self) -> (r: u8)
        ensures
            r == 0,
    {
        0
    }
}

/// Whether the face of `cur` towards `neighbor` is drawn.
pub open spec fn spec_draw_face(cur: Block, neighbor: Block) -> bool {
    cur != Block::Air && cur != neighbor && !neighbor.spec_opaque()
}

/// Whether the face of `cur` towards `neighbor` is drawn: air has no faces, an
/// opaque neighbour hides the face, and so does a neighbour of the same kind.
pub fn should_draw_face(cur: Block, neighbor: Block) -> (r: bool)
    ensures
        r == spec_draw_face(cur, neighbor),
{
    if cur == Block::Air {
        return false;
    }
    if neighbor == Block::Air {
        return true;
    }
    if neighbor.is_opaque() {
        return false;
    }
    if cur == neighbor {
        return false;
    }
    true
}

/// Appends a name unless it is listed already.
pub open spec fn listed(names: Seq<Seq<char>>, name: Seq<char>) -> Seq<Seq<char>> {
    if names.contains(name) {
        names
    } else {
        names.push(name)
    }
}

/// The texture names of the blocks with an id below `n`, each once, in the order
/// in which they first come up: by id, and top, side, bottom within a block.
pub open spec fn textures_below(n: nat) -> Seq<Seq<char>>
    decreases n,
{
    if n == 0 {
        Seq::empty()
    } else {
        let before = textures_below((n - 1) as nat);
        let block = ALL@[n - 1];
        if block == Block::Air {
            before
        } else {
            let def = block.spec_def();
            listed(listed(listed(before, def.top@), def.side@), def.bottom@)
        }
    }
}

/// The characters of each name of a list.
pub open spec fn name_views(names: Seq<&'static str>) -> Seq<Seq<char>> {
    names.map_values(|name: &'static str| name@)
}

/// The place of a name in a list of names.
pub fn position_of(names: &Vec<&'static str>, name: &str) -> (r: Option<usize>)
    ensures
        r is Some <==> name_views(names@).contains(name@),
        r is Some ==> r->0 < names.len() && names@[r->0 as int]@ == name@ && forall|j: int|
            0 <= j < r->0 ==> (#[trigger] names@[j])@ != name@,
{
    let wanted = name.to_owned();
    let mut i: usize = 0;
    while i < names.len()
        invariant
            i <= names.len(),
            wanted@ == name@,
            forall|j: int| 0 <= j < i ==> (#[trigger] names@[j])@ != name@,
        decreases names.len() - i,
    {
        if names[i].to_owned() == wanted {
            assert(name_views(names@)[i as int] == name@);
            return Some(i);
        }
        i += 1;
    }
    None
}

fn list_name(names: &mut Vec<&'static str>, name: &'static str)
    ensures
        name_views(final(names)@) == listed(name_views(old(names)@), name@),
{
    if position_of(names, name).is_none() {
        names.push(name);
        assert(name_views(names@) =~= name_views(old(names)@).push(name@));
    }
}

impl Block {
    /// All texture files, each once. The place of a file in this list is its
    /// tile number in the atlas.
    pub fn unique_textures() -> (r: Vec<&'static str>)
        ensures
            name_views(r@) == textures_below(COUNT as nat),
    {
        let mut out: Vec<&'static str> = Vec::new();
        assert(name_views(out@) =~= textures_below(0));
        let mut i: usize = 0;
        while i < COUNT
            invariant
                i <= COUNT,
                name_views(out@) == textures_below(i as nat),
            decreases COUNT - i,
        {
            let block = ALL[i];
            if block != Block::Air {
                let def = block.def();
                list_name(&mut out, def.top);
                list_name(&mut out, def.side);
                list_name(&mut out, def.bottom);
            }
            i += 1;
        }
        out
    }
}

/// Two blocks with one id are the same block, and `ALL` lists each block at its id.
pub proof fn ids_are_places(a: Block, b: Block)
    ensures
        ALL@[a.spec_id() as int] == a,
        a.spec_id() < COUNT,
        a.spec_id() == b.spec_id() ==> a == b,
{
}

/// Faces are seen through air, water, glass and leaves, and through nothing else: every
/// block but air shows its face towards one of these, unless that is a block like itself.
pub proof fn faces_show_through_what_is_clear(cur: Block, neighbor: Block)
    ensures
        cur != Block::Air ==> spec_draw_face(cur, Block::Air),
        cur != Block::Air && cur != Block::Water ==> spec_draw_face(cur, Block::Water),
        cur != Block::Air && cur != Block::Glass ==> spec_draw_face(cur, Block::Glass),
        cur != Block::Air && cur != Block::OakLeaves ==> spec_draw_face(cur, Block::OakLeaves),
        !spec_draw_face(Block::Air, neighbor),
        !spec_draw_face(cur, cur),
        spec_draw_face(cur, neighbor) ==> neighbor == Block::Air || neighbor == Block::Water
            || neighbor == Block::Glass || neighbor == Block::OakLeaves,
{
}

/// Air and glass take one level of light away, water and leaves two, and no light passes
/// any other block.
pub proof fn light_passes_what_is_clear(block: Block)
    ensures
        (block == Block::Air || block == Block::Glass) <==> block.spec_attenuation() == 1,
        (block == Block::Water || block == Block::OakLeaves) <==> block.spec_attenuation() == 2,
        block != Block::Air && block != Block::Glass && block != Block::Water && block
            != Block::OakLeaves ==> block.spec_attenuation() > LIGHT_MAX,
{
}

/// What hides faces also stops light, and nothing else does.
pub proof fn hidden_faces_are_dark(cur: Block, neighbor: Block)
    requires
        cur != Block::Air,
        cur != neighbor,
    ensures
        spec_draw_face(cur, neighbor) <==> neighbor.spec_attenuation() <= LIGHT_MAX,
{
}

/// What the blocks are like: bodies pass through air and water alone, water alone flows,
/// sand and gravel alone fall, and air, water and bedrock alone withstand every tool.
pub proof fn blocks_behave_as_named(block: Block)
    ensures
        block.spec_def().solid <==> block.spec_solid(),
        !block.spec_solid() <==> block == Block::Air || block == Block::Water,
        block.spec_def().fluid <==> block == Block::Water,
        block.spec_def().gravity <==> block == Block::Sand || block == Block::Gravel,
        block.spec_def().hardness is None <==> block == Block::Air || block == Block::Water
            || block == Block::Bedrock,
        block.spec_def().id == block.spec_id(),
        block.spec_def().render == RenderClass::Hidden <==> block == Block::Air,
        block.spec_def().render == RenderClass::Cutout <==> block == Block::OakLeaves,
        block.spec_def().render == RenderClass::Transparent <==> block == Block::Glass,
        block.spec_def().render == RenderClass::Fluid <==> block == Block::Water,
        block.spec_def().render == RenderClass::Opaque <==> block.spec_opaque(),
{
}

/// Harder blocks take longer to mine: leaves are the softest that can be mined, obsidian is
/// the hardest, stone is softer than what is made of it and than every ore, and whatever
/// can be mined has some hardness.
pub proof fn hardness_ranks_blocks(block: Block)
    requires
        block.spec_def().hardness is Some,
    ensures
        ({
            let hardness = block.spec_def().hardness->0;
            let leaves = Block::OakLeaves.spec_def().hardness->0;
            let stone = Block::Stone.spec_def().hardness->0;
            let obsidian = Block::Obsidian.spec_def().hardness->0;
            &&& 0 < leaves <= hardness <= obsidian
            &&& hardness == leaves ==> block == Block::OakLeaves
            &&& hardness == obsidian ==> block == Block::Obsidian
            &&& block == Block::Cobblestone || block == Block::CoalOre || block == Block::IronOre
                || block == Block::GoldOre || block == Block::DiamondOre || block
                == Block::RedstoneOre || block == Block::DeepslateRedstoneOre || block
                == Block::Furnace || block == Block::OakLog || block == Block::OakPlanks
                ==> stone < hardness
        }),
{
}

/// The codes of materials tell fluids, leaves, grass and sand from each other and from the
/// rest, which has none.
pub proof fn materials_tell_blocks_apart(a: Block, b: Block)
    ensures
        a.spec_material() <= 4,
        a.spec_material() == 0 <==> a != Block::Water && a != Block::OakLeaves && a
            != Block::GrassBlock && a != Block::Sand,
        a.spec_material() == b.spec_material() && a.spec_material() != 0 ==> a == b,
        Block::Water.spec_material() < Block::OakLeaves.spec_material(),
        Block::OakLeaves.spec_material() < Block::GrassBlock.spec_material(),
        Block::GrassBlock.spec_material() < Block::Sand.spec_material(),
{
}

/// Faces of a block differ only where it has a top and a bottom of its own: grass has earth
/// below and sides that show it, logs show their rings at both ends, and so on. All others
/// look alike from every side.
pub proof fn most_blocks_look_alike_from_all_sides(block: Block)
    ensures
        block.spec_tile(Face::Top) == block.spec_def().top,
        block.spec_tile(Face::Side) == block.spec_def().side,
        block.spec_tile(Face::Bottom) == block.spec_def().bottom,
        block.spec_tile(Face::Top) != block.spec_tile(Face::Bottom) ==> block
            == Block::GrassBlock || block == Block::Piston || block == Block::Sandstone,
        Block::GrassBlock.spec_tile(Face::Bottom) == Block::Dirt.spec_tile(Face::Side),
        block.spec_tile(Face::Top) != block.spec_tile(Face::Side) ==> block == Block::GrassBlock
            || block == Block::Sandstone || block == Block::OakLog || block == Block::Bookshelf
            || block == Block::Beehive || block == Block::Furnace || block == Block::Piston,
{
}

/// The length of the registered name of a block, and three of its letters.
spec fn name_mark(block: Block) -> (int, char, char, char) {
    match block {
        Block::Air => (6, 'a', 'i', 'r'),
        Block::GrassBlock => (14, 'g', 'r', 'a'),
        Block::Dirt => (7, 'd', 'i', 'r'),
        Block::Stone => (8, 's', 't', 'o'),
        Block::Cobblestone => (14, 'c', 'o', 'b'),
        Block::Sand => (7, 's', 'a', 'n'),
        Block::Sandstone => (12, 's', 'a', 'n'),
        Block::Gravel => (9, 'g', 'r', 'a'),
        Block::Clay => (7, 'c', 'l', 'a'),
        Block::OakLog => (10, 'o', 'a', 'k'),
        Block::OakPlanks => (13, 'o', 'a', 'p'),
        Block::OakLeaves => (13, 'o', 'a', 'l'),
        Block::Glass => (8, 'g', 'l', 'a'),
        Block::Bedrock => (10, 'b', 'e', 'd'),
        Block::Obsidian => (11, 'o', 'b', 's'),
        Block::CoalOre => (11, 'c', 'o', 'a'),
        Block::IronOre => (11, 'i', 'r', 'o'),
        Block::GoldOre => (11, 'g', 'o', 'l'),
        Block::DiamondOre => (14, 'd', 'i', 'a'),
        Block::Water => (8, 'w', 'a', 't'),
        Block::Bookshelf => (12, 'b', 'o', 'o'),
        Block::Beehive => (10, 'b', 'e', 'e'),
        Block::Furnace => (10, 'f', 'u', 'r'),
        Block::Piston => (9, 'p', 'i', 's'),
        Block::RedstoneOre => (15, 'r', 'e', 'd'),
        Block::DeepslateRedstoneOre => (25, 'd', 'e', 'e'),
    }
}

/// Where the third letter of the mark of a name stands.
spec fn mark_place(block: Block) -> int {
    if block == Block::OakPlanks || block == Block::OakLeaves {
        7
    } else {
        5
    }
}

proof fn lemma_name_mark(block: Block)
    ensures
        ({
            let name = block.spec_def().name@;
            name_mark(block) == (name.len() as int, name[3], name[4], name[mark_place(block)])
        }),
{
    match block {
        Block::Air => {
            reveal_strlit("mc:air");
        },
        Block::GrassBlock => {
            reveal_strlit("mc:grass_block");
        },
        Block::Dirt => {
            reveal_strlit("mc:dirt");
        },
        Block::Stone => {
            reveal_strlit("mc:stone");
        },
        Block::Cobblestone => {
            reveal_strlit("mc:cobblestone");
        },
        Block::Sand => {
            reveal_strlit("mc:sand");
        },
        Block::Sandstone => {
            reveal_strlit("mc:sandstone");
        },
        Block::Gravel => {
            reveal_strlit("mc:gravel");
        },
        Block::Clay => {
            reveal_strlit("mc:clay");
        },
        Block::OakLog => {
            reveal_strlit("mc:oak_log");
        },
        Block::OakPlanks => {
            reveal_strlit("mc:oak_planks");
        },
        Block::OakLeaves => {
            reveal_strlit("mc:oak_leaves");
        },
        Block::Glass => {
            reveal_strlit("mc:glass");
        },
        Block::Bedrock => {
            reveal_strlit("mc:bedrock");
        },
        Block::Obsidian => {
            reveal_strlit("mc:obsidian");
        },
        Block::CoalOre => {
            reveal_strlit("mc:coal_ore");
        },
        Block::IronOre => {
            reveal_strlit("mc:iron_ore");
        },
        Block::GoldOre => {
            reveal_strlit("mc:gold_ore");
        },
        Block::DiamondOre => {
            reveal_strlit("mc:diamond_ore");
        },
        Block::Water => {
            reveal_strlit("mc:water");
        },
        Block::Bookshelf => {
            reveal_strlit("mc:bookshelf");
        },
        Block::Beehive => {
            reveal_strlit("mc:beehive");
        },
        Block::Furnace => {
            reveal_strlit("mc:furnace");
        },
        Block::Piston => {
            reveal_strlit("mc:piston");
        },
        Block::RedstoneOre => {
            reveal_strlit("mc:redstone_ore");
        },
        Block::DeepslateRedstoneOre => {
            reveal_strlit("mc:deepslate_redstone_ore");
        },
    }
}

/// No two blocks share a registered name.
pub proof fn names_are_distinct(a: Block, b: Block)
    requires
        a.spec_def().name@ == b.spec_def().name@,
    ensures
        a == b,
{
    lemma_name_mark(a);
    lemma_name_mark(b);
    let left = name_mark(a);
    let right = name_mark(b);
    assert(left.0 == right.0 && left.1 == right.1 && left.2 == right.2);
    assert(mark_place(a) == mark_place(b) ==> left.3 == right.3);
}

/// No texture is listed twice.
pub proof fn textures_are_distinct(n: nat)
    requires
        n <= COUNT,
    ensures
        textures_below(n).no_duplicates(),
    decreases n,
{
    if n > 0 {
        textures_are_distinct((n - 1) as nat);
    }
}

/// The texture of every face of every block but air is listed.
pub proof fn textures_cover_faces(block: Block, face: Face)
    requires
        block != Block::Air,
    ensures
        textures_below(COUNT as nat).contains(block.spec_tile(face)@),
{
    let k = (block.spec_id() + 1) as nat;
    let before = textures_below((k - 1) as nat);
    let def = block.spec_def();
    let one = listed(before, def.top@);
    let two = listed(one, def.side@);
    lemma_listed_has(before, def.top@);
    lemma_listed_has(one, def.side@);
    lemma_listed_has(two, def.bottom@);
    lemma_listed_keeps(one, def.side@, def.top@);
    lemma_listed_keeps(two, def.bottom@, def.top@);
    lemma_listed_keeps(two, def.bottom@, def.side@);
    assert(ALL@[k - 1] == block);
    assert(textures_below(k).contains(block.spec_tile(face)@));
    lemma_textures_grow(k, COUNT as nat, block.spec_tile(face)@);
}

proof fn lemma_listed_has(names: Seq<Seq<char>>, name: Seq<char>)
    ensures
        listed(names, name).contains(name),
{
    if !names.contains(name) {
        assert(names.push(name)[names.len() as int] == name);
    }
}

proof fn lemma_listed_keeps(names: Seq<Seq<char>>, name: Seq<char>, kept: Seq<char>)
    requires
        names.contains(kept),
    ensures
        listed(names, name).contains(kept),
{
    let i = choose|i: int| 0 <= i < names.len() && names[i] == kept;
    assert(listed(names, name)[i] == kept);
}

proof fn lemma_textures_grow(n: nat, m: nat, name: Seq<char>)
    requires
        n <= m,
        textures_below(n).contains(name),
    ensures
        textures_below(m).contains(name),
    decreases m,
{
    if n < m {
        lemma_textures_grow(n, (m - 1) as nat, name);
        let before = textures_below((m - 1) as nat);
        let def = ALL@[m - 1].spec_def();
        let one = listed(before, def.top@);
        let two = listed(one, def.side@);
        lemma_listed_keeps(before, def.top@, name);
        lemma_listed_keeps(one, def.side@, name);
        lemma_listed_keeps(two, def.bottom@, name);
    }
}

/// The length of the name of the texture on the sides of a block, and two of its letters.
spec fn side_mark(block: Block) -> (int, char, char) {
    match block {
        Block::Air => (0, ' ', ' '),
        Block::GrassBlock => (28, 'g', 's'),
        Block::Dirt => (8, 'd', '.'),
        Block::Stone => (9, 's', 'e'),
        Block::Cobblestone => (15, 'c', 'l'),
        Block::Sand => (8, 's', '.'),
        Block::Sandstone => (13, 's', 's'),
        Block::Gravel => (10, 'g', 'e'),
        Block::Clay => (8, 'c', '.'),
        Block::OakLog => (11, 'o', 'l'),
        Block::OakPlanks => (14, 'o', 'p'),
        Block::OakLeaves => (14, 'o', 'l'),
        Block::Glass => (9, 'g', 's'),
        Block::Bedrock => (11, 'b', 'o'),
        Block::Obsidian => (12, 'o', 'd'),
        Block::CoalOre => (12, 'c', '_'),
        Block::IronOre => (12, 'i', '_'),
        Block::GoldOre => (12, 'g', '_'),
        Block::DiamondOre => (15, 'd', 'o'),
        Block::Water => (17, 'w', 'r'),
        Block::Bookshelf => (13, 'b', 's'),
        Block::Beehive => (16, 'b', 'i'),
        Block::Furnace => (16, 'f', 'a'),
        Block::Piston => (15, 'p', 'o'),
        Block::RedstoneOre => (16, 'r', 't'),
        Block::DeepslateRedstoneOre => (16, 'r', 't'),
    }
}

proof fn lemma_side_mark(block: Block)
    requires
        block != Block::Air,
    ensures
        ({
            let name = block.spec_def().side@;
            side_mark(block) == (name.len() as int, name[0], name[4])
        }),
{
    match block {
        Block::Air => {},
        Block::GrassBlock => {
            reveal_strlit("grass_block_side_overlay.png");
        },
        Block::Dirt => {
            reveal_strlit("dirt.png");
        },
        Block::Stone => {
            reveal_strlit("stone.png");
        },
        Block::Cobblestone => {
            reveal_strlit("cobblestone.png");
        },
        Block::Sand => {
            reveal_strlit("sand.png");
        },
        Block::Sandstone => {
            reveal_strlit("sandstone.png");
        },
        Block::Gravel => {
            reveal_strlit("gravel.png");
        },
        Block::Clay => {
            reveal_strlit("clay.png");
        },
        Block::OakLog => {
            reveal_strlit("oak_log.png");
        },
        Block::OakPlanks => {
            reveal_strlit("oak_planks.png");
        },
        Block::OakLeaves => {
            reveal_strlit("oak_leaves.png");
        },
        Block::Glass => {
            reveal_strlit("glass.png");
        },
        Block::Bedrock => {
            reveal_strlit("bedrock.png");
        },
        Block::Obsidian => {
            reveal_strlit("obsidian.png");
        },
        Block::CoalOre => {
            reveal_strlit("coal_ore.png");
        },
        Block::IronOre => {
            reveal_strlit("iron_ore.png");
        },
        Block::GoldOre => {
            reveal_strlit("gold_ore.png");
        },
        Block::DiamondOre => {
            reveal_strlit("diamond_ore.png");
        },
        Block::Water => {
            reveal_strlit("water_overlay.png");
        },
        Block::Bookshelf => {
            reveal_strlit("bookshelf.png");
        },
        Block::Beehive => {
            reveal_strlit("beehive_side.png");
        },
        Block::Furnace => {
            reveal_strlit("furnace_side.png");
        },
        Block::Piston => {
            reveal_strlit("piston_side.png");
        },
        Block::RedstoneOre => {
            reveal_strlit("redstone_ore.png");
        },
        Block::DeepslateRedstoneOre => {
            reveal_strlit("redstone_ore.png");
        },
    }
}

/// From the side no two blocks look alike, but for the two ores of redstone.
pub proof fn sides_tell_blocks_apart(a: Block, b: Block)
    requires
        a != Block::Air,
        b != Block::Air,
        a.spec_tile(Face::Side)@ == b.spec_tile(Face::Side)@,
    ensures
        a == b || (a == Block::RedstoneOre || a == Block::DeepslateRedstoneOre) && (b
            == Block::RedstoneOre || b == Block::DeepslateRedstoneOre),
{
    lemma_side_mark(a);
    lemma_side_mark(b);
    assert(side_mark(a) == side_mark(b));
}

} // verus!
