//! Oaks on grass: where they stand and which blocks they are made of.
//!
//! Trunks are 4 to 7 blocks high, crowns 3 or 4 layers, with a radius of 1 or 2
//! along each axis and gaps at the rim; tall trees have a root beside the trunk.
//! Every block stays within two columns of the trunk. Trunks stand at least three
//! columns apart, and whether a tree stands somewhere depends on the positions
//! within two columns alone.

use crate::double::{one, Double};
use crate::world::block::Block;
use crate::world::column::{shore_heights_in_halves, BEACH_TOP_BITS};
use crate::world::hash::{hash53, hash64, spec_hash53, spec_hash64};
use crate::world::heights::HeightTable;
use vstd::arithmetic::power2::{lemma2_to64, lemma2_to64_rest, lemma_pow2_adds, pow2};
use vstd::prelude::*;

verus! {

/// The upper end of the heights at which trees grow, 70.5, as the bits of a double.
pub const GRASS_TOP_BITS: u64 = 0x4051_a000_0000_0000;

/// How far a tree reaches from its trunk, and how far trunks look for rivals.
pub const REACH: i64 = 2;

/// The usual chance of a position to try for a tree, 0.04, as the bits of a double.
pub const DENSITY_BITS: u64 = 0x3fa4_7ae1_47ae_147b;

/// One tree.
#[derive(Clone, Copy, PartialEq, Eq, Debug, Structural)]
pub struct Tree {
    pub x: i64,
    pub z: i64,
    /// The layer of the grass under the trunk.
    pub ground: i64,
    /// The height of the trunk.
    pub height: i64,
}

/// A block of a tree, with its position.
pub type Placed = (i64, i64, i64, Block);

impl Tree {
    /// Whether all positions of the tree are within `i64`.
    pub open spec fn fits(self) -> bool {
        &&& i64::MIN + REACH <= self.x <= i64::MAX - REACH
        &&& i64::MIN + REACH <= self.z <= i64::MAX - REACH
        &&& self.ground < i64::MAX
        &&& i64::MIN + 2 <= self.ground + self.height < i64::MAX
    }

    /// The hash that the shape is drawn from.
    pub open spec fn shape(self) -> u64 {
        spec_hash64(self.x, self.height, self.z, 0x715e_ed0a)
    }

    /// The radius of the crown along x.
    pub open spec fn radius_x(self) -> int {
        if self.shape() & 3 == 0 {
            1
        } else {
            2
        }
    }

    /// The radius of the crown along z.
    pub open spec fn radius_z(self) -> int {
        if (self.shape() >> 2) & 3 == 0 {
            1
        } else {
            2
        }
    }

    /// The lowest layer of the crown, counted from the top of the trunk.
    pub open spec fn crown_bottom(self) -> int {
        if self.height >= 6 {
            -2
        } else {
            -1
        }
    }

    /// The chance of a gap at the rim, in units of 2^-53: 0.10, 0.15, 0.20 or 0.25.
    pub open spec fn gap_chance(self) -> u64 {
        let n = (self.shape() >> 4) & 3;
        if n == 0 {
            900_719_925_474_100
        } else if n == 1 {
            1_351_079_888_211_149
        } else if n == 2 {
            1_801_439_850_948_199
        } else {
            2_251_799_813_685_248
        }
    }

    /// The side of the trunk on which a tall tree has its root.
    pub open spec fn root_offset(self) -> (int, int) {
        let n = (self.shape() >> 6) & 3;
        if n == 0 {
            (1, 0)
        } else if n == 1 {
            (-1, 0)
        } else if n == 2 {
            (0, 1)
        } else {
            (0, -1)
        }
    }

    /// The height of the root beside the trunk.
    pub open spec fn root_height(self) -> int {
        if self.height == 7 {
            2
        } else if self.height >= 6 {
            1
        } else {
            0
        }
    }

    /// Whether the crown has leaves at an offset from the top of the trunk: all of
    /// the box of its radii (of radius 1 in the layer above the trunk) but the
    /// trunk itself, the corners, and the gaps of the rim.
    pub open spec fn leaf(self, dy: int, dx: int, dz: int) -> bool {
        let rx = if dy == 1 {
            1
        } else {
            self.radius_x()
        };
        let rz = if dy == 1 {
            1
        } else {
            self.radius_z()
        };
        &&& self.crown_bottom() <= dy <= 1
        &&& -rx <= dx <= rx
        &&& -rz <= dz <= rz
        &&& !(dx == 0 && dz == 0 && dy <= 0)
        &&& !((dx == rx || dx == -rx) && (dz == rz || dz == -rz))
        &&& (dx == rx || dx == -rx || dz == rz || dz == -rz) ==> spec_hash53(
            (self.x + dx) as i64,
            (dy + 16) as i64,
            (self.z + dz) as i64,
            self.shape(),
        ) >= self.gap_chance()
    }

    /// The trunk, from the ground up.
    pub open spec fn trunk(self) -> Seq<Placed> {
        Seq::new(
            if self.height > 0 {
                self.height as nat
            } else {
                0
            },
            |i: int| (self.x, (self.ground + 1 + i) as i64, self.z, Block::OakLog),
        )
    }

    /// The root of a tall tree, from the ground up.
    pub open spec fn root(self) -> Seq<Placed> {
        Seq::new(
            self.root_height() as nat,
            |i: int|
                (
                    (self.x + self.root_offset().0) as i64,
                    (self.ground + 1 + i) as i64,
                    (self.z + self.root_offset().1) as i64,
                    Block::OakLog,
                ),
        )
    }

    /// The leaf block at an offset from the top of the trunk.
    pub open spec fn leaf_block(self, dy: int, dx: int, dz: int) -> Placed {
        (
            (self.x + dx) as i64,
            (self.ground + self.height + dy) as i64,
            (self.z + dz) as i64,
            Block::OakLeaves,
        )
    }

    /// Whether a sequence is the crown: its leaves in the order of their layers,
    /// then of x, then of z.
    pub open spec fn is_crown(self, leaves: Seq<Placed>) -> bool {
        &&& forall|i: int|
            0 <= i < leaves.len() ==> {
                let (dx, dy, dz) = self.offset(#[trigger] leaves[i]);
                self.leaf(dy, dx, dz) && leaves[i] == self.leaf_block(dy, dx, dz)
            }
        &&& forall|dy: int, dx: int, dz: int| #[trigger]
            self.leaf(dy, dx, dz) ==> leaves.contains(self.leaf_block(dy, dx, dz))
        &&& forall|i: int, j: int|
            0 <= i < j < leaves.len() ==> before(#[trigger] leaves[i], #[trigger] leaves[j])
    }

    /// What the tree has at a position.
    pub open spec fn block_at(self, x: int, y: int, z: int) -> Option<Block> {
        let dx = x - self.x;
        let dy = y - self.ground;
        let dz = z - self.z;
        if dx == 0 && dz == 0 && 1 <= dy <= self.height {
            Some(Block::OakLog)
        } else if (dx, dz) == self.root_offset() && 1 <= dy <= self.root_height() {
            Some(Block::OakLog)
        } else if self.leaf(dy - self.height, dx, dz) {
            Some(Block::OakLeaves)
        } else {
            None
        }
    }

    /// A block's offset from the top of the trunk.
    pub open spec fn offset(self, p: Placed) -> (int, int, int) {
        (p.0 - self.x, p.1 - self.ground - self.height, p.2 - self.z)
    }

    /// Whether a sequence is the blocks of the tree: the trunk, the root, the crown.
    #[verifier::opaque]
    pub open spec fn is_made_of(self, blocks: Seq<Placed>) -> bool {
        let wood = (self.trunk().len() + self.root().len()) as int;
        &&& blocks.len() >= wood
        &&& blocks.take(wood) == self.trunk() + self.root()
        &&& self.is_crown(blocks.skip(wood))
    }

    /// All blocks of the tree: the trunk from the ground up, the root, and the
    /// crown layer by layer.
    pub fn blocks(&self) -> (r: Vec<Placed>)
        requires
            self.fits(),
        ensures
            self.is_made_of(r@),
    {
        reveal(Tree::is_made_of);
        let mut out: Vec<Placed> = Vec::new();
        let top: i64 = self.ground + 1;
        let mut y: i64 = top;
        while y < top + self.height
            invariant
                self.fits(),
                top == self.ground + 1,
                top <= y,
                self.height > 0 ==> y <= top + self.height,
                self.height <= 0 ==> y == top,
                out@ == self.trunk().take(y - top),
            decreases top + self.height - y,
        {
            out.push((self.x, y, self.z, Block::OakLog));
            y += 1;
            assert(out@ =~= self.trunk().take(y - top));
        }
        assert(out@ =~= self.trunk());
        let shape: u64 = hash64(self.x, self.height, self.z, 0x715e_ed0a);
        let radius_x: i64 = if shape & 3 == 0 { 1 } else { 2 };
        let radius_z: i64 = if (shape >> 2) & 3 == 0 { 1 } else { 2 };
        let bottom: i64 = if self.height >= 6 { -2 } else { -1 };
        let gap_roll: u64 = (shape >> 4) & 3;
        let gaps: u64 = if gap_roll == 0 {
            900_719_925_474_100
        } else if gap_roll == 1 {
            1_351_079_888_211_149
        } else if gap_roll == 2 {
            1_801_439_850_948_199
        } else {
            2_251_799_813_685_248
        };
        if self.height >= 6 {
            let side: u64 = (shape >> 6) & 3;
            let dx: i64 = if side == 0 {
                1
            } else if side == 1 {
                -1
            } else {
                0
            };
            let dz: i64 = if side == 0 || side == 1 {
                0
            } else if side == 2 {
                1
            } else {
                -1
            };
            out.push((self.x + dx, top, self.z + dz, Block::OakLog));
            if self.height == 7 {
                out.push((self.x + dx, top + 1, self.z + dz, Block::OakLog));
            }
        }
        assert(out@ =~= self.trunk() + self.root());
        let ghost wood = out@;
        let ghost n = wood.len() as int;
        assert(out@.skip(n) =~= Seq::<Placed>::empty());
        let crown_center: i64 = self.ground + self.height;
        let mut dy: i64 = bottom;
        while dy <= 1
            invariant
                self.fits(),
                shape == self.shape(),
                radius_x == self.radius_x(),
                radius_z == self.radius_z(),
                bottom == self.crown_bottom(),
                gaps == self.gap_chance(),
                crown_center == self.ground + self.height,
                bottom <= dy <= 2,
                out@.len() >= n,
                out@.take(n) == wood,
                n == wood.len(),
                self.crown_so_far(out@.skip(n), dy as int, -100, 0),
            decreases 2 - dy,
        {
            let y: i64 = crown_center + dy;
            let rx: i64 = if dy == 1 { 1 } else { radius_x };
            let rz: i64 = if dy == 1 { 1 } else { radius_z };
            let mut dx: i64 = -rx;
            assert(self.crown_so_far(out@.skip(n), dy as int, dx as int, -100));
            while dx <= rx
                invariant
                    self.fits(),
                    shape == self.shape(),
                    radius_x == self.radius_x(),
                    radius_z == self.radius_z(),
                    bottom == self.crown_bottom(),
                    gaps == self.gap_chance(),
                    crown_center == self.ground + self.height,
                    y == crown_center + dy,
                    rx == if dy == 1 { 1 } else { radius_x },
                    rz == if dy == 1 { 1 } else { radius_z },
                    bottom <= dy <= 1,
                    -rx <= dx <= rx + 1,
                    1 <= rx <= 2,
                    1 <= rz <= 2,
                    out@.len() >= n,
                    out@.take(n) == wood,
                    n == wood.len(),
                    self.crown_so_far(out@.skip(n), dy as int, dx as int, -100),
                decreases rx + 1 - dx,
            {
                let mut dz: i64 = -rz;
                assert(self.crown_so_far(out@.skip(n), dy as int, dx as int, dz as int));
                while dz <= rz
                    invariant
                        self.fits(),
                        shape == self.shape(),
                        radius_x == self.radius_x(),
                        radius_z == self.radius_z(),
                        bottom == self.crown_bottom(),
                        gaps == self.gap_chance(),
                        crown_center == self.ground + self.height,
                        y == crown_center + dy,
                        rx == if dy == 1 { 1 } else { radius_x },
                        rz == if dy == 1 { 1 } else { radius_z },
                        bottom <= dy <= 1,
                        -rx <= dx <= rx,
                        -rz <= dz <= rz + 1,
                        1 <= rx <= 2,
                        1 <= rz <= 2,
                        out@.len() >= n,
                        out@.take(n) == wood,
                        n == wood.len(),
                        self.crown_so_far(out@.skip(n), dy as int, dx as int, dz as int),
                    decreases rz + 1 - dz,
                {
                    let corner = (dx == rx || dx == -rx) && (dz == rz || dz == -rz);
                    let edge = dx == rx || dx == -rx || dz == rz || dz == -rz;
                    let ghost had = out@.skip(n);
                    if !(dx == 0 && dz == 0 && dy <= 0) && !corner && !(edge && hash53(
                        self.x + dx,
                        dy + 16,
                        self.z + dz,
                        shape,
                    ) < gaps) {
                        assert(self.leaf(dy as int, dx as int, dz as int));
                        out.push((self.x + dx, y, self.z + dz, Block::OakLeaves));
                        assert(out@.take(n) =~= wood);
                        assert(out@.skip(n) =~= had.push(
                            self.leaf_block(dy as int, dx as int, dz as int),
                        ));
                        proof {
                            self.lemma_crown_push(had, dy as int, dx as int, dz as int);
                        }
                    } else {
                        assert(!self.leaf(dy as int, dx as int, dz as int));
                    }
                    dz += 1;
                }
                dx += 1;
            }
            dy += 1;
        }
        out
    }

    /// Whether a sequence is the part of the crown before an offset.
    spec fn crown_so_far(self, leaves: Seq<Placed>, dy: int, dx: int, dz: int) -> bool {
        &&& forall|i: int|
            0 <= i < leaves.len() ==> {
                let (ex, ey, ez) = self.offset(#[trigger] leaves[i]);
                &&& self.leaf(ey, ex, ez)
                &&& leaves[i] == self.leaf_block(ey, ex, ez)
                &&& offset_before(ey, ex, ez, dy, dx, dz)
            }
        &&& forall|ey: int, ex: int, ez: int| #[trigger]
            self.leaf(ey, ex, ez) && offset_before(ey, ex, ez, dy, dx, dz) ==> leaves.contains(
                self.leaf_block(ey, ex, ez),
            )
        &&& forall|i: int, j: int|
            0 <= i < j < leaves.len() ==> before(#[trigger] leaves[i], #[trigger] leaves[j])
    }

    proof fn lemma_crown_push(self, leaves: Seq<Placed>, dy: int, dx: int, dz: int)
        requires
            self.fits(),
            self.crown_so_far(leaves, dy, dx, dz),
            self.leaf(dy, dx, dz),
        ensures
            self.crown_so_far(leaves.push(self.leaf_block(dy, dx, dz)), dy, dx, dz + 1),
    {
        let next = leaves.push(self.leaf_block(dy, dx, dz));
        assert forall|ey: int, ex: int, ez: int| #[trigger]
            self.leaf(ey, ex, ez) && offset_before(ey, ex, ez, dy, dx, dz + 1) implies next.contains(
            self.leaf_block(ey, ex, ez),
        ) by {
            if offset_before(ey, ex, ez, dy, dx, dz) {
                let k = choose|k: int|
                    0 <= k < leaves.len() && leaves[k] == self.leaf_block(ey, ex, ez);
                assert(next[k] == self.leaf_block(ey, ex, ez));
            } else {
                assert(next[leaves.len() as int] == self.leaf_block(ey, ex, ez));
            }
        }
    }
}

/// The order of offsets: by layer, then x, then z.
pub open spec fn offset_before(
    ay: int,
    ax: int,
    az: int,
    by: int,
    bx: int,
    bz: int,
) -> bool {
    ay < by || (ay == by && (ax < bx || (ax == bx && az < bz)))
}

/// The order of blocks: by layer, then x, then z.
pub open spec fn before(a: Placed, b: Placed) -> bool {
    offset_before(a.1 as int, a.0 as int, a.2 as int, b.1 as int, b.0 as int, b.2 as int)
}

/// Every block of a tree is within two columns of the trunk and between the ground
/// and one layer above the trunk.
pub proof fn tree_keeps_to_its_reach(tree: Tree, blocks: Seq<Placed>, i: int)
    requires
        tree.fits(),
        tree.height >= 2,
        tree.is_made_of(blocks),
        0 <= i < blocks.len(),
    ensures
        -REACH <= blocks[i].0 - tree.x <= REACH,
        -REACH <= blocks[i].2 - tree.z <= REACH,
        tree.ground < blocks[i].1 <= tree.ground + 1 + tree.height,
{
    lemma_piece(tree, blocks, i);
}

/// No two blocks of a tree are in one place.
pub proof fn tree_blocks_do_not_overlap(tree: Tree, blocks: Seq<Placed>, i: int, j: int)
    requires
        tree.fits(),
        tree.is_made_of(blocks),
        0 <= i < j < blocks.len(),
    ensures
        (blocks[i].0, blocks[i].1, blocks[i].2) != (blocks[j].0, blocks[j].1, blocks[j].2),
{
    lemma_piece(tree, blocks, i);
    lemma_piece(tree, blocks, j);
    let n = tree.trunk().len() as int;
    let wood = (tree.trunk().len() + tree.root().len()) as int;
    if i >= wood {
        lemma_crown_order(tree, blocks, i, j);
    } else if j >= wood {
        let (dx, dy, dz) = tree.offset(blocks[j]);
        lemma_leaves_spare_wood(tree, dy, dx, dz);
        if i < n {
            assert(blocks[i] == (tree.x, (tree.ground + 1 + i) as i64, tree.z, Block::OakLog));
        } else {
            lemma_root_block(tree, i - n);
        }
    } else if i < n && j >= n {
        lemma_root_block(tree, j - n);
    } else if i >= n {
        lemma_root_block(tree, i - n);
        lemma_root_block(tree, j - n);
    }
}

/// The leaves of a tree are in order.
proof fn lemma_crown_order(tree: Tree, blocks: Seq<Placed>, i: int, j: int)
    requires
        tree.is_made_of(blocks),
        tree.trunk().len() + tree.root().len() <= i < j < blocks.len(),
    ensures
        before(blocks[i], blocks[j]),
{
    reveal(Tree::is_made_of);
    let wood = (tree.trunk().len() + tree.root().len()) as int;
    assert(before(blocks.skip(wood)[i - wood], blocks.skip(wood)[j - wood]));
}

/// The blocks of a root stand beside the trunk.
proof fn lemma_root_block(tree: Tree, k: int)
    requires
        tree.fits(),
        0 <= k < tree.root().len(),
    ensures
        tree.root()[k] == (
            (tree.x + tree.root_offset().0) as i64,
            (tree.ground + 1 + k) as i64,
            (tree.z + tree.root_offset().1) as i64,
            Block::OakLog,
        ),
        tree.root_offset() != (0int, 0int),
        k < tree.root_height(),
{
}

/// Leaves grow neither where the trunk is nor where the root is.
proof fn lemma_leaves_spare_wood(tree: Tree, dy: int, dx: int, dz: int)
    requires
        tree.leaf(dy, dx, dz),
    ensures
        dx == 0 && dz == 0 ==> dy == 1,
        dy >= tree.crown_bottom(),
        tree.height >= 6 ==> tree.height + dy > tree.root_height(),
{
}

/// The blocks of a tree are exactly those that it has at their positions.
pub proof fn tree_blocks_match_positions(
    tree: Tree,
    blocks: Seq<Placed>,
    x: i64,
    y: i64,
    z: i64,
    block: Block,
)
    requires
        tree.fits(),
        tree.is_made_of(blocks),
    ensures
        blocks.contains((x, y, z, block)) <==> tree.block_at(x as int, y as int, z as int) == Some(
            block,
        ),
{
    let p = (x, y, z, block);
    if blocks.contains(p) {
        let i = choose|i: int| 0 <= i < blocks.len() && blocks[i] == p;
        lemma_listed_is_there(tree, blocks, i);
    }
    if tree.block_at(x as int, y as int, z as int) == Some(block) {
        lemma_there_is_listed(tree, blocks, x, y, z, block);
    }
}

proof fn lemma_listed_is_there(tree: Tree, blocks: Seq<Placed>, i: int)
    requires
        tree.fits(),
        tree.is_made_of(blocks),
        0 <= i < blocks.len(),
    ensures
        tree.block_at(blocks[i].0 as int, blocks[i].1 as int, blocks[i].2 as int) == Some(
            blocks[i].3,
        ),
{
    reveal(Tree::is_made_of);
    lemma_piece(tree, blocks, i);
    let trunk = tree.trunk();
    let root = tree.root();
    let wood = (trunk.len() + root.len()) as int;
    if i >= wood {
        assert(blocks.skip(wood)[i - wood] == blocks[i]);
    }
}

proof fn lemma_there_is_listed(
    tree: Tree,
    blocks: Seq<Placed>,
    x: i64,
    y: i64,
    z: i64,
    block: Block,
)
    requires
        tree.fits(),
        tree.is_made_of(blocks),
        tree.block_at(x as int, y as int, z as int) == Some(block),
    ensures
        blocks.contains((x, y, z, block)),
{
    reveal(Tree::is_made_of);
    let p = (x, y, z, block);
    let trunk = tree.trunk();
    let root = tree.root();
    let wood = (trunk.len() + root.len()) as int;
    let dx = x - tree.x;
    let dy = y - tree.ground;
    let dz = z - tree.z;
    if dx == 0 && dz == 0 && 1 <= dy <= tree.height {
        assert(trunk[dy - 1] == p);
        assert(blocks.take(wood)[dy - 1] == p);
        assert(blocks[dy - 1] == p);
    } else if (dx, dz) == tree.root_offset() && 1 <= dy <= tree.root_height() {
        assert(root[dy - 1] == p);
        assert(blocks.take(wood)[trunk.len() + dy - 1] == p);
        assert(blocks[trunk.len() + dy - 1] == p);
    } else {
        assert(tree.leaf(dy - tree.height, dx, dz));
        let crown = blocks.skip(wood);
        let k = choose|k: int|
            0 <= k < crown.len() && crown[k] == tree.leaf_block(dy - tree.height, dx, dz);
        assert(blocks[wood + k] == p);
    }
}

/// A tree on higher ground.
pub open spec fn raised(tree: Tree, by: int) -> Tree {
    Tree { ground: (tree.ground + by) as i64, ..tree }
}

/// Blocks that many layers higher.
pub open spec fn lifted(blocks: Seq<Placed>, by: int) -> Seq<Placed> {
    Seq::new(
        blocks.len(),
        |i: int| (blocks[i].0, (blocks[i].1 + by) as i64, blocks[i].2, blocks[i].3),
    )
}

/// The shape of a tree does not depend on the ground: where the ground is higher, the
/// tree has the same blocks in the same order, each that much higher. On the same ground
/// it always has the same blocks.
pub proof fn trees_rise_with_the_ground(
    tree: Tree,
    by: int,
    blocks: Seq<Placed>,
    higher: Seq<Placed>,
)
    requires
        tree.fits(),
        i64::MIN <= tree.ground + by <= i64::MAX,
        raised(tree, by).fits(),
        tree.is_made_of(blocks),
        raised(tree, by).is_made_of(higher),
    ensures
        higher == lifted(blocks, by),
{
    let up = raised(tree, by);
    let wood = (tree.trunk().len() + tree.root().len()) as int;
    lemma_parts(tree, blocks);
    lemma_parts(up, higher);
    lemma_lifted_wood(tree, by);
    lemma_lifted_parts(tree.trunk() + tree.root(), blocks.skip(wood), by);
    lemma_crown_is_unique(tree, by, blocks.skip(wood), higher.skip(wood));
}

/// A tree is its wood and its crown.
proof fn lemma_parts(tree: Tree, blocks: Seq<Placed>)
    requires
        tree.is_made_of(blocks),
    ensures
        ({
            let wood = (tree.trunk().len() + tree.root().len()) as int;
            blocks == tree.trunk() + tree.root() + blocks.skip(wood) && tree.is_crown(
                blocks.skip(wood),
            )
        }),
{
    reveal(Tree::is_made_of);
    let wood = (tree.trunk().len() + tree.root().len()) as int;
    assert(blocks =~= blocks.take(wood) + blocks.skip(wood));
}

proof fn lemma_lifted_wood(tree: Tree, by: int)
    requires
        tree.fits(),
        i64::MIN <= tree.ground + by <= i64::MAX,
        raised(tree, by).fits(),
    ensures
        raised(tree, by).trunk() + raised(tree, by).root() == lifted(
            tree.trunk() + tree.root(),
            by,
        ),
        raised(tree, by).trunk().len() == tree.trunk().len(),
        raised(tree, by).root().len() == tree.root().len(),
{
    let up = raised(tree, by);
    assert(up.shape() == tree.shape());
    assert(up.trunk() + up.root() =~= lifted(tree.trunk() + tree.root(), by));
}

proof fn lemma_lifted_parts(a: Seq<Placed>, b: Seq<Placed>, by: int)
    ensures
        lifted(a + b, by) == lifted(a, by) + lifted(b, by),
{
    assert(lifted(a + b, by) =~= lifted(a, by) + lifted(b, by));
}

proof fn lemma_crown_is_unique(tree: Tree, by: int, crown: Seq<Placed>, high: Seq<Placed>)
    requires
        tree.fits(),
        i64::MIN <= tree.ground + by <= i64::MAX,
        raised(tree, by).fits(),
        tree.is_crown(crown),
        raised(tree, by).is_crown(high),
    ensures
        high == lifted(crown, by),
{
    let up = raised(tree, by);
    lemma_lifted_crown(tree, by, crown);
    assert forall|p: Placed| lifted(crown, by).contains(p) <==> high.contains(p) by {
        if lifted(crown, by).contains(p) {
            lemma_crowns_agree(up, lifted(crown, by), high, p);
        }
        if high.contains(p) {
            lemma_crowns_agree(up, high, lifted(crown, by), p);
        }
    }
    lemma_order_is_unique(lifted(crown, by), high);
}

proof fn lemma_lifted_crown(tree: Tree, by: int, crown: Seq<Placed>)
    requires
        tree.fits(),
        i64::MIN <= tree.ground + by <= i64::MAX,
        raised(tree, by).fits(),
        tree.is_crown(crown),
    ensures
        raised(tree, by).is_crown(lifted(crown, by)),
{
    let up = raised(tree, by);
    let high = lifted(crown, by);
    assert forall|i: int| 0 <= i < high.len() implies ({
        let (dx, dy, dz) = up.offset(#[trigger] high[i]);
        up.leaf(dy, dx, dz) && high[i] == up.leaf_block(dy, dx, dz)
    }) by {
        let (dx, dy, dz) = tree.offset(crown[i]);
        assert(tree.leaf(dy, dx, dz) && crown[i] == tree.leaf_block(dy, dx, dz));
        assert(up.offset(high[i]) == (dx, dy, dz));
    }
    assert forall|dy: int, dx: int, dz: int| #[trigger] up.leaf(dy, dx, dz) implies high.contains(
        up.leaf_block(dy, dx, dz),
    ) by {
        assert(tree.leaf(dy, dx, dz));
        let k = choose|k: int| 0 <= k < crown.len() && crown[k] == tree.leaf_block(dy, dx, dz);
        assert(high[k] == up.leaf_block(dy, dx, dz));
    }
    assert forall|i: int, j: int| 0 <= i < j < high.len() implies before(
        #[trigger] high[i],
        #[trigger] high[j],
    ) by {
        assert(before(crown[i], crown[j]));
        let (dx, dy, dz) = tree.offset(crown[i]);
        assert(tree.leaf(dy, dx, dz));
        let (ex, ey, ez) = tree.offset(crown[j]);
        assert(tree.leaf(ey, ex, ez));
    }
}

proof fn lemma_crowns_agree(tree: Tree, a: Seq<Placed>, b: Seq<Placed>, p: Placed)
    requires
        tree.is_crown(a),
        tree.is_crown(b),
        a.contains(p),
    ensures
        b.contains(p),
{
    let i = choose|i: int| 0 <= i < a.len() && a[i] == p;
    let (dx, dy, dz) = tree.offset(a[i]);
    assert(tree.leaf(dy, dx, dz));
}

/// Two lists in order that hold the same blocks are one list.
proof fn lemma_order_is_unique(a: Seq<Placed>, b: Seq<Placed>)
    requires
        forall|i: int, j: int| 0 <= i < j < a.len() ==> before(#[trigger] a[i], #[trigger] a[j]),
        forall|i: int, j: int| 0 <= i < j < b.len() ==> before(#[trigger] b[i], #[trigger] b[j]),
        forall|p: Placed| a.contains(p) <==> b.contains(p),
    ensures
        a == b,
    decreases a.len(),
{
    if a.len() == 0 {
        if b.len() > 0 {
            assert(b.contains(b[0]));
        }
        assert(a =~= b);
    } else {
        let p = a.last();
        assert(a.contains(p));
        let q = b.last();
        let j = choose|j: int| 0 <= j < b.len() && b[j] == p;
        assert(b.contains(q));
        let i = choose|i: int| 0 <= i < a.len() && a[i] == q;
        assert(p == q) by {
            if i < a.len() - 1 {
                assert(before(a[i], a[a.len() - 1]));
            }
            if j < b.len() - 1 {
                assert(before(b[j], b[b.len() - 1]));
            }
        }
        let c = a.drop_last();
        let d = b.drop_last();
        assert forall|r: Placed| c.contains(r) <==> d.contains(r) by {
            if c.contains(r) {
                let k = choose|k: int| 0 <= k < c.len() && c[k] == r;
                assert(a[k] == r && before(a[k], a[a.len() - 1]));
                assert(b.contains(r));
                let l = choose|l: int| 0 <= l < b.len() && b[l] == r;
                assert(d[l] == r);
            }
            if d.contains(r) {
                let k = choose|k: int| 0 <= k < d.len() && d[k] == r;
                assert(b[k] == r && before(b[k], b[b.len() - 1]));
                assert(a.contains(r));
                let l = choose|l: int| 0 <= l < a.len() && a[l] == r;
                assert(c[l] == r);
            }
        }
        lemma_order_is_unique(c, d);
        assert(a =~= c.push(p));
        assert(b =~= d.push(p));
    }
}

/// Which part of the tree a block is.
proof fn lemma_piece(tree: Tree, blocks: Seq<Placed>, i: int)
    requires
        tree.fits(),
        tree.is_made_of(blocks),
        0 <= i < blocks.len(),
    ensures
        i < tree.trunk().len() ==> blocks[i] == tree.trunk()[i],
        tree.trunk().len() <= i < tree.trunk().len() + tree.root().len() ==> blocks[i]
            == tree.root()[i - tree.trunk().len()],
        tree.trunk().len() + tree.root().len() <= i ==> ({
            let (dx, dy, dz) = tree.offset(blocks[i]);
            tree.leaf(dy, dx, dz)
        }),
{
    reveal(Tree::is_made_of);
    let wood = (tree.trunk().len() + tree.root().len()) as int;
    if i < wood {
        assert(blocks[i] == blocks.take(wood)[i]);
    } else {
        assert(blocks[i] == blocks.skip(wood)[i - wood]);
    }
}

/// Whether a height is grass on which trees grow: above 62.5 and up to 70.5.
pub open spec fn grass_height(h: Double) -> bool {
    (Double { bits: BEACH_TOP_BITS }).spec_less(h) && h.spec_at_most(
        Double { bits: GRASS_TOP_BITS },
    )
}

/// Whether a height is grass on which trees grow.
pub fn is_grass_surface(h: Double) -> (r: bool)
    ensures
        r == grass_height(h),
{
    (Double { bits: BEACH_TOP_BITS }).less(h) && h.at_most(Double { bits: GRASS_TOP_BITS })
}

/// The rules by which trees are placed.
pub struct TreeDecorator {
    pub seed: u64,
    /// The chance of a grass position to try for a tree.
    pub density: Double,
}

impl TreeDecorator {
    /// Whether a position tries for a tree: its hash, as a fraction of one, is
    /// below the density.
    pub open spec fn rolls(&self, x: i64, z: i64) -> bool {
        &&& !self.density.spec_nan()
        &&& spec_hash53(x, 0, z, self.seed ^ 0x77) * pow2(1021) < self.density.units()
    }

    /// The rank of a position among its rivals.
    pub open spec fn rank(&self, x: i64, z: i64) -> u64 {
        spec_hash64(x, 3, z, self.seed ^ 0x5A17_5A17_5A17_5A17)
    }

    /// The trunk height of a tree at a position.
    pub open spec fn trunk_height(&self, x: i64, z: i64) -> i64 {
        let r = spec_hash53(x, 2, z, self.seed ^ 0x4B);
        if r < 2_251_799_813_685_248 {
            4
        } else if r < 5_584_463_537_939_415 {
            5
        } else if r < 8_106_479_329_266_893 {
            6
        } else {
            7
        }
    }

    /// Whether a position could have a tree if no rival were near.
    pub open spec fn candidate(&self, heights: &HeightTable, x: i64, z: i64) -> bool {
        grass_height(heights.at(x, z)) && self.rolls(x, z)
    }

    /// Whether one position outranks another: by rank, then by the smaller
    /// coordinates.
    pub open spec fn outranks(&self, ax: i64, az: i64, bx: i64, bz: i64) -> bool {
        self.rank(ax, az) > self.rank(bx, bz) || (self.rank(ax, az) == self.rank(bx, bz) && (ax
            < bx || (ax == bx && az < bz)))
    }

    /// Whether a tree stands at a position: it is a candidate, and no candidate
    /// within two columns outranks it.
    pub open spec fn stands(&self, heights: &HeightTable, x: i64, z: i64) -> bool {
        &&& self.candidate(heights, x, z)
        &&& forall|a: i64, b: i64|
            -REACH <= a - x <= REACH && -REACH <= b - z <= REACH && (a != x || b != z)
                ==> !(#[trigger] self.candidate(heights, a, b) && self.outranks(a, b, x, z))
    }

    /// The tree at a position.
    pub open spec fn tree_at(&self, heights: &HeightTable, x: i64, z: i64) -> Tree {
        Tree {
            x,
            z,
            ground: heights.at(x, z).spec_floor() as i64,
            height: self.trunk_height(x, z),
        }
    }

    /// The trees of the positions `[x0, x1)` of a row.
    pub open spec fn row(&self, heights: &HeightTable, x0: int, x1: int, z: int) -> Seq<Tree>
        decreases x1 - x0,
    {
        if x1 <= x0 {
            Seq::empty()
        } else {
            let before = self.row(heights, x0, x1 - 1, z);
            if self.stands(heights, (x1 - 1) as i64, z as i64) {
                before.push(self.tree_at(heights, (x1 - 1) as i64, z as i64))
            } else {
                before
            }
        }
    }

    /// The trees of the region `[x0, x1) * [z0, z1)`, row by row.
    pub open spec fn forest(
        &self,
        heights: &HeightTable,
        x0: int,
        x1: int,
        z0: int,
        z1: int,
    ) -> Seq<Tree>
        decreases z1 - z0,
    {
        if z1 <= z0 {
            Seq::empty()
        } else {
            self.forest(heights, x0, x1, z0, z1 - 1) + self.row(heights, x0, x1, z1 - 1)
        }
    }

    /// Whether a sequence lists exactly the trees of the region `[x0, x1) * [z0, z1)`,
    /// row by row.
    pub open spec fn is_forest(
        &self,
        heights: &HeightTable,
        x0: int,
        x1: int,
        z0: int,
        z1: int,
        trees: Seq<Tree>,
    ) -> bool {
        &&& forall|i: int|
            0 <= i < trees.len() ==> {
                let t = #[trigger] trees[i];
                &&& x0 <= t.x < x1
                &&& z0 <= t.z < z1
                &&& self.stands(heights, t.x, t.z)
                &&& t == self.tree_at(heights, t.x, t.z)
            }
        &&& forall|x: i64, z: i64|
            x0 <= x < x1 && z0 <= z < z1 && #[trigger] self.stands(heights, x, z)
                ==> trees.contains(self.tree_at(heights, x, z))
        &&& forall|i: int, j: int|
            0 <= i < j < trees.len() ==> row_before(#[trigger] trees[i], #[trigger] trees[j])
    }

    /// The rules for a seed, with the usual density.
    pub fn new(seed: u64) -> (r: TreeDecorator)
        ensures
            r.seed == seed,
            r.density.bits == DENSITY_BITS,
    {
        TreeDecorator { seed, density: Double { bits: DENSITY_BITS } }
    }

    /// The rules for a seed and a density.
    pub fn with_density(seed: u64, density: Double) -> (r: TreeDecorator)
        ensures
            r.seed == seed,
            r.density == density,
    {
        TreeDecorator { seed, density }
    }

    fn roll(&self, x: i64, z: i64) -> (r: bool)
        ensures
            r == self.rolls(x, z),
    {
        Double::of_fraction(hash53(x, 0, z, self.seed ^ 0x77)).less(self.density)
    }

    fn priority(&self, x: i64, z: i64) -> (r: u64)
        ensures
            r == self.rank(x, z),
    {
        hash64(x, 3, z, self.seed ^ 0x5A17_5A17_5A17_5A17)
    }

    fn tree_height(&self, x: i64, z: i64) -> (r: i64)
        ensures
            r == self.trunk_height(x, z),
            4 <= r <= 7,
    {
        let roll: u64 = hash53(x, 2, z, self.seed ^ 0x4B);
        if roll < 2_251_799_813_685_248 {
            4
        } else if roll < 5_584_463_537_939_415 {
            5
        } else if roll < 8_106_479_329_266_893 {
            6
        } else {
            7
        }
    }

    fn is_candidate(&self, heights: &HeightTable, x: i64, z: i64) -> (r: bool)
        requires
            heights.known(x, z),
        ensures
            r == self.candidate(heights, x, z),
    {
        is_grass_surface(heights.height(x, z)) && self.roll(x, z)
    }

    fn is_standing(&self, heights: &HeightTable, x: i64, z: i64) -> (r: bool)
        requires
            i64::MIN + REACH <= x < i64::MAX - REACH,
            i64::MIN + REACH <= z < i64::MAX - REACH,
            heights.covers(x - REACH, x + REACH, z - REACH, z + REACH),
        ensures
            r == self.stands(heights, x, z),
    {
        if !self.is_candidate(heights, x, z) {
            return false;
        }
        let rank: u64 = self.priority(x, z);
        let mut b: i64 = z - REACH;
        while b <= z + REACH
            invariant
                i64::MIN + REACH <= x < i64::MAX - REACH,
                i64::MIN + REACH <= z < i64::MAX - REACH,
                heights.covers(x - REACH, x + REACH, z - REACH, z + REACH),
                rank == self.rank(x, z),
                z - REACH <= b <= z + REACH + 1,
                forall|c: i64, d: i64|
                    -REACH <= c - x <= REACH && z - REACH <= d < b && (c != x || d != z)
                        ==> !(#[trigger] self.candidate(heights, c, d) && self.outranks(
                        c,
                        d,
                        x,
                        z,
                    )),
            decreases z + REACH + 1 - b,
        {
            let mut a: i64 = x - REACH;
            while a <= x + REACH
                invariant
                    i64::MIN + REACH <= x < i64::MAX - REACH,
                    i64::MIN + REACH <= z < i64::MAX - REACH,
                    heights.covers(x - REACH, x + REACH, z - REACH, z + REACH),
                    rank == self.rank(x, z),
                    z - REACH <= b <= z + REACH,
                    x - REACH <= a <= x + REACH + 1,
                    forall|c: i64, d: i64|
                        -REACH <= c - x <= REACH && z - REACH <= d < b && (c != x || d != z)
                            ==> !(#[trigger] self.candidate(heights, c, d) && self.outranks(
                            c,
                            d,
                            x,
                            z,
                        )),
                    forall|c: i64|
                        x - REACH <= c < a && (c != x || b != z) ==> !(#[trigger] self.candidate(
                            heights,
                            c,
                            b,
                        ) && self.outranks(c, b, x, z)),
                decreases x + REACH + 1 - a,
            {
                if (a != x || b != z) && self.is_candidate(heights, a, b) {
                    let other: u64 = self.priority(a, b);
                    if other > rank || (other == rank && (a < x || (a == x && b < z))) {
                        assert(self.candidate(heights, a, b) && self.outranks(a, b, x, z));
                        return false;
                    }
                }
                a += 1;
            }
            b += 1;
        }
        true
    }

    /// The trees of the region `[x0, x1) * [z0, z1)`, row by row. The heights of the
    /// region and of the rivals around it have been sampled.
    pub fn generate(
        &self,
        heights: &HeightTable,
        x0: i64,
        x1: i64,
        z0: i64,
        z1: i64,
    ) -> (r: Vec<Tree>)
        requires
            i64::MIN + REACH <= x0 <= x1 <= i64::MAX - REACH,
            i64::MIN + REACH <= z0 <= z1 <= i64::MAX - REACH,
            heights.covers(x0 - REACH, x1 + REACH - 1, z0 - REACH, z1 + REACH - 1),
        ensures
            r@ == self.forest(heights, x0 as int, x1 as int, z0 as int, z1 as int),
    {
        let mut trees: Vec<Tree> = Vec::new();
        let mut z: i64 = z0;
        while z < z1
            invariant
                i64::MIN + REACH <= x0 <= x1 <= i64::MAX - REACH,
                i64::MIN + REACH <= z0 <= z <= z1 <= i64::MAX - REACH,
                heights.covers(x0 - REACH, x1 + REACH - 1, z0 - REACH, z1 + REACH - 1),
                trees@ == self.forest(heights, x0 as int, x1 as int, z0 as int, z as int),
            decreases z1 - z,
        {
            let mut x: i64 = x0;
            let ghost rows = trees@;
            assert(trees@ =~= rows + self.row(heights, x0 as int, x as int, z as int));
            while x < x1
                invariant
                    i64::MIN + REACH <= x0 <= x <= x1 <= i64::MAX - REACH,
                    i64::MIN + REACH <= z0 <= z < z1 <= i64::MAX - REACH,
                    heights.covers(x0 - REACH, x1 + REACH - 1, z0 - REACH, z1 + REACH - 1),
                    trees@ == rows + self.row(heights, x0 as int, x as int, z as int),
                decreases x1 - x,
            {
                if self.is_standing(heights, x, z) {
                    let ghost had = trees@;
                    trees.push(
                        Tree {
                            x,
                            z,
                            ground: heights.height(x, z).floor(),
                            height: self.tree_height(x, z),
                        },
                    );
                    assert(trees@ =~= rows + self.row(heights, x0 as int, x + 1, z as int));
                }
                x += 1;
            }
            z += 1;
        }
        trees
    }
}

/// The trees of a row are the positions of the row at which trees stand, in order.
proof fn lemma_row(rules: &TreeDecorator, heights: &HeightTable, x0: int, x1: int, z: int)
    requires
        i64::MIN <= x0,
        x1 <= i64::MAX,
        i64::MIN <= z < i64::MAX,
    ensures
        rules.is_forest(heights, x0, x1, z, z + 1, rules.row(heights, x0, x1, z)),
    decreases x1 - x0,
{
    if x0 < x1 {
        lemma_row(rules, heights, x0, x1 - 1, z);
        let had = rules.row(heights, x0, x1 - 1, z);
        let now = rules.row(heights, x0, x1, z);
        let x = x1 - 1;
        assert forall|a: i64, b: i64|
            x0 <= a < x1 && z <= b < z + 1 && #[trigger] rules.stands(
                heights,
                a,
                b,
            ) implies now.contains(rules.tree_at(heights, a, b)) by {
            let t = rules.tree_at(heights, a, b);
            if a == x {
                assert(now[had.len() as int] == t);
            } else {
                let k = choose|k: int| 0 <= k < had.len() && had[k] == t;
                assert(now[k] == t);
            }
        }
    }
}

/// A region's trees are the positions at which trees stand, row by row.
pub proof fn forests_list_standing_trees(
    rules: &TreeDecorator,
    heights: &HeightTable,
    x0: int,
    x1: int,
    z0: int,
    z1: int,
)
    requires
        i64::MIN <= x0,
        x1 <= i64::MAX,
        i64::MIN <= z0,
        z1 <= i64::MAX,
    ensures
        rules.is_forest(heights, x0, x1, z0, z1, rules.forest(heights, x0, x1, z0, z1)),
    decreases z1 - z0,
{
    if z0 < z1 {
        let z = z1 - 1;
        forests_list_standing_trees(rules, heights, x0, x1, z0, z);
        lemma_row(rules, heights, x0, x1, z);
        lemma_rows_join(
            rules,
            heights,
            x0,
            x1,
            z0,
            z,
            rules.forest(heights, x0, x1, z0, z),
            rules.row(heights, x0, x1, z),
        );
    }
}

proof fn lemma_rows_join(
    rules: &TreeDecorator,
    heights: &HeightTable,
    x0: int,
    x1: int,
    z0: int,
    z: int,
    rows: Seq<Tree>,
    row: Seq<Tree>,
)
    requires
        z0 <= z,
        rules.is_forest(heights, x0, x1, z0, z, rows),
        rules.is_forest(heights, x0, x1, z, z + 1, row),
    ensures
        rules.is_forest(heights, x0, x1, z0, z + 1, rows + row),
{
    let all = rows + row;
    assert forall|a: i64, b: i64|
        x0 <= a < x1 && z0 <= b < z + 1 && #[trigger] rules.stands(
            heights,
            a,
            b,
        ) implies all.contains(rules.tree_at(heights, a, b)) by {
        let t = rules.tree_at(heights, a, b);
        if b < z {
            let k = choose|k: int| 0 <= k < rows.len() && rows[k] == t;
            assert(all[k] == t);
        } else {
            let k = choose|k: int| 0 <= k < row.len() && row[k] == t;
            assert(all[rows.len() + k] == t);
        }
    }
}

/// What the first of several trees that reaches a position has there; air where none
/// does.
pub open spec fn grown(trees: Seq<Tree>, x: int, y: int, z: int) -> Block
    decreases trees.len(),
{
    if trees.len() == 0 {
        Block::Air
    } else {
        let before = grown(trees.drop_last(), x, y, z);
        if before != Block::Air {
            before
        } else {
            match trees.last().block_at(x, y, z) {
                Some(block) => block,
                None => Block::Air,
            }
        }
    }
}

/// The order of trees: by row, then along the row.
pub open spec fn row_before(a: Tree, b: Tree) -> bool {
    a.z < b.z || (a.z == b.z && a.x < b.x)
}

/// Two trees stand at least three columns apart.
pub proof fn trees_keep_their_distance(
    rules: &TreeDecorator,
    heights: &HeightTable,
    ax: i64,
    az: i64,
    bx: i64,
    bz: i64,
)
    requires
        rules.stands(heights, ax, az),
        rules.stands(heights, bx, bz),
        ax != bx || az != bz,
    ensures
        (ax - bx) * (ax - bx) + (az - bz) * (az - bz) >= 9,
{
    let dx = ax - bx;
    let dz = az - bz;
    if -REACH <= dx <= REACH && -REACH <= dz <= REACH {
        assert(rules.outranks(ax, az, bx, bz) || rules.outranks(bx, bz, ax, az));
        assert(rules.candidate(heights, ax, az) && rules.candidate(heights, bx, bz));
        assert(false);
    }
    assert(dx * dx + dz * dz >= 9) by (nonlinear_arith)
        requires
            dx >= 3 || dx <= -3 || dz >= 3 || dz <= -3,
    ;
}

/// Two regions agree on every tree in both: how much is asked for at once makes no
/// difference.
pub proof fn regions_agree(
    rules: &TreeDecorator,
    heights: &HeightTable,
    a: (i64, i64, i64, i64),
    b: (i64, i64, i64, i64),
    tree: Tree,
)
    requires
        rules.forest(heights, a.0 as int, a.1 as int, a.2 as int, a.3 as int).contains(tree),
        b.0 <= tree.x < b.1,
        b.2 <= tree.z < b.3,
    ensures
        rules.forest(heights, b.0 as int, b.1 as int, b.2 as int, b.3 as int).contains(tree),
{
    forests_list_standing_trees(rules, heights, a.0 as int, a.1 as int, a.2 as int, a.3 as int);
    forests_list_standing_trees(rules, heights, b.0 as int, b.1 as int, b.2 as int, b.3 as int);
}

/// Trees stand on grass: above 62.5 and not above 70.5.
pub proof fn trees_stand_on_grass(rules: &TreeDecorator, heights: &HeightTable, x: i64, z: i64)
    requires
        rules.stands(heights, x, z),
    ensures
        grass_height(heights.at(x, z)),
        4 <= rules.trunk_height(x, z) <= 7,
{
}

/// A tree has a trunk from the ground up to its height, and a crown round the upper end of
/// it that is closed on top: logs below, leaves over and around them, at most two columns
/// away and from two layers below the end of the trunk to one above it. The corners of the
/// crown are cut off, and what is not at its edge has no gaps.
pub proof fn trees_have_a_trunk_and_a_crown(tree: Tree, x: int, y: int, z: int)
    requires
        4 <= tree.height <= 7,
    ensures
        ({
            let (dx, dz) = (x - tree.x, z - tree.z);
            let up = y - tree.ground;
            let top = tree.height as int;
            let (rx, rz): (int, int) = if up > top {
                (1, 1)
            } else {
                (tree.radius_x(), tree.radius_z())
            };
            let lowest = if top >= 6 {
                top - 2
            } else {
                top - 1
            };
            let at = tree.block_at(x, y, z);
            &&& 1 <= tree.radius_x() <= 2 && 1 <= tree.radius_z() <= 2
            &&& dx == 0 && dz == 0 && 1 <= up <= top ==> at == Some(Block::OakLog)
            &&& dx == 0 && dz == 0 && up == top + 1 ==> at == Some(Block::OakLeaves)
            &&& lowest <= up <= top + 1 && -rx < dx < rx && -rz < dz < rz && !(dx == 0 && dz
                == 0) ==> at == Some(Block::OakLeaves) || up <= 2
            &&& up <= 0 || up > top + 1 || dx < -2 || dx > 2 || dz < -2 || dz > 2 ==> at is None
            &&& up > 2 && (dx == rx || dx == -rx) && (dz == rz || dz == -rz) ==> at is None
            &&& up > 2 && up < lowest && !(dx == 0 && dz == 0) ==> at is None
            &&& at is Some ==> at == Some(Block::OakLog) || at == Some(Block::OakLeaves)
            &&& at == Some(Block::OakLog) && !(dx == 0 && dz == 0) ==> up <= 2 && top >= 6
        }),
{
}

/// Tall trees have a root beside the trunk: one log high, or two at the greatest height.
pub proof fn tall_trees_have_a_root(tree: Tree)
    requires
        4 <= tree.height <= 7,
    ensures
        ({
            let (dx, dz) = tree.root_offset();
            let (x, z) = (tree.x + dx, tree.z + dz);
            &&& dx * dx + dz * dz == 1
            &&& tree.height >= 6 ==> tree.block_at(x, tree.ground + 1, z) == Some(Block::OakLog)
            &&& tree.height == 7 <==> tree.block_at(x, tree.ground + 2, z) == Some(Block::OakLog)
            &&& tree.height < 6 ==> tree.block_at(x, tree.ground + 1, z) is None
        }),
{
    let (dx, dz) = tree.root_offset();
    assert(dx * dx + dz * dz == 1) by (nonlinear_arith)
        requires
            (dx == 1 && dz == 0) || (dx == -1 && dz == 0) || (dx == 0 && dz == 1) || (dx == 0
                && dz == -1),
    ;
}

/// A place for a tree is used unless a tree that ranks no lower has a place within two
/// columns of it.
pub proof fn places_are_used(rules: &TreeDecorator, heights: &HeightTable, x: i64, z: i64)
    requires
        rules.candidate(heights, x, z),
    ensures
        rules.stands(heights, x, z) || exists|a: i64, b: i64|
            {
                &&& -2 <= a - x <= 2 && -2 <= b - z <= 2 && (a != x || b != z)
                &&& #[trigger] rules.candidate(heights, a, b)
                &&& rules.rank(a, b) >= rules.rank(x, z)
            },
{
    if !rules.stands(heights, x, z) {
        let (a, b) = choose|a: i64, b: i64|
            -REACH <= a - x <= REACH && -REACH <= b - z <= REACH && (a != x || b != z)
                && #[trigger] rules.candidate(heights, a, b) && rules.outranks(a, b, x, z);
        assert(rules.candidate(heights, a, b));
    }
}

/// Of two places within two columns the one with the higher rank wins: the other stays
/// empty.
pub proof fn higher_ranks_win(
    rules: &TreeDecorator,
    heights: &HeightTable,
    x: i64,
    z: i64,
    a: i64,
    b: i64,
)
    requires
        rules.candidate(heights, x, z),
        rules.candidate(heights, a, b),
        -2 <= a - x <= 2,
        -2 <= b - z <= 2,
        rules.rank(a, b) > rules.rank(x, z),
    ensures
        !rules.stands(heights, x, z),
{
    assert(rules.outranks(a, b, x, z));
}

/// Trees may grow on ground above 62.5 and up to 70.5, where a roll that is even over all
/// columns falls below the density.
pub proof fn trees_grow_on_low_grass(rules: &TreeDecorator, heights: &HeightTable, x: i64, z: i64)
    requires
        !heights.at(x, z).spec_nan(),
        !rules.density.spec_nan(),
    ensures
        rules.candidate(heights, x, z) <==> {
            let twice = 2 * heights.at(x, z).units();
            &&& 125 * one() < twice <= 141 * one()
            &&& rules.rolls(x, z)
        },
        rules.rolls(x, z) <==> spec_hash53(x, 0, z, rules.seed ^ 0x77) * one()
            < 0x20_0000_0000_0000 * rules.density.units(),
{
    shore_heights_in_halves();
    lemma2_to64();
    lemma2_to64_rest();
    lemma_pow2_adds(1028, 46);
    let p = pow2(1028) as int;
    assert(2 * (0x11_a000_0000_0000 * p) == 141 * (p * 0x4000_0000_0000)) by (nonlinear_arith);
    assert(2 * (Double { bits: GRASS_TOP_BITS }).units() == 141 * one());
    lemma_pow2_adds(1021, 53);
    let r = spec_hash53(x, 0, z, rules.seed ^ 0x77) as int;
    let q = pow2(1021) as int;
    let d = rules.density.units();
    assert(r * (q * 0x20_0000_0000_0000) == 0x20_0000_0000_0000 * (r * q)) by (nonlinear_arith);
}

/// A quarter of all trees are four blocks high, thirty-seven of a hundred five, twenty-eight
/// six, and ten seven, to within one roll.
pub proof fn heights_are_spread(rules: &TreeDecorator, x: i64, z: i64)
    ensures
        ({
            let roll = spec_hash53(x, 2, z, rules.seed ^ 0x4B) * 100;
            let all: int = 0x20_0000_0000_0000;
            let height = rules.trunk_height(x, z);
            &&& height == 4 <==> roll < 25 * all
            &&& 25 * all <= roll < 62 * all - 100 ==> height == 5
            &&& 62 * all <= roll < 90 * all ==> height == 6
            &&& height == 7 <==> 90 * all <= roll
        }),
{
}

/// Where trees meet, the first of them has its way, and what no tree reaches stays air.
pub proof fn the_first_tree_has_its_way(trees: Seq<Tree>, x: int, y: int, z: int, i: int)
    requires
        0 <= i < trees.len(),
    ensures
        trees[i].block_at(x, y, z) is Some && (forall|k: int|
            0 <= k < i ==> (#[trigger] trees[k]).block_at(x, y, z) is None) ==> grown(
            trees,
            x,
            y,
            z,
        ) == trees[i].block_at(x, y, z)->0,
        (forall|k: int| 0 <= k < trees.len() ==> (#[trigger] trees[k]).block_at(x, y, z) is None)
            ==> grown(trees, x, y, z) == Block::Air,
    decreases trees.len(),
{
    let rest = trees.drop_last();
    assert forall|k: int| 0 <= k < rest.len() implies #[trigger] rest[k] == trees[k] by {}
    if trees.len() == 1 {
        assert(grown(rest, x, y, z) == Block::Air);
    } else if i < rest.len() {
        the_first_tree_has_its_way(rest, x, y, z, i);
    } else {
        the_first_tree_has_its_way(rest, x, y, z, 0);
    }
}

/// The edge of a crown has gaps: of its leaves a tenth, fifteen or twenty of a hundred, or a
/// quarter are missing, each by a roll of its own.
pub proof fn crowns_have_gaps(tree: Tree, dy: int, dx: int, dz: int)
    requires
        tree.crown_bottom() <= dy <= 0,
        dx == tree.radius_x() || dx == -tree.radius_x(),
        -tree.radius_z() < dz < tree.radius_z(),
    ensures
        ({
            let roll = spec_hash53(
                (tree.x + dx) as i64,
                (dy + 16) as i64,
                (tree.z + dz) as i64,
                tree.shape(),
            ) * 100;
            let all: int = 0x20_0000_0000_0000;
            let n = (tree.shape() >> 4) & 3;
            &&& n == 0 ==> (tree.leaf(dy, dx, dz) <==> roll >= 10 * all)
            &&& n == 1 ==> (tree.leaf(dy, dx, dz) <==> roll >= 15 * all)
            &&& n == 2 ==> (tree.leaf(dy, dx, dz) <==> roll >= 20 * all)
            &&& n == 3 ==> (tree.leaf(dy, dx, dz) <==> roll >= 25 * all)
        }),
{
    let shape = tree.shape();
    assert((shape >> 4) & 3 <= 3) by (bit_vector);
}

} // verus!
