//! Generated columns: terrain with the trees that reach it.
//!
//! A column depends on its own height and on the heights within four columns: two
//! for the trees that reach it, two more for the rivals of those trees.

use crate::double::{one, Double};
use crate::world::block::Block;
use crate::world::column::{
    column_top, shore_heights_in_halves, terrain_at, Column, ColumnGen, Y_MAX, Y_MIN,
};
use crate::world::heights::HeightTable;
use crate::world::tree::{
    forests_list_standing_trees, grass_height, grown, tree_blocks_match_positions, Placed, Tree,
    TreeDecorator, DENSITY_BITS, GRASS_TOP_BITS, REACH,
};
use rayon::iter::{IntoParallelIterator, ParallelIterator};
use vstd::arithmetic::power2::{
    lemma2_to64, lemma2_to64_rest, lemma_pow2_adds, lemma_pow2_pos, pow2,
};
use vstd::prelude::*;

verus! {

/// How far from the origin columns may lie: everything near them has coordinates
/// within `i64`.
pub const EDGE: i64 = 0x7fff_ffff_fffe_ffff;

/// How far the heights lie on which a column depends.
pub const HEIGHT_REACH: i64 = 4;

/// Whether a coordinate is far enough from the limits of `i64`.
pub open spec fn inside(v: int) -> bool {
    -EDGE <= v <= EDGE
}

/// The tree rules of a world.
pub open spec fn tree_rules(seed: u64) -> TreeDecorator {
    TreeDecorator { seed, density: Double { bits: DENSITY_BITS } }
}

/// The trees that can reach a column.
pub open spec fn trees_near(
    rules: &TreeDecorator,
    heights: &HeightTable,
    x: int,
    z: int,
) -> Seq<Tree> {
    rules.forest(heights, x - REACH, x + REACH + 1, z - REACH, z + REACH + 1)
}

/// A layer of a column with the trees that reach it: trees grow into air only.
pub open spec fn decorated(ground: Block, trees: Seq<Tree>, x: int, y: int, z: int) -> Block {
    if ground != Block::Air || y < Y_MIN || y > Y_MAX {
        ground
    } else {
        grown(trees, x, y, z)
    }
}

/// What the generator has at a position.
pub open spec fn generated_at(
    seed: u64,
    heights: &HeightTable,
    x: i64,
    y: int,
    z: i64,
) -> Block {
    decorated(
        terrain_at(seed, x, y, z, heights.at(x, z)),
        trees_near(&tree_rules(seed), heights, x as int, z as int),
        x as int,
        y,
        z as int,
    )
}

/// Whether a column holds given ground with the trees that reach it, and no air above
/// them.
pub open spec fn is_decorated(
    column: &Column,
    ground: &Column,
    rules: &TreeDecorator,
    heights: &HeightTable,
) -> bool {
    let trees = trees_near(rules, heights, ground.x as int, ground.z as int);
    &&& column.x == ground.x
    &&& column.z == ground.z
    &&& forall|y: int| #[trigger]
        column.block(y) == decorated(ground.block(y), trees, ground.x as int, y, ground.z as int)
    &&& is_trimmed(column, ground.blocks@.len())
}

/// Whether a column is as long as given, or ends with a block that is not air.
pub open spec fn is_trimmed(column: &Column, len: nat) -> bool {
    &&& column.blocks@.len() >= len
    &&& column.blocks@.len() == len || (column.blocks@.len() <= Y_MAX + 1 && column.blocks@.last()
        != Block::Air)
}

/// Whether a column is what the generator gives for its position.
pub open spec fn is_generated(column: &Column, seed: u64, heights: &HeightTable) -> bool {
    &&& forall|y: int| #[trigger]
        column.block(y) == generated_at(seed, heights, column.x, y, column.z)
    &&& is_trimmed(column, (column_top(heights.at(column.x, column.z)) + 1) as nat)
}

/// Trees stand between the layers 62 and 70.
pub proof fn grass_lies_low(h: Double)
    requires
        grass_height(h),
    ensures
        62 <= h.spec_floor() <= 70,
{
    shore_heights_in_halves();
    lemma2_to64();
    lemma2_to64_rest();
    lemma_pow2_adds(1028, 46);
    let p = pow2(1028) as int;
    let top = (Double { bits: GRASS_TOP_BITS }).units();
    assert(2 * (0x11_a000_0000_0000 * p) == 141 * (p * 0x4000_0000_0000)) by (nonlinear_arith);
    assert(2 * top == 141 * one());
    let u = h.units();
    let d = one();
    lemma_pow2_pos(1074);
    assert(62 <= u / d <= 70) by (nonlinear_arith)
        requires
            2 * u > 125 * d,
            2 * u <= 141 * d,
            d > 0,
    ;
}

/// All trees that can reach a column have coordinates within `i64`.
proof fn lemma_trees_fit(rules: &TreeDecorator, heights: &HeightTable, x: i64, z: i64)
    requires
        inside(x as int),
        inside(z as int),
    ensures
        forall|i: int|
            0 <= i < trees_near(rules, heights, x as int, z as int).len() ==> (
            #[trigger] trees_near(rules, heights, x as int, z as int)[i]).fits(),
{
    let x0 = x - REACH;
    let x1 = x + REACH + 1;
    let z0 = z - REACH;
    let z1 = z + REACH + 1;
    forests_list_standing_trees(rules, heights, x0, x1, z0, z1);
    let trees = trees_near(rules, heights, x as int, z as int);
    assert forall|i: int| 0 <= i < trees.len() implies (#[trigger] trees[i]).fits() by {
        grass_lies_low(heights.at(trees[i].x, trees[i].z));
    }
}

/// One tree's share of decorating a column.
spec fn with_blocks(
    ground: Block,
    blocks: Seq<Placed>,
    x: i64,
    y: int,
    z: i64,
) -> Block
    decreases blocks.len(),
{
    if blocks.len() == 0 {
        ground
    } else {
        let before = with_blocks(ground, blocks.drop_last(), x, y, z);
        let p = blocks.last();
        if before == Block::Air && p.0 == x && p.1 == y && p.2 == z && Y_MIN <= y <= Y_MAX {
            p.3
        } else {
            before
        }
    }
}

/// Decorating with the blocks of one tree fills the air at its positions.
proof fn lemma_with_blocks(tree: Tree, ground: Block, blocks: Seq<Placed>, x: i64, y: i64, z: i64)
    requires
        tree.fits(),
        tree.is_made_of(blocks),
        Y_MIN <= y <= Y_MAX,
    ensures
        with_blocks(ground, blocks, x, y as int, z) == (if ground != Block::Air {
            ground
        } else {
            match tree.block_at(x as int, y as int, z as int) {
                Some(block) => block,
                None => Block::Air,
            }
        }),
{
    lemma_first_block(ground, blocks, x, y, z);
    if ground == Block::Air {
        match tree.block_at(x as int, y as int, z as int) {
            Some(block) => {
                tree_blocks_match_positions(tree, blocks, x, y, z, block);
                assert forall|b: Block| blocks.contains((x, y, z, b)) implies b == block by {
                    tree_blocks_match_positions(tree, blocks, x, y, z, b);
                }
            },
            None => {
                assert forall|b: Block| !blocks.contains((x, y, z, b)) by {
                    tree_blocks_match_positions(tree, blocks, x, y, z, b);
                }
            },
        }
    }
}

/// The outcome of decorating is the ground, or a block listed for the position.
proof fn lemma_first_block(ground: Block, blocks: Seq<Placed>, x: i64, y: i64, z: i64)
    requires
        Y_MIN <= y <= Y_MAX,
    ensures
        ground != Block::Air ==> with_blocks(ground, blocks, x, y as int, z) == ground,
        with_blocks(ground, blocks, x, y as int, z) == ground || blocks.contains(
            (x, y, z, with_blocks(ground, blocks, x, y as int, z)),
        ),
        with_blocks(ground, blocks, x, y as int, z) == Block::Air ==> forall|b: Block|
            b != Block::Air ==> !blocks.contains((x, y, z, b)),
    decreases blocks.len(),
{
    if blocks.len() > 0 {
        let rest = blocks.drop_last();
        lemma_first_block(ground, rest, x, y, z);
        let before = with_blocks(ground, rest, x, y as int, z);
        let now = with_blocks(ground, blocks, x, y as int, z);
        if rest.contains((x, y, z, before)) {
            let k = choose|k: int| 0 <= k < rest.len() && rest[k] == (x, y, z, before);
            assert(blocks[k] == (x, y, z, before));
        }
        assert(blocks[blocks.len() - 1] == blocks.last());
        if now == Block::Air {
            assert(before == Block::Air);
            assert forall|b: Block| b != Block::Air implies !blocks.contains((x, y, z, b)) by {
                if blocks.contains((x, y, z, b)) {
                    let k = choose|k: int| 0 <= k < blocks.len() && blocks[k] == (x, y, z, b);
                    if k < rest.len() {
                        assert(rest[k] == (x, y, z, b));
                        assert(rest.contains((x, y, z, b)));
                    } else {
                        assert(blocks.last() == (x, y, z, b));
                        assert(now == b);
                    }
                }
            }
        }
    }
}

/// Sets a layer of a column, which grows as far as needed.
fn set_layer(column: &mut Column, y: i64, block: Block)
    requires
        Y_MIN <= y <= Y_MAX,
        block != Block::Air,
    ensures
        final(column).x == old(column).x,
        final(column).z == old(column).z,
        final(column).block(y as int) == block,
        forall|k: int| k != y ==> #[trigger] final(column).block(k) == old(column).block(k),
        final(column).blocks@.len() == (if y < old(column).blocks@.len() {
            old(column).blocks@.len() as int
        } else {
            y + 1
        }),
        y >= old(column).blocks@.len() ==> final(column).blocks@.last() == block,
{
    while column.blocks.len() < y as usize + 1
        invariant
            Y_MIN <= y <= Y_MAX,
            column.x == old(column).x,
            column.z == old(column).z,
            forall|k: int| #[trigger] column.block(k) == old(column).block(k),
            column.blocks@.len() >= old(column).blocks@.len(),
            column.blocks@.len() == old(column).blocks@.len() || column.blocks@.len() <= y + 1,
        decreases y + 1 - column.blocks@.len(),
    {
        let ghost had = *column;
        column.blocks.push(Block::Air);
        assert forall|k: int| #[trigger] column.block(k) == old(column).block(k) by {
            assert(had.block(k) == old(column).block(k));
        }
    }
    let ghost had = *column;
    column.blocks.set(y as usize, block);
    assert forall|k: int| k != y implies #[trigger] column.block(k) == old(column).block(k) by {
        assert(had.block(k) == old(column).block(k));
    }
}

/// Puts the blocks of one tree into the air of a column.
fn plant(column: &mut Column, blocks: &Vec<Placed>)
    requires
        forall|i: int| 0 <= i < blocks@.len() ==> (#[trigger] blocks@[i]).3 != Block::Air,
    ensures
        final(column).x == old(column).x,
        final(column).z == old(column).z,
        forall|y: int| #[trigger]
            final(column).block(y) == with_blocks(
                old(column).block(y),
                blocks@,
                old(column).x,
                y,
                old(column).z,
            ),
        is_trimmed(final(column), old(column).blocks@.len()),
{
    let mut i: usize = 0;
    while i < blocks.len()
        invariant
            i <= blocks.len(),
            forall|k: int| 0 <= k < blocks@.len() ==> (#[trigger] blocks@[k]).3 != Block::Air,
            column.x == old(column).x,
            column.z == old(column).z,
            forall|y: int| #[trigger]
                column.block(y) == with_blocks(
                    old(column).block(y),
                    blocks@.take(i as int),
                    old(column).x,
                    y,
                    old(column).z,
                ),
            is_trimmed(column, old(column).blocks@.len()),
        decreases blocks.len() - i,
    {
        let p = blocks[i];
        let ghost had = *column;
        assert(blocks@.take(i + 1).drop_last() =~= blocks@.take(i as int));
        if p.0 == column.x && p.2 == column.z && Y_MIN <= p.1 && p.1 <= Y_MAX && column.get(p.1)
            == Block::Air {
            set_layer(column, p.1, p.3);
        }
        proof {
            assert forall|y: int| #[trigger] column.block(y) == with_blocks(
                old(column).block(y),
                blocks@.take(i + 1),
                old(column).x,
                y,
                old(column).z,
            ) by {
                assert(had.block(y) == with_blocks(
                    old(column).block(y),
                    blocks@.take(i as int),
                    old(column).x,
                    y,
                    old(column).z,
                ));
            }
            if column.blocks@.len() == had.blocks@.len() && column.blocks@.len() > 0 {
                let last = column.blocks@.len() - 1;
                assert(column.block(last) == column.blocks@[last]);
                assert(had.block(last) == had.blocks@[last]);
            }
        }
        i += 1;
    }
    assert(blocks@.take(i as int) =~= blocks@);
}

/// A layer with what one tree has there.
spec fn with_tree(ground: Block, tree: Tree, x: int, y: int, z: int) -> Block {
    if ground != Block::Air || y < Y_MIN || y > Y_MAX {
        ground
    } else {
        match tree.block_at(x, y, z) {
            Some(block) => block,
            None => Block::Air,
        }
    }
}

/// Puts one tree into the air of a column.
fn plant_tree(column: &mut Column, tree: Tree)
    requires
        tree.fits(),
    ensures
        final(column).x == old(column).x,
        final(column).z == old(column).z,
        forall|y: int| #[trigger]
            final(column).block(y) == with_tree(
                old(column).block(y),
                tree,
                old(column).x as int,
                y,
                old(column).z as int,
            ),
        is_trimmed(final(column), old(column).blocks@.len()),
{
    let blocks = tree.blocks();
    proof {
        assert forall|k: int| 0 <= k < blocks@.len() implies (#[trigger] blocks@[k]).3
            != Block::Air by {
            let p = blocks@[k];
            assert(blocks@.contains(p));
            tree_blocks_match_positions(tree, blocks@, p.0, p.1, p.2, p.3);
        }
    }
    let ghost had = *column;
    plant(column, &blocks);
    proof {
        assert forall|y: int| #[trigger] column.block(y) == with_tree(
            had.block(y),
            tree,
            had.x as int,
            y,
            had.z as int,
        ) by {
            if Y_MIN <= y <= Y_MAX {
                lemma_with_blocks(tree, had.block(y), blocks@, had.x, y as i64, had.z);
            } else {
                lemma_out_of_range(had.block(y), blocks@, had.x, y, had.z);
            }
        }
    }
}

/// Puts trees into the air of a column, the first ones first.
fn plant_all(column: Column, trees: &Vec<Tree>) -> (r: Column)
    requires
        forall|k: int| 0 <= k < trees@.len() ==> (#[trigger] trees@[k]).fits(),
    ensures
        r.x == column.x,
        r.z == column.z,
        forall|y: int| #[trigger]
            r.block(y) == decorated(
                column.block(y),
                trees@,
                column.x as int,
                y,
                column.z as int,
            ),
        is_trimmed(&r, column.blocks@.len()),
{
    let x: i64 = column.x;
    let z: i64 = column.z;
    let ghost ground = column;
    let mut out = column;
    let mut i: usize = 0;
    while i < trees.len()
        invariant
            i <= trees.len(),
            forall|k: int| 0 <= k < trees@.len() ==> (#[trigger] trees@[k]).fits(),
            out.x == x,
            out.z == z,
            forall|y: int| #[trigger]
                out.block(y) == decorated(
                    ground.block(y),
                    trees@.take(i as int),
                    x as int,
                    y,
                    z as int,
                ),
            is_trimmed(&out, ground.blocks@.len()),
        decreases trees.len() - i,
    {
        let ghost had = out;
        plant_tree(&mut out, trees[i]);
        proof {
            let done = trees@.take(i + 1);
            assert(done.drop_last() =~= trees@.take(i as int));
            assert forall|y: int| #[trigger] out.block(y) == decorated(
                ground.block(y),
                done,
                x as int,
                y,
                z as int,
            ) by {
                assert(had.block(y) == decorated(
                    ground.block(y),
                    trees@.take(i as int),
                    x as int,
                    y,
                    z as int,
                ));
            }
            if out.blocks@.len() == had.blocks@.len() && out.blocks@.len() > 0 {
                let last = out.blocks@.len() - 1;
                assert(out.block(last) == out.blocks@[last]);
                assert(had.block(last) == had.blocks@[last]);
            }
        }
        i += 1;
    }
    assert(trees@.take(i as int) =~= trees@);
    out
}

/// Whether all heights on which a column depends have been sampled.
pub open spec fn is_surveyed(heights: &HeightTable, x: i64, z: i64) -> bool {
    heights.covers(x - HEIGHT_REACH, x + HEIGHT_REACH, z - HEIGHT_REACH, z + HEIGHT_REACH)
}

/// Puts the trees that reach a column into its air. Terrain and water stay.
pub fn decorate_column(column: Column, heights: &HeightTable, rules: &TreeDecorator) -> (r: Column)
    requires
        inside(column.x as int),
        inside(column.z as int),
        is_surveyed(heights, column.x, column.z),
    ensures
        is_decorated(&r, &column, rules, heights),
{
    let x: i64 = column.x;
    let z: i64 = column.z;
    let trees = rules.generate(heights, x - REACH, x + REACH + 1, z - REACH, z + REACH + 1);
    proof {
        lemma_trees_fit(rules, heights, x, z);
        assert(trees@ == trees_near(rules, heights, x as int, z as int));
    }
    plant_all(column, &trees)
}

proof fn lemma_out_of_range(ground: Block, blocks: Seq<Placed>, x: i64, y: int, z: i64)
    requires
        y < Y_MIN || y > Y_MAX,
    ensures
        with_blocks(ground, blocks, x, y, z) == ground,
    decreases blocks.len(),
{
    if blocks.len() > 0 {
        lemma_out_of_range(ground, blocks.drop_last(), x, y, z);
    }
}

/// The column of a position, with its trees.
pub fn generate_column(seed: u64, heights: &HeightTable, x: i64, z: i64) -> (r: Column)
    requires
        inside(x as int),
        inside(z as int),
        is_surveyed(heights, x, z),
    ensures
        r.x == x,
        r.z == z,
        is_generated(&r, seed, heights),
        r.blocks@.len() <= Y_MAX + 1,
{
    let ground = ColumnGen::new(seed).generate(x, z, heights.height(x, z));
    let rules = TreeDecorator::new(seed);
    assert(rules == tree_rules(seed));
    decorate_column(ground, heights, &rules)
}

/// `rayon`'s parallel map: the columns of the given positions, in their order. Each
/// element is what [`generate_column`] returns for its position.
#[verifier::external_body]
pub(crate) fn generate_columns(
    seed: u64,
    heights: &HeightTable,
    positions: Vec<(i64, i64)>,
) -> (r: Vec<Column>)
    requires
        forall|i: int|
            0 <= i < positions@.len() ==> inside((#[trigger] positions@[i]).0 as int) && inside(
                positions@[i].1 as int,
            ) && is_surveyed(heights, positions@[i].0, positions@[i].1),
    ensures
        r@.len() == positions@.len(),
        forall|i: int|
            0 <= i < r@.len() ==> {
                &&& (#[trigger] r@[i]).x == positions@[i].0
                &&& r@[i].z == positions@[i].1
                &&& is_generated(&r@[i], seed, heights)
                &&& r@[i].blocks@.len() <= Y_MAX + 1
            },
{
    positions.into_par_iter().map(|(x, z)| generate_column(seed, heights, x, z)).collect()
}

/// Whether two tables agree on the heights on which a column depends.
pub open spec fn same_ground(a: &HeightTable, b: &HeightTable, x: i64, z: i64) -> bool {
    forall|c: i64, d: i64|
        -HEIGHT_REACH <= c - x <= HEIGHT_REACH && -HEIGHT_REACH <= d - z <= HEIGHT_REACH
            ==> #[trigger] a.at(c, d) == b.at(c, d)
}

/// A column depends on the seed and on the heights within four columns, and on
/// nothing else.
pub proof fn columns_depend_on_near_heights(
    seed: u64,
    a: &HeightTable,
    b: &HeightTable,
    x: i64,
    y: int,
    z: i64,
)
    requires
        inside(x as int),
        inside(z as int),
        same_ground(a, b, x, z),
    ensures
        generated_at(seed, a, x, y, z) == generated_at(seed, b, x, y, z),
{
    let rules = tree_rules(seed);
    lemma_same_forest(
        &rules,
        a,
        b,
        x,
        z,
        z + REACH + 1,
    );
    assert(a.at(x, z) == b.at(x, z));
}

proof fn lemma_same_forest(
    rules: &TreeDecorator,
    a: &HeightTable,
    b: &HeightTable,
    x: i64,
    z: i64,
    z1: int,
)
    requires
        inside(x as int),
        inside(z as int),
        same_ground(a, b, x, z),
        z1 <= z + REACH + 1,
    ensures
        rules.forest(a, x - REACH, x + REACH + 1, z - REACH, z1) == rules.forest(
            b,
            x - REACH,
            x + REACH + 1,
            z - REACH,
            z1,
        ),
    decreases z1 - (z - REACH),
{
    if z1 > z - REACH {
        lemma_same_forest(rules, a, b, x, z, z1 - 1);
        lemma_same_row(rules, a, b, x, z, x + REACH + 1, z1 - 1);
    }
}

proof fn lemma_same_row(
    rules: &TreeDecorator,
    a: &HeightTable,
    b: &HeightTable,
    x: i64,
    z: i64,
    x1: int,
    row: int,
)
    requires
        inside(x as int),
        inside(z as int),
        same_ground(a, b, x, z),
        x1 <= x + REACH + 1,
        z - REACH <= row <= z + REACH,
    ensures
        rules.row(a, x - REACH, x1, row) == rules.row(b, x - REACH, x1, row),
    decreases x1 - (x - REACH),
{
    if x1 > x - REACH {
        lemma_same_row(rules, a, b, x, z, x1 - 1, row);
        let c = (x1 - 1) as i64;
        let d = row as i64;
        assert(a.at(c, d) == b.at(c, d));
        assert(rules.candidate(a, c, d) == rules.candidate(b, c, d));
        assert forall|e: i64, f: i64|
            -REACH <= e - c <= REACH && -REACH <= f - d <= REACH implies #[trigger] rules.candidate(
            a,
            e,
            f,
        ) == rules.candidate(b, e, f) by {
            assert(a.at(e, f) == b.at(e, f));
        }
        assert(rules.stands(a, c, d) == rules.stands(b, c, d)) by {
            if rules.stands(a, c, d) {
                assert forall|e: i64, f: i64|
                    -REACH <= e - c <= REACH && -REACH <= f - d <= REACH && (e != c || f
                        != d) implies !(#[trigger] rules.candidate(b, e, f) && rules.outranks(
                    e,
                    f,
                    c,
                    d,
                )) by {
                    assert(rules.candidate(a, e, f) == rules.candidate(b, e, f));
                }
            }
            if rules.stands(b, c, d) {
                assert forall|e: i64, f: i64|
                    -REACH <= e - c <= REACH && -REACH <= f - d <= REACH && (e != c || f
                        != d) implies !(#[trigger] rules.candidate(a, e, f) && rules.outranks(
                    e,
                    f,
                    c,
                    d,
                )) by {
                    assert(rules.candidate(a, e, f) == rules.candidate(b, e, f));
                }
            }
        }
    }
}

/// Trees grow into every column that they reach: where a standing tree has a block
/// and the ground is air, the generator has that block if no other standing tree reaches
/// the position, and wood or leaves in any case.
pub proof fn trees_reach_their_columns(
    seed: u64,
    heights: &HeightTable,
    tree_x: i64,
    tree_z: i64,
    x: i64,
    y: int,
    z: i64,
)
    requires
        inside(x as int),
        inside(z as int),
        tree_rules(seed).stands(heights, tree_x, tree_z),
        tree_rules(seed).tree_at(heights, tree_x, tree_z).block_at(
            x as int,
            y,
            z as int,
        ) is Some,
        -REACH <= x - tree_x <= REACH,
        -REACH <= z - tree_z <= REACH,
        Y_MIN <= y <= Y_MAX,
        terrain_at(seed, x, y, z, heights.at(x, z)) == Block::Air,
    ensures
        generated_at(seed, heights, x, y, z) == Block::OakLog || generated_at(
            seed,
            heights,
            x,
            y,
            z,
        ) == Block::OakLeaves,
        is_alone(&tree_rules(seed), heights, tree_x, tree_z, x, y, z) ==> Some(
            generated_at(seed, heights, x, y, z),
        ) == tree_rules(seed).tree_at(heights, tree_x, tree_z).block_at(x as int, y, z as int),
{
    let rules = tree_rules(seed);
    let trees = trees_near(&rules, heights, x as int, z as int);
    forests_list_standing_trees(
        &rules,
        heights,
        x - REACH,
        x + REACH + 1,
        z - REACH,
        z + REACH + 1,
    );
    let tree = rules.tree_at(heights, tree_x, tree_z);
    assert(trees.contains(tree));
    lemma_grown_somewhere(trees, tree, x as int, y, z as int);
    if is_alone(&rules, heights, tree_x, tree_z, x, y, z) {
        lemma_grown_alone(trees, tree, x as int, y, z as int);
    }
}

/// Whether no other standing tree than one has a block at a position.
pub open spec fn is_alone(
    rules: &TreeDecorator,
    heights: &HeightTable,
    tree_x: i64,
    tree_z: i64,
    x: i64,
    y: int,
    z: i64,
) -> bool {
    forall|a: i64, b: i64|
        #![trigger rules.stands(heights, a, b)]
        #![trigger rules.tree_at(heights, a, b)]
        rules.stands(heights, a, b) && (a != tree_x || b != tree_z) ==> rules.tree_at(
            heights,
            a,
            b,
        ).block_at(x as int, y, z as int) is None
}

proof fn lemma_grown_alone(trees: Seq<Tree>, tree: Tree, x: int, y: int, z: int)
    requires
        tree.block_at(x, y, z) is Some,
        forall|i: int|
            0 <= i < trees.len() ==> #[trigger] trees[i] == tree || trees[i].block_at(
                x,
                y,
                z,
            ) is None,
    ensures
        trees.contains(tree) ==> Some(grown(trees, x, y, z)) == tree.block_at(x, y, z),
        !trees.contains(tree) ==> grown(trees, x, y, z) == Block::Air,
    decreases trees.len(),
{
    if trees.len() > 0 {
        let rest = trees.drop_last();
        assert forall|i: int| 0 <= i < rest.len() implies #[trigger] rest[i] == tree
            || rest[i].block_at(x, y, z) is None by {
            assert(rest[i] == trees[i]);
        }
        lemma_grown_alone(rest, tree, x, y, z);
        if rest.contains(tree) {
            let k = choose|k: int| 0 <= k < rest.len() && rest[k] == tree;
            assert(trees[k] == tree);
        }
        if trees.contains(tree) && !rest.contains(tree) {
            let k = choose|k: int| 0 <= k < trees.len() && trees[k] == tree;
            if k < rest.len() {
                assert(rest[k] == tree);
            }
        }
        if trees.last() == tree {
            assert(trees[trees.len() - 1] == tree);
        }
    }
}

proof fn lemma_grown_somewhere(trees: Seq<Tree>, tree: Tree, x: int, y: int, z: int)
    requires
        trees.contains(tree),
        tree.block_at(x, y, z) is Some,
    ensures
        grown(trees, x, y, z) == Block::OakLog || grown(trees, x, y, z) == Block::OakLeaves,
    decreases trees.len(),
{
    let k = choose|k: int| 0 <= k < trees.len() && trees[k] == tree;
    if k < trees.len() - 1 {
        assert(trees.drop_last()[k] == tree);
        lemma_grown_somewhere(trees.drop_last(), tree, x, y, z);
    } else {
        lemma_grown_is_tree(trees.drop_last(), x, y, z);
    }
}

proof fn lemma_grown_is_tree(trees: Seq<Tree>, x: int, y: int, z: int)
    ensures
        grown(trees, x, y, z) == Block::Air || grown(trees, x, y, z) == Block::OakLog || grown(
            trees,
            x,
            y,
            z,
        ) == Block::OakLeaves,
    decreases trees.len(),
{
    if trees.len() > 0 {
        lemma_grown_is_tree(trees.drop_last(), x, y, z);
    }
}

} // verus!
