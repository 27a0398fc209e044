//! The tree blocks of a region, each position once.

use crate::world::block::Block;
use crate::world::generator::{grass_lies_low, inside, tree_rules};
use crate::world::heights::HeightTable;
use crate::world::tree::{
    forests_list_standing_trees, tree_blocks_match_positions, Placed, Tree, TreeDecorator,
    REACH,
};
use crate::world::voxel::{same_position, GeneratedVoxelWorld};
use vstd::prelude::*;

verus! {

/// The order of positions: by x, then y, then z.
pub open spec fn place_before(a: Placed, b: Placed) -> bool {
    a.0 < b.0 || (a.0 == b.0 && (a.1 < b.1 || (a.1 == b.1 && a.2 < b.2)))
}

/// Whether blocks are in the order of their positions, each position once.
pub open spec fn in_order(blocks: Seq<Placed>) -> bool {
    forall|i: int, j: int|
        0 <= i < j < blocks.len() ==> place_before(#[trigger] blocks[i], #[trigger] blocks[j])
}

/// What the last of several trees that reaches a position has there.
pub open spec fn last_grown(trees: Seq<Tree>, x: int, y: int, z: int) -> Option<Block>
    decreases trees.len(),
{
    if trees.len() == 0 {
        None
    } else {
        match trees.last().block_at(x, y, z) {
            Some(block) => Some(block),
            None => last_grown(trees.drop_last(), x, y, z),
        }
    }
}

fn is_before(a: Placed, b: Placed) -> (r: bool)
    ensures
        r == place_before(a, b),
{
    a.0 < b.0 || (a.0 == b.0 && (a.1 < b.1 || (a.1 == b.1 && a.2 < b.2)))
}

/// Adds a block, in place of the one that has its position.
fn put_block(blocks: &mut Vec<Placed>, p: Placed)
    requires
        in_order(old(blocks)@),
    ensures
        in_order(final(blocks)@),
        forall|q: Placed| #[trigger]
            final(blocks)@.contains(q) <==> q == p || (old(blocks)@.contains(q) && !same_position(
                q,
                p,
            )),
{
    let mut low: usize = 0;
    let mut high: usize = blocks.len();
    while low < high
        invariant
            low <= high <= blocks@.len(),
            in_order(blocks@),
            forall|k: int| 0 <= k < low ==> place_before(#[trigger] blocks@[k], p),
            forall|k: int| high <= k < blocks@.len() ==> !place_before(#[trigger] blocks@[k], p),
        decreases high - low,
    {
        let middle: usize = low + (high - low) / 2;
        if is_before(blocks[middle], p) {
            assert forall|k: int| 0 <= k < middle + 1 implies place_before(
                #[trigger] blocks@[k],
                p,
            ) by {
                if k < middle {
                    assert(place_before(blocks@[k], blocks@[middle as int]));
                }
            }
            low = middle + 1;
        } else {
            assert forall|k: int| middle <= k < blocks@.len() implies !place_before(
                #[trigger] blocks@[k],
                p,
            ) by {
                if k > middle {
                    assert(place_before(blocks@[middle as int], blocks@[k]));
                }
            }
            high = middle;
        }
    }
    let ghost had = blocks@;
    if low < blocks.len() && blocks[low].0 == p.0 && blocks[low].1 == p.1 && blocks[low].2
        == p.2 {
        blocks.set(low, p);
        proof {
            lemma_replaced(had, low as int, p);
        }
    } else {
        blocks.insert(low, p);
        proof {
            lemma_inserted(had, low as int, p);
        }
    }
}

proof fn lemma_replaced(had: Seq<Placed>, i: int, p: Placed)
    requires
        in_order(had),
        0 <= i < had.len(),
        same_position(had[i], p),
    ensures
        in_order(had.update(i, p)),
        forall|q: Placed| #[trigger]
            had.update(i, p).contains(q) <==> q == p || (had.contains(q) && !same_position(q, p)),
{
    let now = had.update(i, p);
    assert forall|a: int, b: int| 0 <= a < b < now.len() implies place_before(
        #[trigger] now[a],
        #[trigger] now[b],
    ) by {
        assert(place_before(had[a], had[b]));
    }
    assert forall|q: Placed| #[trigger] now.contains(q) <==> q == p || (had.contains(q)
        && !same_position(q, p)) by {
        if now.contains(q) {
            let k = choose|k: int| 0 <= k < now.len() && now[k] == q;
            if k != i {
                assert(had[k] == q);
                if k < i {
                    assert(place_before(had[k], had[i]));
                } else {
                    assert(place_before(had[i], had[k]));
                }
            }
        }
        assert(now[i] == p);
        if had.contains(q) && !same_position(q, p) {
            let k = choose|k: int| 0 <= k < had.len() && had[k] == q;
            assert(now[k] == q);
        }
    }
}

proof fn lemma_inserted(had: Seq<Placed>, i: int, p: Placed)
    requires
        in_order(had),
        0 <= i <= had.len(),
        forall|k: int| 0 <= k < i ==> place_before(#[trigger] had[k], p),
        forall|k: int| i <= k < had.len() ==> !place_before(#[trigger] had[k], p),
        i < had.len() ==> !same_position(had[i], p),
    ensures
        in_order(had.insert(i, p)),
        forall|q: Placed| #[trigger]
            had.insert(i, p).contains(q) <==> q == p || (had.contains(q) && !same_position(q, p)),
{
    let now = had.insert(i, p);
    assert forall|k: int| i <= k < had.len() implies place_before(p, #[trigger] had[k]) by {
        if k > i {
            assert(place_before(had[i], had[k]));
        }
    }
    assert forall|a: int, b: int| 0 <= a < b < now.len() implies place_before(
        #[trigger] now[a],
        #[trigger] now[b],
    ) by {
        let x = if a < i {
            a
        } else {
            a - 1
        };
        let y = if b < i {
            b
        } else {
            b - 1
        };
        if a != i && b != i {
            assert(place_before(had[x], had[y]));
        } else if a == i {
            assert(place_before(p, had[y]));
        } else {
            assert(place_before(had[x], p));
        }
    }
    assert forall|q: Placed| #[trigger] now.contains(q) <==> q == p || (had.contains(q)
        && !same_position(q, p)) by {
        if now.contains(q) {
            let k = choose|k: int| 0 <= k < now.len() && now[k] == q;
            if k < i {
                assert(had[k] == q);
            } else if k > i {
                assert(had[k - 1] == q);
            }
        }
        assert(now[i] == p);
        if had.contains(q) && !same_position(q, p) {
            let k = choose|k: int| 0 <= k < had.len() && had[k] == q;
            if k < i {
                assert(now[k] == q);
            } else {
                assert(now[k + 1] == q);
            }
        }
    }
}

/// Adds the blocks of a tree, in place of those that have their positions.
fn put_tree(blocks: &mut Vec<Placed>, tree: Tree)
    requires
        in_order(old(blocks)@),
        tree.fits(),
    ensures
        in_order(final(blocks)@),
        forall|x: i64, y: i64, z: i64, b: Block| #[trigger]
            final(blocks)@.contains((x, y, z, b)) <==> match tree.block_at(
                x as int,
                y as int,
                z as int,
            ) {
                Some(block) => b == block,
                None => old(blocks)@.contains((x, y, z, b)),
            },
{
    let own = tree.blocks();
    let ghost had = blocks@;
    let mut i: usize = 0;
    while i < own.len()
        invariant
            i <= own.len(),
            in_order(blocks@),
            tree.fits(),
            tree.is_made_of(own@),
            forall|x: i64, y: i64, z: i64, b: Block| #[trigger]
                blocks@.contains((x, y, z, b)) <==> placed_or(
                    own@.take(i as int),
                    had,
                    (x, y, z, b),
                ),
        decreases own.len() - i,
    {
        let ghost before = blocks@;
        put_block(blocks, own[i]);
        proof {
            let done = own@.take(i as int);
            let next = own@.take(i + 1);
            assert(next =~= done.push(own@[i as int]));
            assert forall|x: i64, y: i64, z: i64, b: Block| #[trigger]
                blocks@.contains((x, y, z, b)) <==> placed_or(next, had, (x, y, z, b)) by {
                let q = (x, y, z, b);
                assert(before.contains(q) <==> placed_or(done, had, q));
                lemma_placed_or(tree, own@, had, i as int, q);
            }
        }
        i += 1;
    }
    proof {
        assert(own@.take(i as int) =~= own@);
        assert forall|x: i64, y: i64, z: i64, b: Block| #[trigger]
            blocks@.contains((x, y, z, b)) <==> match tree.block_at(
                x as int,
                y as int,
                z as int,
            ) {
                Some(block) => b == block,
                None => had.contains((x, y, z, b)),
            } by {
            lemma_placed_by_tree(tree, own@, had, x, y, z, b);
        }
    }
}

/// Whether a block is among new ones, or among old ones whose position no new one has.
spec fn placed_or(new: Seq<Placed>, had: Seq<Placed>, q: Placed) -> bool {
    new.contains(q) || (had.contains(q) && !has_position(new, q))
}

spec fn has_position(blocks: Seq<Placed>, q: Placed) -> bool {
    exists|k: int| 0 <= k < blocks.len() && same_position(#[trigger] blocks[k], q)
}

proof fn lemma_placed_or(tree: Tree, own: Seq<Placed>, had: Seq<Placed>, i: int, q: Placed)
    requires
        tree.fits(),
        tree.is_made_of(own),
        0 <= i < own.len(),
    ensures
        placed_or(own.take(i + 1), had, q) <==> q == own[i] || (placed_or(own.take(i), had, q)
            && !same_position(q, own[i])),
{
    let done = own.take(i);
    let next = own.take(i + 1);
    assert(next[i] == own[i]);
    assert forall|k: int| 0 <= k < i implies next[k] == #[trigger] done[k] && !same_position(
        done[k],
        own[i],
    ) by {
        crate::world::tree::tree_blocks_do_not_overlap(tree, own, k, i);
    }
    if next.contains(q) {
        let k = choose|k: int| 0 <= k < next.len() && next[k] == q;
        if k < i {
            assert(done[k] == q);
        }
    }
    if done.contains(q) {
        let k = choose|k: int| 0 <= k < done.len() && done[k] == q;
        assert(next[k] == q);
    }
    if has_position(next, q) {
        let k = choose|k: int| 0 <= k < next.len() && same_position(#[trigger] next[k], q);
        if k < i {
            assert(same_position(done[k], q));
        }
    }
    if has_position(done, q) {
        let k = choose|k: int| 0 <= k < done.len() && same_position(#[trigger] done[k], q);
        assert(same_position(next[k], q));
    }
}

proof fn lemma_placed_by_tree(
    tree: Tree,
    own: Seq<Placed>,
    had: Seq<Placed>,
    x: i64,
    y: i64,
    z: i64,
    b: Block,
)
    requires
        tree.fits(),
        tree.is_made_of(own),
    ensures
        placed_or(own, had, (x, y, z, b)) <==> match tree.block_at(
            x as int,
            y as int,
            z as int,
        ) {
            Some(block) => b == block,
            None => had.contains((x, y, z, b)),
        },
{
    let q = (x, y, z, b);
    tree_blocks_match_positions(tree, own, x, y, z, b);
    match tree.block_at(x as int, y as int, z as int) {
        Some(block) => {
            tree_blocks_match_positions(tree, own, x, y, z, block);
            let k = choose|k: int| 0 <= k < own.len() && own[k] == (x, y, z, block);
            assert(same_position(own[k], q));
        },
        None => {
            if has_position(own, q) {
                let k = choose|k: int| 0 <= k < own.len() && same_position(#[trigger] own[k], q);
                assert(own.contains((x, y, z, own[k].3)));
                tree_blocks_match_positions(tree, own, x, y, z, own[k].3);
            }
        },
    }
}

/// All trees of a region have coordinates within `i64`.
proof fn lemma_region_fits(
    rules: &TreeDecorator,
    heights: &HeightTable,
    x0: i64,
    x1: i64,
    z0: i64,
    z1: i64,
)
    requires
        inside(x0 as int),
        inside(x1 as int),
        inside(z0 as int),
        inside(z1 as int),
    ensures
        forall|i: int|
            0 <= i < rules.forest(heights, x0 as int, x1 as int, z0 as int, z1 as int).len() ==> (
            #[trigger] rules.forest(heights, x0 as int, x1 as int, z0 as int, z1 as int)[i]).fits(),
{
    forests_list_standing_trees(rules, heights, x0 as int, x1 as int, z0 as int, z1 as int);
    let trees = rules.forest(heights, x0 as int, x1 as int, z0 as int, z1 as int);
    assert forall|i: int| 0 <= i < trees.len() implies (#[trigger] trees[i]).fits() by {
        grass_lies_low(heights.at(trees[i].x, trees[i].z));
    }
}

/// The blocks of the trees that stand in a region, in the order of their positions.
/// Where crowns overlap, each position comes once, with what the last tree has there.
pub fn tree_blocks(
    seed: u64,
    heights: &HeightTable,
    x0: i64,
    x1: i64,
    z0: i64,
    z1: i64,
) -> (r: Vec<Placed>)
    requires
        inside(x0 as int),
        inside(x1 as int),
        inside(z0 as int),
        inside(z1 as int),
        x0 <= x1,
        z0 <= z1,
        heights.covers(x0 - REACH, x1 + REACH - 1, z0 - REACH, z1 + REACH - 1),
    ensures
        in_order(r@),
        forall|x: i64, y: i64, z: i64, b: Block| #[trigger]
            r@.contains((x, y, z, b)) <==> last_grown(
                tree_rules(seed).forest(heights, x0 as int, x1 as int, z0 as int, z1 as int),
                x as int,
                y as int,
                z as int,
            ) == Some(b),
{
    let rules = TreeDecorator::new(seed);
    let trees = rules.generate(heights, x0, x1, z0, z1);
    proof {
        assert(rules == tree_rules(seed));
        lemma_region_fits(&rules, heights, x0, x1, z0, z1);
        assert(trees@ == rules.forest(heights, x0 as int, x1 as int, z0 as int, z1 as int));
    }
    let mut out: Vec<Placed> = Vec::new();
    let mut i: usize = 0;
    while i < trees.len()
        invariant
            i <= trees.len(),
            in_order(out@),
            forall|k: int| 0 <= k < trees@.len() ==> (#[trigger] trees@[k]).fits(),
            forall|x: i64, y: i64, z: i64, b: Block| #[trigger]
                out@.contains((x, y, z, b)) <==> last_grown(
                    trees@.take(i as int),
                    x as int,
                    y as int,
                    z as int,
                ) == Some(b),
        decreases trees.len() - i,
    {
        let ghost had = out@;
        put_tree(&mut out, trees[i]);
        proof {
            let next = trees@.take(i + 1);
            assert(next.drop_last() =~= trees@.take(i as int));
            assert(next.last() == trees@[i as int]);
            assert forall|x: i64, y: i64, z: i64, b: Block| #[trigger]
                out@.contains((x, y, z, b)) <==> last_grown(next, x as int, y as int, z as int)
                    == Some(b) by {
                assert(had.contains((x, y, z, b)) <==> last_grown(
                    trees@.take(i as int),
                    x as int,
                    y as int,
                    z as int,
                ) == Some(b));
            }
        }
        i += 1;
    }
    assert(trees@.take(i as int) =~= trees@);
    out
}

impl GeneratedVoxelWorld {
    /// The blocks of the trees that stand in a region, in the order of their
    /// positions. No column has to be generated for it.
    pub fn tree_blocks_in_region(&self, x0: i64, x1: i64, z0: i64, z1: i64) -> (r: Vec<Placed>)
        requires
            inside(x0 as int),
            inside(x1 as int),
            inside(z0 as int),
            inside(z1 as int),
            x0 <= x1,
            z0 <= z1,
            self.ground().covers(x0 - REACH, x1 + REACH - 1, z0 - REACH, z1 + REACH - 1),
        ensures
            in_order(r@),
            forall|x: i64, y: i64, z: i64, b: Block| #[trigger]
                r@.contains((x, y, z, b)) <==> last_grown(
                    tree_rules(self.spec_seed()).forest(
                        &self.ground(),
                        x0 as int,
                        x1 as int,
                        z0 as int,
                        z1 as int,
                    ),
                    x as int,
                    y as int,
                    z as int,
                ) == Some(b),
    {
        tree_blocks(self.seed(), self.heights(), x0, x1, z0, z1)
    }
}

/// Where trees meet, the list of their blocks has that of the last, and it has none where no
/// tree has one.
pub proof fn the_last_tree_is_listed(trees: Seq<Tree>, x: int, y: int, z: int, i: int)
    ensures
        0 <= i < trees.len() && trees[i].block_at(x, y, z) is Some && (forall|k: int|
            i < k < trees.len() ==> (#[trigger] trees[k]).block_at(x, y, z) is None) ==> last_grown(
            trees,
            x,
            y,
            z,
        ) == trees[i].block_at(x, y, z),
        (forall|k: int| 0 <= k < trees.len() ==> (#[trigger] trees[k]).block_at(x, y, z) is None)
            ==> last_grown(trees, x, y, z) is None,
    decreases trees.len(),
{
    if trees.len() > 0 {
        let rest = trees.drop_last();
        assert forall|k: int| 0 <= k < rest.len() implies #[trigger] rest[k] == trees[k] by {}
        assert(trees.last() == trees[trees.len() - 1]);
        the_last_tree_is_listed(rest, x, y, z, i);
    }
}

} // verus!
