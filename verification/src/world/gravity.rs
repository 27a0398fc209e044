//! Falling blocks, and water that takes the place of a removed block beside it.

use crate::world::block::Block;
use crate::world::column::{Y_MAX, Y_MIN};
use crate::world::generator::{inside, HEIGHT_REACH};
use crate::world::light::gap;
use crate::world::tree::Placed;
use crate::world::voxel::{layer, GeneratedVoxelWorld};
use vstd::prelude::*;
use vstd::seq_lib::to_multiset_update;

verus! {

/// The blocks of a column from the lowest layer up.
pub type Cells = Seq<Block>;

/// Whether a block falls where nothing is below it.
pub open spec fn falls(block: Block) -> bool {
    block.spec_def().gravity
}

/// Where a block at a layer comes to rest: above the first block below it, or on the
/// lowest layer.
pub open spec fn landing(cells: Cells, y: int) -> int
    decreases y,
{
    if y > 0 && cells[y - 1] == Block::Air {
        landing(cells, y - 1)
    } else {
        y
    }
}

/// A column after the block at a layer has fallen, if it is one that falls.
pub open spec fn dropped(cells: Cells, may_fall: spec_fn(int) -> bool, y: int) -> Cells {
    if y > 0 && may_fall(y) && falls(cells[y]) && landing(cells, y) < y {
        cells.update(y, Block::Air).update(landing(cells, y), cells[y])
    } else {
        cells
    }
}

/// A column after its blocks up to a layer have fallen, the highest first.
pub open spec fn fallen(cells: Cells, may_fall: spec_fn(int) -> bool, y: int) -> Cells
    decreases y,
{
    if y <= 0 {
        cells
    } else {
        fallen(dropped(cells, may_fall, y), may_fall, y - 1)
    }
}

/// The edits of a column from the lowest layer up.
pub type Edits = Seq<Option<Block>>;

/// The edits of a column after the block at a layer has fallen, if it is one that falls:
/// it leaves an edit of air, and is an edit where it comes to rest.
pub open spec fn dropped_edits(
    cells: Cells,
    edits: Edits,
    may_fall: spec_fn(int) -> bool,
    y: int,
) -> Edits {
    if y > 0 && may_fall(y) && falls(cells[y]) && landing(cells, y) < y {
        edits.update(y, Some(Block::Air)).update(landing(cells, y), Some(cells[y]))
    } else {
        edits
    }
}

/// The edits of a column after its blocks up to a layer have fallen, the highest first.
pub open spec fn fallen_edits(
    cells: Cells,
    edits: Edits,
    may_fall: spec_fn(int) -> bool,
    y: int,
) -> Edits
    decreases y,
{
    if y <= 0 {
        edits
    } else {
        fallen_edits(
            dropped(cells, may_fall, y),
            dropped_edits(cells, edits, may_fall, y),
            may_fall,
            y - 1,
        )
    }
}

/// Whether the column itself is asked when the block at a layer is looked at: at a layer
/// without an edit, which is its own or, where it falls, one down to what it rests on.
pub open spec fn asks(cells: Cells, edits: Edits, y: int) -> bool {
    ||| edits[y] is None
    ||| falls(cells[y]) && some_unedited(edits, landing(cells, y) - 1, y)
}

/// Whether a layer from one up to another has no edit.
#[verifier::opaque]
pub open spec fn some_unedited(edits: Edits, from: int, to: int) -> bool {
    exists|k: int| 0 <= k && from <= k < to && (#[trigger] edits[k]) is None
}

/// Whether the column itself is asked when its blocks up to a layer fall.
pub open spec fn fallen_asks(
    cells: Cells,
    edits: Edits,
    may_fall: spec_fn(int) -> bool,
    y: int,
) -> bool
    decreases y,
{
    y > 0 && ((may_fall(y) && asks(cells, edits, y)) || fallen_asks(
        dropped(cells, may_fall, y),
        dropped_edits(cells, edits, may_fall, y),
        may_fall,
        y - 1,
    ))
}

/// The neighbours of a position, in the order in which water is looked for.
pub open spec fn neighbour(x: i64, y: int, z: i64, n: int) -> (i64, int, i64) {
    if n == 0 {
        ((x - 1) as i64, y, z)
    } else if n == 1 {
        ((x + 1) as i64, y, z)
    } else if n == 2 {
        (x, y - 1, z)
    } else if n == 3 {
        (x, y + 1, z)
    } else if n == 4 {
        (x, y, (z - 1) as i64)
    } else {
        (x, y, (z + 1) as i64)
    }
}

fn neighbour_of(x: i64, y: i64, z: i64, n: i64) -> (r: (i64, i64, i64))
    requires
        inside(x - 1),
        inside(x + 1),
        inside(z - 1),
        inside(z + 1),
        i64::MIN < y < i64::MAX,
    ensures
        (r.0, r.1 as int, r.2) == neighbour(x, y as int, z, n as int),
{
    match n {
        0 => (x - 1, y, z),
        1 => (x + 1, y, z),
        2 => (x, y - 1, z),
        3 => (x, y + 1, z),
        4 => (x, y, z - 1),
        _ => (x, y, z + 1),
    }
}

impl GeneratedVoxelWorld {
    /// The edits of a column.
    pub open spec fn column_edits(&self, x: i64, z: i64) -> Edits {
        Seq::new((Y_MAX + 1) as nat, |y: int| self.edit(x, y, z))
    }

    /// The blocks of a column.
    pub open spec fn cells(&self, x: i64, z: i64) -> Cells {
        Seq::new((Y_MAX + 1) as nat, |y: int| self.content(x, y, z))
    }

    /// Whether a position is looked at when blocks fall: what is kept of its column, or
    /// its edit, is a block that falls.
    pub open spec fn may_fall(&self, x: i64, z: i64, y: int) -> bool {
        (self.cached(x, z) && falls(self.kept(x, z).block(y))) || (self.edit(x, y, z) is Some
            && falls(self.edit(x, y, z)->0))
    }

    /// The positions of a column that are looked at when blocks fall.
    pub open spec fn loose(&self, x: i64, z: i64) -> spec_fn(int) -> bool {
        |y: int| self.may_fall(x, z, y)
    }

    fn loose_layers(&self, x: i64, z: i64) -> (r: Vec<bool>)
        requires
            self.wf(),
            inside(x as int),
            inside(z as int),
        ensures
            r@.len() == Y_MAX + 1,
            forall|y: int| 0 <= y <= Y_MAX ==> #[trigger] r@[y] == self.may_fall(x, z, y),
    {
        let mut out: Vec<bool> = Vec::new();
        let mut y: i64 = 0;
        while y <= Y_MAX
            invariant
                self.wf(),
                0 <= y <= Y_MAX + 1,
                out@.len() == y,
                forall|k: int| 0 <= k < y ==> #[trigger] out@[k] == self.may_fall(x, z, k),
            decreases Y_MAX + 1 - y,
        {
            let kept = match self.kept_block(x, y, z) {
                Some(block) => block.def().gravity,
                None => false,
            };
            let edited = match self.edited_block(x, y, z) {
                Some(block) => block.def().gravity,
                None => false,
            };
            out.push(kept || edited);
            y += 1;
        }
        out
    }

    /// Lets the blocks of one column fall.
    fn settle_column(&mut self, x: i64, z: i64) -> (r: bool)
        requires
            old(self).wf(),
            forall|y: int| #[trigger] old(self).may_fall(x, z, y) ==> old(self).knows(x, z),
            inside(x as int),
            inside(z as int),
        ensures
            final(self).wf(),
            final(self).spec_seed() == old(self).spec_seed(),
            final(self).ground() == old(self).ground(),
            final(self).keeps_more(old(self)),
            final(self).cells(x, z) == fallen(
                old(self).cells(x, z),
                old(self).loose(x, z),
                Y_MAX as int,
            ),
            final(self).column_edits(x, z) == fallen_edits(
                old(self).cells(x, z),
                old(self).column_edits(x, z),
                old(self).loose(x, z),
                Y_MAX as int,
            ),
            final(self).cached(x, z) == (old(self).cached(x, z) || fallen_asks(
                old(self).cells(x, z),
                old(self).column_edits(x, z),
                old(self).loose(x, z),
                Y_MAX as int,
            )),
            final(self).apart_from(old(self), x, z),
            r <==> final(self).cells(x, z) != old(self).cells(x, z),
    {
        let loose = self.loose_layers(x, z);
        let ghost may = self.loose(x, z);
        let ghost start = self.cells(x, z);
        let ghost start_edits = self.column_edits(x, z);
        let mut changed = false;
        let mut y: i64 = Y_MAX;
        proof {
            self.lemma_apart_itself(x, z);
        }
        while y > Y_MIN
            invariant
                self.wf(),
                inside(x as int),
                inside(z as int),
                0 <= y <= Y_MAX,
                self.spec_seed() == old(self).spec_seed(),
                self.ground() == old(self).ground(),
                self.keeps_more(old(self)),
                loose@.len() == Y_MAX + 1,
                forall|k: int| 0 <= k <= Y_MAX ==> #[trigger] loose@[k] == may(k),
                forall|k: int| #[trigger] may(k) ==> old(self).knows(x, z),
                fallen(self.cells(x, z), may, y as int) == fallen(start, may, Y_MAX as int),
                fallen_edits(self.cells(x, z), self.column_edits(x, z), may, y as int)
                    == fallen_edits(start, start_edits, may, Y_MAX as int),
                (self.cached(x, z) || fallen_asks(
                    self.cells(x, z),
                    self.column_edits(x, z),
                    may,
                    y as int,
                )) == (old(self).cached(x, z) || fallen_asks(
                    start,
                    start_edits,
                    may,
                    Y_MAX as int,
                )),
                start.len() == Y_MAX + 1,
                !changed ==> self.cells(x, z) == start,
                changed ==> exists|k: int|
                    y < k <= Y_MAX && #[trigger] self.cells(x, z)[k] != start[k],
                self.apart_from(old(self), x, z),
            decreases y,
        {
            if loose[y as usize] {
                let ghost before = self.cells(x, z);
                let ghost before_edits = self.column_edits(x, z);
                let ghost world = *self;
                proof {
                    assert(may(y as int));
                    self.lemma_knows_more(old(self));
                }
                let moved = self.drop_block(x, y, z);
                proof {
                    Self::lemma_keeps_more_yet(old(self), &world, self);
                    self.lemma_apart_yet(&world, old(self), x, z);
                    assert(self.cells(x, z) == dropped(before, may, y as int));
                    assert(self.column_edits(x, z) == dropped_edits(
                        before,
                        before_edits,
                        may,
                        y as int,
                    ));
                    lemma_landing(before, y as int);
                    if moved {
                        assert(self.cells(x, z)[y as int] == Block::Air);
                        if !changed {
                            assert(start[y as int] == before[y as int]);
                        } else {
                            let k = choose|k: int|
                                y < k <= Y_MAX && #[trigger] before[k] != start[k];
                            assert(self.cells(x, z)[k] == before[k]);
                        }
                    }
                    if changed {
                        let k = choose|k: int| y < k <= Y_MAX && #[trigger] before[k] != start[k];
                        assert(self.cells(x, z)[k] == before[k]);
                    }
                }
                changed = changed || moved;
            }
            y -= 1;
        }
        changed
    }

    /// The block at a position of a column that is known.
    fn ask(&mut self, x: i64, y: i64, z: i64) -> (r: Block)
        requires
            old(self).wf(),
            old(self).knows(x, z),
            inside(x as int),
            inside(z as int),
            0 <= y <= Y_MAX,
        ensures
            r == old(self).cells(x, z)[y as int],
            final(self).wf(),
            final(self).spec_seed() == old(self).spec_seed(),
            final(self).ground() == old(self).ground(),
            final(self).knows(x, z),
            final(self).keeps_more(old(self)),
            final(self).cells(x, z) == old(self).cells(x, z),
            final(self).column_edits(x, z) == old(self).column_edits(x, z),
            final(self).cached(x, z) == (old(self).cached(x, z) || old(self).column_edits(
                x,
                z,
            )[y as int] is None),
            final(self).apart_from(old(self), x, z),
    {
        let r = self.look(x, y, z);
        proof {
            self.lemma_look(old(self), x, z);
            self.lemma_knows_more(old(self));
            assert(old(self).column_edits(x, z)[y as int] == old(self).edit(x, y as int, z));
        }
        r
    }

    /// Where the block at a position of a column that is known comes to rest.
    fn find_landing(&mut self, x: i64, y: i64, z: i64) -> (d: i64)
        requires
            old(self).wf(),
            old(self).knows(x, z),
            inside(x as int),
            inside(z as int),
            0 < y <= Y_MAX,
        ensures
            d == landing(old(self).cells(x, z), y as int),
            0 <= d <= y,
            final(self).wf(),
            final(self).spec_seed() == old(self).spec_seed(),
            final(self).ground() == old(self).ground(),
            final(self).knows(x, z),
            final(self).keeps_more(old(self)),
            final(self).cells(x, z) == old(self).cells(x, z),
            final(self).column_edits(x, z) == old(self).column_edits(x, z),
            final(self).cached(x, z) == (old(self).cached(x, z) || some_unedited(
                old(self).column_edits(x, z),
                d - 1,
                y as int,
            )),
            final(self).apart_from(old(self), x, z),
    {
        let ghost cells = self.cells(x, z);
        let ghost edits = self.column_edits(x, z);
        let mut d: i64 = y;
        proof {
            self.lemma_apart_itself(x, z);
            self.lemma_keeps_itself();
            lemma_none_yet(edits, y as int);
        }
        while d > 0
            invariant_except_break
                self.cached(x, z) == (old(self).cached(x, z) || some_unedited(
                    edits,
                    d as int,
                    y as int,
                )),
            invariant
                self.wf(),
                inside(x as int),
                inside(z as int),
                0 <= d <= y <= Y_MAX,
                self.knows(x, z),
                cells == self.cells(x, z),
                edits == self.column_edits(x, z),
                landing(cells, y as int) == landing(cells, d as int),
                self.spec_seed() == old(self).spec_seed(),
                self.ground() == old(self).ground(),
                self.keeps_more(old(self)),
                self.apart_from(old(self), x, z),
                some_unedited(edits, -1, y as int) == some_unedited(edits, 0, y as int),
            ensures
                landing(cells, y as int) == d,
                self.cached(x, z) == (old(self).cached(x, z) || some_unedited(
                    edits,
                    d - 1,
                    y as int,
                )),
            decreases d,
        {
            let ghost before = *self;
            let below = self.ask(x, d - 1, z);
            proof {
                Self::lemma_keeps_more_yet(old(self), &before, self);
                self.lemma_apart_yet(&before, old(self), x, z);
                lemma_one_more(edits, d as int, y as int);
            }
            if below != Block::Air {
                break;
            }
            d -= 1;
        }
        d
    }

    /// Lets the block at a position fall, if it is one that falls.
    fn drop_block(&mut self, x: i64, y: i64, z: i64) -> (r: bool)
        requires
            old(self).wf(),
            old(self).knows(x, z),
            inside(x as int),
            inside(z as int),
            0 < y <= Y_MAX,
        ensures
            final(self).wf(),
            final(self).spec_seed() == old(self).spec_seed(),
            final(self).ground() == old(self).ground(),
            final(self).keeps_more(old(self)),
            ({
                let cells = old(self).cells(x, z);
                let edits = old(self).column_edits(x, z);
                &&& final(self).cells(x, z) == dropped(cells, |k: int| true, y as int)
                &&& final(self).column_edits(x, z) == dropped_edits(
                    cells,
                    edits,
                    |k: int| true,
                    y as int,
                )
                &&& final(self).cached(x, z) == (old(self).cached(x, z) || asks(
                    cells,
                    edits,
                    y as int,
                ))
                &&& r <==> falls(cells[y as int]) && landing(cells, y as int) < y
            }),
            final(self).apart_from(old(self), x, z),
    {
        let ghost cells = self.cells(x, z);
        let ghost edits = self.column_edits(x, z);
        let block = self.ask(x, y, z);
        if !block.def().gravity {
            return false;
        }
        let ghost asked = *self;
        let d = self.find_landing(x, y, z);
        proof {
            Self::lemma_keeps_more_yet(old(self), &asked, self);
            self.lemma_apart_yet(&asked, old(self), x, z);
        }
        if d < y {
            let ghost before = *self;
            self.set_block_raw(x, y, z, Block::Air);
            let ghost middle = *self;
            self.set_block_raw(x, d, z, block);
            proof {
                lemma_edits_keep_columns(&before, &middle, self, x, y as int, d as int, z, block);
                Self::lemma_keeps_more_yet(old(self), &before, self);
                assert(self.cells(x, z) =~= cells.update(y as int, Block::Air).update(
                    d as int,
                    block,
                )) by {
                    assert forall|k: int| 0 <= k <= Y_MAX implies self.cells(x, z)[k]
                        == cells.update(y as int, Block::Air).update(d as int, block)[k] by {
                        lemma_edited(&before, &middle, x, y as int, z, Block::Air, x, k, z);
                        lemma_edited(&middle, self, x, d as int, z, block, x, k, z);
                    }
                }
                assert(self.column_edits(x, z) =~= edits.update(
                    y as int,
                    Some(Block::Air),
                ).update(d as int, Some(block))) by {
                    assert forall|k: int| 0 <= k <= Y_MAX implies self.edit(x, k, z)
                        == edits.update(y as int, Some(Block::Air)).update(
                        d as int,
                        Some(block),
                    )[k] by {
                        assert(edits[k] == before.edit(x, k, z));
                        lemma_edited(&before, &middle, x, y as int, z, Block::Air, x, k, z);
                        lemma_edited(&middle, self, x, d as int, z, block, x, k, z);
                    }
                }
                assert(self.cached(x, z) == before.cached(x, z)) by {
                    assert(middle.cached(x, z) == before.cached(x, z));
                }
                assert(self.apart_from(&before, x, z)) by {
                    reveal(GeneratedVoxelWorld::apart_from);
                    assert forall|a: i64, c: int, b: i64|
                        a != x || b != z implies #[trigger] self.edit(a, c, b) == before.edit(
                        a,
                        c,
                        b,
                    ) by {
                        lemma_edited(&before, &middle, x, y as int, z, Block::Air, a, c, b);
                        lemma_edited(&middle, self, x, d as int, z, block, a, c, b);
                    }
                    assert forall|a: i64, b: i64|
                        a != x || b != z implies (#[trigger] self.cached(a, b)) == before.cached(
                        a,
                        b,
                    ) && self.kept(a, b) == before.kept(a, b) by {
                        assert(middle.cached(a, b) == before.cached(a, b));
                    }
                }
                self.lemma_apart_yet(&before, old(self), x, z);
            }
            true
        } else {
            false
        }
    }

    /// Whether the world is another one but for one column.
    #[verifier::opaque]
    spec fn apart_from(&self, before: &GeneratedVoxelWorld, x: i64, z: i64) -> bool {
        &&& self.spec_seed() == before.spec_seed()
        &&& self.ground() == before.ground()
        &&& forall|a: i64, c: int, b: i64|
            a != x || b != z ==> #[trigger] self.edit(a, c, b) == before.edit(a, c, b)
        &&& forall|a: i64, b: i64|
            #![trigger self.cached(a, b)]
            a != x || b != z ==> self.cached(a, b) == before.cached(a, b) && (self.cached(a, b)
                ==> self.kept(a, b) == before.kept(a, b))
    }

    proof fn lemma_apart_itself(&self, x: i64, z: i64)
        ensures
            self.apart_from(self, x, z),
    {
        reveal(GeneratedVoxelWorld::apart_from);
    }

    /// Two changes of one column are one.
    proof fn lemma_apart_yet(
        &self,
        middle: &GeneratedVoxelWorld,
        before: &GeneratedVoxelWorld,
        x: i64,
        z: i64,
    )
        requires
            self.apart_from(middle, x, z),
            middle.apart_from(before, x, z),
        ensures
            self.apart_from(before, x, z),
    {
        reveal(GeneratedVoxelWorld::apart_from);
        assert forall|a: i64, c: int, b: i64| a != x || b != z implies #[trigger] self.edit(
            a,
            c,
            b,
        ) == before.edit(a, c, b) by {
            assert(middle.edit(a, c, b) == before.edit(a, c, b));
        }
        assert forall|a: i64, b: i64|
            #![trigger self.cached(a, b)]
            a != x || b != z implies self.cached(a, b) == before.cached(a, b) && (self.cached(a, b)
            ==> self.kept(a, b) == before.kept(a, b)) by {
            assert(middle.cached(a, b) == before.cached(a, b));
        }
    }

    /// The other columns stay as they were.
    proof fn lemma_apart(
        &self,
        before: &GeneratedVoxelWorld,
        x: i64,
        z: i64,
        a: i64,
        b: i64,
    )
        requires
            self.apart_from(before, x, z),
            a != x || b != z,
        ensures
            self.cells(a, b) == before.cells(a, b),
            self.column_edits(a, b) == before.column_edits(a, b),
            self.loose(a, b) == before.loose(a, b),
            self.cached(a, b) == before.cached(a, b),
    {
        reveal(GeneratedVoxelWorld::apart_from);
        assert(self.cached(a, b) == before.cached(a, b));
        assert forall|c: int| self.content(a, c, b) == before.content(a, c, b) && self.may_fall(
            a,
            b,
            c,
        ) == before.may_fall(a, b, c) by {
            assert(self.edit(a, c, b) == before.edit(a, c, b));
        }
        assert(self.cells(a, b) =~= before.cells(a, b));
        assert(self.column_edits(a, b) =~= before.column_edits(a, b));
        assert(self.loose(a, b) =~= before.loose(a, b));
    }

    /// Asking for a block changes nothing of its column, and no other.
    proof fn lemma_look(&self, before: &GeneratedVoxelWorld, x: i64, z: i64)
        requires
            self.same_source(before),
            self.keeps_more(before),
            forall|a: i64, b: i64|
                #![trigger self.cached(a, b)]
                a != x || b != z ==> self.cached(a, b) == before.cached(a, b),
        ensures
            self.cells(x, z) == before.cells(x, z),
            self.column_edits(x, z) == before.column_edits(x, z),
            self.apart_from(before, x, z),
    {
        reveal(GeneratedVoxelWorld::apart_from);
        self.lemma_same_content(before);
        assert(self.cells(x, z) =~= before.cells(x, z));
        assert(self.column_edits(x, z) =~= before.column_edits(x, z));
        assert forall|a: i64, b: i64|
            #![trigger self.cached(a, b)]
            a != x || b != z implies self.cached(a, b) == before.cached(a, b) && (self.cached(a, b)
            ==> self.kept(a, b) == before.kept(a, b)) by {
            assert(before.cached(a, b) || !before.cached(a, b));
        }
    }

    /// Whether every column with an edit that falls is known.
    pub open spec fn knows_loose_edits(&self) -> bool {
        forall|x: i64, y: int, z: i64|
            (#[trigger] self.edit(x, y, z)) is Some && falls(self.edit(x, y, z)->0)
                ==> self.knows(x, z)
    }

    /// Whether a height is one on which a column depends that has an edit that falls and
    /// is not known.
    pub open spec fn falling_needs(&self, a: i64, b: i64) -> bool {
        exists|x: i64, y: int, z: i64|
            {
                &&& (#[trigger] self.edit(x, y, z)) is Some
                &&& falls(self.edit(x, y, z)->0)
                &&& !self.knows(x, z)
                &&& -HEIGHT_REACH <= a - x <= HEIGHT_REACH
                &&& -HEIGHT_REACH <= b - z <= HEIGHT_REACH
            }
    }

    /// The positions whose heights have to be sampled before blocks fall, each once: those
    /// on which the columns of edits that fall depend.
    pub fn missing_heights_of_edits(&self) -> (r: Vec<(i64, i64)>)
        requires
            self.wf(),
        ensures
            forall|a: i64, b: i64| #[trigger]
                r@.contains((a, b)) <==> self.falling_needs(a, b) && !self.ground().known(a, b),
            r@.no_duplicates(),
            r@.len() == 0 <==> self.knows_loose_edits(),
    {
        let edits = self.edits();
        let mut out: Vec<(i64, i64)> = Vec::new();
        let mut i: usize = 0;
        while i < edits.len()
            invariant
                self.wf(),
                i <= edits@.len(),
                forall|x: i64, y: i64, z: i64, block: Block| #[trigger]
                    edits@.contains((x, y, z, block)) <==> self.edit(x, y as int, z) == Some(
                        block,
                    ),
                out@.no_duplicates(),
                forall|a: i64, b: i64| #[trigger]
                    out@.contains((a, b)) <==> self.needed_by(edits@, i as int, a, b)
                        && !self.ground().known(a, b),
            decreases edits@.len() - i,
        {
            let (x, y, z, block) = edits[i];
            let ghost had = out@;
            proof {
                assert(edits@[i as int] == (x, y, z, block));
                assert(edits@.contains((x, y, z, block)));
                self.lemma_edit_inside(x, y as int, z);
            }
            if block.def().gravity && !self.is_known(x, z) {
                self.list_around(&mut out, x, z);
            }
            proof {
                assert forall|a: i64, b: i64| #[trigger] out@.contains((a, b)) <==> self.needed_by(
                    edits@,
                    i + 1,
                    a,
                    b,
                ) && !self.ground().known(a, b) by {
                    assert(had.contains((a, b)) || !had.contains((a, b)));
                    if self.needed_by(edits@, i as int, a, b) {
                        let k = choose|k: int| 0 <= k < i && self.needs(#[trigger] edits@[k], a, b);
                        assert(self.needs(edits@[k], a, b));
                    }
                    if self.needs(edits@[i as int], a, b) {
                        assert(self.needed_by(edits@, i + 1, a, b));
                    }
                }
            }
            i += 1;
        }
        proof {
            assert forall|a: i64, b: i64| self.needed_by(edits@, i as int, a, b)
                == self.falling_needs(a, b) by {
                if self.needed_by(edits@, i as int, a, b) {
                    let k = choose|k: int| 0 <= k < i && self.needs(#[trigger] edits@[k], a, b);
                    let (x, y, z, block) = edits@[k];
                    assert(edits@.contains((x, y, z, block)));
                    assert(self.edit(x, y as int, z) is Some);
                }
                if self.falling_needs(a, b) {
                    let (x, y, z) = choose|x: i64, y: int, z: i64|
                        {
                            &&& (#[trigger] self.edit(x, y, z)) is Some
                            &&& falls(self.edit(x, y, z)->0)
                            &&& !self.knows(x, z)
                            &&& -HEIGHT_REACH <= a - x <= HEIGHT_REACH
                            &&& -HEIGHT_REACH <= b - z <= HEIGHT_REACH
                        };
                    self.lemma_edit_inside(x, y, z);
                    let block = self.edit(x, y, z)->0;
                    assert(edits@.contains((x, y as i64, z, block)));
                    let k = choose|k: int|
                        0 <= k < edits@.len() && edits@[k] == (x, y as i64, z, block);
                    assert(self.needs(edits@[k], a, b));
                }
            }
            if out@.len() == 0 {
                assert forall|x: i64, y: int, z: i64|
                    (#[trigger] self.edit(x, y, z)) is Some && falls(
                        self.edit(x, y, z)->0,
                    ) implies self.knows(x, z) by {
                    if !self.knows(x, z) {
                        let (a, b) = choose|a: i64, b: i64|
                            x - HEIGHT_REACH <= a <= x + HEIGHT_REACH && z - HEIGHT_REACH <= b <= z
                                + HEIGHT_REACH && !#[trigger] self.ground().known(a, b);
                        assert(self.falling_needs(a, b));
                        assert(out@.contains((a, b)));
                    }
                }
            } else {
                let (a, b) = out@[0];
                assert(out@.contains((a, b)));
                assert(self.falling_needs(a, b));
            }
        }
        out
    }

    /// Whether an edit falls, its column is not known, and that column depends on a height.
    spec fn needs(&self, edit: Placed, a: i64, b: i64) -> bool {
        &&& falls(edit.3)
        &&& !self.knows(edit.0, edit.2)
        &&& -HEIGHT_REACH <= a - edit.0 <= HEIGHT_REACH
        &&& -HEIGHT_REACH <= b - edit.2 <= HEIGHT_REACH
    }

    /// Whether one of the first `n` edits needs a height.
    spec fn needed_by(&self, edits: Seq<Placed>, n: int, a: i64, b: i64) -> bool {
        exists|k: int| 0 <= k < n && self.needs(#[trigger] edits[k], a, b)
    }

    /// Lists the heights around a column that have not been sampled and are not listed.
    fn list_around(&self, out: &mut Vec<(i64, i64)>, x: i64, z: i64)
        requires
            inside(x as int),
            inside(z as int),
            old(out)@.no_duplicates(),
        ensures
            final(out)@.no_duplicates(),
            forall|a: i64, b: i64| #[trigger]
                final(out)@.contains((a, b)) <==> old(out)@.contains((a, b)) || (-HEIGHT_REACH <= a
                    - x <= HEIGHT_REACH && -HEIGHT_REACH <= b - z <= HEIGHT_REACH
                    && !self.ground().known(a, b)),
    {
        let mut n: i64 = 0;
        while n < 81
            invariant
                0 <= n <= 81,
                inside(x as int),
                inside(z as int),
                out@.no_duplicates(),
                forall|a: i64, b: i64| #[trigger]
                    out@.contains((a, b)) <==> old(out)@.contains((a, b)) || (-HEIGHT_REACH <= a - x
                        <= HEIGHT_REACH && -HEIGHT_REACH <= b - z <= HEIGHT_REACH && (b - z + 4) * 9
                        + (a - x + 4) < n && !self.ground().known(a, b)),
            decreases 81 - n,
        {
            let a: i64 = x - HEIGHT_REACH + n % 9;
            let b: i64 = z - HEIGHT_REACH + n / 9;
            let ghost had = out@;
            if !self.heights().is_known(a, b) && !is_listed(out, (a, b)) {
                out.push((a, b));
            }
            proof {
                assert forall|c: i64, d: i64| #[trigger]
                    out@.contains((c, d)) <==> had.contains((c, d)) || (c == a && d == b
                        && !self.ground().known(a, b)) by {
                    if had.contains((c, d)) {
                        let k = choose|k: int| 0 <= k < had.len() && had[k] == (c, d);
                        assert(out@[k] == (c, d));
                    }
                    if out@.contains((c, d)) && !had.contains((c, d)) {
                        let k = choose|k: int| 0 <= k < out@.len() && out@[k] == (c, d);
                        assert(k == had.len());
                    }
                    if c == a && d == b && out@.len() > had.len() {
                        assert(out@[had.len() as int] == (c, d));
                    }
                }
                assert forall|c: i64, d: i64| #[trigger]
                    out@.contains((c, d)) <==> old(out)@.contains((c, d)) || (-HEIGHT_REACH <= c - x
                        <= HEIGHT_REACH && -HEIGHT_REACH <= d - z <= HEIGHT_REACH && (d - z + 4) * 9
                        + (c - x + 4) < n + 1 && !self.ground().known(c, d)) by {
                    assert(had.contains((c, d)) || !had.contains((c, d)));
                }
            }
            n += 1;
        }
    }

    /// Whether a column is what it was in another world.
    spec fn same_column(&self, before: &GeneratedVoxelWorld, x: i64, z: i64) -> bool {
        &&& self.cells(x, z) == before.cells(x, z)
        &&& self.column_edits(x, z) == before.column_edits(x, z)
        &&& self.loose(x, z) == before.loose(x, z)
        &&& self.cached(x, z) == before.cached(x, z)
    }

    /// Whether a column is what it was in another world once its blocks have fallen.
    spec fn settled_since(&self, before: &GeneratedVoxelWorld, x: i64, z: i64) -> bool {
        let cells = before.cells(x, z);
        let edits = before.column_edits(x, z);
        let loose = before.loose(x, z);
        &&& self.cells(x, z) == fallen(cells, loose, Y_MAX as int)
        &&& self.column_edits(x, z) == fallen_edits(cells, edits, loose, Y_MAX as int)
        &&& self.cached(x, z) == (before.cached(x, z) || fallen_asks(
            cells,
            edits,
            loose,
            Y_MAX as int,
        ))
    }

    /// Lets the blocks of all columns that are kept or have edits fall, and says whether
    /// any did. The columns with edits that fall are known.
    pub fn tick_gravity(&mut self) -> (r: bool)
        requires
            old(self).wf(),
            old(self).knows_loose_edits(),
        ensures
            final(self).wf(),
            final(self).spec_seed() == old(self).spec_seed(),
            final(self).ground() == old(self).ground(),
            final(self).keeps_more(old(self)),
            forall|x: i64, z: i64| #[trigger]
                final(self).cells(x, z) == fallen(
                    old(self).cells(x, z),
                    old(self).loose(x, z),
                    Y_MAX as int,
                ),
            forall|x: i64, z: i64| #[trigger]
                final(self).column_edits(x, z) == fallen_edits(
                    old(self).cells(x, z),
                    old(self).column_edits(x, z),
                    old(self).loose(x, z),
                    Y_MAX as int,
                ),
            forall|x: i64, z: i64| #[trigger]
                final(self).cached(x, z) == (old(self).cached(x, z) || fallen_asks(
                    old(self).cells(x, z),
                    old(self).column_edits(x, z),
                    old(self).loose(x, z),
                    Y_MAX as int,
                )),
            r <==> exists|x: i64, z: i64| #[trigger]
                final(self).cells(x, z) != old(self).cells(x, z),
    {
        let columns = self.touched_columns();
        let mut changed = false;
        let mut i: usize = 0;
        while i < columns.len()
            invariant
                self.wf(),
                i <= columns.len(),
                columns@.no_duplicates(),
                self.spec_seed() == old(self).spec_seed(),
                self.ground() == old(self).ground(),
                self.keeps_more(old(self)),
                forall|k: int|
                    0 <= k < columns@.len() ==> inside((#[trigger] columns@[k]).0 as int)
                        && inside(columns@[k].1 as int),
                forall|k: int|
                    0 <= k < i ==> {
                        let p = #[trigger] columns@[k];
                        self.settled_since(old(self), p.0, p.1)
                    },
                old(self).knows_loose_edits(),
                forall|a: i64, b: i64|
                    !columns@.take(i as int).contains((a, b)) ==> #[trigger] self.same_column(
                        old(self),
                        a,
                        b,
                    ),
                changed <==> exists|x: i64, z: i64| #[trigger]
                    self.cells(x, z) != old(self).cells(x, z),
            decreases columns.len() - i,
        {
            let p = columns[i];
            let ghost before = *self;
            let ghost done = columns@.take(i as int);
            proof {
                assert(!done.contains(p)) by {
                    if done.contains(p) {
                        let k = choose|k: int| 0 <= k < done.len() && done[k] == p;
                        assert(columns@[k] == columns@[i as int]);
                    }
                }
                assert(self.same_column(old(self), p.0, p.1));
                self.lemma_knows_more(old(self));
                assert forall|y: int| #[trigger] self.may_fall(p.0, p.1, y) implies self.knows(
                    p.0,
                    p.1,
                ) by {
                    assert(self.loose(p.0, p.1)(y) == old(self).loose(p.0, p.1)(y));
                    assert(old(self).may_fall(p.0, p.1, y));
                }
            }
            let moved = self.settle_column(p.0, p.1);
            proof {
                Self::lemma_keeps_more_yet(old(self), &before, self);
                let next = columns@.take(i + 1);
                assert(next =~= done.push(p));
                assert forall|a: i64, b: i64| (a, b) != p implies #[trigger] self.cells(a, b)
                    == before.cells(a, b) by {
                    self.lemma_apart(&before, p.0, p.1, a, b);
                }
                assert forall|k: int| 0 <= k < i + 1 implies {
                    let q = #[trigger] columns@[k];
                    self.settled_since(old(self), q.0, q.1)
                } by {
                    if k < i {
                        let q = columns@[k];
                        assert(columns@[k] != columns@[i as int]);
                        self.lemma_apart(&before, p.0, p.1, q.0, q.1);
                    }
                }
                assert forall|a: i64, b: i64| !next.contains((a, b)) implies #[trigger]
                    self.same_column(old(self), a, b) by {
                    assert(next[i as int] == p);
                    if done.contains((a, b)) {
                        let k = choose|k: int| 0 <= k < done.len() && done[k] == (a, b);
                        assert(next[k] == (a, b));
                    }
                    self.lemma_apart(&before, p.0, p.1, a, b);
                    assert(before.same_column(old(self), a, b));
                }
                if changed {
                    let (x, z) = choose|x: i64, z: i64| #[trigger]
                        before.cells(x, z) != old(self).cells(x, z);
                    assert((x, z) != p);
                    assert(self.cells(x, z) != old(self).cells(x, z));
                } else {
                    assert forall|x: i64, z: i64| (x, z) != p implies #[trigger] self.cells(x, z)
                        == old(self).cells(x, z) by {
                        assert(before.cells(x, z) == old(self).cells(x, z));
                    }
                    if moved {
                        assert(self.cells(p.0, p.1) != old(self).cells(p.0, p.1));
                    }
                }
            }
            changed = changed || moved;
            i += 1;
        }
        proof {
            assert(columns@.take(i as int) =~= columns@);
            assert forall|x: i64, z: i64|
                #![trigger self.cells(x, z)]
                #![trigger self.column_edits(x, z)]
                #![trigger self.cached(x, z)]
                self.settled_since(old(self), x, z) by {
                if columns@.contains((x, z)) {
                    let k = choose|k: int| 0 <= k < columns@.len() && columns@[k] == (x, z);
                    assert(columns@[k] == (x, z));
                } else {
                    assert(self.same_column(old(self), x, z));
                    let may = old(self).loose(x, z);
                    assert forall|y: int| !(#[trigger] may(y)) by {
                        assert(!old(self).cached(x, z));
                        assert(old(self).edit(x, y, z) is None);
                    }
                    lemma_nothing_loose(
                        old(self).cells(x, z),
                        old(self).column_edits(x, z),
                        old(self).loose(x, z),
                        Y_MAX as int,
                    );
                }
            }
        }
        changed
    }

    /// Whether one of the six neighbours of a position holds water.
    pub open spec fn by_water(&self, x: i64, y: int, z: i64) -> bool {
        ||| self.content((x - 1) as i64, y, z) == Block::Water
        ||| self.content((x + 1) as i64, y, z) == Block::Water
        ||| self.content(x, y - 1, z) == Block::Water
        ||| self.content(x, y + 1, z) == Block::Water
        ||| self.content(x, y, (z - 1) as i64) == Block::Water
        ||| self.content(x, y, (z + 1) as i64) == Block::Water
    }

    fn is_water(&mut self, x: i64, y: i64, z: i64) -> (r: bool)
        requires
            old(self).wf(),
            old(self).knows(x, z),
            inside(x as int),
            inside(z as int),
        ensures
            r == (old(self).content(x, y as int, z) == Block::Water),
            final(self).wf(),
            final(self).same_source(old(self)),
            final(self).keeps_more(old(self)),
            forall|a: i64, c: i64| #[trigger] final(self).knows(a, c) == old(self).knows(a, c),
            forall|a: i64, c: i64|
                #![trigger final(self).cached(a, c)]
                final(self).cached(a, c) == (old(self).cached(a, c) || (a == x && c == z && layer(
                    y as int,
                ) && old(self).edit(x, y as int, z) is None)),
            forall|a: i64, b: int, c: i64| #[trigger]
                final(self).content(a, b, c) == old(self).content(a, b, c),
    {
        let r = self.look(x, y, z) == Block::Water;
        proof {
            self.lemma_same_content(old(self));
            self.lemma_knows_more(old(self));
        }
        r
    }

    /// Whether a column and the four beside it are known.
    pub open spec fn knows_cross(&self, x: i64, z: i64) -> bool {
        &&& self.knows(x, z)
        &&& self.knows((x - 1) as i64, z)
        &&& self.knows((x + 1) as i64, z)
        &&& self.knows(x, (z - 1) as i64)
        &&& self.knows(x, (z + 1) as i64)
    }

    /// Whether a neighbour of a position is looked at when water is looked for, and its
    /// column asked: none before it is water, and it has no edit.
    pub open spec fn asks_neighbour(&self, x: i64, y: int, z: i64, n: int) -> bool {
        let p = neighbour(x, y, z, n);
        &&& forall|k: int|
            0 <= k < n ==> {
                let q = #[trigger] neighbour(x, y, z, k);
                self.content(q.0, q.1, q.2) != Block::Water
            }
        &&& layer(p.1)
        &&& self.edit(p.0, p.1, p.2) is None
    }

    /// Whether a column is asked when the first `n` neighbours of a position are looked at
    /// for water.
    pub open spec fn asks_beside(
        &self,
        x: i64,
        y: int,
        z: i64,
        n: int,
        a: i64,
        c: i64,
    ) -> bool {
        exists|k: int|
            0 <= k < n && (#[trigger] neighbour(x, y, z, k)).0 == a && neighbour(x, y, z, k).2 == c
                && self.asks_neighbour(x, y, z, k)
    }

    /// Whether one of the six neighbours of a position holds water.
    fn has_adjacent_water(&mut self, x: i64, y: i64, z: i64) -> (r: bool)
        requires
            old(self).wf(),
            old(self).knows_cross(x, z),
            inside(x - 1),
            inside(x + 1),
            inside(z - 1),
            inside(z + 1),
            i64::MIN < y < i64::MAX,
        ensures
            r == old(self).by_water(x, y as int, z),
            final(self).wf(),
            final(self).same_source(old(self)),
            final(self).keeps_more(old(self)),
            forall|a: i64, c: i64|
                #![trigger final(self).cached(a, c)]
                final(self).cached(a, c) == (old(self).cached(a, c) || old(self).asks_beside(
                    x,
                    y as int,
                    z,
                    6,
                    a,
                    c,
                )),
            forall|a: i64, b: int, c: i64| #[trigger]
                final(self).content(a, b, c) == old(self).content(a, b, c),
    {
        let mut n: i64 = 0;
        proof {
            self.lemma_keeps_itself();
        }
        while n < 6
            invariant
                0 <= n <= 6,
                self.wf(),
                old(self).knows_cross(x, z),
                inside(x - 1),
                inside(x + 1),
                inside(z - 1),
                inside(z + 1),
                i64::MIN < y < i64::MAX,
                self.same_source(old(self)),
                self.keeps_more(old(self)),
                forall|a: i64, c: i64| #[trigger] self.knows(a, c) == old(self).knows(a, c),
                forall|a: i64, b: int, c: i64| #[trigger]
                    self.content(a, b, c) == old(self).content(a, b, c),
                forall|k: int|
                    0 <= k < n ==> {
                        let q = #[trigger] neighbour(x, y as int, z, k);
                        old(self).content(q.0, q.1, q.2) != Block::Water
                    },
                forall|a: i64, c: i64|
                    #![trigger self.cached(a, c)]
                    self.cached(a, c) == (old(self).cached(a, c) || old(self).asks_beside(
                        x,
                        y as int,
                        z,
                        n as int,
                        a,
                        c,
                    )),
            decreases 6 - n,
        {
            let (a, b, c) = neighbour_of(x, y, z, n);
            let ghost before = *self;
            let wet = self.is_water(a, b, c);
            proof {
                assert(neighbour(x, y as int, z, n as int) == (a, b as int, c));
                Self::lemma_keeps_more_yet(old(self), &before, self);
                assert(before.edit(a, b as int, c) == old(self).edit(a, b as int, c));
                assert forall|d: i64, e: i64| #[trigger]
                    self.cached(d, e) == (old(self).cached(d, e) || old(self).asks_beside(
                        x,
                        y as int,
                        z,
                        n + 1,
                        d,
                        e,
                    )) by {
                    assert(before.cached(d, e) || !before.cached(d, e));
                    old(self).lemma_next_neighbour(x, y as int, z, n as int, d, e);
                }
            }
            if wet {
                proof {
                    old(self).lemma_water_found(x, y as int, z, n as int);
                    assert forall|d: i64, e: i64| old(self).asks_beside(
                        x,
                        y as int,
                        z,
                        n + 1,
                        d,
                        e,
                    ) == #[trigger] old(self).asks_beside(x, y as int, z, 6, d, e) by {
                        old(self).lemma_no_more_neighbours(x, y as int, z, n as int, d, e);
                    }
                }
                return true;
            }
            n += 1;
        }
        proof {
            old(self).lemma_no_water(x, y as int, z);
        }
        false
    }

    proof fn lemma_next_neighbour(&self, x: i64, y: int, z: i64, n: int, a: i64, c: i64)
        requires
            0 <= n,
        ensures
            self.asks_beside(x, y, z, n + 1, a, c) == (self.asks_beside(x, y, z, n, a, c) || (
            neighbour(x, y, z, n).0 == a && neighbour(x, y, z, n).2 == c && self.asks_neighbour(
                x,
                y,
                z,
                n,
            ))),
    {
        if self.asks_beside(x, y, z, n, a, c) {
            let k = choose|k: int|
                0 <= k < n && (#[trigger] neighbour(x, y, z, k)).0 == a && neighbour(x, y, z, k).2
                    == c && self.asks_neighbour(x, y, z, k);
            assert(neighbour(x, y, z, k).0 == a);
        }
    }

    /// Past a neighbour that is water, none is looked at.
    proof fn lemma_no_more_neighbours(&self, x: i64, y: int, z: i64, n: int, a: i64, c: i64)
        requires
            0 <= n < 6,
            ({
                let q = neighbour(x, y, z, n);
                self.content(q.0, q.1, q.2) == Block::Water
            }),
        ensures
            self.asks_beside(x, y, z, n + 1, a, c) == self.asks_beside(x, y, z, 6, a, c),
    {
        if self.asks_beside(x, y, z, n + 1, a, c) {
            let k = choose|k: int|
                0 <= k < n + 1 && (#[trigger] neighbour(x, y, z, k)).0 == a && neighbour(
                    x,
                    y,
                    z,
                    k,
                ).2 == c && self.asks_neighbour(x, y, z, k);
            assert(neighbour(x, y, z, k).0 == a);
        }
        if self.asks_beside(x, y, z, 6, a, c) {
            let k = choose|k: int|
                0 <= k < 6 && (#[trigger] neighbour(x, y, z, k)).0 == a && neighbour(x, y, z, k).2
                    == c && self.asks_neighbour(x, y, z, k);
            assert(k <= n) by {
                if k > n {
                    assert(neighbour(x, y, z, n).0 == neighbour(x, y, z, n).0);
                }
            }
        }
    }

    proof fn lemma_water_found(&self, x: i64, y: int, z: i64, n: int)
        requires
            0 <= n < 6,
            ({
                let q = neighbour(x, y, z, n);
                self.content(q.0, q.1, q.2) == Block::Water
            }),
        ensures
            self.by_water(x, y, z),
    {
    }

    proof fn lemma_no_water(&self, x: i64, y: int, z: i64)
        requires
            forall|k: int|
                0 <= k < 6 ==> {
                    let q = #[trigger] neighbour(x, y, z, k);
                    self.content(q.0, q.1, q.2) != Block::Water
                },
        ensures
            !self.by_water(x, y, z),
    {
        assert(neighbour(x, y, z, 0).1 == y);
        assert(neighbour(x, y, z, 1).1 == y);
        assert(neighbour(x, y, z, 2).1 == y - 1);
        assert(neighbour(x, y, z, 3).1 == y + 1);
        assert(neighbour(x, y, z, 4).1 == y);
        assert(neighbour(x, y, z, 5).1 == y);
    }

    /// Removes a block. Where water is next to it, water takes its place.
    pub fn remove_block_with_fluid_update(&mut self, x: i64, y: i64, z: i64)
        requires
            old(self).wf(),
            old(self).knows_cross(x, z),
            inside(x - 1),
            inside(x + 1),
            inside(z - 1),
            inside(z + 1),
            i64::MIN < y < i64::MAX,
        ensures
            final(self).wf(),
            final(self).spec_seed() == old(self).spec_seed(),
            final(self).ground() == old(self).ground(),
            final(self).keeps_more(old(self)),
            forall|a: i64, c: i64|
                #![trigger final(self).cached(a, c)]
                final(self).cached(a, c) == (old(self).cached(a, c) || old(self).asks_beside(
                    x,
                    y as int,
                    z,
                    6,
                    a,
                    c,
                )),
            forall|a: i64, b: int, c: i64| #[trigger]
                final(self).edit(a, b, c) == if a == x && b == y && c == z && layer(b) {
                    Some(
                        if old(self).by_water(x, y as int, z) {
                            Block::Water
                        } else {
                            Block::Air
                        },
                    )
                } else {
                    old(self).edit(a, b, c)
                },
            forall|a: i64, b: int, c: i64| #[trigger]
                final(self).content(a, b, c) == if a == x && b == y && c == z && layer(y as int) {
                    if old(self).by_water(x, y as int, z) {
                        Block::Water
                    } else {
                        Block::Air
                    }
                } else {
                    old(self).content(a, b, c)
                },
    {
        self.set_block_raw(x, y, z, Block::Air);
        let ghost emptied = *self;
        proof {
            assert(forall|a: i64, c: i64| #[trigger]
                self.knows(a, c) == old(self).knows(a, c)) by {
                assert forall|a: i64, c: i64| #[trigger] self.knows(a, c) == old(self).knows(
                    a,
                    c,
                ) by {
                    assert(self.cached(a, c) == old(self).cached(a, c));
                }
            }
            lemma_water_stays(old(self), &emptied, x, y as int, z);
            lemma_edit_keeps(old(self), &emptied, x, y as int, z, Block::Air);
            assert forall|a: i64, c: i64| #[trigger]
                emptied.asks_beside(x, y as int, z, 6, a, c) == old(self).asks_beside(
                    x,
                    y as int,
                    z,
                    6,
                    a,
                    c,
                ) by {
                lemma_asks_as_before(old(self), &emptied, x, y as int, z, a, c);
            }
        }
        let wet = self.has_adjacent_water(x, y, z);
        proof {
            Self::lemma_keeps_more_yet(old(self), &emptied, self);
        }
        if wet {
            let ghost asked = *self;
            self.set_block_raw(x, y, z, Block::Water);
            proof {
                lemma_edit_keeps(&asked, self, x, y as int, z, Block::Water);
                Self::lemma_keeps_more_yet(old(self), &asked, self);
                assert forall|a: i64, b: int, c: i64| #[trigger] self.edit(a, b, c) == if a == x
                    && b == y && c == z && layer(b) {
                    Some(Block::Water)
                } else {
                    old(self).edit(a, b, c)
                } by {
                    lemma_edited(&asked, self, x, y as int, z, Block::Water, a, b, c);
                    lemma_edited(old(self), &emptied, x, y as int, z, Block::Air, a, b, c);
                    assert(asked.edit(a, b, c) == emptied.edit(a, b, c));
                }
                assert forall|a: i64, c: i64| #[trigger] self.cached(a, c) == (old(self).cached(
                    a,
                    c,
                ) || old(self).asks_beside(x, y as int, z, 6, a, c)) by {
                    assert(asked.cached(a, c) || !asked.cached(a, c));
                    assert(emptied.cached(a, c) == old(self).cached(a, c));
                }
                assert forall|a: i64, b: int, c: i64| #[trigger] self.content(a, b, c) == if a == x
                    && b == y && c == z && layer(y as int) {
                    Block::Water
                } else {
                    old(self).content(a, b, c)
                } by {
                    lemma_edited(&asked, self, x, y as int, z, Block::Water, a, b, c);
                    lemma_edited(old(self), &emptied, x, y as int, z, Block::Air, a, b, c);
                    assert(asked.content(a, b, c) == emptied.content(a, b, c));
                }
            }
        } else {
            proof {
                assert forall|a: i64, b: int, c: i64| #[trigger] self.edit(a, b, c) == if a == x
                    && b == y && c == z && layer(b) {
                    Some(Block::Air)
                } else {
                    old(self).edit(a, b, c)
                } by {
                    lemma_edited(old(self), &emptied, x, y as int, z, Block::Air, a, b, c);
                    assert(self.edit(a, b, c) == emptied.edit(a, b, c));
                }
                assert forall|a: i64, b: int, c: i64| #[trigger] self.content(a, b, c) == if a == x
                    && b == y && c == z && layer(y as int) {
                    Block::Air
                } else {
                    old(self).content(a, b, c)
                } by {
                    lemma_edited(old(self), &emptied, x, y as int, z, Block::Air, a, b, c);
                    assert(self.content(a, b, c) == emptied.content(a, b, c));
                }
            }
        }
    }
}

/// One edit leaves what is kept as it was.
pub proof fn lemma_edit_keeps(
    before: &GeneratedVoxelWorld,
    after: &GeneratedVoxelWorld,
    x: i64,
    y: int,
    z: i64,
    block: Block,
)
    requires
        after.edited(before, x, y, z, block),
    ensures
        after.keeps_more(before),
{
    assert forall|a: i64, b: i64|
        #![trigger after.cached(a, b)]
        #![trigger before.cached(a, b)]
        after.cached(a, b) == before.cached(a, b) && after.kept(a, b) == before.kept(a, b) by {
        assert(after.cached(a, b) == before.cached(a, b));
    }
}

/// Emptying a position changes nothing of how its neighbours are looked at.
proof fn lemma_asks_as_before(
    before: &GeneratedVoxelWorld,
    after: &GeneratedVoxelWorld,
    x: i64,
    y: int,
    z: i64,
    a: i64,
    c: i64,
)
    requires
        after.edited(before, x, y, z, Block::Air),
        inside(x - 1),
        inside(x + 1),
        inside(z - 1),
        inside(z + 1),
    ensures
        after.asks_beside(x, y, z, 6, a, c) == before.asks_beside(x, y, z, 6, a, c),
{
    assert forall|k: int|
        0 <= k < 6 implies after.asks_neighbour(x, y, z, k) == before.asks_neighbour(
        x,
        y,
        z,
        k,
    ) by {
        assert forall|m: int| 0 <= m < 6 implies {
            let q = #[trigger] neighbour(x, y, z, m);
            &&& after.content(q.0, q.1, q.2) == before.content(q.0, q.1, q.2)
            &&& after.edit(q.0, q.1, q.2) == before.edit(q.0, q.1, q.2)
        } by {
            let q = neighbour(x, y, z, m);
            lemma_edited(before, after, x, y, z, Block::Air, q.0, q.1, q.2);
        }
        let p = neighbour(x, y, z, k);
    }
}

/// The neighbours are looked at as in a world with the same blocks and edits.
pub proof fn lemma_asks_alike(
    before: &GeneratedVoxelWorld,
    after: &GeneratedVoxelWorld,
    x: i64,
    y: int,
    z: i64,
    a: i64,
    c: i64,
)
    requires
        forall|d: i64, e: int, f: i64| #[trigger]
            after.content(d, e, f) == before.content(d, e, f),
        forall|d: i64, e: int, f: i64| #[trigger] after.edit(d, e, f) == before.edit(d, e, f),
    ensures
        after.asks_beside(x, y, z, 6, a, c) == before.asks_beside(x, y, z, 6, a, c),
{
    assert forall|k: int|
        0 <= k < 6 implies after.asks_neighbour(x, y, z, k) == before.asks_neighbour(
        x,
        y,
        z,
        k,
    ) by {
        let p = neighbour(x, y, z, k);
        assert(after.edit(p.0, p.1, p.2) == before.edit(p.0, p.1, p.2));
    }
}

/// Emptying a position leaves the water next to it.
proof fn lemma_water_stays(
    before: &GeneratedVoxelWorld,
    after: &GeneratedVoxelWorld,
    x: i64,
    y: int,
    z: i64,
)
    requires
        after.edited(before, x, y, z, Block::Air),
        inside(x - 1),
        inside(x + 1),
        inside(z - 1),
        inside(z + 1),
    ensures
        after.by_water(x, y, z) == before.by_water(x, y, z),
{
    lemma_edited(before, after, x, y, z, Block::Air, (x - 1) as i64, y, z);
    lemma_edited(before, after, x, y, z, Block::Air, (x + 1) as i64, y, z);
    lemma_edited(before, after, x, y, z, Block::Air, x, y - 1, z);
    lemma_edited(before, after, x, y, z, Block::Air, x, y + 1, z);
    lemma_edited(before, after, x, y, z, Block::Air, x, y, (z - 1) as i64);
    lemma_edited(before, after, x, y, z, Block::Air, x, y, (z + 1) as i64);
}

/// What one edit changes.
pub proof fn lemma_edited(
    before: &GeneratedVoxelWorld,
    after: &GeneratedVoxelWorld,
    x: i64,
    y: int,
    z: i64,
    block: Block,
    a: i64,
    b: int,
    c: i64,
)
    requires
        after.edited(before, x, y, z, block),
    ensures
        after.content(a, b, c) == (if a == x && b == y && c == z && layer(y) {
            block
        } else {
            before.content(a, b, c)
        }),
        after.edit(a, b, c) == (if a == x && b == y && c == z && layer(y) {
            Some(block)
        } else {
            before.edit(a, b, c)
        }),
        a != x || c != z ==> after.may_fall(a, c, b) == before.may_fall(a, c, b),
{
    assert(after.edit(a, b, c) == if a == x && b == y && c == z && layer(y) {
        Some(block)
    } else {
        before.edit(a, b, c)
    });
    assert(after.cached(a, c) == before.cached(a, c));
}

/// Two edits leave what is kept as it was.
proof fn lemma_edits_keep_columns(
    first: &GeneratedVoxelWorld,
    second: &GeneratedVoxelWorld,
    third: &GeneratedVoxelWorld,
    x: i64,
    y: int,
    d: int,
    z: i64,
    block: Block,
)
    requires
        second.edited(first, x, y, z, Block::Air),
        third.edited(second, x, d, z, block),
    ensures
        third.keeps_more(first),
{
    assert forall|a: i64, b: i64|
        #![trigger third.cached(a, b)]
        #![trigger first.cached(a, b)]
        third.cached(a, b) == first.cached(a, b) && third.kept(a, b) == first.kept(a, b) by {
        assert(second.cached(a, b) == first.cached(a, b));
        assert(third.cached(a, b) == second.cached(a, b));
    }
}

proof fn lemma_landing(cells: Cells, y: int)
    requires
        0 <= y < cells.len(),
    ensures
        0 <= landing(cells, y) <= y,
        forall|k: int| landing(cells, y) <= k < y ==> #[trigger] cells[k] == Block::Air,
    decreases y,
{
    if y > 0 && cells[y - 1] == Block::Air {
        lemma_landing(cells, y - 1);
    }
}

proof fn lemma_none_yet(edits: Edits, y: int)
    ensures
        !some_unedited(edits, y, y),
        some_unedited(edits, -1, y) == some_unedited(edits, 0, y),
{
    reveal(some_unedited);
}

proof fn lemma_one_more(edits: Edits, d: int, y: int)
    requires
        0 < d <= y,
    ensures
        some_unedited(edits, d - 1, y) == (some_unedited(edits, d, y) || edits[d - 1] is None),
{
    reveal(some_unedited);
    if edits[d - 1] is None {
        assert(some_unedited(edits, d - 1, y));
    }
}

proof fn lemma_nothing_loose(
    cells: Cells,
    edits: Edits,
    may_fall: spec_fn(int) -> bool,
    y: int,
)
    requires
        forall|k: int| !(#[trigger] may_fall(k)),
    ensures
        fallen(cells, may_fall, y) == cells,
        fallen_edits(cells, edits, may_fall, y) == edits,
        !fallen_asks(cells, edits, may_fall, y),
    decreases y,
{
    if y > 0 {
        lemma_nothing_loose(cells, edits, may_fall, y - 1);
    }
}

/// A falling block comes to rest on the lowest air above the first block below it: all
/// between is air, and what is under it is not.
pub proof fn blocks_land_on_support(cells: Cells, y: int)
    requires
        0 <= y < cells.len(),
    ensures
        0 <= landing(cells, y) <= y,
        forall|k: int| landing(cells, y) <= k < y ==> #[trigger] cells[k] == Block::Air,
        landing(cells, y) > 0 ==> cells[landing(cells, y) - 1] != Block::Air,
    decreases y,
{
    if y > 0 && cells[y - 1] == Block::Air {
        blocks_land_on_support(cells, y - 1);
    }
}

/// Falling moves blocks and neither makes nor loses any.
pub proof fn falling_keeps_blocks(cells: Cells, may_fall: spec_fn(int) -> bool, y: int)
    requires
        y < cells.len(),
    ensures
        fallen(cells, may_fall, y).len() == cells.len(),
        fallen(cells, may_fall, y).to_multiset() == cells.to_multiset(),
    decreases y,
{
    if y > 0 {
        let next = dropped(cells, may_fall, y);
        if may_fall(y) && falls(cells[y]) && landing(cells, y) < y {
            lemma_landing(cells, y);
            let d = landing(cells, y);
            let emptied = cells.update(y, Block::Air);
            to_multiset_update(cells, y, Block::Air);
            to_multiset_update(emptied, d, cells[y]);
            assert(emptied[d] == Block::Air);
            assert(next.to_multiset() =~= cells.to_multiset()) by {
                vstd::seq_lib::to_multiset_contains(cells, cells[y]);
                assert(cells.contains(cells[y]));
            }
        }
        falling_keeps_blocks(next, may_fall, y - 1);
    }
}

/// Whether the edits of a column are among its blocks.
pub open spec fn are_edits_of(edits: Edits, cells: Cells) -> bool {
    &&& edits.len() == cells.len()
    &&& forall|k: int|
        0 <= k < edits.len() && (#[trigger] edits[k]) is Some ==> cells[k] == edits[k]->0
}

/// What has fallen is told by the edits: none is lost, each is the block of its layer, and
/// where a layer has none, its block is the one that it had.
pub proof fn falling_is_told_by_edits(
    cells: Cells,
    edits: Edits,
    may_fall: spec_fn(int) -> bool,
    y: int,
)
    requires
        y < cells.len(),
        are_edits_of(edits, cells),
    ensures
        are_edits_of(fallen_edits(cells, edits, may_fall, y), fallen(cells, may_fall, y)),
        forall|k: int|
            0 <= k < cells.len() ==> {
                let now = #[trigger] fallen_edits(cells, edits, may_fall, y)[k];
                &&& edits[k] is Some ==> now is Some
                &&& now is None ==> fallen(cells, may_fall, y)[k] == cells[k]
            },
    decreases y,
{
    if y > 0 {
        lemma_landing(cells, y);
        let next = dropped(cells, may_fall, y);
        let told = dropped_edits(cells, edits, may_fall, y);
        falling_is_told_by_edits(next, told, may_fall, y - 1);
        assert forall|k: int| 0 <= k < cells.len() implies {
            let now = #[trigger] fallen_edits(cells, edits, may_fall, y)[k];
            &&& edits[k] is Some ==> now is Some
            &&& now is None ==> fallen(cells, may_fall, y)[k] == cells[k]
        } by {
            let now = fallen_edits(next, told, may_fall, y - 1)[k];
            assert(told[k] is Some ==> now is Some);
        }
    }
}

/// The blocks of a column without the air between them.
pub open spec fn stacked(cells: Cells) -> Seq<Block> {
    cells.filter(|block: Block| block != Block::Air)
}

/// Once the heights that falling needs have been sampled, blocks can fall.
pub proof fn sampled_heights_let_edits_fall(
    before: &GeneratedVoxelWorld,
    after: &GeneratedVoxelWorld,
)
    requires
        forall|x: i64, y: int, z: i64| #[trigger] after.edit(x, y, z) == before.edit(x, y, z),
        forall|x: i64, z: i64| before.knows(x, z) ==> #[trigger] after.knows(x, z),
        forall|a: i64, b: i64|
            before.falling_needs(a, b) ==> #[trigger] after.ground().known(a, b),
    ensures
        after.knows_loose_edits(),
{
    assert forall|x: i64, y: int, z: i64|
        (#[trigger] after.edit(x, y, z)) is Some && falls(
            after.edit(x, y, z)->0,
        ) implies after.knows(x, z) by {
        assert(before.edit(x, y, z) is Some);
        if !before.knows(x, z) {
            assert forall|a: i64, b: i64|
                x - HEIGHT_REACH <= a <= x + HEIGHT_REACH && z - HEIGHT_REACH <= b <= z
                    + HEIGHT_REACH implies #[trigger] after.ground().known(a, b) by {
                assert(before.falling_needs(a, b));
            }
            assert(after.surveyed(x, z));
        }
    }
}

fn is_listed(list: &Vec<(i64, i64)>, p: (i64, i64)) -> (r: bool)
    ensures
        r == list@.contains(p),
{
    let mut i: usize = 0;
    while i < list.len()
        invariant
            i <= list@.len(),
            forall|k: int| 0 <= k < i ==> #[trigger] list@[k] != p,
        decreases list@.len() - i,
    {
        if list[i].0 == p.0 && list[i].1 == p.1 {
            assert(list@[i as int] == p);
            return true;
        }
        i += 1;
    }
    false
}

/// Falling blocks do not pass through each other or through anything else: from bottom
/// to top, a column has the same blocks in the same order.
pub proof fn falling_keeps_order(cells: Cells, may_fall: spec_fn(int) -> bool, y: int)
    requires
        y < cells.len(),
    ensures
        stacked(fallen(cells, may_fall, y)) == stacked(cells),
    decreases y,
{
    if y > 0 {
        let next = dropped(cells, may_fall, y);
        if may_fall(y) && falls(cells[y]) && landing(cells, y) < y {
            lemma_landing(cells, y);
            lemma_drop_keeps_order(cells, landing(cells, y), y);
        }
        falling_keeps_order(next, may_fall, y - 1);
    }
}

proof fn lemma_drop_keeps_order(cells: Cells, to: int, y: int)
    requires
        0 <= to < y < cells.len(),
        forall|k: int| to <= k < y ==> #[trigger] cells[k] == Block::Air,
        cells[y] != Block::Air,
    ensures
        stacked(cells.update(y, Block::Air).update(to, cells[y])) == stacked(cells),
{
    let solid = |block: Block| block != Block::Air;
    let below = cells.take(to);
    let gap = cells.subrange(to, y);
    let block = seq![cells[y]];
    let above = cells.skip(y + 1);
    lemma_air_is_left_out(gap);
    assert(cells =~= below + gap + block + above);
    assert(cells.update(y, Block::Air).update(to, cells[y]) =~= below + block + gap + above);
    Seq::filter_distributes_over_add(below + gap + block, above, solid);
    Seq::filter_distributes_over_add(below + gap, block, solid);
    Seq::filter_distributes_over_add(below, gap, solid);
    Seq::filter_distributes_over_add(below + block + gap, above, solid);
    Seq::filter_distributes_over_add(below + block, gap, solid);
    Seq::filter_distributes_over_add(below, block, solid);
    assert(stacked(cells) =~= stacked(cells.update(y, Block::Air).update(to, cells[y])));
}

proof fn lemma_air_is_left_out(cells: Cells)
    requires
        forall|k: int| 0 <= k < cells.len() ==> #[trigger] cells[k] == Block::Air,
    ensures
        stacked(cells) == Seq::<Block>::empty(),
    decreases cells.len(),
{
    reveal(Seq::filter);
    if cells.len() > 0 {
        lemma_air_is_left_out(cells.drop_last());
    }
}

/// Sand and gravel do not stay in the air: a loose block of either with air below it is gone
/// from its place once the blocks of its column have fallen.
pub proof fn loose_blocks_do_not_hang(
    cells: Cells,
    may_fall: spec_fn(int) -> bool,
    n: int,
    y: int,
)
    requires
        0 < y <= n < cells.len(),
        may_fall(y),
        cells[y] == Block::Sand || cells[y] == Block::Gravel,
        cells[y - 1] == Block::Air,
    ensures
        fallen(cells, may_fall, n)[y] == Block::Air,
    decreases n,
{
    lemma_landing(cells, n);
    let next = dropped(cells, may_fall, n);
    if n == y {
        assert(landing(cells, y) < y) by {
            lemma_landing(cells, y - 1);
        }
        assert(next[y] == Block::Air);
        lemma_above_stays(next, may_fall, n - 1, y);
    } else {
        assert(landing(cells, n) > y) by {
            if landing(cells, n) <= y {
                assert(cells[y] == Block::Air);
            }
        }
        loose_blocks_do_not_hang(next, may_fall, n - 1, y);
    }
}

/// What lies above the layers that are let fall stays.
proof fn lemma_above_stays(cells: Cells, may_fall: spec_fn(int) -> bool, n: int, y: int)
    requires
        n < y < cells.len(),
    ensures
        fallen(cells, may_fall, n)[y] == cells[y],
    decreases n,
{
    if n > 0 {
        lemma_landing(cells, n);
        lemma_above_stays(dropped(cells, may_fall, n), may_fall, n - 1, y);
    }
}

/// Nothing but sand and gravel falls: every other block stays where it is, and so does
/// every block that is not loose.
pub proof fn only_sand_and_gravel_fall(
    cells: Cells,
    may_fall: spec_fn(int) -> bool,
    n: int,
    y: int,
)
    requires
        n < cells.len(),
        0 <= y < cells.len(),
        cells[y] != Block::Air,
        (cells[y] != Block::Sand && cells[y] != Block::Gravel) || !may_fall(y),
    ensures
        fallen(cells, may_fall, n)[y] == cells[y],
    decreases n,
{
    if n > 0 {
        lemma_landing(cells, n);
        let next = dropped(cells, may_fall, n);
        assert(next[y] == cells[y]) by {
            if landing(cells, n) == y && n != y {
                assert(cells[y] == Block::Air);
            }
        }
        only_sand_and_gravel_fall(next, may_fall, n - 1, y);
    }
}

/// Sand and gravel that were put somewhere are loose, and so is what a kept column has of
/// them.
pub proof fn sand_and_gravel_are_loose(world: &GeneratedVoxelWorld, x: i64, y: int, z: i64)
    ensures
        world.edit(x, y, z) == Some(Block::Sand) || world.edit(x, y, z) == Some(Block::Gravel)
            ==> world.may_fall(x, z, y),
        world.cached(x, z) && (world.kept(x, z).block(y) == Block::Sand || world.kept(x, z).block(y)
            == Block::Gravel) ==> world.may_fall(x, z, y),
        world.may_fall(x, z, y) ==> world.cached(x, z) || world.edit(x, y, z) is Some,
{
}

/// Water is beside a position exactly if one of the six cells around it holds water.
pub proof fn water_comes_from_all_sides(
    world: &GeneratedVoxelWorld,
    x: i64,
    y: int,
    z: i64,
    a: i64,
    b: int,
    c: i64,
)
    requires
        i64::MIN < x < i64::MAX,
        i64::MIN < z < i64::MAX,
    ensures
        gap(a as int, x as int) + gap(b, y) + gap(c as int, z as int) == 1 && world.content(
            a,
            b,
            c,
        ) == Block::Water ==> world.by_water(x, y, z),
        world.by_water(x, y, z) ==> exists|d: i64, e: int, f: i64|
            gap(d as int, x as int) + gap(e, y) + gap(f as int, z as int) == 1
                && #[trigger] world.content(d, e, f) == Block::Water,
{
    let wet = |d: i64, e: int, f: i64| world.content(d, e, f) == Block::Water;
    lemma_six_sides(wet, x, y, z, a, b, c);
    if world.by_water(x, y, z) {
        let (d, e, f) = choose|d: i64, e: int, f: i64|
            gap(d as int, x as int) + gap(e, y) + gap(f as int, z as int) == 1 && #[trigger] wet(
                d,
                e,
                f,
            );
        assert(world.content(d, e, f) == Block::Water);
    }
}

/// Six cells lie one step from a position.
proof fn lemma_six_sides(
    wet: spec_fn(i64, int, i64) -> bool,
    x: i64,
    y: int,
    z: i64,
    a: i64,
    b: int,
    c: i64,
)
    requires
        i64::MIN < x < i64::MAX,
        i64::MIN < z < i64::MAX,
    ensures
        ({
            let beside = wet((x - 1) as i64, y, z) || wet((x + 1) as i64, y, z) || wet(
                x,
                y - 1,
                z,
            ) || wet(x, y + 1, z) || wet(x, y, (z - 1) as i64) || wet(x, y, (z + 1) as i64);
            &&& gap(a as int, x as int) + gap(b, y) + gap(c as int, z as int) == 1 && wet(a, b, c)
                ==> beside
            &&& beside ==> exists|d: i64, e: int, f: i64|
                gap(d as int, x as int) + gap(e, y) + gap(f as int, z as int) == 1 && #[trigger]
                    wet(d, e, f)
        }),
{
    if gap(a as int, x as int) + gap(b, y) + gap(c as int, z as int) == 1 {
        assert(a == x - 1 || a == x || a == x + 1);
        assert(b == y - 1 || b == y || b == y + 1);
        assert(c == z - 1 || c == z || c == z + 1);
    }
}

} // verus!
