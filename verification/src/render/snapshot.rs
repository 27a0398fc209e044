//! A dense copy of a rectangle of columns, with its sky light, to make faces from.

use crate::render::face::{BlockSource, Levels};
use crate::world::block::{Block, LIGHT_MAX};
use crate::world::column::{Column, Y_MAX, Y_MIN};
use crate::world::generator::inside;
use crate::world::light::{
    cell_y, flood_fill_sky, lemma_cell, light_stays_below_its_sources, sky_sources,
};
use crate::world::skylight::{
    bare_above, ceiling_changes_no_light, lemma_place, sky_level, Area, Cells, HEIGHT,
};
use crate::world::tree::Placed;
use crate::world::voxel::{applied, has_column, layer, pair_before, region_has, GeneratedVoxelWorld};
use vstd::prelude::*;

verus! {

/// The block at each position of a world.
pub open spec fn world_cells(world: &GeneratedVoxelWorld) -> Cells {
    |x: int, y: int, z: int| world.content(x as i64, y, z as i64)
}

/// The edit of each position of a world.
pub open spec fn world_edits(world: &GeneratedVoxelWorld) -> Edited {
    |x: int, y: int, z: int| world.edit(x as i64, y, z as i64)
}

/// The edit of each position.
pub type Edited = spec_fn(int, int, int) -> Option<Block>;

/// A set of columns.
pub type Columns = spec_fn(int, int) -> bool;

/// Whether the columns that a world keeps are those of an earlier state and some others.
pub open spec fn keeps_just(
    before: &GeneratedVoxelWorld,
    after: &GeneratedVoxelWorld,
    asked: Columns,
) -> bool {
    forall|x: i64, z: i64|
        #![trigger after.cached(x, z)]
        after.cached(x, z) == (before.cached(x, z) || asked(x as int, z as int))
}

/// What is kept by two steps, one after the other.
pub proof fn lemma_keeps_just(
    first: &GeneratedVoxelWorld,
    second: &GeneratedVoxelWorld,
    third: &GeneratedVoxelWorld,
    asked: Columns,
    next: Columns,
    all: Columns,
)
    requires
        keeps_just(first, second, asked),
        keeps_just(second, third, next),
        forall|x: i64, z: i64| #[trigger]
            all(x as int, z as int) == (asked(x as int, z as int) || next(x as int, z as int)),
    ensures
        keeps_just(first, third, all),
{
    assert forall|x: i64, z: i64|
        #![trigger third.cached(x, z)]
        third.cached(x, z) == (first.cached(x, z) || all(x as int, z as int)) by {
        assert(second.cached(x, z) || !second.cached(x, z));
        assert(all(x as int, z as int) == (asked(x as int, z as int) || next(x as int, z as int)));
    }
}

/// The columns of a rectangle.
pub open spec fn columns_of(area: Area) -> Columns {
    |x: int, z: int| area.has(x, z)
}

/// Whether the blocks of a rectangle of columns can be told.
pub open spec fn knows_within(world: &GeneratedVoxelWorld, area: Area) -> bool {
    world.knows_area(area.min_x, area.max_x, area.min_z, area.max_z)
}

/// Whether a world differs from an earlier state only in the columns that it keeps.
pub open spec fn only_kept(before: &GeneratedVoxelWorld, after: &GeneratedVoxelWorld) -> bool {
    &&& after.wf()
    &&& after.same_source(before)
    &&& after.keeps_more(before)
}

/// Keeping columns changes no block, and keeping twice is keeping.
pub proof fn lemma_only_kept(
    first: &GeneratedVoxelWorld,
    second: &GeneratedVoxelWorld,
    third: &GeneratedVoxelWorld,
)
    requires
        only_kept(first, second),
        only_kept(second, third),
    ensures
        only_kept(first, third),
        world_cells(third) == world_cells(first),
        world_cells(second) == world_cells(first),
        world_edits(third) == world_edits(first),
        world_edits(second) == world_edits(first),
{
    GeneratedVoxelWorld::lemma_keeps_more_yet(first, second, third);
    assert forall|x: i64, y: int, z: i64| #[trigger] third.edit(x, y, z) == first.edit(
        x,
        y,
        z,
    ) by {
        assert(second.edit(x, y, z) == first.edit(x, y, z));
    }
    lemma_cells_kept(first, third);
    lemma_cells_kept(first, second);
}

/// Keeping columns changes no block.
pub proof fn lemma_cells_kept(before: &GeneratedVoxelWorld, after: &GeneratedVoxelWorld)
    requires
        only_kept(before, after),
    ensures
        world_cells(after) == world_cells(before),
        world_edits(after) == world_edits(before),
{
    after.lemma_same_content(before);
    assert(world_cells(after) =~= world_cells(before));
    assert(world_edits(after) =~= world_edits(before));
}

/// The sky light over a rectangle of columns.
pub open spec fn sky_over(cells: Cells, area: Area) -> Levels {
    |x: int, y: int, z: int| sky_level(cells, area, x, y, z)
}

/// The rectangle between two corners.
pub open spec fn area_of(min_x: i64, max_x: i64, min_z: i64, max_z: i64) -> Area {
    Area { min_x: min_x as int, max_x: max_x as int, min_z: min_z as int, max_z: max_z as int }
}

/// Whether a rectangle has columns, and a box over it has an index for each cell.
pub open spec fn fits(area: Area) -> bool {
    &&& area.min_x <= area.max_x
    &&& area.min_z <= area.max_z
    &&& inside(area.min_x)
    &&& inside(area.max_x + 1)
    &&& inside(area.min_z)
    &&& inside(area.max_z + 1)
    &&& area.width() * area.depth() * HEIGHT <= usize::MAX
}

/// A dense copy of a rectangle of columns.
pub struct MeshingBlocks {
    min_x: i64,
    max_x: i64,
    min_z: i64,
    max_z: i64,
    width: usize,
    depth: usize,
    blocks: Vec<Block>,
    tops: Vec<i64>,
    sky: Vec<u8>,
    light_ceiling: i64,
}

impl MeshingBlocks {
    /// The columns that were copied.
    pub closed spec fn area(&self) -> Area {
        area_of(self.min_x, self.max_x, self.min_z, self.max_z)
    }

    spec fn sized(&self) -> bool {
        &&& fits(self.area())
        &&& self.width == self.area().width()
        &&& self.depth == self.area().depth()
        &&& self.blocks@.len() == self.area().width() * self.area().depth() * HEIGHT
        &&& self.tops@.len() == self.area().width() * self.area().depth()
    }

    spec fn column_place(&self, x: int, z: int) -> int {
        (z - self.min_z) * self.area().width() + (x - self.min_x)
    }

    /// Nothing lies above the top of a column.
    spec fn topped(&self) -> bool {
        forall|x: int, y: int, z: int|
            #![trigger self.area().index(x, y, z)]
            self.area().has(x, z) && layer(y) && y > self.tops@[self.column_place(x, z)]
                ==> self.blocks@[self.area().index(x, y, z)] == Block::Air
    }

    spec fn tops_in_layers(&self) -> bool {
        forall|c: int| 0 <= c < self.tops@.len() ==> Y_MIN - 1 <= #[trigger] self.tops@[c] <= Y_MAX
    }

    /// Whether the copy is complete, with its light.
    pub closed spec fn wf(&self) -> bool {
        &&& self.sized()
        &&& self.topped()
        &&& self.tops_in_layers()
        &&& self.sky@.len() == self.blocks@.len()
        &&& forall|i: int|
            0 <= i < self.sky@.len() ==> #[trigger] self.sky@[i] <= LIGHT_MAX
        &&& forall|x: int, y: int, z: int|
            #![trigger self.area().index(x, y, z)]
            self.area().has(x, z) && layer(y) ==> sky_level(self.copied(), self.area(), x, y, z)
                == (if y > self.light_ceiling {
                LIGHT_MAX
            } else {
                self.sky@[self.area().index(x, y, z)]
            })
    }

    /// The block at each position that was copied.
    pub closed spec fn copied(&self) -> Cells {
        |x: int, y: int, z: int|
            if self.area().has(x, z) && layer(y) {
                self.blocks@[self.area().index(x, y, z)]
            } else {
                Block::Air
            }
    }

    /// The highest layer of a column in which it may have a block.
    pub closed spec fn spec_top(&self, x: int, z: int) -> int {
        self.tops@[self.column_place(x, z)] as int
    }
}

/// The highest layer of a column, as long as its list of blocks is, in which it has one
/// without edits.
pub open spec fn column_top(column: &Column) -> int {
    if column.blocks@.len() < HEIGHT {
        Y_MIN + column.blocks@.len() - 1
    } else {
        Y_MAX as int
    }
}

/// Whether a layer is the higher one of the top of a column that is kept and its highest
/// edit.
pub open spec fn is_top(world: &GeneratedVoxelWorld, x: i64, z: i64, top: int) -> bool {
    &&& column_top(&world.kept(x, z)) <= top
    &&& forall|y: int| (#[trigger] world.edit(x, y, z)) is Some ==> y <= top
    &&& top == column_top(&world.kept(x, z)) || world.edit(x, top, z) is Some
}

proof fn lemma_column_place(area: Area, x: int, z: int)
    requires
        area.has(x, z),
    ensures
        ({
            let c = (z - area.min_z) * area.width() + (x - area.min_x);
            &&& 0 <= c < area.width() * area.depth()
            &&& c * HEIGHT + HEIGHT <= area.width() * area.depth() * HEIGHT
            &&& forall|y: int| #[trigger] area.index(x, y, z) == c * HEIGHT + (y - Y_MIN)
        }),
{
    let w = area.width();
    let d = area.depth();
    let row = z - area.min_z;
    let c = row * w + (x - area.min_x);
    assert(0 <= row * w) by (nonlinear_arith)
        requires
            row >= 0,
            w > 0,
    ;
    assert(row * w + w <= w * d) by (nonlinear_arith)
        requires
            row + 1 <= d,
            w > 0,
    ;
    let all = w * d;
    assert(c * HEIGHT + HEIGHT <= all * HEIGHT) by (nonlinear_arith)
        requires
            c + 1 <= all,
    ;
}

proof fn lemma_small(area: Area)
    requires
        fits(area),
    ensures
        area.width() <= i64::MAX,
        area.depth() <= i64::MAX,
        area.width() * area.depth() <= usize::MAX,
{
    let w = area.width();
    let d = area.depth();
    assert(w <= w * d && d <= w * d) by (nonlinear_arith)
        requires
            w >= 1,
            d >= 1,
    ;
}

/// Copies the blocks of a column to its place.
fn write_column(blocks: &mut Vec<Block>, start: usize, column: &Column)
    requires
        start + HEIGHT <= old(blocks)@.len(),
    ensures
        final(blocks)@.len() == old(blocks)@.len(),
        forall|k: int|
            0 <= k < old(blocks)@.len() ==> #[trigger] final(blocks)@[k] == (if start <= k < start
                + HEIGHT && k - start < column.blocks@.len() {
                column.blocks@[k - start]
            } else {
                old(blocks)@[k]
            }),
{
    let size: usize = blocks.len();
    let mut y: usize = 0;
    while y < HEIGHT && y < column.blocks.len()
        invariant
            size == old(blocks)@.len(),
            start + HEIGHT <= old(blocks)@.len(),
            blocks@.len() == old(blocks)@.len(),
            y <= HEIGHT,
            y <= column.blocks@.len(),
            forall|k: int|
                0 <= k < old(blocks)@.len() ==> #[trigger] blocks@[k] == (if start <= k < start
                    + y {
                    column.blocks@[k - start]
                } else {
                    old(blocks)@[k]
                }),
        decreases HEIGHT - y,
    {
        blocks.set(start + y, column.blocks[y]);
        y += 1;
    }
}

impl MeshingBlocks {
    fn column_index(&self, x: i64, z: i64) -> (r: usize)
        requires
            self.sized(),
            self.area().has(x as int, z as int),
        ensures
            r == self.column_place(x as int, z as int),
            r < self.tops@.len(),
            r * HEIGHT + HEIGHT <= self.blocks@.len(),
    {
        proof {
            lemma_column_place(self.area(), x as int, z as int);
            lemma_small(self.area());
            let w = self.width as int;
            let d = self.depth as int;
            let row = z - self.min_z;
            assert(0 <= row * w <= w * d) by (nonlinear_arith)
                requires
                    0 <= row <= d,
                    w >= 0,
            ;
            assert(w * d <= w * d * HEIGHT) by (nonlinear_arith)
                requires
                    w >= 0,
                    d >= 0,
            ;
        }
        (z - self.min_z) as usize * self.width + (x - self.min_x) as usize
    }

    /// The highest layer of a column in which it may have a block.
    pub fn top(&self, x: i64, z: i64) -> (r: i64)
        requires
            self.wf(),
            self.area().has(x as int, z as int),
        ensures
            r == self.spec_top(x as int, z as int),
            Y_MIN - 1 <= r <= Y_MAX,
            forall|y: int| y > r ==> #[trigger] self.copied()(x as int, y, z as int) == Block::Air,
    {
        let c: usize = self.column_index(x, z);
        proof {
            assert forall|y: int| y > self.tops@[c as int] implies #[trigger] self.copied()(
                x as int,
                y,
                z as int,
            ) == Block::Air by {
                let i = self.area().index(x as int, y, z as int);
            }
        }
        self.tops[c]
    }

    fn empty(min_x: i64, max_x: i64, min_z: i64, max_z: i64) -> (r: MeshingBlocks)
        requires
            fits(area_of(min_x, max_x, min_z, max_z)),
        ensures
            r.area() == area_of(min_x, max_x, min_z, max_z),
            r.sized(),
            r.topped(),
            r.tops_in_layers(),
            forall|i: int| 0 <= i < r.blocks@.len() ==> #[trigger] r.blocks@[i] == Block::Air,
    {
        let ghost area = area_of(min_x, max_x, min_z, max_z);
        proof {
            let w = area.width();
            let d = area.depth();
            assert(w <= w * d && d <= w * d) by (nonlinear_arith)
                requires
                    w >= 1,
                    d >= 1,
            ;
            assert(w * d <= w * d * HEIGHT) by (nonlinear_arith)
                requires
                    w >= 0,
                    d >= 0,
            ;
        }
        let width: usize = (max_x - min_x + 1) as usize;
        let depth: usize = (max_z - min_z + 1) as usize;
        let blocks: Vec<Block> = vec![Block::Air; width * depth * HEIGHT];
        let tops: Vec<i64> = vec![Y_MIN; width * depth];
        let r = MeshingBlocks {
            min_x,
            max_x,
            min_z,
            max_z,
            width,
            depth,
            blocks,
            tops,
            sky: Vec::new(),
            light_ceiling: Y_MIN,
        };
        proof {
            assert forall|x: int, y: int, z: int|
                #![trigger r.area().index(x, y, z)]
                r.area().has(x, z) && layer(y) implies r.blocks@[r.area().index(x, y, z)]
                == Block::Air by {
                lemma_column_place(r.area(), x, z);
            }
        }
        r
    }

    /// What the copy holds after some of the columns: theirs, and air for the others.
    spec fn holds_columns(&self, world: &GeneratedVoxelWorld, columns: Seq<Column>) -> bool {
        forall|x: int, y: int, z: int|
            #![trigger self.area().index(x, y, z)]
            self.area().has(x, z) && layer(y) ==> self.blocks@[self.area().index(x, y, z)]
                == if has_column(columns, x as i64, z as i64) {
                world.base(x as i64, y, z as i64)
            } else {
                Block::Air
            }
    }

    /// The tops after some of the columns.
    spec fn tops_of_columns(&self, world: &GeneratedVoxelWorld, columns: Seq<Column>) -> bool {
        forall|x: int, z: int|
            self.area().has(x, z) && has_column(columns, x as i64, z as i64)
                ==> #[trigger] self.spec_top(x, z) == column_top(&world.kept(x as i64, z as i64))
    }

    /// The tops after some of the edits.
    spec fn tops_of_edits(&self, world: &GeneratedVoxelWorld, edits: Seq<Placed>) -> bool {
        forall|x: int, z: int|
            self.area().has(x, z) ==> tops_off(
                edits,
                x as i64,
                z as i64,
                column_top(&world.kept(x as i64, z as i64)),
                #[trigger] self.spec_top(x, z),
            )
    }

    fn put_column(
        &mut self,
        column: &Column,
        Ghost(world): Ghost<&GeneratedVoxelWorld>,
        Ghost(before): Ghost<Seq<Column>>,
    )
        requires
            old(self).sized(),
            old(self).topped(),
            old(self).tops_in_layers(),
            old(self).area().has(column.x as int, column.z as int),
            !has_column(before, column.x, column.z),
            old(self).holds_columns(world, before),
            forall|y: int| #[trigger] column.block(y) == world.base(column.x, y, column.z),
            column.blocks@ == world.kept(column.x, column.z).blocks@,
            old(self).tops_of_columns(world, before),
        ensures
            final(self).sized(),
            final(self).topped(),
            final(self).tops_in_layers(),
            final(self).area() == old(self).area(),
            final(self).holds_columns(world, before.push(*column)),
            final(self).tops_of_columns(world, before.push(*column)),
    {
        let c: usize = self.column_index(column.x, column.z);
        let len: usize = if column.blocks.len() < HEIGHT { column.blocks.len() } else { HEIGHT };
        write_column(&mut self.blocks, c * HEIGHT, column);
        self.tops.set(c, Y_MIN + len as i64 - 1);
        assert(self.is_put(old(self), column));
        proof {
            let all = before.push(*column);
            assert forall|x: int, y: int, z: int|
                #![trigger self.area().index(x, y, z)]
                self.area().has(x, z) && layer(y) implies self.blocks@[self.area().index(x, y, z)]
                == (if has_column(all, x as i64, z as i64) {
                world.base(x as i64, y, z as i64)
            } else {
                Block::Air
            }) && (y > self.tops@[self.column_place(x, z)] ==> self.blocks@[self.area().index(
                x,
                y,
                z,
            )] == Block::Air) by {
                lemma_put_cell(old(self), self, column, x, y, z);
                lemma_column_listed(before, *column, x as i64, z as i64);
                let was = old(self).area().index(x, y, z);
            }
            assert forall|x: int, z: int|
                self.area().has(x, z) && has_column(
                    all,
                    x as i64,
                    z as i64,
                ) implies #[trigger] self.spec_top(x, z) == column_top(
                &world.kept(x as i64, z as i64),
            ) by {
                lemma_put_cell(old(self), self, column, x, Y_MIN as int, z);
                lemma_column_listed(before, *column, x as i64, z as i64);
                lemma_column_place(old(self).area(), x, z);
                let was = old(self).spec_top(x, z);
            }
        }
    }

    /// Whether the copy differs from an earlier one by the blocks of a column.
    spec fn is_put(&self, was: &MeshingBlocks, column: &Column) -> bool {
        let c = was.column_place(column.x as int, column.z as int);
        let top = Y_MIN + column.blocks@.len() - 1;
        &&& self.area() == was.area()
        &&& self.blocks@.len() == was.blocks@.len()
        &&& forall|k: int|
            0 <= k < was.blocks@.len() ==> #[trigger] self.blocks@[k] == (if c * HEIGHT <= k < c
                * HEIGHT + HEIGHT && k - c * HEIGHT < column.blocks@.len() {
                column.blocks@[k - c * HEIGHT]
            } else {
                was.blocks@[k]
            })
        &&& self.tops@ == was.tops@.update(
            c,
            (if top > Y_MAX {
                Y_MAX as int
            } else {
                top
            }) as i64,
        )
    }
}

proof fn lemma_put_cell(
    was: &MeshingBlocks,
    now: &MeshingBlocks,
    column: &Column,
    x: int,
    y: int,
    z: int,
)
    requires
        was.sized(),
        now.is_put(was, column),
        was.area().has(column.x as int, column.z as int),
        was.area().has(x, z),
        layer(y),
    ensures
        ({
            let i = was.area().index(x, y, z);
            let here = x == column.x && z == column.z;
            let c = was.column_place(x, z);
            &&& 0 <= i < was.blocks@.len()
            &&& 0 <= c < was.tops@.len()
            &&& !here ==> now.blocks@[i] == was.blocks@[i] && now.tops@[c] == was.tops@[c]
            &&& here ==> now.blocks@[i] == (if y - Y_MIN < column.blocks@.len() {
                column.block(y)
            } else {
                was.blocks@[i]
            })
            &&& here && y > now.tops@[c] ==> y - Y_MIN >= column.blocks@.len()
        }),
{
    lemma_column_place(was.area(), x, z);
    lemma_column_place(was.area(), column.x as int, column.z as int);
    lemma_same_place(was.area(), x, z, column.x as int, column.z as int);
}

/// Columns with one place are the same column.
proof fn lemma_same_place(area: Area, x: int, z: int, a: int, b: int)
    requires
        area.has(x, z),
        area.has(a, b),
    ensures
        ({
            let c = (z - area.min_z) * area.width() + (x - area.min_x);
            let d = (b - area.min_z) * area.width() + (a - area.min_x);
            &&& (x != a || z != b) ==> c != d
            &&& c < d ==> c * HEIGHT + HEIGHT <= d * HEIGHT
            &&& d < c ==> d * HEIGHT + HEIGHT <= c * HEIGHT
        }),
{
    let empty = |x: int, y: int, z: int| Block::Air;
    lemma_place(empty, area, x, Y_MIN as int, z);
    lemma_place(empty, area, a, Y_MIN as int, b);
    let c = (z - area.min_z) * area.width() + (x - area.min_x);
    let d = (b - area.min_z) * area.width() + (a - area.min_x);
    if c < d {
        assert(c * HEIGHT + HEIGHT <= d * HEIGHT) by (nonlinear_arith)
            requires
                c + 1 <= d,
        ;
    }
    if d < c {
        assert(d * HEIGHT + HEIGHT <= c * HEIGHT) by (nonlinear_arith)
            requires
                d + 1 <= c,
        ;
    }
}

proof fn lemma_column_listed(before: Seq<Column>, column: Column, x: i64, z: i64)
    ensures
        has_column(before.push(column), x, z) == (has_column(before, x, z) || (column.x == x
            && column.z == z)),
{
    let all = before.push(column);
    if has_column(before, x, z) {
        let k = choose|k: int|
            0 <= k < before.len() && (#[trigger] before[k]).x == x && before[k].z == z;
        assert(all[k] == before[k]);
    }
    if column.x == x && column.z == z {
        assert(all[before.len() as int] == column);
    }
    if has_column(all, x, z) && !has_column(before, x, z) {
        let k = choose|k: int| 0 <= k < all.len() && (#[trigger] all[k]).x == x && all[k].z == z;
        if k < before.len() {
            assert(before[k] == all[k]);
        }
    }
}

/// Whether a layer is the higher one of a top and the highest edit of a list in a column.
spec fn tops_off(edits: Seq<Placed>, x: i64, z: i64, base: int, top: int) -> bool {
    &&& base <= top
    &&& forall|y: int| (#[trigger] applied(edits, x, y, z, None)) is Some ==> y <= top
    &&& top == base || applied(edits, x, top, z, None) is Some
}

/// An edit of another column, or of none, leaves the top of a column.
proof fn lemma_other_edit(before: Seq<Placed>, edit: Placed, x: i64, z: i64, base: int, top: int)
    requires
        tops_off(before, x, z, base, top),
        edit.0 != x || edit.2 != z || !layer(edit.1 as int),
    ensures
        tops_off(before.push(edit), x, z, base, top),
{
    assert(before.push(edit).drop_last() =~= before);
    assert forall|y: int| #[trigger] applied(before.push(edit), x, y, z, None) == applied(
        before,
        x,
        y,
        z,
        None,
    ) by {}
}

/// An edit of a column raises its top to its own layer, if that is higher.
proof fn lemma_edit_top(before: Seq<Placed>, edit: Placed, base: int, top: int)
    requires
        tops_off(before, edit.0, edit.2, base, top),
        layer(edit.1 as int),
    ensures
        tops_off(
            before.push(edit),
            edit.0,
            edit.2,
            base,
            if top < edit.1 {
                edit.1 as int
            } else {
                top
            },
        ),
{
    assert(before.push(edit).drop_last() =~= before);
    assert forall|y: int| #[trigger] applied(before.push(edit), edit.0, y, edit.2, None) == (if y
        == edit.1 {
        Some(edit.3)
    } else {
        applied(before, edit.0, y, edit.2, None)
    }) by {}
}

impl MeshingBlocks {
    /// What the copy holds after some of the edits.
    spec fn holds_edits(&self, world: &GeneratedVoxelWorld, edits: Seq<Placed>) -> bool {
        forall|x: int, y: int, z: int|
            #![trigger self.area().index(x, y, z)]
            self.area().has(x, z) && layer(y) ==> self.blocks@[self.area().index(x, y, z)] == (
            match applied(edits, x as i64, y, z as i64, None) {
                Some(block) => block,
                None => world.base(x as i64, y, z as i64),
            })
    }

    fn put_edit(
        &mut self,
        edit: Placed,
        Ghost(world): Ghost<&GeneratedVoxelWorld>,
        Ghost(before): Ghost<Seq<Placed>>,
    )
        requires
            old(self).sized(),
            old(self).topped(),
            old(self).tops_in_layers(),
            old(self).holds_edits(world, before),
            old(self).tops_of_edits(world, before),
        ensures
            final(self).sized(),
            final(self).topped(),
            final(self).tops_in_layers(),
            final(self).area() == old(self).area(),
            final(self).holds_edits(world, before.push(edit)),
            final(self).tops_of_edits(world, before.push(edit)),
    {
        assert(before.push(edit).drop_last() =~= before);
        let (x, y, z, block) = edit;
        if x < self.min_x || x > self.max_x || z < self.min_z || z > self.max_z || y < Y_MIN || y
            > Y_MAX {
            proof {
                assert forall|a: int, b: int, c: int|
                    #![trigger self.area().index(a, b, c)]
                    self.area().has(a, c) && layer(b) implies self.blocks@[self.area().index(
                    a,
                    b,
                    c,
                )] == (match applied(before.push(edit), a as i64, b, c as i64, None) {
                    Some(block) => block,
                    None => world.base(a as i64, b, c as i64),
                }) by {
                    let was = old(self).area().index(a, b, c);
                }
                assert forall|a: int, c: int| self.area().has(a, c) implies tops_off(
                    before.push(edit),
                    a as i64,
                    c as i64,
                    column_top(&world.kept(a as i64, c as i64)),
                    #[trigger] self.spec_top(a, c),
                ) by {
                    let was = old(self).spec_top(a, c);
                    lemma_other_edit(
                        before,
                        edit,
                        a as i64,
                        c as i64,
                        column_top(&world.kept(a as i64, c as i64)),
                        was,
                    );
                }
            }
            return;
        }
        let c: usize = self.column_index(x, z);
        let i: usize = c * HEIGHT + (y - Y_MIN) as usize;
        self.blocks.set(i, block);
        if self.tops[c] < y {
            self.tops.set(c, y);
        }
        proof {
            let area = self.area();
            lemma_column_place(area, x as int, z as int);
            assert(i == area.index(x as int, y as int, z as int));
            assert forall|a: int, b: int, d: int|
                #![trigger self.area().index(a, b, d)]
                self.area().has(a, d) && layer(b) implies self.blocks@[self.area().index(a, b, d)]
                == (match applied(before.push(edit), a as i64, b, d as i64, None) {
                Some(block) => block,
                None => world.base(a as i64, b, d as i64),
            }) && (b > self.tops@[self.column_place(a, d)] ==> self.blocks@[self.area().index(
                a,
                b,
                d,
            )] == Block::Air) by {
                let was = old(self).area().index(a, b, d);
                let empty = |x: int, y: int, z: int| Block::Air;
                lemma_place(empty, area, a, b, d);
                lemma_place(empty, area, x as int, y as int, z as int);
                lemma_same_place(area, a, d, x as int, z as int);
            }
            assert forall|a: int, d: int| self.area().has(a, d) implies tops_off(
                before.push(edit),
                a as i64,
                d as i64,
                column_top(&world.kept(a as i64, d as i64)),
                #[trigger] self.spec_top(a, d),
            ) by {
                let was = old(self).spec_top(a, d);
                let base = column_top(&world.kept(a as i64, d as i64));
                lemma_column_place(area, a, d);
                lemma_same_place(area, a, d, x as int, z as int);
                if a == x && d == z {
                    lemma_edit_top(before, edit, base, was);
                } else {
                    lemma_other_edit(before, edit, a as i64, d as i64, base, was);
                }
            }
        }
    }

    /// The highest top of all columns.
    fn highest_top(&self) -> (r: i64)
        requires
            self.sized(),
            self.tops_in_layers(),
        ensures
            Y_MIN <= r <= Y_MAX,
            forall|c: int| 0 <= c < self.tops@.len() ==> #[trigger] self.tops@[c] <= r,
    {
        let mut highest: i64 = Y_MIN;
        let mut c: usize = 0;
        while c < self.tops.len()
            invariant
                c <= self.tops@.len(),
                self.tops_in_layers(),
                Y_MIN <= highest <= Y_MAX,
                forall|k: int| 0 <= k < c ==> #[trigger] self.tops@[k] <= highest,
            decreases self.tops@.len() - c,
        {
            if self.tops[c] > highest {
                highest = self.tops[c];
            }
            c += 1;
        }
        highest
    }

    /// Fills the copy with light.
    fn fill_light(&mut self)
        requires
            old(self).sized(),
            old(self).topped(),
            old(self).tops_in_layers(),
        ensures
            final(self).wf(),
            final(self).area() == old(self).area(),
            final(self).copied() == old(self).copied(),
            forall|x: int, z: int| #[trigger]
                final(self).spec_top(x, z) == old(self).spec_top(x, z),
    {
        let max_top: i64 = self.highest_top();
        let ghost area = self.area();
        proof {
            assert(area.width() * area.depth() * HEIGHT == self.width * self.depth * HEIGHT);
        }
        self.sky =
        flood_fill_sky(
            self.blocks.as_slice(),
            self.width,
            self.depth,
            HEIGHT,
            (max_top - Y_MIN) as usize,
        );
        self.light_ceiling = if max_top + 1 < Y_MAX { max_top + 1 } else { Y_MAX };
        assert(self.copied() =~= old(self).copied());
        proof {
            let size = area.size();
            let blocks = self.blocks@;
            let top = max_top - Y_MIN;
            assert(area.blocks(self.copied()) =~= blocks) by {
                assert forall|i: int| 0 <= i < blocks.len() implies area.blocks(self.copied())[i]
                    == blocks[i] by {
                    lemma_cell(size, i);
                }
            }
            assert(bare_above(blocks, size, top)) by {
                assert forall|i: int|
                    0 <= i < blocks.len() && cell_y(size.2, i) > top implies #[trigger] blocks[i]
                    == Block::Air by {
                    lemma_bare_cell(old(self), top, i);
                }
            }
            assert forall|i: int| 0 <= i < self.sky@.len() implies #[trigger] self.sky@[i]
                <= LIGHT_MAX by {
                light_stays_below_its_sources(
                    sky_sources(blocks, size, top),
                    blocks,
                    size,
                    self.sky@,
                    LIGHT_MAX,
                    i,
                );
            }
            assert forall|x: int, y: int, z: int|
                #![trigger self.area().index(x, y, z)]
                self.area().has(x, z) && layer(y) implies sky_level(
                self.copied(),
                self.area(),
                x,
                y,
                z,
            ) == (if y > self.light_ceiling {
                LIGHT_MAX
            } else {
                self.sky@[self.area().index(x, y, z)]
            }) by {
                lemma_place(self.copied(), area, x, y, z);
                ceiling_changes_no_light(blocks, size, top, self.sky@, area.index(x, y, z));
            }
            assert forall|x: int, y: int, z: int|
                #![trigger self.area().index(x, y, z)]
                self.area().has(x, z) && layer(y) && y > self.tops@[self.column_place(
                    x,
                    z,
                )] implies self.blocks@[self.area().index(x, y, z)] == Block::Air by {
                let was = old(self).area().index(x, y, z);
            }
        }
    }
}

proof fn lemma_bare_cell(copy: &MeshingBlocks, top: int, i: int)
    requires
        copy.sized(),
        copy.topped(),
        0 <= i < copy.blocks@.len(),
        cell_y(HEIGHT as int, i) > top,
        forall|c: int| 0 <= c < copy.tops@.len() ==> #[trigger] copy.tops@[c] <= top + Y_MIN,
    ensures
        copy.blocks@[i] == Block::Air,
{
    let area = copy.area();
    lemma_cell(area.size(), i);
    let x = area.min_x + crate::world::light::cell_x(area.width(), HEIGHT as int, i);
    let y = Y_MIN + cell_y(HEIGHT as int, i);
    let z = area.min_z + crate::world::light::cell_z(area.width(), HEIGHT as int, i);
    lemma_column_place(area, x, z);
    assert(i == area.index(x, y, z));
    assert(copy.tops@[copy.column_place(x, z)] <= top + Y_MIN);
}

/// A list of all edits, each position once, gives the edits of the world.
pub(crate) proof fn lemma_listed_edit(edits: Seq<Placed>, x: i64, y: int, z: i64)
    ensures
        match applied(edits, x, y, z, None) {
            Some(block) => edits.contains((x, y as i64, z, block)) && layer(y),
            None => layer(y) ==> forall|block: Block| !#[trigger] edits.contains(
                (x, y as i64, z, block),
            ),
        },
    decreases edits.len(),
{
    if edits.len() > 0 {
        let before = edits.drop_last();
        lemma_listed_edit(before, x, y, z);
        let last = edits.last();
        match applied(edits, x, y, z, None) {
            Some(block) => {
                if last == (x, y as i64, z, block) {
                    assert(edits[edits.len() - 1] == last);
                } else {
                    let k = choose|k: int|
                        0 <= k < before.len() && before[k] == (x, y as i64, z, block);
                    assert(edits[k] == before[k]);
                }
            },
            None => {
                if layer(y) {
                    assert forall|block: Block| !#[trigger] edits.contains(
                        (x, y as i64, z, block),
                    ) by {
                        if edits.contains((x, y as i64, z, block)) {
                            let k = choose|k: int|
                                0 <= k < edits.len() && edits[k] == (x, y as i64, z, block);
                            if k < before.len() {
                                assert(before[k] == edits[k]);
                                assert(before.contains((x, y as i64, z, block)));
                            }
                        }
                    }
                }
            },
        }
    }
}

/// A column of a region lies in it, holds what the world has, and is the first of its
/// place.
proof fn lemma_region_column(
    source: &GeneratedVoxelWorld,
    area: Area,
    columns: Seq<Column>,
    i: int,
)
    requires
        source.is_region(area.min_x, area.max_x, area.min_z, area.max_z + 1, 0, columns),
        0 <= i < columns.len(),
    ensures
        area.has(columns[i].x as int, columns[i].z as int),
        forall|y: int| #[trigger]
            columns[i].block(y) == source.base(columns[i].x, y, columns[i].z),
        !has_column(columns.take(i), columns[i].x, columns[i].z),
        source.cached(columns[i].x, columns[i].z) ==> columns[i].blocks@ == source.kept(
            columns[i].x,
            columns[i].z,
        ).blocks@,
{
    reveal(GeneratedVoxelWorld::is_region);
    let c = columns[i];
    let before = columns.take(i);
    if has_column(before, c.x, c.z) {
        let k = choose|k: int|
            0 <= k < before.len() && (#[trigger] before[k]).x == c.x && before[k].z == c.z;
        assert(columns[k] == before[k]);
        assert(pair_before((columns[k].x, columns[k].z), (c.x, c.z)));
    }
}

/// A region has all its columns.
proof fn lemma_region_complete(
    source: &GeneratedVoxelWorld,
    area: Area,
    columns: Seq<Column>,
    x: i64,
    z: i64,
)
    requires
        source.is_region(area.min_x, area.max_x, area.min_z, area.max_z + 1, 0, columns),
        area.has(x as int, z as int),
    ensures
        has_column(columns, x, z),
{
    reveal(GeneratedVoxelWorld::is_region);
    assert(region_has(area.min_x, area.max_x, area.min_z, area.max_z + 1, 0, x, z));
}

/// A list of all edits of a world gives the edit of each position.
proof fn lemma_edit_told(
    world: &GeneratedVoxelWorld,
    edits: Seq<Placed>,
    x: i64,
    y: int,
    z: i64,
)
    requires
        world.wf(),
        forall|a: i64, b: i64, c: i64, block: Block| #[trigger]
            edits.contains((a, b, c, block)) <==> world.edit(a, b as int, c) == Some(block),
    ensures
        applied(edits, x, y, z, None) == world.edit(x, y, z),
{
    lemma_listed_edit(edits, x, y, z);
    match applied(edits, x, y, z, None) {
        Some(block) => {
            assert(edits.contains((x, y as i64, z, block)));
        },
        None => {
            match world.edit(x, y, z) {
                Some(block) => {
                    world.lemma_edit_inside(x, y, z);
                    assert(edits.contains((x, y as i64, z, block)));
                },
                None => {},
            }
        },
    }
}

proof fn lemma_tops_told(
    world: &GeneratedVoxelWorld,
    edits: Seq<Placed>,
    x: i64,
    z: i64,
    top: int,
)
    requires
        world.wf(),
        forall|a: i64, b: i64, c: i64, block: Block| #[trigger]
            edits.contains((a, b, c, block)) <==> world.edit(a, b as int, c) == Some(block),
        tops_off(edits, x, z, column_top(&world.kept(x, z)), top),
    ensures
        is_top(world, x, z, top),
{
    lemma_edit_told(world, edits, x, top, z);
    assert forall|y: int| (#[trigger] world.edit(x, y, z)) is Some implies y <= top by {
        lemma_edit_told(world, edits, x, y, z);
        assert(applied(edits, x, y, z, None) is Some);
    }
}

impl MeshingBlocks {
    /// Copies a rectangle of columns and fills it with light.
    pub fn new(
        world: &mut GeneratedVoxelWorld,
        min_x: i64,
        max_x: i64,
        min_z: i64,
        max_z: i64,
    ) -> (r: MeshingBlocks)
        requires
            old(world).wf(),
            old(world).knows_area(min_x as int, max_x as int, min_z as int, max_z as int),
            fits(area_of(min_x, max_x, min_z, max_z)),
        ensures
            r.wf(),
            r.area() == area_of(min_x, max_x, min_z, max_z),
            forall|x: int, z: int|
                r.area().has(x, z) ==> is_top(
                    final(world),
                    x as i64,
                    z as i64,
                    #[trigger] r.spec_top(x, z),
                ),
            forall|x: int, y: int, z: int|
                r.area().has(x, z) ==> #[trigger] r.copied()(x, y, z) == old(world).content(
                    x as i64,
                    y,
                    z as i64,
                ),
            final(world).wf(),
            final(world).same_source(old(world)),
            final(world).keeps_more(old(world)),
            forall|x: i64, z: i64|
                #![trigger final(world).cached(x, z)]
                final(world).cached(x, z) == (old(world).cached(x, z) || (min_x <= x <= max_x
                    && min_z <= z <= max_z)),
    {
        let mut copy = MeshingBlocks::empty(min_x, max_x, min_z, max_z);
        let ghost area = copy.area();
        let columns = world.clone_columns_region(min_x, max_x, min_z, max_z);
        let ghost source = *world;
        copy.put_columns(&columns, Ghost(&source));
        let edits = world.edits();
        copy.put_edits(&edits, Ghost(&source));
        let ghost told = copy;
        copy.fill_light();
        proof {
            source.lemma_same_content(old(world));
            assert forall|x: int, z: int| copy.area().has(x, z) implies is_top(
                &source,
                x as i64,
                z as i64,
                #[trigger] copy.spec_top(x, z),
            ) by {
                lemma_tops_told(&source, edits@, x as i64, z as i64, told.spec_top(x, z));
            }
            assert forall|x: int, y: int, z: int| copy.area().has(x, z) implies
                #[trigger] copy.copied()(x, y, z) == old(world).content(x as i64, y, z as i64) by {
                lemma_edit_told(&source, edits@, x as i64, y, z as i64);
                let at = told.area().index(x, y, z);
                assert(told.copied()(x, y, z) == source.content(x as i64, y, z as i64));
            }
        }
        copy
    }

    /// Copies columns.
    fn put_columns(&mut self, columns: &Vec<Column>, Ghost(source): Ghost<&GeneratedVoxelWorld>)
        requires
            old(self).sized(),
            old(self).topped(),
            old(self).tops_in_layers(),
            forall|k: int|
                0 <= k < old(self).blocks@.len() ==> #[trigger] old(self).blocks@[k] == Block::Air,
            source.is_region(
                old(self).area().min_x,
                old(self).area().max_x,
                old(self).area().min_z,
                old(self).area().max_z + 1,
                0,
                columns@,
            ),
            forall|x: i64, z: i64|
                old(self).area().has(x as int, z as int) ==> #[trigger] source.cached(x, z),
        ensures
            final(self).sized(),
            final(self).topped(),
            final(self).tops_in_layers(),
            final(self).area() == old(self).area(),
            final(self).holds_edits(source, Seq::empty()),
            final(self).tops_of_edits(source, Seq::empty()),
    {
        let ghost area = self.area();
        let mut i: usize = 0;
        assert(columns@.take(0) =~= Seq::<Column>::empty());
        assert(self.holds_columns(source, columns@.take(0))) by {
            assert forall|x: int, y: int, z: int|
                #![trigger self.area().index(x, y, z)]
                self.area().has(x, z) && layer(y) implies self.blocks@[self.area().index(x, y, z)]
                == Block::Air by {
                lemma_column_place(area, x, z);
            }
        }
        while i < columns.len()
            invariant
                i <= columns@.len(),
                self.sized(),
                self.topped(),
                self.tops_in_layers(),
                self.area() == area,
                self.holds_columns(source, columns@.take(i as int)),
                self.tops_of_columns(source, columns@.take(i as int)),
                forall|x: i64, z: i64|
                    area.has(x as int, z as int) ==> #[trigger] source.cached(x, z),
                source.is_region(
                    area.min_x,
                    area.max_x,
                    area.min_z,
                    area.max_z + 1,
                    0,
                    columns@,
                ),
            decreases columns@.len() - i,
        {
            let ghost before = columns@.take(i as int);
            proof {
                lemma_region_column(source, area, columns@, i as int);
                assert(source.cached(columns@[i as int].x, columns@[i as int].z));
                assert(columns@.take(i + 1) =~= before.push(columns@[i as int]));
            }
            self.put_column(&columns[i], Ghost(source), Ghost(before));
            i += 1;
        }
        proof {
            assert(columns@.take(i as int) =~= columns@);
            assert forall|x: int, y: int, z: int|
                #![trigger self.area().index(x, y, z)]
                self.area().has(x, z) && layer(y) implies self.blocks@[self.area().index(x, y, z)]
                == source.base(x as i64, y, z as i64) by {
                lemma_region_complete(source, area, columns@, x as i64, z as i64);
            }
            assert forall|x: int, z: int| self.area().has(x, z) implies tops_off(
                Seq::empty(),
                x as i64,
                z as i64,
                column_top(&source.kept(x as i64, z as i64)),
                #[trigger] self.spec_top(x, z),
            ) by {
                lemma_region_complete(source, area, columns@, x as i64, z as i64);
            }
        }
    }

    /// Puts edits into a copy of columns.
    fn put_edits(&mut self, edits: &Vec<Placed>, Ghost(source): Ghost<&GeneratedVoxelWorld>)
        requires
            old(self).sized(),
            old(self).topped(),
            old(self).tops_in_layers(),
            old(self).holds_edits(source, Seq::empty()),
            old(self).tops_of_edits(source, Seq::empty()),
        ensures
            final(self).sized(),
            final(self).topped(),
            final(self).tops_in_layers(),
            final(self).area() == old(self).area(),
            final(self).holds_edits(source, edits@),
            final(self).tops_of_edits(source, edits@),
    {
        let mut j: usize = 0;
        assert(edits@.take(0) =~= Seq::<Placed>::empty());
        while j < edits.len()
            invariant
                j <= edits@.len(),
                self.sized(),
                self.topped(),
                self.tops_in_layers(),
                self.area() == old(self).area(),
                self.holds_edits(source, edits@.take(j as int)),
                self.tops_of_edits(source, edits@.take(j as int)),
            decreases edits@.len() - j,
        {
            assert(edits@.take(j + 1) =~= edits@.take(j as int).push(edits@[j as int]));
            self.put_edit(edits[j], Ghost(source), Ghost(edits@.take(j as int)));
            j += 1;
        }
        assert(edits@.take(j as int) =~= edits@);
    }

    /// The block at a position of the copy.
    pub fn block_at(&self, x: i64, y: i64, z: i64) -> (r: Block)
        requires
            self.wf(),
            self.area().has(x as int, z as int),
        ensures
            r == self.copied()(x as int, y as int, z as int),
    {
        if y < Y_MIN || y > Y_MAX {
            return Block::Air;
        }
        proof {
            lemma_column_place(self.area(), x as int, z as int);
        }
        self.blocks[self.column_index(x, z) * HEIGHT + (y - Y_MIN) as usize]
    }

    /// The sky light at a position of the copy: full above the highest block.
    pub fn sky_light_at(&self, x: i64, y: i64, z: i64) -> (r: u8)
        requires
            self.wf(),
            self.area().has(x as int, z as int),
        ensures
            r == sky_level(self.copied(), self.area(), x as int, y as int, z as int),
            r <= LIGHT_MAX,
    {
        if y < Y_MIN || y > Y_MAX || y > self.light_ceiling {
            proof {
                let i = self.area().index(x as int, y as int, z as int);
            }
            return LIGHT_MAX;
        }
        proof {
            lemma_column_place(self.area(), x as int, z as int);
        }
        self.sky[self.column_index(x, z) * HEIGHT + (y - Y_MIN) as usize]
    }
}

impl BlockSource for MeshingBlocks {
    open spec fn cells(&self) -> Cells {
        self.copied()
    }

    open spec fn sky(&self) -> Levels {
        sky_over(self.copied(), self.area())
    }

    open spec fn covers(&self, x: int, z: int) -> bool {
        self.wf() && self.area().has(x, z)
    }

    fn block(&mut self, x: i64, y: i64, z: i64) -> (r: Block) {
        self.block_at(x, y, z)
    }

    fn light(&mut self, x: i64, y: i64, z: i64) -> (r: u8) {
        self.sky_light_at(x, y, z)
    }
}

} // verus!
