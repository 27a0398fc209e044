//! The editable world: generated columns, and the edits that override them.

use crate::double::Double;
use crate::world::block::{Block, LIGHT_MAX};
use crate::world::column::{column_top, terrain_at, Column, Y_MAX, Y_MIN};
use crate::world::column_map::ColumnMap;
use crate::world::generator::{
    columns_depend_on_near_heights, decorate_column, generate_column, generate_columns,
    generated_at, inside, is_decorated, is_generated, is_surveyed, same_ground, tree_rules, EDGE,
    HEIGHT_REACH,
};
use crate::world::heights::HeightTable;
use crate::world::tree::{Placed, TreeDecorator};
use vstd::arithmetic::div_mod::{lemma_fundamental_div_mod, lemma_fundamental_div_mod_converse};
use vstd::prelude::*;

verus! {

/// What the rest of the game needs of a world.
pub trait VoxelWorld: Sized {
    /// The block at a position.
    spec fn cell(&self, x: i64, y: i64, z: i64) -> Block;

    /// Whether the world can be asked.
    spec fn valid(&self) -> bool;

    /// Whether the blocks of a column can be told.
    spec fn known(&self, x: i64, z: i64) -> bool;

    /// Whether the world is an earlier one that has been asked for blocks and not changed.
    spec fn asked_since(&self, before: &Self) -> bool;

    /// The block at a position of a column that is known. Asking changes no block.
    fn block_at(&mut self, x: i64, y: i64, z: i64) -> (r: Block)
        requires
            old(self).valid(),
            old(self).known(x, z),
            inside(x as int),
            inside(z as int),
        ensures
            final(self).valid(),
            r == old(self).cell(x, y, z),
            forall|a: i64, c: i64| old(self).known(a, c) ==> #[trigger] final(self).known(a, c),
            forall|a: i64, b: i64, c: i64| #[trigger]
                final(self).cell(a, b, c) == old(self).cell(a, b, c),
            forall|before: &Self| #[trigger]
                old(self).asked_since(before) ==> final(self).asked_since(before),
    ;

    /// Changes the block at a position, where the world can be changed.
    fn set_block(&mut self, x: i64, y: i64, z: i64, block: Block)
        requires
            old(self).valid(),
            inside(x as int),
            inside(z as int),
        ensures
            final(self).valid(),
        default_ensures
            *final(self) == *old(self),
    {
    }

    /// The sky light at a position; full where the world keeps no light.
    fn sky_light_at(&mut self, x: i64, y: i64, z: i64) -> (r: u8)
        requires
            old(self).valid(),
        ensures
            final(self).valid(),
            r <= LIGHT_MAX,
        default_ensures
            *final(self) == *old(self),
            r == LIGHT_MAX,
    {
        LIGHT_MAX
    }

    /// The block light at a position; none where the world keeps no light.
    fn block_light_at(&mut self, x: i64, y: i64, z: i64) -> (r: u8)
        requires
            old(self).valid(),
        ensures
            final(self).valid(),
            r <= LIGHT_MAX,
        default_ensures
            *final(self) == *old(self),
            r == 0,
    {
        0
    }
}

/// Whether the blocks of a rectangle of columns can be told.
pub open spec fn known_between<W: VoxelWorld>(
    world: &W,
    min_x: int,
    max_x: int,
    min_z: int,
    max_z: int,
) -> bool {
    forall|x: i64, z: i64|
        min_x <= x <= max_x && min_z <= z <= max_z ==> #[trigger] world.known(x, z)
}

/// Whether the columns that could be told can still be told, and nothing has been done but
/// to ask for blocks.
pub open spec fn still_known<W: VoxelWorld>(before: &W, after: &W) -> bool {
    &&& forall|x: i64, z: i64| before.known(x, z) ==> #[trigger] after.known(x, z)
    &&& forall|first: &W| #[trigger] before.asked_since(first) ==> after.asked_since(first)
}

/// Whether some layer of a column has an edit.
spec fn some_edit(cells: Seq<Option<Block>>) -> bool {
    exists|y: int| 0 <= y < cells.len() && (#[trigger] cells[y]) is Some
}

/// The edits of one column, by layer.
pub type EditColumn = Vec<Option<Block>>;

/// A world that is generated where it is asked for.
pub struct GeneratedVoxelWorld {
    seed: u64,
    heights: HeightTable,
    columns: ColumnMap<Column>,
    edits: ColumnMap<EditColumn>,
}

/// Whether a layer exists.
pub open spec fn layer(y: int) -> bool {
    Y_MIN <= y <= Y_MAX
}

impl GeneratedVoxelWorld {
    /// The seed of the world.
    pub closed spec fn spec_seed(&self) -> u64 {
        self.seed
    }

    /// The heights that have been sampled.
    pub closed spec fn ground(&self) -> HeightTable {
        self.heights
    }

    /// Whether a column is kept.
    pub closed spec fn cached(&self, x: i64, z: i64) -> bool {
        self.columns.has(x, z)
    }

    /// What a kept column holds.
    pub closed spec fn kept(&self, x: i64, z: i64) -> Column {
        self.columns.at(x, z)
    }

    /// The number of columns that are kept.
    pub closed spec fn kept_count(&self) -> nat {
        self.columns.list().len()
    }

    /// The columns that are kept.
    pub open spec fn kept_columns(&self) -> Set<(i64, i64)> {
        Set::new(|p: (i64, i64)| self.cached(p.0, p.1))
    }

    /// The column that is kept at a place of the list of kept columns.
    pub closed spec fn listed(&self, i: int) -> (i64, i64) {
        (self.columns.list()[i].x, self.columns.list()[i].z)
    }

    /// The edit of a position.
    pub closed spec fn edit(&self, x: i64, y: int, z: i64) -> Option<Block> {
        if self.edits.has(x, z) && layer(y) {
            self.edits.at(x, z)@[y]
        } else {
            None
        }
    }

    /// What a position holds without edits.
    pub open spec fn base(&self, x: i64, y: int, z: i64) -> Block {
        if self.cached(x, z) {
            self.kept(x, z).block(y)
        } else {
            generated_at(self.spec_seed(), &self.ground(), x, y, z)
        }
    }

    /// What a position holds: the edit if there is one, and nothing outside the layers.
    pub open spec fn content(&self, x: i64, y: int, z: i64) -> Block {
        if !layer(y) {
            Block::Air
        } else {
            match self.edit(x, y, z) {
                Some(block) => block,
                None => self.base(x, y, z),
            }
        }
    }

    /// Whether the columns and edits are kept properly.
    pub closed spec fn wf(&self) -> bool {
        &&& self.columns.wf()
        &&& self.edits.wf()
        &&& forall|x: i64, z: i64|
            #![trigger self.columns.has(x, z)]
            self.columns.has(x, z) ==> {
                let c = self.columns.at(x, z);
                &&& c.x == x
                &&& c.z == z
                &&& c.blocks@.len() <= i64::MAX
                &&& inside(x as int)
                &&& inside(z as int)
            }
        &&& forall|x: i64, z: i64|
            #![trigger self.edits.has(x, z)]
            self.edits.has(x, z) ==> {
                &&& self.edits.at(x, z)@.len() == Y_MAX + 1
                &&& some_edit(self.edits.at(x, z)@)
                &&& inside(x as int)
                &&& inside(z as int)
            }
    }

    /// Whether all heights on which a column depends have been sampled.
    pub open spec fn surveyed(&self, x: i64, z: i64) -> bool {
        is_surveyed(&self.ground(), x, z)
    }

    /// Whether the blocks of a column can be told: it is kept, or it can be generated.
    pub open spec fn knows(&self, x: i64, z: i64) -> bool {
        self.cached(x, z) || self.surveyed(x, z)
    }

    /// Whether the blocks of a rectangle of columns can be told.
    pub open spec fn knows_area(&self, min_x: int, max_x: int, min_z: int, max_z: int) -> bool {
        forall|x: i64, z: i64|
            min_x <= x <= max_x && min_z <= z <= max_z ==> #[trigger] self.knows(x, z)
    }

    /// Whether all kept columns are what the generator gives.
    pub open spec fn pristine(&self) -> bool {
        forall|x: i64, z: i64|
            #![trigger self.cached(x, z)]
            self.cached(x, z) ==> {
                &&& inside(x as int)
                &&& inside(z as int)
                &&& self.surveyed(x, z)
                &&& is_generated(&self.kept(x, z), self.spec_seed(), &self.ground())
            }
    }

    /// Whether seed, heights and edits are those of another world.
    pub open spec fn same_source(&self, other: &GeneratedVoxelWorld) -> bool {
        &&& self.spec_seed() == other.spec_seed()
        &&& self.ground() == other.ground()
        &&& forall|x: i64, y: int, z: i64| #[trigger] self.edit(x, y, z) == other.edit(x, y, z)
    }

    /// Whether the columns that another world keeps are kept, and every further one is
    /// generated.
    pub open spec fn keeps_more(&self, other: &GeneratedVoxelWorld) -> bool {
        forall|x: i64, z: i64|
            #![trigger self.cached(x, z)]
            #![trigger other.cached(x, z)]
            if other.cached(x, z) {
                self.cached(x, z) && self.kept(x, z) == other.kept(x, z)
            } else {
                self.cached(x, z) ==> {
                    &&& inside(x as int)
                    &&& inside(z as int)
                    &&& other.surveyed(x, z)
                    &&& is_generated(&self.kept(x, z), other.spec_seed(), &other.ground())
                    &&& self.kept(x, z).x == x
                    &&& self.kept(x, z).z == z
                }
            }
    }

    /// Edits lie where columns can be.
    pub proof fn lemma_edit_inside(&self, x: i64, y: int, z: i64)
        requires
            self.wf(),
            self.edit(x, y, z) is Some,
        ensures
            inside(x as int),
            inside(z as int),
            layer(y),
    {
        assert(self.edits.has(x, z));
    }

    /// Keeping more columns changes nothing of what is known.
    pub proof fn lemma_knows_more(&self, other: &GeneratedVoxelWorld)
        requires
            self.ground() == other.ground(),
            self.keeps_more(other),
        ensures
            forall|x: i64, z: i64|
                #![trigger self.knows(x, z)]
                #![trigger other.knows(x, z)]
                other.knows(x, z) == self.knows(x, z),
    {
        assert forall|x: i64, z: i64| other.knows(x, z) == self.knows(x, z) by {
            assert(self.cached(x, z) || !self.cached(x, z));
        }
    }

    /// Keeping more columns changes no block.
    pub proof fn lemma_same_content(&self, other: &GeneratedVoxelWorld)
        requires
            self.same_source(other),
            self.keeps_more(other),
        ensures
            forall|x: i64, y: int, z: i64| #[trigger]
                self.content(x, y, z) == other.content(x, y, z),
            other.pristine() ==> self.pristine(),
    {
        assert forall|x: i64, y: int, z: i64| #[trigger] self.content(x, y, z) == other.content(
            x,
            y,
            z,
        ) by {
            assert(self.edit(x, y, z) == other.edit(x, y, z));
            if self.cached(x, z) && !other.cached(x, z) {
                assert(self.kept(x, z).block(y) == generated_at(
                    other.spec_seed(),
                    &other.ground(),
                    x,
                    y,
                    z,
                ));
            }
        }
        if other.pristine() {
            assert forall|x: i64, z: i64| #[trigger] self.cached(x, z) implies {
                &&& inside(x as int)
                &&& inside(z as int)
                &&& self.surveyed(x, z)
                &&& is_generated(&self.kept(x, z), self.spec_seed(), &self.ground())
            } by {
                if other.cached(x, z) {
                    assert(other.surveyed(x, z));
                }
            }
        }
    }

    /// An empty world for a seed, without sampled heights.
    pub fn new(seed: u64) -> (r: GeneratedVoxelWorld)
        ensures
            r.wf(),
            r.spec_seed() == seed,
            r.kept_count() == 0,
            r.pristine(),
            forall|x: i64, z: i64| !(#[trigger] r.cached(x, z)),
            forall|x: i64, y: int, z: i64| (#[trigger] r.edit(x, y, z)) is None,
            forall|x: i64, z: i64| !(#[trigger] r.ground().known(x, z)),
    {
        GeneratedVoxelWorld {
            seed,
            heights: HeightTable::new(),
            columns: ColumnMap::new(),
            edits: ColumnMap::new(),
        }
    }

    /// A world that starts with columns of terrain; the trees that reach them are
    /// added. Of several columns of one position the last one is kept.
    #[verifier::rlimit(80)]
    #[verifier::spinoff_prover]
    pub fn with_columns(seed: u64, heights: HeightTable, columns: Vec<Column>) -> (r:
        GeneratedVoxelWorld)
        requires
            forall|i: int|
                0 <= i < columns@.len() ==> {
                    &&& inside((#[trigger] columns@[i]).x as int)
                    &&& inside(columns@[i].z as int)
                    &&& columns@[i].blocks@.len() <= i64::MAX
                    &&& is_surveyed(&heights, columns@[i].x, columns@[i].z)
                },
        ensures
            r.wf(),
            r.spec_seed() == seed,
            r.ground() == heights,
            forall|x: i64, y: int, z: i64| (#[trigger] r.edit(x, y, z)) is None,
            forall|x: i64, z: i64|
                #![trigger r.cached(x, z)]
                match last_column(columns@, x, z) {
                    None => !r.cached(x, z),
                    Some(column) => r.cached(x, z) && is_decorated(
                        &r.kept(x, z),
                        &column,
                        &tree_rules(seed),
                        &heights,
                    ),
                },
    {
        let mut r = GeneratedVoxelWorld {
            seed,
            heights,
            columns: ColumnMap::new(),
            edits: ColumnMap::new(),
        };
        let rules = TreeDecorator::new(seed);
        assert(rules == tree_rules(seed));
        let mut i: usize = 0;
        while i < columns.len()
            invariant
                i <= columns.len(),
                rules == tree_rules(seed),
                forall|k: int|
                    0 <= k < columns@.len() ==> {
                        &&& inside((#[trigger] columns@[k]).x as int)
                        &&& inside(columns@[k].z as int)
                        &&& columns@[k].blocks@.len() <= i64::MAX
                        &&& is_surveyed(&heights, columns@[k].x, columns@[k].z)
                    },
                r.wf(),
                r.seed == seed,
                r.heights == heights,
                forall|x: i64, z: i64| !(#[trigger] r.edits.has(x, z)),
                forall|x: i64, z: i64|
                    #![trigger r.cached(x, z)]
                    match last_column(columns@.take(i as int), x, z) {
                        None => !r.cached(x, z),
                        Some(column) => r.cached(x, z) && is_decorated(
                            &r.kept(x, z),
                            &column,
                            &tree_rules(seed),
                            &heights,
                        ),
                    },
            decreases columns.len() - i,
        {
            let ghost had = r;
            let ground = columns[i].clone();
            let column = decorate_column(ground, &r.heights, &rules);
            proof {
                lemma_decorated_clone(&column, &ground, &columns@[i as int], &rules, &heights);
            }
            r.columns.insert(column.x, column.z, column);
            proof {
                assert(columns@.take(i + 1).drop_last() =~= columns@.take(i as int));
                assert forall|x: i64, z: i64|
                    #![trigger r.cached(x, z)]
                    match last_column(columns@.take(i + 1), x, z) {
                        None => !r.cached(x, z),
                        Some(c) => r.cached(x, z) && is_decorated(
                            &r.kept(x, z),
                            &c,
                            &tree_rules(seed),
                            &heights,
                        ),
                    } by {
                    assert(had.cached(x, z) == had.columns.has(x, z));
                    if x == column.x && z == column.z {
                        assert(r.kept(x, z) == column);
                    } else if had.cached(x, z) {
                        assert(r.kept(x, z) == had.kept(x, z));
                    }
                }
            }
            i += 1;
        }
        assert(columns@.take(i as int) =~= columns@);
        r
    }
}

impl GeneratedVoxelWorld {
    /// The seed of the world.
    pub fn seed(&self) -> (r: u64)
        ensures
            r == self.spec_seed(),
    {
        self.seed
    }

    /// The heights that have been sampled.
    pub fn heights(&self) -> (r: &HeightTable)
        ensures
            *r == self.ground(),
    {
        &self.heights
    }

    /// The number of columns that are kept.
    pub fn cached_column_count(&self) -> (r: usize)
        ensures
            r == self.kept_count(),
    {
        self.columns.len()
    }

    /// The column at a place of the list of kept columns.
    pub fn cached_column(&self, i: usize) -> (r: &Column)
        requires
            self.wf(),
            i < self.kept_count(),
        ensures
            (r.x, r.z) == self.listed(i as int),
            self.cached(r.x, r.z),
            self.kept(r.x, r.z) == *r,
    {
        proof {
            self.columns.lemma_listed();
            let e = self.columns.list()[i as int];
            assert(self.columns.has(e.x, e.z));
        }
        &self.columns.entry(i).value
    }

    /// Takes the sampled height of a position, unless it has one.
    pub fn supply_height(&mut self, x: i64, z: i64, h: Double)
        requires
            old(self).wf(),
        ensures
            final(self).wf(),
            final(self).ground().gained(&old(self).ground(), x, z, h),
            final(self).spec_seed() == old(self).spec_seed(),
            final(self).kept_count() == old(self).kept_count(),
            forall|a: i64, b: i64|
                #![trigger final(self).cached(a, b)]
                final(self).cached(a, b) == old(self).cached(a, b) && final(self).kept(a, b)
                    == old(self).kept(a, b),
            forall|a: i64, y: int, b: i64| #[trigger]
                final(self).edit(a, y, b) == old(self).edit(a, y, b),
            old(self).pristine() ==> final(self).pristine(),
    {
        self.heights.supply(x, z, h);
        proof {
            if old(self).pristine() {
                assert forall|a: i64, b: i64| #[trigger] self.cached(a, b) implies {
                    &&& inside(a as int)
                    &&& inside(b as int)
                    &&& self.surveyed(a, b)
                    &&& is_generated(&self.kept(a, b), self.spec_seed(), &self.ground())
                } by {
                    assert(old(self).cached(a, b));
                    assert(old(self).surveyed(a, b));
                    lemma_supply_keeps(&old(self).heights, &self.heights, x, z, h, a, b);
                    let column = self.kept(a, b);
                    assert forall|y: int| #[trigger] column.block(y) == generated_at(
                        self.spec_seed(),
                        &self.ground(),
                        column.x,
                        y,
                        column.z,
                    ) by {
                        columns_depend_on_near_heights(
                            self.seed,
                            &old(self).heights,
                            &self.heights,
                            a,
                            y,
                            b,
                        );
                    }
                    assert(self.heights.at(a, b) == old(self).heights.at(a, b));
                }
            }
        }
    }

    /// The positions in and around a rectangle whose heights are needed and have not
    /// been sampled, row by row.
    pub fn missing_heights(&self, min_x: i64, max_x: i64, min_z: i64, max_z: i64) -> (r: Vec<
        (i64, i64),
    >)
        requires
            inside(min_x as int),
            inside(max_x as int),
            inside(min_z as int),
            inside(max_z as int),
        ensures
            forall|x: i64, z: i64|
                r@.contains((x, z)) <==> {
                    &&& min_x <= max_x
                    &&& min_z <= max_z
                    &&& min_x - HEIGHT_REACH <= x <= max_x + HEIGHT_REACH
                    &&& min_z - HEIGHT_REACH <= z <= max_z + HEIGHT_REACH
                    &&& !(#[trigger] self.ground().known(x, z))
                },
            forall|i: int, j: int|
                0 <= i < j < r@.len() ==> pair_before(#[trigger] r@[i], #[trigger] r@[j]),
    {
        let mut out: Vec<(i64, i64)> = Vec::new();
        if min_x > max_x || min_z > max_z {
            return out;
        }
        let x0: i64 = min_x - HEIGHT_REACH;
        let x1: i64 = max_x + HEIGHT_REACH;
        let z1: i64 = max_z + HEIGHT_REACH;
        let mut z: i64 = min_z - HEIGHT_REACH;
        let ghost z0 = z;
        while z <= z1
            invariant
                z0 <= z <= z1 + 1,
                x0 <= x1 < i64::MAX,
                z1 < i64::MAX,
                forall|i: int|
                    0 <= i < out@.len() ==> {
                        let p = #[trigger] out@[i];
                        x0 <= p.0 <= x1 && z0 <= p.1 < z && !self.heights.known(p.0, p.1)
                    },
                forall|a: i64, b: i64|
                    x0 <= a <= x1 && z0 <= b < z && !(#[trigger] self.heights.known(a, b))
                        ==> out@.contains((a, b)),
                forall|i: int, j: int|
                    0 <= i < j < out@.len() ==> pair_before(#[trigger] out@[i], #[trigger] out@[j]),
            decreases z1 + 1 - z,
        {
            let mut x: i64 = x0;
            while x <= x1
                invariant
                    z0 <= z <= z1,
                    x0 <= x <= x1 + 1,
                    x1 < i64::MAX,
                    forall|i: int|
                        0 <= i < out@.len() ==> {
                            let p = #[trigger] out@[i];
                            &&& x0 <= p.0 <= x1
                            &&& z0 <= p.1 <= z
                            &&& p.1 == z ==> p.0 < x
                            &&& !self.heights.known(p.0, p.1)
                        },
                    forall|a: i64, b: i64|
                        x0 <= a <= x1 && z0 <= b && (b < z || (b == z && a < x))
                            && !(#[trigger] self.heights.known(a, b)) ==> out@.contains((a, b)),
                    forall|i: int, j: int|
                        0 <= i < j < out@.len() ==> pair_before(
                            #[trigger] out@[i],
                            #[trigger] out@[j],
                        ),
                decreases x1 + 1 - x,
            {
                let ghost had = out@;
                if !self.heights.is_known(x, z) {
                    out.push((x, z));
                    proof {
                        assert(out@[had.len() as int] == (x, z));
                        assert forall|a: i64, b: i64|
                            x0 <= a <= x1 && z0 <= b && (b < z || (b == z && a < x + 1))
                                && !(#[trigger] self.heights.known(
                                a,
                                b,
                            )) implies out@.contains((a, b)) by {
                            if a != x || b != z {
                                let k = choose|k: int| 0 <= k < had.len() && had[k] == (a, b);
                                assert(out@[k] == (a, b));
                            }
                        }
                    }
                }
                x += 1;
            }
            z += 1;
        }
        proof {
            assert forall|x: i64, z: i64|
                out@.contains((x, z)) implies !(#[trigger] self.heights.known(x, z)) by {
                let k = choose|k: int| 0 <= k < out@.len() && out@[k] == (x, z);
            }
        }
        out
    }

    /// Whether all heights on which a column depends have been sampled.
    fn is_surveyed(&self, x: i64, z: i64) -> (r: bool)
        requires
            inside(x as int),
            inside(z as int),
        ensures
            r == self.surveyed(x, z),
    {
        let mut b: i64 = z - HEIGHT_REACH;
        while b <= z + HEIGHT_REACH
            invariant
                inside(x as int),
                inside(z as int),
                z - HEIGHT_REACH <= b <= z + HEIGHT_REACH + 1,
                forall|c: i64, d: i64|
                    -HEIGHT_REACH <= c - x <= HEIGHT_REACH && z - HEIGHT_REACH <= d < b
                        ==> #[trigger] self.heights.known(c, d),
            decreases z + HEIGHT_REACH + 1 - b,
        {
            let mut a: i64 = x - HEIGHT_REACH;
            while a <= x + HEIGHT_REACH
                invariant
                    inside(x as int),
                    inside(z as int),
                    x - HEIGHT_REACH <= a <= x + HEIGHT_REACH + 1,
                    z - HEIGHT_REACH <= b <= z + HEIGHT_REACH,
                    forall|c: i64| x - HEIGHT_REACH <= c < a ==> #[trigger] self.heights.known(c, b),
                decreases x + HEIGHT_REACH + 1 - a,
            {
                if !self.heights.is_known(a, b) {
                    assert(!self.ground().known(a, b));
                    return false;
                }
                a += 1;
            }
            b += 1;
        }
        true
    }

    /// Whether the blocks of a column can be told.
    pub fn is_known(&self, x: i64, z: i64) -> (r: bool)
        requires
            self.wf(),
            inside(x as int),
            inside(z as int),
        ensures
            r == self.knows(x, z),
    {
        self.columns.get(x, z).is_some() || self.is_surveyed(x, z)
    }

    /// Keeps a column that is known.
    pub fn keep_column(&mut self, x: i64, z: i64)
        requires
            old(self).wf(),
            old(self).knows(x, z),
            inside(x as int),
            inside(z as int),
        ensures
            final(self).wf(),
            final(self).same_source(old(self)),
            final(self).keeps_more(old(self)),
            forall|a: i64, b: i64|
                #![trigger final(self).cached(a, b)]
                final(self).cached(a, b) == (old(self).cached(a, b) || (a == x && b == z)),
            final(self).kept_count() == old(self).kept_count() + (if old(self).cached(x, z) {
                0int
            } else {
                1
            }),
    {
        if self.columns.get(x, z).is_none() {
            let column = generate_column(self.seed, &self.heights, x, z);
            self.columns.insert(x, z, column);
            proof {
                assert(self.kept(x, z) == column);
                assert forall|a: i64, b: i64|
                    old(self).cached(a, b) implies #[trigger] self.cached(a, b) && self.kept(a, b)
                    == old(self).kept(a, b) by {
                    assert(old(self).columns.has(a, b));
                    assert(self.columns.at(a, b) == old(self).columns.at(a, b));
                }
            }
        }
    }

    /// The block at a position of a column that is known. The column is kept if it had to
    /// be generated.
    pub fn look(&mut self, x: i64, y: i64, z: i64) -> (r: Block)
        requires
            old(self).wf(),
            old(self).knows(x, z),
            inside(x as int),
            inside(z as int),
        ensures
            final(self).wf(),
            r == old(self).content(x, y as int, z),
            final(self).same_source(old(self)),
            final(self).keeps_more(old(self)),
            forall|a: i64, b: i64|
                #![trigger final(self).cached(a, b)]
                final(self).cached(a, b) == (old(self).cached(a, b) || (a == x && b == z && layer(
                    y as int,
                ) && old(self).edit(x, y as int, z) is None)),
            final(self).kept_count() == old(self).kept_count() + (if !old(self).cached(x, z)
                && layer(y as int) && old(self).edit(x, y as int, z) is None {
                1int
            } else {
                0
            }),
    {
        if y < Y_MIN || y > Y_MAX {
            return Block::Air;
        }
        if let Some(cells) = self.edits.get(x, z) {
            if let Some(block) = cells[y as usize] {
                return block;
            }
        }
        self.keep_column(x, z);
        match self.columns.get(x, z) {
            Some(column) => column.get(y),
            None => generate_column(self.seed, &self.heights, x, z).get(y),
        }
    }

    /// The column of a position without edits.
    pub fn base_column(&self, x: i64, z: i64) -> (r: Column)
        requires
            self.wf(),
            self.knows(x, z),
            inside(x as int),
            inside(z as int),
        ensures
            r.x == x,
            r.z == z,
            forall|y: int| #[trigger] r.block(y) == self.base(x, y, z),
            r.blocks@.len() <= i64::MAX,
            self.cached(x, z) ==> r.blocks@ == self.kept(x, z).blocks@,
    {
        match self.columns.get(x, z) {
            Some(column) => {
                let copy = column.clone();
                assert forall|y: int| #[trigger] copy.block(y) == column.block(y) by {}
                copy
            },
            None => generate_column(self.seed, &self.heights, x, z),
        }
    }

    /// Sets the edit of a position. Positions outside the layers are ignored.
    pub fn set_block_raw(&mut self, x: i64, y: i64, z: i64, block: Block)
        requires
            old(self).wf(),
            inside(x as int),
            inside(z as int),
        ensures
            final(self).wf(),
            final(self).edited(old(self), x, y as int, z, block),
    {
        if y < Y_MIN || y > Y_MAX {
            return;
        }
        match self.edits.find(x, z) {
            Some(i) => {
                let mut cells: EditColumn = self.edits.replace(i, Vec::new());
                cells.set(y as usize, Some(block));
                self.edits.replace(i, cells);
            },
            None => {
                let mut cells: EditColumn = vec![None; 128];
                cells.set(y as usize, Some(block));
                self.edits.insert(x, z, cells);
            },
        }
        proof {
            old(self).edits.lemma_listed();
            self.edits.lemma_listed();
            assert(self.edits.at(x, z)@[y as int] is Some);
        }
    }

    /// Whether the world is another one with one edit more.
    pub open spec fn edited(
        &self,
        before: &GeneratedVoxelWorld,
        x: i64,
        y: int,
        z: i64,
        block: Block,
    ) -> bool {
        &&& self.spec_seed() == before.spec_seed()
        &&& self.ground() == before.ground()
        &&& self.kept_count() == before.kept_count()
        &&& forall|a: i64, b: i64|
            #![trigger self.cached(a, b)]
            self.cached(a, b) == before.cached(a, b) && self.kept(a, b) == before.kept(a, b)
        &&& forall|a: i64, b: int, c: i64|
            #![trigger self.edit(a, b, c)]
            self.edit(a, b, c) == if a == x && b == y && c == z && layer(y) {
                Some(block)
            } else {
                before.edit(a, b, c)
            }
    }
}

impl GeneratedVoxelWorld {
    /// Drops the kept columns outside a square.
    pub fn retain_columns_within(&mut self, center_x: i64, center_z: i64, radius: i64)
        requires
            old(self).wf(),
        ensures
            final(self).wf(),
            final(self).same_source(old(self)),
            forall|x: i64, z: i64|
                #![trigger final(self).cached(x, z)]
                final(self).cached(x, z) == (old(self).cached(x, z) && -radius <= x - center_x
                    <= radius && -radius <= z - center_z <= radius),
            forall|x: i64, z: i64|
                #![trigger final(self).kept(x, z)]
                final(self).cached(x, z) ==> final(self).kept(x, z) == old(self).kept(x, z),
            old(self).pristine() ==> final(self).pristine() && forall|x: i64, y: int, z: i64|
                #[trigger]
                final(self).content(x, y, z) == old(self).content(x, y, z),
            final(self).kept_count() == final(self).kept_columns().len(),
    {
        if radius < 0 {
            self.columns.clear();
        } else {
            let min_x: i64 = lowered(center_x, radius);
            let max_x: i64 = raised(center_x, radius);
            let min_z: i64 = lowered(center_z, radius);
            let max_z: i64 = raised(center_z, radius);
            self.columns.retain_within(min_x, max_x, min_z, max_z);
        }
        proof {
            kept_columns_are_counted(self);
            assert forall|x: i64, z: i64| self.cached(x, z) implies #[trigger] self.kept(x, z)
                == old(self).kept(x, z) by {
                assert(self.columns.has(x, z));
                assert(self.columns.at(x, z) == old(self).columns.at(x, z));
            }
            if old(self).pristine() {
                assert forall|x: i64, z: i64| #[trigger] self.cached(x, z) implies {
                    &&& inside(x as int)
                    &&& inside(z as int)
                    &&& self.surveyed(x, z)
                    &&& is_generated(&self.kept(x, z), self.spec_seed(), &self.ground())
                } by {
                    assert(old(self).cached(x, z));
                    assert(old(self).surveyed(x, z));
                    assert(self.kept(x, z) == old(self).kept(x, z));
                }
                assert forall|x: i64, y: int, z: i64| #[trigger]
                    self.content(x, y, z) == old(self).content(x, y, z) by {
                    assert(self.edit(x, y, z) == old(self).edit(x, y, z));
                    if old(self).cached(x, z) {
                        let column = old(self).kept(x, z);
                        assert(old(self).columns.has(x, z));
                        assert(column.block(y) == generated_at(
                            self.seed,
                            &self.heights,
                            column.x,
                            y,
                            column.z,
                        ));
                        if self.cached(x, z) {
                            assert(self.kept(x, z) == column);
                        }
                    }
                }
            }
        }
    }

    /// Keeps a generated column, unless its position has one.
    fn take_column(&mut self, column: Column)
        requires
            old(self).wf(),
            inside(column.x as int),
            inside(column.z as int),
            old(self).surveyed(column.x, column.z),
            is_generated(&column, old(self).spec_seed(), &old(self).ground()),
            column.blocks@.len() <= i64::MAX,
        ensures
            final(self).wf(),
            final(self).same_source(old(self)),
            final(self).keeps_more(old(self)),
            forall|x: i64, z: i64|
                #![trigger final(self).cached(x, z)]
                final(self).cached(x, z) == (old(self).cached(x, z) || (x == column.x && z
                    == column.z)),
    {
        let x: i64 = column.x;
        let z: i64 = column.z;
        if self.columns.get(x, z).is_none() {
            let ghost given = column;
            self.columns.insert(x, z, column);
            proof {
                assert(self.kept(x, z) == given);
                assert forall|a: i64, b: i64|
                    old(self).cached(a, b) implies #[trigger] self.cached(a, b) && self.kept(a, b)
                    == old(self).kept(a, b) by {
                    assert(old(self).columns.has(a, b));
                    assert(self.columns.at(a, b) == old(self).columns.at(a, b));
                }
            }
        }
    }

    /// Keeping more twice is keeping more, and so is having the same source twice.
    proof fn lemma_keeps_more(
        first: &GeneratedVoxelWorld,
        second: &GeneratedVoxelWorld,
        third: &GeneratedVoxelWorld,
    )
        requires
            second.same_source(first),
            second.keeps_more(first),
            third.same_source(second),
            third.keeps_more(second),
        ensures
            third.same_source(first),
            third.keeps_more(first),
    {
        assert forall|x: i64, y: int, z: i64| #[trigger] third.edit(x, y, z) == first.edit(
            x,
            y,
            z,
        ) by {
            assert(second.edit(x, y, z) == first.edit(x, y, z));
        }
        Self::lemma_keeps_more_yet(first, second, third);
    }

    /// Edits are made in layers only, and far enough inside.
    pub proof fn lemma_edits_in_layers(&self, x: i64, y: int, z: i64)
        requires
            self.wf(),
        ensures
            self.edit(x, y, z) is Some ==> layer(y) && inside(x as int) && inside(z as int),
    {
    }

    /// Keeping what is kept is keeping more.
    pub proof fn lemma_keeps_itself(&self)
        requires
            self.wf(),
        ensures
            self.keeps_more(self),
            self.same_source(self),
    {
    }

    /// Keeping more twice is keeping more.
    pub proof fn lemma_keeps_more_yet(
        first: &GeneratedVoxelWorld,
        second: &GeneratedVoxelWorld,
        third: &GeneratedVoxelWorld,
    )
        requires
            second.spec_seed() == first.spec_seed(),
            second.ground() == first.ground(),
            second.keeps_more(first),
            third.keeps_more(second),
        ensures
            third.keeps_more(first),
    {
        assert forall|x: i64, z: i64|
            #![trigger third.cached(x, z)]
            #![trigger first.cached(x, z)]
            if first.cached(x, z) {
                third.cached(x, z) && third.kept(x, z) == first.kept(x, z)
            } else {
                third.cached(x, z) ==> {
                    &&& inside(x as int)
                    &&& inside(z as int)
                    &&& first.surveyed(x, z)
                    &&& is_generated(&third.kept(x, z), first.spec_seed(), &first.ground())
                    &&& third.kept(x, z).x == x
                    &&& third.kept(x, z).z == z
                }
            } by {
            assert(second.cached(x, z) || !second.cached(x, z));
            assert(second.surveyed(x, z) == first.surveyed(x, z));
        }
    }

    /// Keeps the columns of positions, generating them in parallel.
    fn keep_all(&mut self, positions: Vec<(i64, i64)>)
        requires
            old(self).wf(),
            forall|i: int|
                0 <= i < positions@.len() ==> {
                    let p = #[trigger] positions@[i];
                    &&& inside(p.0 as int)
                    &&& inside(p.1 as int)
                    &&& old(self).surveyed(p.0, p.1)
                },
        ensures
            final(self).wf(),
            final(self).same_source(old(self)),
            final(self).keeps_more(old(self)),
            forall|x: i64, z: i64|
                #![trigger final(self).cached(x, z)]
                final(self).cached(x, z) == (old(self).cached(x, z) || positions@.contains((x, z))),
    {
        let ghost asked = positions@;
        let columns = generate_columns(self.seed, &self.heights, positions);
        let mut i: usize = 0;
        while i < columns.len()
            invariant
                i <= columns.len(),
                columns@.len() == asked.len(),
                forall|k: int|
                    0 <= k < columns@.len() ==> {
                        &&& (#[trigger] columns@[k]).x == asked[k].0
                        &&& columns@[k].z == asked[k].1
                        &&& is_generated(&columns@[k], old(self).spec_seed(), &old(self).ground())
                        &&& columns@[k].blocks@.len() <= Y_MAX + 1
                    },
                forall|k: int|
                    0 <= k < asked.len() ==> {
                        let p = #[trigger] asked[k];
                        &&& inside(p.0 as int)
                        &&& inside(p.1 as int)
                        &&& old(self).surveyed(p.0, p.1)
                    },
                self.wf(),
                self.same_source(old(self)),
                self.keeps_more(old(self)),
                forall|x: i64, z: i64|
                    #![trigger self.cached(x, z)]
                    self.cached(x, z) == (old(self).cached(x, z) || asked.take(
                        i as int,
                    ).contains((x, z))),
            decreases columns.len() - i,
        {
            let ghost before = *self;
            let column = columns[i].clone();
            proof {
                let source = columns@[i as int];
                assert(asked[i as int] == (column.x, column.z));
                assert forall|y: int| #[trigger] column.block(y) == source.block(y) by {}
                assert(before.surveyed(column.x, column.z));
            }
            let ghost p = (column.x, column.z);
            self.take_column(column);
            proof {
                Self::lemma_keeps_more(old(self), &before, self);
                assert(asked.take(i + 1) =~= asked.take(i as int).push(p));
                assert forall|a: i64, b: i64|
                    #![trigger self.cached(a, b)]
                    self.cached(a, b) == (old(self).cached(a, b) || asked.take(i + 1).contains(
                        (a, b),
                    )) by {
                    lemma_push_contains(asked.take(i as int), p, (a, b));
                    assert(before.cached(a, b) == (old(self).cached(a, b) || asked.take(
                        i as int,
                    ).contains((a, b))));
                }
            }
            i += 1;
        }
        assert(asked.take(i as int) =~= asked);
    }

    /// The positions of a grid of columns that are not kept: `count` of
    /// them along each axis, `step` apart.
    fn missing_columns(&self, x0: i64, nx: u64, z0: i64, nz: u64, step: i64) -> (r: Vec<(i64, i64)>)
        requires
            self.wf(),
            0 < step,
            inside(x0 as int),
            inside(z0 as int),
            inside(x0 + nx * step),
            inside(z0 + nz * step),
        ensures
            forall|x: i64, z: i64| #[trigger]
                r@.contains((x, z)) <==> {
                    &&& on_grid(x0 as int, nx as int, step as int, x as int)
                    &&& on_grid(z0 as int, nz as int, step as int, z as int)
                    &&& !self.cached(x, z)
                },
    {
        let mut out: Vec<(i64, i64)> = Vec::new();
        let mut kz: u64 = 0;
        while kz < nz
            invariant
                self.wf(),
                0 < step,
                kz <= nz,
                inside(x0 as int),
                inside(z0 as int),
                inside(x0 + nx * step),
                inside(z0 + nz * step),
                forall|x: i64, z: i64| #[trigger]
                    out@.contains((x, z)) <==> {
                        &&& on_grid(x0 as int, nx as int, step as int, x as int)
                        &&& on_grid(z0 as int, kz as int, step as int, z as int)
                        &&& !self.cached(x, z)
                    },
            decreases nz - kz,
        {
            proof {
                lemma_grid_inside(z0 as int, nz as int, step as int, kz as int);
            }
            let z: i64 = (z0 as i128 + kz as i128 * step as i128) as i64;
            let ghost rows = out@;
            let mut kx: u64 = 0;
            while kx < nx
                invariant
                    self.wf(),
                    0 < step,
                    kx <= nx,
                    inside(x0 as int),
                    inside(z as int),
                    inside(x0 + nx * step),
                    z == z0 + kz * step,
                    forall|a: i64, b: i64| #[trigger]
                        out@.contains((a, b)) <==> (rows.contains((a, b)) || {
                            &&& on_grid(x0 as int, kx as int, step as int, a as int)
                            &&& b == z
                            &&& !self.cached(a, b)
                        }),
                decreases nx - kx,
            {
                proof {
                    lemma_grid_inside(x0 as int, nx as int, step as int, kx as int);
                }
                let x: i64 = (x0 as i128 + kx as i128 * step as i128) as i64;
                let ghost had = out@;
                if self.columns.get(x, z).is_none() {
                    out.push((x, z));
                }
                proof {
                    assert forall|a: i64, b: i64| #[trigger] out@.contains((a, b)) <==> (
                    rows.contains((a, b)) || {
                        &&& on_grid(x0 as int, kx + 1, step as int, a as int)
                        &&& b == z
                        &&& !self.cached(a, b)
                    }) by {
                        lemma_grid_grows(x0 as int, kx as int, step as int, a as int);
                        lemma_push_contains(had, (x, z), (a, b));
                        assert(had.contains((a, b)) || !had.contains((a, b)));
                    }
                }
                kx += 1;
            }
            proof {
                assert forall|a: i64, b: i64| #[trigger] out@.contains((a, b)) <==> {
                    &&& on_grid(x0 as int, nx as int, step as int, a as int)
                    &&& on_grid(z0 as int, kz + 1, step as int, b as int)
                    &&& !self.cached(a, b)
                } by {
                    lemma_grid_grows(z0 as int, kz as int, step as int, b as int);
                    assert(rows.contains((a, b)) || !rows.contains((a, b)));
                }
            }
            kz += 1;
        }
        out
    }

    /// Keeps all columns of a rectangle that is known. They are generated in parallel.
    pub fn preload_columns_parallel(&mut self, min_x: i64, max_x: i64, min_z: i64, max_z: i64)
        requires
            old(self).wf(),
            old(self).knows_area(min_x as int, max_x as int, min_z as int, max_z as int),
            inside(min_x as int),
            inside(max_x + 1),
            inside(min_z as int),
            inside(max_z + 1),
        ensures
            final(self).wf(),
            final(self).same_source(old(self)),
            final(self).keeps_more(old(self)),
            forall|x: i64, z: i64|
                #![trigger final(self).cached(x, z)]
                final(self).cached(x, z) == (old(self).cached(x, z) || (min_x <= x <= max_x
                    && min_z <= z <= max_z)),
            final(self).kept_count() == final(self).kept_columns().len(),
    {
        if min_x > max_x || min_z > max_z {
            proof {
                kept_columns_are_counted(self);
            }
            return;
        }
        let nx: u64 = (max_x as i128 - min_x as i128 + 1) as u64;
        let nz: u64 = (max_z as i128 - min_z as i128 + 1) as u64;
        let missing = self.missing_columns(min_x, nx, min_z, nz, 1);
        let ghost asked = missing@;
        proof {
            assert forall|i: int| 0 <= i < asked.len() implies {
                let p = #[trigger] asked[i];
                &&& inside(p.0 as int)
                &&& inside(p.1 as int)
                &&& self.surveyed(p.0, p.1)
            } by {
                assert(asked.contains((asked[i].0, asked[i].1)));
                lemma_grid_of_ones(min_x as int, nx as int, asked[i].0 as int);
                lemma_grid_of_ones(min_z as int, nz as int, asked[i].1 as int);
                assert(self.knows(asked[i].0, asked[i].1));
            }
        }
        self.keep_all(missing);
        proof {
            kept_columns_are_counted(self);
            assert forall|x: i64, z: i64|
                #![trigger self.cached(x, z)]
                self.cached(x, z) == (old(self).cached(x, z) || (min_x <= x <= max_x && min_z <= z
                    <= max_z)) by {
                lemma_grid_of_ones(min_x as int, nx as int, x as int);
                lemma_grid_of_ones(min_z as int, nz as int, z as int);
                assert(asked.contains((x, z)) || !asked.contains((x, z)));
            }
        }
    }

    /// Keeps the columns of a coarse grid around a centre, which are known: those at whole
    /// multiples of `step` from the centre, up to a radius.
    pub fn preload_columns_grid_parallel(
        &mut self,
        center_x: i64,
        center_z: i64,
        radius: i64,
        step: i64,
    )
        requires
            old(self).wf(),
            step > 0,
            radius >= 0 ==> inside(center_x - radius) && inside(center_x + radius + step) && inside(
                center_z - radius,
            ) && inside(center_z + radius + step),
            forall|x: i64, z: i64|
                off_by_steps(center_x as int, radius as int, step as int, x as int)
                    && off_by_steps(center_z as int, radius as int, step as int, z as int)
                    ==> #[trigger] old(self).knows(x, z),
        ensures
            final(self).wf(),
            final(self).same_source(old(self)),
            final(self).keeps_more(old(self)),
            forall|x: i64, z: i64|
                #![trigger final(self).cached(x, z)]
                final(self).cached(x, z) == (old(self).cached(x, z) || (radius >= 0
                    && off_by_steps(center_x as int, radius as int, step as int, x as int)
                    && off_by_steps(center_z as int, radius as int, step as int, z as int))),
            final(self).kept_count() == final(self).kept_columns().len(),
    {
        if radius < 0 {
            proof {
                kept_columns_are_counted(self);
            }
            return;
        }
        let cells: i64 = radius / step;
        proof {
            lemma_grid_bounds(center_x as int, radius as int, step as int);
            lemma_grid_bounds(center_z as int, radius as int, step as int);
        }
        let x0: i64 = center_x - cells * step;
        let z0: i64 = center_z - cells * step;
        let n: u64 = 2 * (cells as u64) + 1;
        let missing = self.missing_columns(x0, n, z0, n, step);
        let ghost asked = missing@;
        proof {
            assert forall|i: int| 0 <= i < asked.len() implies {
                let p = #[trigger] asked[i];
                &&& inside(p.0 as int)
                &&& inside(p.1 as int)
                &&& self.surveyed(p.0, p.1)
            } by {
                assert(asked.contains((asked[i].0, asked[i].1)));
                lemma_on_grid_inside(x0 as int, n as int, step as int, asked[i].0 as int);
                lemma_on_grid_inside(z0 as int, n as int, step as int, asked[i].1 as int);
                lemma_grid_is_steps(
                    center_x as int,
                    radius as int,
                    step as int,
                    asked[i].0 as int,
                );
                lemma_grid_is_steps(
                    center_z as int,
                    radius as int,
                    step as int,
                    asked[i].1 as int,
                );
                assert(self.knows(asked[i].0, asked[i].1));
            }
        }
        self.keep_all(missing);
        proof {
            kept_columns_are_counted(self);
            assert forall|x: i64, z: i64|
                #![trigger self.cached(x, z)]
                self.cached(x, z) == (old(self).cached(x, z) || (radius >= 0 && off_by_steps(
                    center_x as int,
                    radius as int,
                    step as int,
                    x as int,
                ) && off_by_steps(center_z as int, radius as int, step as int, z as int))) by {
                lemma_grid_is_steps(center_x as int, radius as int, step as int, x as int);
                lemma_grid_is_steps(center_z as int, radius as int, step as int, z as int);
                assert(asked.contains((x, z)) || !asked.contains((x, z)));
            }
        }
    }
}

/// Whether a block is the surface of a column, or of its terrain: trees are no
/// terrain.
pub open spec fn is_surface(block: Block, terrain_only: bool) -> bool {
    block != Block::Air && !(terrain_only && (block == Block::OakLog || block
        == Block::OakLeaves))
}

impl GeneratedVoxelWorld {
    /// The highest layer up to `y` that has an edit; the lowest layer if none has.
    pub open spec fn top_edit(&self, x: i64, z: i64, y: int) -> int
        decreases y,
    {
        if y <= Y_MIN || self.edit(x, y, z) is Some {
            if y < Y_MIN {
                Y_MIN as int
            } else {
                y
            }
        } else {
            self.top_edit(x, z, y - 1)
        }
    }

    /// The highest layer in which a column may have a block: that of its ground or
    /// water, of its edits, or of what is kept of it.
    pub open spec fn spec_surface_top(&self, x: i64, z: i64) -> int {
        let ground = column_top(self.ground().at(x, z));
        let edit = self.top_edit(x, z, Y_MAX as int);
        let kept = if self.cached(x, z) {
            Y_MIN + self.kept(x, z).blocks@.len() - 1
        } else {
            Y_MIN as int
        };
        if ground >= edit && ground >= kept {
            ground
        } else if edit >= kept {
            edit
        } else {
            kept
        }
    }

    /// Whether the surface of a column is as given.
    pub open spec fn surface_is(
        &self,
        x: i64,
        z: i64,
        terrain_only: bool,
        r: Option<(i64, Block)>,
    ) -> bool {
        match r {
            Some((y, block)) => {
                &&& layer(y as int)
                &&& block == self.content(x, y as int, z)
                &&& is_surface(block, terrain_only)
                &&& forall|k: int|
                    y < k <= Y_MAX ==> !is_surface(#[trigger] self.content(x, k, z), terrain_only)
            },
            None => forall|k: int| layer(k) ==> !is_surface(
                #[trigger] self.content(x, k, z),
                terrain_only,
            ),
        }
    }

    /// The edit of a position.
    pub fn edited_block(&self, x: i64, y: i64, z: i64) -> (r: Option<Block>)
        requires
            self.wf(),
        ensures
            r == self.edit(x, y as int, z),
    {
        if y < Y_MIN || y > Y_MAX {
            return None;
        }
        match self.edits.get(x, z) {
            Some(cells) => cells[y as usize],
            None => None,
        }
    }

    /// What is kept of a position.
    pub fn kept_block(&self, x: i64, y: i64, z: i64) -> (r: Option<Block>)
        requires
            self.wf(),
        ensures
            r is Some <==> self.cached(x, z),
            r is Some ==> r->0 == self.kept(x, z).block(y as int),
    {
        match self.columns.get(x, z) {
            Some(column) => Some(column.get(y)),
            None => None,
        }
    }

    /// The highest layer in which a column may have a block.
    pub fn surface_top(&self, x: i64, z: i64) -> (r: i64)
        requires
            self.wf(),
            self.ground().known(x, z),
        ensures
            r == self.spec_surface_top(x, z),
    {
        let level: i64 = self.heights.height(x, z).floor();
        let ground: i64 = if level < 60 {
            60
        } else if level > Y_MAX {
            Y_MAX
        } else {
            level
        };
        let mut edit: i64 = Y_MAX;
        while edit > Y_MIN && self.edited_block(x, edit, z).is_none()
            invariant
                self.wf(),
                Y_MIN <= edit <= Y_MAX,
                self.top_edit(x, z, Y_MAX as int) == self.top_edit(x, z, edit as int),
            decreases edit,
        {
            edit -= 1;
        }
        let kept: i64 = match self.columns.get(x, z) {
            Some(column) => column.blocks.len() as i64 - 1,
            None => Y_MIN,
        };
        if ground >= edit && ground >= kept {
            ground
        } else if edit >= kept {
            edit
        } else {
            kept
        }
    }

    fn find_surface(&self, x: i64, z: i64, terrain_only: bool) -> (r: Option<(i64, Block)>)
        requires
            self.wf(),
            self.knows(x, z),
            inside(x as int),
            inside(z as int),
        ensures
            self.surface_is(x, z, terrain_only, r),
    {
        let column = self.base_column(x, z);
        let mut y: i64 = Y_MAX + 1;
        while y > Y_MIN
            invariant
                self.wf(),
                Y_MIN <= y <= Y_MAX + 1,
                forall|k: int| #[trigger] column.block(k) == self.base(x, k, z),
                forall|k: int|
                    y <= k <= Y_MAX ==> !is_surface(#[trigger] self.content(x, k, z), terrain_only),
            decreases y,
        {
            y -= 1;
            let block = match self.edited_block(x, y, z) {
                Some(block) => block,
                None => column.get(y),
            };
            assert(block == self.content(x, y as int, z));
            if block != Block::Air && !(terrain_only && block.is_tree()) {
                return Some((y, block));
            }
        }
        None
    }

    /// The highest block of a column that is not air, and its layer. The column is
    /// kept.
    pub fn surface_block(&mut self, x: i64, z: i64) -> (r: Option<(i64, Block)>)
        requires
            old(self).wf(),
            old(self).knows(x, z),
            inside(x as int),
            inside(z as int),
        ensures
            old(self).surface_is(x, z, false, r),
            final(self).wf(),
            final(self).same_source(old(self)),
            final(self).keeps_more(old(self)),
            forall|a: i64, b: i64|
                #![trigger final(self).cached(a, b)]
                final(self).cached(a, b) == (old(self).cached(a, b) || (a == x && b == z)),
    {
        self.keep_column(x, z);
        proof {
            self.lemma_same_content(old(self));
        }
        let r = self.find_surface(x, z, false);
        assert forall|k: int| #[trigger] old(self).content(x, k, z) == self.content(x, k, z) by {}
        r
    }

    /// The highest block of a column that is neither air nor part of a tree, and its
    /// layer. The column is kept.
    pub fn terrain_surface_block(&mut self, x: i64, z: i64) -> (r: Option<(i64, Block)>)
        requires
            old(self).wf(),
            old(self).knows(x, z),
            inside(x as int),
            inside(z as int),
        ensures
            old(self).surface_is(x, z, true, r),
            final(self).wf(),
            final(self).same_source(old(self)),
            final(self).keeps_more(old(self)),
            forall|a: i64, b: i64|
                #![trigger final(self).cached(a, b)]
                final(self).cached(a, b) == (old(self).cached(a, b) || (a == x && b == z)),
    {
        self.keep_column(x, z);
        proof {
            self.lemma_same_content(old(self));
        }
        let r = self.find_surface(x, z, true);
        assert forall|k: int| #[trigger] old(self).content(x, k, z) == self.content(x, k, z) by {}
        r
    }

    /// The columns of a rectangle that is known, without edits, row by row. They are
    /// kept.
    pub fn clone_columns_region(&mut self, min_x: i64, max_x: i64, min_z: i64, max_z: i64) -> (r:
        Vec<Column>)
        requires
            old(self).wf(),
            old(self).knows_area(min_x as int, max_x as int, min_z as int, max_z as int),
            inside(min_x as int),
            inside(max_x + 1),
            inside(min_z as int),
            inside(max_z + 1),
        ensures
            final(self).wf(),
            final(self).same_source(old(self)),
            final(self).keeps_more(old(self)),
            forall|x: i64, z: i64|
                #![trigger final(self).cached(x, z)]
                final(self).cached(x, z) == (old(self).cached(x, z) || (min_x <= x <= max_x
                    && min_z <= z <= max_z)),
            final(self).is_region(min_x as int, max_x as int, min_z as int, max_z + 1, 0, r@),
            final(self).kept_count() == final(self).kept_columns().len(),
    {
        self.preload_columns_parallel(min_x, max_x, min_z, max_z);
        let mut out: Vec<Column> = Vec::new();
        proof {
            reveal(GeneratedVoxelWorld::is_region);
            self.lemma_knows_more(old(self));
        }
        if min_x > max_x || min_z > max_z {
            return out;
        }
        let mut z: i64 = min_z;
        assert(self.is_region(min_x as int, max_x as int, min_z as int, z as int, 0, out@));
        while z <= max_z
            invariant
                self.wf(),
                self.knows_area(min_x as int, max_x as int, min_z as int, max_z as int),
                inside(min_x as int),
                inside(max_x + 1),
                inside(min_z as int),
                inside(max_z + 1),
                min_x <= max_x,
                min_z <= z <= max_z + 1,
                self.is_region(min_x as int, max_x as int, min_z as int, z as int, 0, out@),
            decreases max_z + 1 - z,
        {
            let mut x: i64 = min_x;
            assert(self.is_region(
                min_x as int,
                max_x as int,
                min_z as int,
                z as int,
                x - min_x,
                out@,
            ));
            while x <= max_x
                invariant
                    self.wf(),
                    self.knows_area(min_x as int, max_x as int, min_z as int, max_z as int),
                    inside(min_x as int),
                    inside(max_x + 1),
                    inside(min_z as int),
                    inside(max_z + 1),
                    min_x <= x <= max_x + 1,
                    min_z <= z <= max_z,
                    self.is_region(
                        min_x as int,
                        max_x as int,
                        min_z as int,
                        z as int,
                        x - min_x,
                        out@,
                    ),
                decreases max_x + 1 - x,
            {
                let column = self.base_column(x, z);
                proof {
                    self.lemma_region_push(
                        min_x as int,
                        max_x as int,
                        min_z as int,
                        z as int,
                        x - min_x,
                        out@,
                        column,
                    );
                }
                out.push(column);
                x += 1;
            }
            proof {
                self.lemma_region_row(min_x as int, max_x as int, min_z as int, z as int, out@);
            }
            z += 1;
        }
        out
    }

    proof fn lemma_region_push(
        &self,
        min_x: int,
        max_x: int,
        min_z: int,
        row: int,
        n: int,
        columns: Seq<Column>,
        column: Column,
    )
        requires
            self.is_region(min_x, max_x, min_z, row, n, columns),
            0 <= n,
            min_z <= row,
            min_x + n <= max_x,
            column.x == min_x + n,
            column.z == row,
            forall|y: int| #[trigger] column.block(y) == self.base(column.x, y, column.z),
            self.cached(column.x, column.z) ==> column.blocks@ == self.kept(
                column.x,
                column.z,
            ).blocks@,
        ensures
            self.is_region(min_x, max_x, min_z, row, n + 1, columns.push(column)),
    {
        reveal(GeneratedVoxelWorld::is_region);
        let all = columns.push(column);
        assert forall|x: i64, z: i64|
            #![trigger region_has(min_x, max_x, min_z, row, n + 1, x, z)]
            region_has(min_x, max_x, min_z, row, n + 1, x, z) implies has_column(all, x, z) by {
            if x == column.x && z == column.z {
                assert(all[columns.len() as int].x == x);
            } else {
                assert(region_has(min_x, max_x, min_z, row, n, x, z));
                let k = choose|k: int|
                    0 <= k < columns.len() && (#[trigger] columns[k]).x == x && columns[k].z == z;
                assert(all[k].x == x && all[k].z == z);
            }
        }
        assert forall|i: int| 0 <= i < all.len() implies {
            let c = #[trigger] all[i];
            &&& region_has(min_x, max_x, min_z, row, n + 1, c.x, c.z)
            &&& forall|y: int| #[trigger] c.block(y) == self.base(c.x, y, c.z)
            &&& self.cached(c.x, c.z) ==> c.blocks@ == self.kept(c.x, c.z).blocks@
        } by {
            if i < columns.len() {
                assert(all[i] == columns[i]);
            }
        }
        assert forall|i: int, j: int| 0 <= i < j < all.len() implies pair_before(
            ((#[trigger] all[i]).x, all[i].z),
            ((#[trigger] all[j]).x, all[j].z),
        ) by {
            assert(all[i] == columns[i]);
            if j < columns.len() {
                assert(all[j] == columns[j]);
            }
        }
    }

    proof fn lemma_region_row(
        &self,
        min_x: int,
        max_x: int,
        min_z: int,
        row: int,
        columns: Seq<Column>,
    )
        requires
            min_x <= max_x,
            min_z <= row,
            self.is_region(min_x, max_x, min_z, row, max_x + 1 - min_x, columns),
        ensures
            self.is_region(min_x, max_x, min_z, row + 1, 0, columns),
    {
        reveal(GeneratedVoxelWorld::is_region);
        assert forall|x: i64, z: i64|
            #![trigger region_has(min_x, max_x, min_z, row + 1, 0, x, z)]
            region_has(min_x, max_x, min_z, row + 1, 0, x, z) implies has_column(
            columns,
            x,
            z,
        ) by {
            assert(region_has(min_x, max_x, min_z, row, max_x + 1 - min_x, x, z));
        }
    }

    /// Whether columns are those of the rows from `min_z` up to `row` and of the first
    /// `n` positions of that row, row by row, without edits.
    #[verifier::opaque]
    pub open spec fn is_region(
        &self,
        min_x: int,
        max_x: int,
        min_z: int,
        row: int,
        n: int,
        columns: Seq<Column>,
    ) -> bool {
        &&& forall|i: int|
            0 <= i < columns.len() ==> {
                let c = #[trigger] columns[i];
                &&& region_has(min_x, max_x, min_z, row, n, c.x, c.z)
                &&& forall|y: int| #[trigger] c.block(y) == self.base(c.x, y, c.z)
                &&& self.cached(c.x, c.z) ==> c.blocks@ == self.kept(c.x, c.z).blocks@
            }
        &&& forall|x: i64, z: i64|
            #![trigger region_has(min_x, max_x, min_z, row, n, x, z)]
            region_has(min_x, max_x, min_z, row, n, x, z) ==> has_column(columns, x, z)
        &&& forall|i: int, j: int|
            0 <= i < j < columns.len() ==> pair_before(
                ((#[trigger] columns[i]).x, columns[i].z),
                ((#[trigger] columns[j]).x, columns[j].z),
            )
    }
}

impl GeneratedVoxelWorld {
    /// All edits, each position once.
    pub fn edits(&self) -> (r: Vec<Placed>)
        requires
            self.wf(),
        ensures
            forall|x: i64, y: i64, z: i64, block: Block|
                #[trigger] r@.contains((x, y, z, block)) <==> self.edit(x, y as int, z) == Some(
                    block,
                ),
            forall|i: int, j: int|
                0 <= i < j < r@.len() ==> !same_position(#[trigger] r@[i], #[trigger] r@[j]),
    {
        proof {
            self.edits.lemma_listed();
        }
        let mut out: Vec<Placed> = Vec::new();
        let mut i: usize = 0;
        while i < self.edits.len()
            invariant
                self.wf(),
                i <= self.edits.list().len(),
                self.lists_edits(out@, i as int, 0),
            decreases self.edits.list().len() - i,
        {
            proof {
                self.edits.lemma_listed();
                let e = self.edits.list()[i as int];
                assert(self.edits.has(e.x, e.z));
            }
            let entry = self.edits.entry(i);
            let x: i64 = entry.x;
            let z: i64 = entry.z;
            let mut y: i64 = 0;
            while y <= Y_MAX
                invariant
                    self.wf(),
                    i < self.edits.list().len(),
                    *entry == self.edits.list()[i as int],
                    x == entry.x,
                    z == entry.z,
                    self.edits.has(x, z),
                    self.edits.place(x, z) == i,
                    entry.value@.len() == Y_MAX + 1,
                    0 <= y <= Y_MAX + 1,
                    self.lists_edits(out@, i as int, y as int),
                decreases Y_MAX + 1 - y,
            {
                let ghost had = out@;
                if let Some(block) = entry.value[y as usize] {
                    out.push((x, y, z, block));
                }
                proof {
                    self.lemma_lists_edits(had, out@, i as int, y as int, x, z);
                }
                y += 1;
            }
            proof {
                self.lemma_lists_column(out@, i as int);
            }
            i += 1;
        }
        proof {
            self.lemma_lists_all(out@);
        }
        out
    }

    /// Whether a list holds the edits of the first `i` columns and of the first `y`
    /// layers of the next one.
    closed spec fn lists_edits(&self, list: Seq<Placed>, i: int, y: int) -> bool {
        &&& forall|k: int|
            0 <= k < list.len() ==> {
                let p = #[trigger] list[k];
                &&& self.edits.has(p.0, p.2)
                &&& self.edit(p.0, p.1 as int, p.2) == Some(p.3)
                &&& comes_before(self.edits.place(p.0, p.2), p.1 as int, i, y)
            }
        &&& forall|a: i64, b: i64, c: i64|
            #![trigger self.edit(a, b as int, c)]
            self.edits.has(a, c) && comes_before(self.edits.place(a, c), b as int, i, y)
                && self.edit(a, b as int, c) is Some ==> list.contains(
                (a, b, c, self.edit(a, b as int, c)->0),
            )
        &&& forall|j: int, k: int|
            0 <= j < k < list.len() ==> {
                let p = #[trigger] list[j];
                let q = #[trigger] list[k];
                comes_before(
                    self.edits.place(p.0, p.2),
                    p.1 as int,
                    self.edits.place(q.0, q.2),
                    q.1 as int,
                )
            }
    }

    proof fn lemma_lists_edits(
        &self,
        had: Seq<Placed>,
        now: Seq<Placed>,
        i: int,
        y: int,
        x: i64,
        z: i64,
    )
        requires
            self.wf(),
            self.edits.has(x, z),
            self.edits.place(x, z) == i,
            0 <= y <= Y_MAX,
            self.lists_edits(had, i, y),
            now == match self.edit(x, y, z) {
                Some(block) => had.push((x, y as i64, z, block)),
                None => had,
            },
        ensures
            self.lists_edits(now, i, y + 1),
    {
        self.edits.lemma_listed();
        assert forall|a: i64, b: i64, c: i64|
            #![trigger self.edit(a, b as int, c)]
            self.edits.has(a, c) && comes_before(self.edits.place(a, c), b as int, i, y + 1)
                && self.edit(a, b as int, c) is Some implies now.contains(
            (a, b, c, self.edit(a, b as int, c)->0),
        ) by {
            let p = (a, b, c, self.edit(a, b as int, c)->0);
            if comes_before(self.edits.place(a, c), b as int, i, y) {
                let k = choose|k: int| 0 <= k < had.len() && had[k] == p;
                assert(now[k] == p);
            } else {
                assert(self.edits.list()[i].x == a && self.edits.list()[i].z == c);
                assert(now[had.len() as int] == p);
            }
        }
    }

    proof fn lemma_lists_column(&self, list: Seq<Placed>, i: int)
        requires
            self.lists_edits(list, i, Y_MAX + 1),
        ensures
            self.lists_edits(list, i + 1, 0),
    {
        assert forall|a: i64, b: i64, c: i64|
            #![trigger self.edit(a, b as int, c)]
            self.edits.has(a, c) && comes_before(self.edits.place(a, c), b as int, i + 1, 0)
                && self.edit(a, b as int, c) is Some implies list.contains(
            (a, b, c, self.edit(a, b as int, c)->0),
        ) by {
            assert(comes_before(self.edits.place(a, c), b as int, i, Y_MAX + 1));
        }
        assert forall|k: int| 0 <= k < list.len() implies {
            let p = #[trigger] list[k];
            &&& self.edits.has(p.0, p.2)
            &&& self.edit(p.0, p.1 as int, p.2) == Some(p.3)
            &&& comes_before(self.edits.place(p.0, p.2), p.1 as int, i + 1, 0)
        } by {
            assert(comes_before(
                self.edits.place(list[k].0, list[k].2),
                list[k].1 as int,
                i,
                Y_MAX + 1,
            ));
        }
    }

    proof fn lemma_lists_all(&self, list: Seq<Placed>)
        requires
            self.wf(),
            self.lists_edits(list, self.edits.list().len() as int, 0),
        ensures
            forall|x: i64, y: i64, z: i64, block: Block|
                #[trigger] list.contains((x, y, z, block)) <==> self.edit(x, y as int, z) == Some(
                    block,
                ),
            forall|i: int, j: int|
                0 <= i < j < list.len() ==> !same_position(#[trigger] list[i], #[trigger] list[j]),
    {
        self.edits.lemma_listed();
        assert forall|x: i64, y: i64, z: i64, block: Block|
            #[trigger] list.contains((x, y, z, block)) <==> self.edit(x, y as int, z) == Some(
                block,
            ) by {
            if list.contains((x, y, z, block)) {
                let k = choose|k: int| 0 <= k < list.len() && list[k] == (x, y, z, block);
                assert(self.edit(list[k].0, list[k].1 as int, list[k].2) == Some(list[k].3));
            }
            if self.edit(x, y as int, z) == Some(block) {
                assert(self.edits.has(x, z));
                assert(comes_before(
                    self.edits.place(x, z),
                    y as int,
                    self.edits.list().len() as int,
                    0,
                ));
            }
        }
    }

    /// Makes edits, in order: of several edits of one position the last one stays.
    pub fn apply_edits(&mut self, edits: &Vec<Placed>)
        requires
            old(self).wf(),
            forall|i: int|
                0 <= i < edits@.len() ==> inside((#[trigger] edits@[i]).0 as int) && inside(
                    edits@[i].2 as int,
                ),
        ensures
            final(self).wf(),
            final(self).same_columns(old(self)),
            forall|x: i64, y: int, z: i64| #[trigger]
                final(self).edit(x, y, z) == applied(edits@, x, y, z, old(self).edit(x, y, z)),
    {
        let mut i: usize = 0;
        while i < edits.len()
            invariant
                i <= edits.len(),
                forall|k: int|
                    0 <= k < edits@.len() ==> inside((#[trigger] edits@[k]).0 as int) && inside(
                        edits@[k].2 as int,
                    ),
                self.wf(),
                self.same_columns(old(self)),
                forall|x: i64, y: int, z: i64| #[trigger]
                    self.edit(x, y, z) == applied(
                        edits@.take(i as int),
                        x,
                        y,
                        z,
                        old(self).edit(x, y, z),
                    ),
            decreases edits.len() - i,
        {
            let ghost before = *self;
            let p = edits[i];
            self.set_block_raw(p.0, p.1, p.2, p.3);
            proof {
                assert(edits@.take(i + 1).drop_last() =~= edits@.take(i as int));
                assert forall|x: i64, y: int, z: i64| #[trigger] self.edit(x, y, z) == applied(
                    edits@.take(i + 1),
                    x,
                    y,
                    z,
                    old(self).edit(x, y, z),
                ) by {
                    assert(before.edit(x, y, z) == applied(
                        edits@.take(i as int),
                        x,
                        y,
                        z,
                        old(self).edit(x, y, z),
                    ));
                }
                assert forall|a: i64, b: i64|
                    #![trigger self.cached(a, b)]
                    self.cached(a, b) == old(self).cached(a, b) && self.kept(a, b) == old(
                        self).kept(a, b) by {
                    assert(before.cached(a, b) == old(self).cached(a, b));
                }
            }
            i += 1;
        }
        assert(edits@.take(i as int) =~= edits@);
    }

    /// Forgets all edits and makes others.
    pub fn replace_edits(&mut self, edits: &Vec<Placed>)
        requires
            old(self).wf(),
            forall|i: int|
                0 <= i < edits@.len() ==> inside((#[trigger] edits@[i]).0 as int) && inside(
                    edits@[i].2 as int,
                ),
        ensures
            final(self).wf(),
            final(self).same_columns(old(self)),
            forall|x: i64, y: int, z: i64| #[trigger]
                final(self).edit(x, y, z) == applied(edits@, x, y, z, None),
    {
        self.edits.clear();
        let ghost cleared = *self;
        assert(forall|x: i64, y: int, z: i64| (#[trigger] cleared.edit(x, y, z)) is None);
        self.apply_edits(edits);
        proof {
            assert forall|x: i64, y: int, z: i64| #[trigger] self.edit(x, y, z) == applied(
                edits@,
                x,
                y,
                z,
                None,
            ) by {
                assert(cleared.edit(x, y, z) is None);
            }
            assert forall|a: i64, b: i64|
                #![trigger self.cached(a, b)]
                self.cached(a, b) == old(self).cached(a, b) && self.kept(a, b) == old(self).kept(
                    a,
                    b,
                ) by {
                assert(cleared.cached(a, b) == old(self).cached(a, b));
            }
        }
    }

    /// Whether all but the edits is as in another world.
    pub open spec fn same_columns(&self, other: &GeneratedVoxelWorld) -> bool {
        &&& self.spec_seed() == other.spec_seed()
        &&& self.ground() == other.ground()
        &&& self.kept_count() == other.kept_count()
        &&& forall|a: i64, b: i64|
            #![trigger self.cached(a, b)]
            self.cached(a, b) == other.cached(a, b) && self.kept(a, b) == other.kept(a, b)
    }

    /// Whether a column has an edit.
    pub open spec fn has_edits(&self, x: i64, z: i64) -> bool {
        exists|y: int| (#[trigger] self.edit(x, y, z)) is Some
    }

    /// The columns that are kept or have edits, each once.
    pub fn touched_columns(&self) -> (r: Vec<(i64, i64)>)
        requires
            self.wf(),
        ensures
            forall|x: i64, z: i64|
                #![trigger r@.contains((x, z))]
                #![trigger self.cached(x, z)]
                r@.contains((x, z)) <==> self.cached(x, z) || self.has_edits(x, z),
            forall|i: int| 0 <= i < r@.len() ==> inside((#[trigger] r@[i]).0 as int) && inside(
                r@[i].1 as int,
            ),
            r@.no_duplicates(),
    {
        proof {
            self.columns.lemma_listed();
            self.edits.lemma_listed();
        }
        let mut out: Vec<(i64, i64)> = Vec::new();
        let mut i: usize = 0;
        while i < self.columns.len()
            invariant
                self.wf(),
                i <= self.columns.list().len(),
                out@.len() == i,
                forall|k: int|
                    0 <= k < i ==> #[trigger] out@[k] == (
                        self.columns.list()[k].x,
                        self.columns.list()[k].z,
                    ),
            decreases self.columns.list().len() - i,
        {
            let e = self.columns.entry(i);
            out.push((e.x, e.z));
            i += 1;
        }
        let ghost n = i as int;
        proof {
            assert forall|x: i64, z: i64| #[trigger] self.cached(x, z) implies out@.contains(
                (x, z),
            ) by {
                assert(self.columns.has(x, z));
                assert(out@[self.columns.place(x, z)] == (x, z));
            }
            assert forall|j: int, k: int| 0 <= j < n && 0 <= k < n && j != k implies out@[j]
                != out@[k] by {
                let e = self.columns.list()[j];
                let f = self.columns.list()[k];
                assert(self.columns.place(e.x, e.z) == j && self.columns.place(f.x, f.z) == k);
            }
            assert forall|k: int| 0 <= k < n implies self.cached(
                (#[trigger] out@[k]).0,
                out@[k].1,
            ) by {
                let e = self.columns.list()[k];
                assert(self.columns.has(e.x, e.z));
            }
        }
        let mut j: usize = 0;
        while j < self.edits.len()
            invariant
                self.wf(),
                j <= self.edits.list().len(),
                out@.no_duplicates(),
                forall|x: i64, z: i64| #[trigger]
                    self.cached(x, z) ==> out@.contains((x, z)),
                forall|k: int|
                    0 <= k < out@.len() ==> {
                        let p = #[trigger] out@[k];
                        ||| self.cached(p.0, p.1)
                        ||| (self.edits.has(p.0, p.1) && self.edits.place(p.0, p.1) < j)
                    },
                forall|k: int|
                    0 <= k < j ==> {
                        let e = #[trigger] self.edits.list()[k];
                        out@.contains((e.x, e.z))
                    },
            decreases self.edits.list().len() - j,
        {
            let e = self.edits.entry(j);
            let ghost had = out@;
            proof {
                self.edits.lemma_listed();
                assert(self.edits.place(e.x, e.z) == j);
            }
            if self.columns.get(e.x, e.z).is_none() {
                out.push((e.x, e.z));
            }
            proof {
                assert forall|x: i64, z: i64| #[trigger] self.cached(x, z) implies out@.contains(
                    (x, z),
                ) by {
                    lemma_push_contains(had, (e.x, e.z), (x, z));
                }
                assert forall|k: int| 0 <= k < j + 1 implies {
                    let f = #[trigger] self.edits.list()[k];
                    out@.contains((f.x, f.z))
                } by {
                    let f = self.edits.list()[k];
                    lemma_push_contains(had, (e.x, e.z), (f.x, f.z));
                    if k == j && self.columns.has(e.x, e.z) {
                        assert(self.cached(e.x, e.z));
                    }
                }
                if had.contains((e.x, e.z)) {
                    let k = choose|k: int| 0 <= k < had.len() && had[k] == (e.x, e.z);
                    assert(self.cached(e.x, e.z) == self.columns.has(e.x, e.z));
                }
            }
            j += 1;
        }
        proof {
            assert forall|x: i64, y: int, z: i64| #[trigger]
                self.edit(x, y, z) is Some implies out@.contains((x, z)) by {
                assert(self.edits.has(x, z));
                let e = self.edits.list()[self.edits.place(x, z)];
                assert(out@.contains((e.x, e.z)));
            }
            assert forall|x: i64, z: i64| #[trigger]
                out@.contains((x, z)) && !self.cached(x, z) implies self.has_edits(x, z) by {
                let k = choose|k: int| 0 <= k < out@.len() && out@[k] == (x, z);
                assert(self.edits.has(x, z));
                let cells = self.edits.at(x, z)@;
                let y = choose|y: int| 0 <= y < cells.len() && (#[trigger] cells[y]) is Some;
                assert(self.edit(x, y, z) is Some);
            }
            assert forall|k: int| 0 <= k < out@.len() implies inside((#[trigger] out@[k]).0 as int)
                && inside(out@[k].1 as int) by {
                let p = out@[k];
                if self.cached(p.0, p.1) {
                    assert(self.columns.has(p.0, p.1));
                }
            }
        }
        out
    }
}

/// Whether two blocks are in one place.
pub open spec fn same_position(a: Placed, b: Placed) -> bool {
    a.0 == b.0 && a.1 == b.1 && a.2 == b.2
}

/// The order of edits: by the place of their column, then by layer.
pub open spec fn comes_before(a: int, ay: int, b: int, by: int) -> bool {
    a < b || (a == b && ay < by)
}

/// The edit of a position after a list of edits.
pub open spec fn applied(
    edits: Seq<Placed>,
    x: i64,
    y: int,
    z: i64,
    before: Option<Block>,
) -> Option<Block>
    decreases edits.len(),
{
    if edits.len() == 0 {
        before
    } else {
        let last = edits.last();
        if last.0 == x && last.1 == y && last.2 == z && layer(y) {
            Some(last.3)
        } else {
            applied(edits.drop_last(), x, y, z, before)
        }
    }
}

/// Whether a position is in the rows from `min_z` up to `row`, or among the first `n`
/// positions of that row.
pub open spec fn region_has(
    min_x: int,
    max_x: int,
    min_z: int,
    row: int,
    n: int,
    x: i64,
    z: i64,
) -> bool {
    min_x <= x <= max_x && min_z <= z && (z < row || (z == row && x < min_x + n))
}

/// Whether a list has a column of a position.
pub open spec fn has_column(columns: Seq<Column>, x: i64, z: i64) -> bool {
    exists|k: int| 0 <= k < columns.len() && (#[trigger] columns[k]).x == x && columns[k].z == z
}

/// A coordinate less a distance, or the least coordinate.
fn lowered(v: i64, by: i64) -> (r: i64)
    requires
        by >= 0,
    ensures
        r == (if v - by < i64::MIN {
            i64::MIN as int
        } else {
            v - by
        }),
{
    match v.checked_sub(by) {
        Some(r) => r,
        None => i64::MIN,
    }
}

/// A coordinate and a distance, or the greatest coordinate.
fn raised(v: i64, by: i64) -> (r: i64)
    requires
        by >= 0,
    ensures
        r == (if v + by > i64::MAX {
            i64::MAX as int
        } else {
            v + by
        }),
{
    match v.checked_add(by) {
        Some(r) => r,
        None => i64::MAX,
    }
}

/// Whether a coordinate is one of the `n` that lie `step` apart from `from` on.
pub open spec fn on_grid(from: int, n: int, step: int, v: int) -> bool {
    exists|k: int| 0 <= k < n && v == #[trigger] grid_at(from, step, k)
}

/// A coordinate of a grid.
pub open spec fn grid_at(from: int, step: int, k: int) -> int {
    from + k * step
}

/// Whether a coordinate is a whole number of steps from a centre, within a radius.
pub open spec fn off_by_steps(center: int, radius: int, step: int, v: int) -> bool {
    (v - center) % step == 0 && -radius <= v - center <= radius
}

proof fn lemma_push_contains(had: Seq<(i64, i64)>, p: (i64, i64), q: (i64, i64))
    ensures
        had.push(p).contains(q) <==> had.contains(q) || q == p,
{
    let next = had.push(p);
    if had.contains(q) {
        let k = choose|k: int| 0 <= k < had.len() && had[k] == q;
        assert(next[k] == q);
    }
    if next.contains(q) {
        let k = choose|k: int| 0 <= k < next.len() && next[k] == q;
        if k < had.len() {
            assert(had[k] == q);
        }
    }
    assert(next[had.len() as int] == p);
}

proof fn lemma_grid_inside(from: int, n: int, step: int, k: int)
    requires
        0 <= k < n,
        step > 0,
        inside(from),
        inside(from + n * step),
    ensures
        inside(from + k * step),
        0 <= k * step <= 2 * EDGE,
        grid_at(from, step, k) == from + k * step,
{
    assert(0 <= k * step <= n * step) by (nonlinear_arith)
        requires
            0 <= k < n,
            step > 0,
    ;
}

proof fn lemma_on_grid_inside(from: int, n: int, step: int, v: int)
    requires
        step > 0,
        inside(from),
        inside(from + n * step),
        on_grid(from, n, step, v),
    ensures
        inside(v),
{
    let k = choose|k: int| 0 <= k < n && v == #[trigger] grid_at(from, step, k);
    lemma_grid_inside(from, n, step, k);
}

proof fn lemma_grid_grows(from: int, n: int, step: int, v: int)
    requires
        0 <= n,
    ensures
        on_grid(from, n + 1, step, v) <==> on_grid(from, n, step, v) || v == from + n * step,
{
    if on_grid(from, n + 1, step, v) {
        let k = choose|k: int| 0 <= k < n + 1 && v == #[trigger] grid_at(from, step, k);
        if k < n {
            assert(v == grid_at(from, step, k));
        }
    }
    if on_grid(from, n, step, v) {
        let k = choose|k: int| 0 <= k < n && v == #[trigger] grid_at(from, step, k);
        assert(v == grid_at(from, step, k));
    }
    if v == from + n * step {
        assert(v == grid_at(from, step, n));
    }
}

pub proof fn lemma_grid_of_ones(from: int, n: int, v: int)
    ensures
        on_grid(from, n, 1, v) <==> from <= v < from + n,
{
    if on_grid(from, n, 1, v) {
        let k = choose|k: int| 0 <= k < n && v == #[trigger] grid_at(from, 1, k);
        assert(v == from + k);
    }
    if from <= v < from + n {
        assert(v == grid_at(from, 1, v - from));
    }
}

proof fn lemma_grid_bounds(center: int, radius: int, step: int)
    requires
        step > 0,
        radius >= 0,
        inside(center - radius),
        inside(center + radius + step),
    ensures
        ({
            let cells = radius / step;
            &&& 0 <= cells <= radius
            &&& 0 <= cells * step <= radius
            &&& inside(center - cells * step)
            &&& inside((center - cells * step) + (2 * cells + 1) * step)
            &&& 2 * cells + 1 <= u64::MAX
        }),
{
    let cells = radius / step;
    assert(0 <= cells && cells <= radius && 0 <= cells * step && cells * step <= radius) by (
    nonlinear_arith)
        requires
            cells == radius / step,
            step > 0,
            radius >= 0,
    ;
    assert((2 * cells + 1) * step == 2 * (cells * step) + step) by (nonlinear_arith);
}

proof fn lemma_grid_is_steps(center: int, radius: int, step: int, v: int)
    requires
        step > 0,
        radius >= 0,
    ensures
        ({
            let cells = radius / step;
            on_grid(center - cells * step, 2 * cells + 1, step, v) <==> off_by_steps(
                center,
                radius,
                step,
                v,
            )
        }),
{
    let cells = radius / step;
    let from = center - cells * step;
    if on_grid(from, 2 * cells + 1, step, v) {
        let k = choose|k: int| 0 <= k < 2 * cells + 1 && v == #[trigger] grid_at(from, step, k);
        let m = k - cells;
        assert(v - center == m * step) by (nonlinear_arith)
            requires
                v == center - cells * step + k * step,
                m == k - cells,
        ;
        assert((m * step) % step == 0) by (nonlinear_arith)
            requires
                step > 0,
        ;
        assert(-radius <= m * step <= radius) by (nonlinear_arith)
            requires
                -cells <= m <= cells,
                cells == radius / step,
                step > 0,
                radius >= 0,
        ;
    }
    if off_by_steps(center, radius, step, v) {
        let m = (v - center) / step;
        assert(v - center == m * step) by (nonlinear_arith)
            requires
                m == (v - center) / step,
                (v - center) % step == 0,
                step > 0,
        ;
        assert(-cells <= m <= cells) by (nonlinear_arith)
            requires
                v - center == m * step,
                -radius <= v - center <= radius,
                cells == radius / step,
                step > 0,
        ;
        assert(v == from + (m + cells) * step) by (nonlinear_arith)
            requires
                v - center == m * step,
                from == center - cells * step,
        ;
        assert(v == grid_at(from, step, m + cells));
    }
}

/// The order of positions: by row, then along the row.
pub open spec fn pair_before(a: (i64, i64), b: (i64, i64)) -> bool {
    a.1 < b.1 || (a.1 == b.1 && a.0 < b.0)
}

/// A further sample leaves the heights of surveyed columns as they were.
proof fn lemma_supply_keeps(
    before: &HeightTable,
    after: &HeightTable,
    x: i64,
    z: i64,
    h: Double,
    a: i64,
    b: i64,
)
    requires
        after.gained(before, x, z, h),
        forall|c: i64, d: i64|
            -HEIGHT_REACH <= c - a <= HEIGHT_REACH && -HEIGHT_REACH <= d - b <= HEIGHT_REACH
                ==> #[trigger] before.known(c, d),
    ensures
        same_ground(before, after, a, b),
        forall|c: i64, d: i64|
            -HEIGHT_REACH <= c - a <= HEIGHT_REACH && -HEIGHT_REACH <= d - b <= HEIGHT_REACH
                ==> #[trigger] after.known(c, d),
        after.at(a, b) == before.at(a, b),
{
    assert forall|c: i64, d: i64|
        -HEIGHT_REACH <= c - a <= HEIGHT_REACH && -HEIGHT_REACH <= d - b
            <= HEIGHT_REACH implies #[trigger] before.at(c, d) == after.at(c, d) by {
        assert(before.known(c, d));
        assert(after.at(c, d) == before.at(c, d));
    }
    assert(before.known(a, b));
}

impl VoxelWorld for GeneratedVoxelWorld {
    open spec fn cell(&self, x: i64, y: i64, z: i64) -> Block {
        self.content(x, y as int, z)
    }

    open spec fn valid(&self) -> bool {
        self.wf()
    }

    open spec fn known(&self, x: i64, z: i64) -> bool {
        self.knows(x, z)
    }

    open spec fn asked_since(&self, before: &GeneratedVoxelWorld) -> bool {
        self.same_source(before) && self.keeps_more(before)
    }

    fn block_at(&mut self, x: i64, y: i64, z: i64) -> (r: Block)
        ensures
            r == old(self).content(x, y as int, z),
            final(self).same_source(old(self)),
            final(self).keeps_more(old(self)),
            forall|a: i64, b: i64|
                #![trigger final(self).cached(a, b)]
                final(self).cached(a, b) == (old(self).cached(a, b) || (a == x && b == z && layer(
                    y as int,
                ) && old(self).edit(x, y as int, z) is None)),
            final(self).kept_count() == old(self).kept_count() + (if !old(self).cached(x, z)
                && layer(y as int) && old(self).edit(x, y as int, z) is None {
                1int
            } else {
                0
            }),
    {
        let r = self.look(x, y, z);
        proof {
            self.lemma_same_content(old(self));
            self.lemma_knows_more(old(self));
            assert forall|before: &Self| #[trigger]
                old(self).asked_since(before) implies self.asked_since(before) by {
                Self::lemma_keeps_more_yet(before, old(self), self);
                assert forall|a: i64, b: int, c: i64| #[trigger] self.edit(a, b, c)
                    == before.edit(a, b, c) by {
                    assert(old(self).edit(a, b, c) == before.edit(a, b, c));
                }
            }
        }
        r
    }

    fn set_block(&mut self, x: i64, y: i64, z: i64, block: Block)
        ensures
            final(self).edited(old(self), x, y as int, z, block),
    {
        self.set_block_raw(x, y, z, block);
    }
}

/// Asking a world for blocks, as a ray or a moving body does, makes no edit and drops no
/// column: what it keeps more is what the generator gives.
pub proof fn asking_makes_no_edits(before: &GeneratedVoxelWorld, after: &GeneratedVoxelWorld)
    requires
        before.wf(),
        still_known(before, after),
    ensures
        after.same_source(before),
        after.keeps_more(before),
{
    before.lemma_keeps_itself();
    assert(before.asked_since(before));
}

/// The last column of a position in a list.
pub open spec fn last_column(columns: Seq<Column>, x: i64, z: i64) -> Option<Column>
    decreases columns.len(),
{
    if columns.len() == 0 {
        None
    } else if columns.last().x == x && columns.last().z == z {
        Some(columns.last())
    } else {
        last_column(columns.drop_last(), x, z)
    }
}

proof fn lemma_decorated_clone(
    column: &Column,
    copy: &Column,
    ground: &Column,
    rules: &TreeDecorator,
    heights: &HeightTable,
)
    requires
        is_decorated(column, copy, rules, heights),
        copy.x == ground.x,
        copy.z == ground.z,
        copy.blocks@ == ground.blocks@,
    ensures
        is_decorated(column, ground, rules, heights),
{
    assert forall|y: int| copy.block(y) == ground.block(y) by {}
}

/// What a position holds follows from the seed, from the heights near it and from its
/// edit: two worlds that agree on these agree on the block, whatever columns each of them
/// keeps, has loaded or has dropped. An edited position holds the last block that was put
/// there, air included, and outside the layers there is nothing.
pub proof fn worlds_of_one_source_agree(
    a: &GeneratedVoxelWorld,
    b: &GeneratedVoxelWorld,
    x: i64,
    y: int,
    z: i64,
)
    requires
        a.wf(),
        b.wf(),
        a.pristine(),
        b.pristine(),
        inside(x as int),
        inside(z as int),
        a.spec_seed() == b.spec_seed(),
        same_ground(&a.ground(), &b.ground(), x, z),
        a.edit(x, y, z) == b.edit(x, y, z),
    ensures
        a.content(x, y, z) == b.content(x, y, z),
        layer(y) && a.edit(x, y, z) is Some ==> Some(a.content(x, y, z)) == a.edit(x, y, z),
        !layer(y) ==> a.content(x, y, z) == Block::Air,
{
    columns_depend_on_near_heights(a.spec_seed(), &a.ground(), &b.ground(), x, y, z);
    lemma_pristine_base(a, x, y, z);
    lemma_pristine_base(b, x, y, z);
}

/// Without edits a pristine world holds what the generator gives.
pub proof fn lemma_pristine_base(world: &GeneratedVoxelWorld, x: i64, y: int, z: i64)
    requires
        world.wf(),
        world.pristine(),
    ensures
        world.base(x, y, z) == generated_at(world.spec_seed(), &world.ground(), x, y, z),
{
    if world.cached(x, z) {
        assert(world.columns.has(x, z));
        assert(world.kept(x, z).block(y) == generated_at(
            world.spec_seed(),
            &world.ground(),
            world.kept(x, z).x,
            y,
            world.kept(x, z).z,
        ));
    }
}

/// Edits do not touch the columns that are kept, so a pristine world stays one.
pub proof fn edited_worlds_stay_pristine(
    before: &GeneratedVoxelWorld,
    after: &GeneratedVoxelWorld,
)
    requires
        before.pristine(),
        after.same_columns(before),
    ensures
        after.pristine(),
{
    assert forall|x: i64, z: i64| #[trigger] after.cached(x, z) implies after.surveyed(x, z)
        && inside(x as int) && inside(z as int) && is_generated(
        &after.kept(x, z),
        after.spec_seed(),
        &after.ground(),
    ) by {
        assert(before.cached(x, z));
    }
}

/// A world that starts with columns of the generator holds nothing else: adding the trees
/// once more changes nothing.
pub proof fn generated_columns_make_pristine_worlds(
    world: &GeneratedVoxelWorld,
    columns: Seq<Column>,
)
    requires
        forall|i: int|
            0 <= i < columns.len() ==> {
                let c = #[trigger] columns[i];
                &&& inside(c.x as int)
                &&& inside(c.z as int)
                &&& world.surveyed(c.x, c.z)
                &&& is_generated(&c, world.spec_seed(), &world.ground())
            },
        forall|x: i64, z: i64|
            #![trigger world.cached(x, z)]
            match last_column(columns, x, z) {
                None => !world.cached(x, z),
                Some(column) => world.cached(x, z) && is_decorated(
                    &world.kept(x, z),
                    &column,
                    &tree_rules(world.spec_seed()),
                    &world.ground(),
                ),
            },
    ensures
        world.pristine(),
{
    assert forall|x: i64, z: i64|
        #![trigger world.cached(x, z)]
        world.cached(x, z) implies inside(x as int) && inside(z as int) && world.surveyed(x, z)
        && is_generated(&world.kept(x, z), world.spec_seed(), &world.ground()) by {
        lemma_last_column(columns, x, z);
        let column = last_column(columns, x, z)->0;
        let kept = world.kept(x, z);
        assert forall|y: int| #[trigger] kept.block(y) == generated_at(
            world.spec_seed(),
            &world.ground(),
            kept.x,
            y,
            kept.z,
        ) by {
            assert(column.block(y) == generated_at(
                world.spec_seed(),
                &world.ground(),
                column.x,
                y,
                column.z,
            ));
        }
        if kept.blocks@.len() == column.blocks@.len() && kept.blocks@.len() > 0 {
            let last = kept.blocks@.len() - 1;
            assert(kept.block(last) == kept.blocks@[last]);
            assert(column.block(last) == column.blocks@[last]);
            assert(column.block(last) == kept.block(last));
        }
    }
}

proof fn lemma_last_column(columns: Seq<Column>, x: i64, z: i64)
    requires
        last_column(columns, x, z) is Some,
    ensures
        exists|i: int|
            0 <= i < columns.len() && #[trigger] columns[i] == last_column(columns, x, z)->0,
        (last_column(columns, x, z)->0).x == x,
        (last_column(columns, x, z)->0).z == z,
    decreases columns.len(),
{
    let rest = columns.drop_last();
    if !(columns.last().x == x && columns.last().z == z) {
        lemma_last_column(rest, x, z);
        let i = choose|i: int|
            0 <= i < rest.len() && #[trigger] rest[i] == last_column(rest, x, z)->0;
        assert(columns[i] == rest[i]);
    } else {
        assert(columns[columns.len() - 1] == columns.last());
    }
}

/// Every kept column is listed, at one place, and nothing else is.
pub proof fn kept_columns_are_listed_once(world: &GeneratedVoxelWorld, x: i64, z: i64)
    requires
        world.wf(),
    ensures
        world.cached(x, z) <==> exists|i: int|
            0 <= i < world.kept_count() && #[trigger] world.listed(i) == (x, z),
        forall|i: int, j: int|
            0 <= i < world.kept_count() && 0 <= j < world.kept_count() && i != j
                ==> #[trigger] world.listed(i) != #[trigger] world.listed(j),
{
    world.columns.lemma_listed();
    if world.cached(x, z) {
        assert(world.listed(world.columns.place(x, z)) == (x, z));
    }
    if exists|i: int| 0 <= i < world.kept_count() && #[trigger] world.listed(i) == (x, z) {
        let i = choose|i: int|
            0 <= i < world.kept_count() && #[trigger] world.listed(i) == (x, z);
        let e = world.columns.list()[i];
        assert(world.columns.has(e.x, e.z));
    }
    assert forall|i: int, j: int|
        0 <= i < world.kept_count() && 0 <= j < world.kept_count() && i
            != j implies #[trigger] world.listed(i) != #[trigger] world.listed(j) by {
        let a = world.columns.list()[i];
        let b = world.columns.list()[j];
        assert(world.columns.place(a.x, a.z) == i && world.columns.place(b.x, b.z) == j);
    }
}

/// The number of kept columns is that of the columns that are kept.
pub proof fn kept_columns_are_counted(world: &GeneratedVoxelWorld)
    requires
        world.wf(),
    ensures
        world.kept_columns().finite(),
        world.kept_columns().len() == world.kept_count(),
{
    world.columns.lemma_count();
    assert(world.kept_columns() =~= world.columns.columns());
}

/// A world that keeps the columns of a grid, and no others, keeps as many as the grid has
/// rows and columns: those of a rectangle, where the step is one.
pub proof fn grids_are_counted(
    world: &GeneratedVoxelWorld,
    x0: int,
    nx: nat,
    z0: int,
    nz: nat,
    step: int,
)
    requires
        world.wf(),
        step > 0,
        forall|k: int| 0 <= k < nx ==> i64::MIN <= #[trigger] grid_at(x0, step, k) <= i64::MAX,
        forall|k: int| 0 <= k < nz ==> i64::MIN <= #[trigger] grid_at(z0, step, k) <= i64::MAX,
        forall|x: i64, z: i64| #[trigger]
            world.cached(x, z) <==> on_grid(x0, nx as int, step, x as int) && on_grid(
                z0,
                nz as int,
                step,
                z as int,
            ),
    ensures
        world.kept_count() == nx * nz,
{
    kept_columns_are_counted(world);
    assert forall|x: i64, z: i64| #[trigger]
        world.kept_columns().contains((x, z)) == (on_grid(x0, nx as int, step, x as int)
            && on_grid(z0, nz as int, step, z as int)) by {
        assert(world.cached(x, z) || !world.cached(x, z));
    }
    lemma_grid_len(world.kept_columns(), x0, nx, z0, nz, step);
}

/// A set that holds the columns of a grid has as many as the grid has rows and columns.
pub proof fn lemma_grid_len(
    columns: Set<(i64, i64)>,
    x0: int,
    nx: nat,
    z0: int,
    nz: nat,
    step: int,
)
    requires
        step > 0,
        forall|k: int| 0 <= k < nx ==> i64::MIN <= #[trigger] grid_at(x0, step, k) <= i64::MAX,
        forall|k: int| 0 <= k < nz ==> i64::MIN <= #[trigger] grid_at(z0, step, k) <= i64::MAX,
        forall|x: i64, z: i64| #[trigger]
            columns.contains((x, z)) == (on_grid(x0, nx as int, step, x as int) && on_grid(
                z0,
                nz as int,
                step,
                z as int,
            )),
    ensures
        columns.finite(),
        columns.len() == nx * nz,
{
    let all = Seq::new(
        nx * nz,
        |i: int|
            (
                grid_at(x0, step, i % nx as int) as i64,
                grid_at(z0, step, i / nx as int) as i64,
            ),
    );
    assert(all.no_duplicates()) by {
        assert forall|i: int, j: int|
            0 <= i < all.len() && 0 <= j < all.len() && i != j implies all[i] != all[j] by {
            lemma_cell_of_grid(nx, nz, i);
            lemma_cell_of_grid(nx, nz, j);
            let (a, b) = (i % nx as int, i / nx as int);
            let (c, d) = (j % nx as int, j / nx as int);
            assert(i64::MIN <= grid_at(x0, step, a) <= i64::MAX);
            assert(i64::MIN <= grid_at(z0, step, b) <= i64::MAX);
            assert(i64::MIN <= grid_at(x0, step, c) <= i64::MAX);
            assert(i64::MIN <= grid_at(z0, step, d) <= i64::MAX);
            if all[i] == all[j] {
                assert(a == c) by (nonlinear_arith)
                    requires
                        a * step == c * step,
                        step > 0,
                ;
                assert(b == d) by (nonlinear_arith)
                    requires
                        b * step == d * step,
                        step > 0,
                ;
            }
        }
    }
    all.unique_seq_to_set();
    assert(all.to_set() =~= columns) by {
        assert forall|p: (i64, i64)| all.to_set().contains(p) == columns.contains(
            p,
        ) by {
            if all.contains(p) {
                let i = choose|i: int| 0 <= i < all.len() && all[i] == p;
                lemma_cell_of_grid(nx, nz, i);
                let (a, b) = (i % nx as int, i / nx as int);
                assert(i64::MIN <= grid_at(x0, step, a) <= i64::MAX);
                assert(i64::MIN <= grid_at(z0, step, b) <= i64::MAX);
                assert(on_grid(x0, nx as int, step, p.0 as int));
                assert(on_grid(z0, nz as int, step, p.1 as int));
            }
            if columns.contains(p) {
                let a = choose|k: int| 0 <= k < nx && p.0 == #[trigger] grid_at(x0, step, k);
                let b = choose|k: int| 0 <= k < nz && p.1 == #[trigger] grid_at(z0, step, k);
                lemma_place_in_grid(nx, nz, a, b);
                assert(all[b * nx + a] == p);
            }
        }
    }
}

proof fn lemma_cell_of_grid(nx: nat, nz: nat, i: int)
    requires
        0 <= i < nx * nz,
    ensures
        0 <= (i % nx as int) < nx,
        0 <= (i / nx as int) < nz,
        i == (i / nx as int) * nx + i % nx as int,
{
    assert(nx > 0) by (nonlinear_arith)
        requires
            0 <= i < nx * nz,
            nx >= 0,
    ;
    lemma_fundamental_div_mod(i, nx as int);
    let q = i / nx as int;
    let r = i % nx as int;
    assert(nx as int * q == q * nx) by (nonlinear_arith);
    assert(0 <= r < nx);
    assert(0 <= q < nz) by (nonlinear_arith)
        requires
            i == q * nx + r,
            0 <= r < nx,
            0 <= i < nx * nz,
    ;
}

proof fn lemma_place_in_grid(nx: nat, nz: nat, a: int, b: int)
    requires
        0 <= a < nx,
        0 <= b < nz,
    ensures
        0 <= b * nx + a < nx * nz,
        (b * nx + a) % nx as int == a,
        (b * nx + a) / nx as int == b,
{
    lemma_fundamental_div_mod_converse(b * nx + a, nx as int, b, a);
    assert(0 <= b * nx + a < nx * nz) by (nonlinear_arith)
        requires
            0 <= a < nx,
            0 <= b < nz,
    ;
}

/// What is set is found: a block that was set in one of the layers is there afterwards, and
/// every other block is what it was. Above and below the layers is air, whatever was set.
pub proof fn what_is_set_is_found(
    before: &GeneratedVoxelWorld,
    after: &GeneratedVoxelWorld,
    x: i64,
    y: int,
    z: i64,
    block: Block,
    a: i64,
    b: int,
    c: i64,
)
    requires
        after.edited(before, x, y, z, block),
    ensures
        0 <= y <= 127 ==> after.content(x, y, z) == block,
        (a, b, c) != (x, y, z) ==> after.content(a, b, c) == before.content(a, b, c),
        b < 0 || b > 127 ==> after.content(a, b, c) == Block::Air,
{
    assert(after.edit(x, y, z) == after.edit(x, y, z));
    assert(after.edit(a, b, c) == after.edit(a, b, c));
    assert(after.cached(a, c) == before.cached(a, c));
}

/// Of several edits of a position the last one counts, and a position without any keeps
/// what it had. Edits above and below the layers count for nothing.
pub proof fn the_last_edit_of_a_position_counts(
    edits: Seq<Placed>,
    k: int,
    x: i64,
    y: i64,
    z: i64,
    before: Option<Block>,
)
    ensures
        0 <= k < edits.len() && 0 <= y <= 127 && edits[k].0 == x && edits[k].1 == y && edits[k].2
            == z && (forall|j: int|
            k < j < edits.len() ==> !((#[trigger] edits[j]).0 == x && edits[j].1 == y && edits[j].2
                == z)) ==> applied(edits, x, y as int, z, before) == Some(edits[k].3),
        (forall|j: int|
            0 <= j < edits.len() ==> !((#[trigger] edits[j]).0 == x && edits[j].1 == y && edits[j].2
                == z)) || y < 0 || y > 127 ==> applied(edits, x, y as int, z, before) == before,
    decreases edits.len(),
{
    if edits.len() > 0 {
        let rest = edits.drop_last();
        assert forall|j: int| 0 <= j < rest.len() implies #[trigger] rest[j] == edits[j] by {}
        let last = edits[edits.len() - 1];
        if !(last.0 == x && last.1 == y && last.2 == z && layer(y as int)) {
            the_last_edit_of_a_position_counts(rest, k, x, y, z, before);
        }
    }
}

/// The surface of a column is its highest block, or its highest that is not part of a tree.
pub proof fn surfaces_are_what_is_not_air(block: Block)
    ensures
        is_surface(block, false) <==> block != Block::Air,
        is_surface(block, true) <==> block != Block::Air && block != Block::OakLog && block
            != Block::OakLeaves,
{
}

/// No edit of a column lies above its surface top, nor does the sea or what is kept of it,
/// and one of these lies there.
pub proof fn surface_tops_bound_the_column(world: &GeneratedVoxelWorld, x: i64, z: i64, y: int)
    requires
        world.wf(),
    ensures
        world.edit(x, y, z) is Some ==> y <= world.spec_surface_top(x, z),
        60 <= world.spec_surface_top(x, z),
        column_top(world.ground().at(x, z)) <= world.spec_surface_top(x, z),
        world.cached(x, z) ==> world.kept(x, z).blocks@.len() - 1 <= world.spec_surface_top(x, z),
        ({
            let top = world.spec_surface_top(x, z);
            ||| top == column_top(world.ground().at(x, z))
            ||| world.edit(x, top, z) is Some
            ||| world.cached(x, z) && top == world.kept(x, z).blocks@.len() - 1
        }),
{
    lemma_top_edit_bounds(world, x, z, Y_MAX as int, y);
}

proof fn lemma_top_edit_bounds(
    world: &GeneratedVoxelWorld,
    x: i64,
    z: i64,
    from: int,
    y: int,
)
    requires
        world.wf(),
        from <= Y_MAX,
    ensures
        y <= from && world.edit(x, y, z) is Some ==> y <= world.top_edit(x, z, from),
        world.top_edit(x, z, from) > 0 ==> world.edit(x, world.top_edit(x, z, from), z) is Some,
        world.edit(x, y, z) is Some ==> 0 <= y <= Y_MAX,
    decreases from,
{
    if from > Y_MIN && world.edit(x, from, z) is None {
        lemma_top_edit_bounds(world, x, z, from - 1, y);
    }
}

/// Where nothing was edited, a world is what the generator gives for its seed and heights:
/// the ground, and what trees grow above it.
pub proof fn untouched_blocks_are_generated(
    world: &GeneratedVoxelWorld,
    x: i64,
    y: int,
    z: i64,
)
    requires
        world.wf(),
        world.pristine(),
        world.edit(x, y, z) is None,
        0 <= y <= 127,
    ensures
        ({
            let ground = terrain_at(world.spec_seed(), x, y, z, world.ground().at(x, z));
            let block = world.content(x, y, z);
            &&& block == generated_at(world.spec_seed(), &world.ground(), x, y, z)
            &&& ground != Block::Air ==> block == ground
        }),
{
    if world.cached(x, z) {
        assert(world.columns.has(x, z));
        let column = world.kept(x, z);
        assert(column.block(y) == generated_at(
            world.spec_seed(),
            &world.ground(),
            column.x,
            y,
            column.z,
        ));
    }
}

} // verus!
