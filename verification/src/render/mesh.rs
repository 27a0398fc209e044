//! Meshes at full resolution: the exposed faces of a region.

use crate::render::chunk::ChunkKey;
use crate::render::face::{
    covers_around, face_quad, faces_depend_on_their_surroundings, has_room, spec_quad, unchanged,
    BlockSource, Direction, Levels, Quad, DIRECTIONS, DIRECTION_COUNT,
};
use crate::render::snapshot::{
    area_of, columns_of, fits, keeps_just, knows_within, sky_over, world_cells, MeshingBlocks,
};
use crate::world::atlas::TileTable;
use crate::world::block::{should_draw_face, spec_draw_face, Block, LIGHT_MAX};
use crate::world::column::{Y_MAX, Y_MIN};
use crate::world::skylight::{
    light_depends_on_its_area, regions_agree_on_light, Area, Cells, HEIGHT,
};
use crate::world::voxel::{layer, GeneratedVoxelWorld};
use vstd::prelude::*;

verus! {

/// How far around a region blocks matter for the light in it: one more than light
/// travels.
pub const LIGHT_HALO: i64 = 16;

/// The drawn faces of a region. Glass and water come last, so that what lies
/// behind them is drawn already.
pub struct VoxelMesh {
    pub quads: Vec<Quad>,
    pub transparent_quads: Vec<Quad>,
}

/// The faces of a mesh: the solid ones, and the transparent ones.
pub type Lists = (Seq<Quad>, Seq<Quad>);

/// Whether a face is drawn blended.
pub open spec fn see_through(quad: Quad) -> bool {
    quad.block == Block::Glass || quad.block == Block::Water
}

impl VoxelMesh {
    /// Whether the mesh holds given faces: the solid ones in order, and the
    /// transparent ones in order.
    pub open spec fn holds(&self, all: Seq<Quad>) -> bool {
        &&& self.quads@ == all.filter(|q: Quad| !see_through(q))
        &&& self.transparent_quads@ == all.filter(|q: Quad| see_through(q))
    }

    /// The faces in their two lists.
    pub open spec fn lists(&self) -> Lists {
        (self.quads@, self.transparent_quads@)
    }

    /// Whether the mesh has the faces of two lists, and after them given faces: the solid
    /// ones in order, and the transparent ones in order.
    pub open spec fn extends(&self, base: Lists, more: Seq<Quad>) -> bool {
        &&& self.quads@ == base.0 + more.filter(|q: Quad| !see_through(q))
        &&& self.transparent_quads@ == base.1 + more.filter(|q: Quad| see_through(q))
    }

    /// The faces that a mesh holds are those that it has after none.
    pub proof fn lemma_holds(&self)
        ensures
            forall|all: Seq<Quad>|
                #![trigger self.holds(all)]
                #![trigger self.extends((Seq::empty(), Seq::empty()), all)]
                self.holds(all) == self.extends((Seq::empty(), Seq::empty()), all),
    {
        assert forall|all: Seq<Quad>|
            #![trigger self.holds(all)]
            #![trigger self.extends((Seq::empty(), Seq::empty()), all)]
            self.holds(all) == self.extends((Seq::empty(), Seq::empty()), all) by {
            let solid = all.filter(|q: Quad| !see_through(q));
            let clear = all.filter(|q: Quad| see_through(q));
            assert(Seq::<Quad>::empty() + solid =~= solid);
            assert(Seq::<Quad>::empty() + clear =~= clear);
        }
    }

    /// A mesh has its own faces, and none after them.
    pub proof fn lemma_extends_itself(&self)
        ensures
            self.extends(self.lists(), Seq::empty()),
    {
        reveal(Seq::filter);
        assert(self.quads@ =~= self.quads@ + Seq::<Quad>::empty().filter(
            |q: Quad| !see_through(q),
        ));
        assert(self.transparent_quads@ =~= self.transparent_quads@ + Seq::<Quad>::empty().filter(
            |q: Quad| see_through(q),
        ));
    }

    /// A mesh without faces.
    pub fn new() -> (r: VoxelMesh)
        ensures
            r.holds(Seq::empty()),
    {
        reveal(Seq::filter);
        let r = VoxelMesh { quads: Vec::new(), transparent_quads: Vec::new() };
        assert(r.quads@ =~= Seq::<Quad>::empty().filter(|q: Quad| !see_through(q)));
        assert(r.transparent_quads@ =~= Seq::<Quad>::empty().filter(|q: Quad| see_through(q)));
        r
    }

    /// Whether there is nothing to draw.
    pub fn is_empty(&self) -> (r: bool)
        ensures
            r == (self.quads@.len() == 0 && self.transparent_quads@.len() == 0),
    {
        self.quads.len() == 0 && self.transparent_quads.len() == 0
    }

    /// Adds a face after the others.
    pub fn put(&mut self, quad: Quad)
        ensures
            final(self).quads@ == if see_through(quad) {
                old(self).quads@
            } else {
                old(self).quads@.push(quad)
            },
            final(self).transparent_quads@ == if see_through(quad) {
                old(self).transparent_quads@.push(quad)
            } else {
                old(self).transparent_quads@
            },
            forall|all: Seq<Quad>| #[trigger]
                old(self).holds(all) ==> final(self).holds(all.push(quad)),
            forall|base: Lists, all: Seq<Quad>| #[trigger]
                old(self).extends(base, all) ==> final(self).extends(base, all.push(quad)),
    {
        if quad.block.is_transparent() {
            self.transparent_quads.push(quad);
        } else {
            self.quads.push(quad);
        }
        proof {
            assert forall|all: Seq<Quad>| #[trigger] old(self).holds(all) implies self.holds(
                all.push(quad),
            ) by {
                reveal(Seq::filter);
                assert(all.push(quad).drop_last() =~= all);
            }
            assert forall|base: Lists, all: Seq<Quad>| #[trigger]
                old(self).extends(base, all) implies self.extends(base, all.push(quad)) by {
                reveal(Seq::filter);
                assert(all.push(quad).drop_last() =~= all);
                let solid = all.filter(|q: Quad| !see_through(q));
                let clear = all.filter(|q: Quad| see_through(q));
                assert((base.0 + solid).push(quad) =~= base.0 + solid.push(quad));
                assert((base.1 + clear).push(quad) =~= base.1 + clear.push(quad));
            }
        }
    }

    /// Adds the faces of another mesh after the others.
    pub fn append(&mut self, part: &VoxelMesh)
        ensures
            final(self).quads@ == old(self).quads@ + part.quads@,
            final(self).transparent_quads@ == old(self).transparent_quads@
                + part.transparent_quads@,
            forall|all: Seq<Quad>, more: Seq<Quad>|
                #![trigger old(self).holds(all), part.holds(more)]
                old(self).holds(all) && part.holds(more) ==> final(self).holds(all + more),
    {
        let mut i: usize = 0;
        while i < part.quads.len()
            invariant
                i <= part.quads@.len(),
                self.quads@ == old(self).quads@ + part.quads@.take(i as int),
                self.transparent_quads@ == old(self).transparent_quads@,
            decreases part.quads@.len() - i,
        {
            self.quads.push(part.quads[i]);
            i += 1;
            assert(self.quads@ =~= old(self).quads@ + part.quads@.take(i as int));
        }
        assert(part.quads@.take(i as int) =~= part.quads@);
        let mut j: usize = 0;
        while j < part.transparent_quads.len()
            invariant
                j <= part.transparent_quads@.len(),
                self.quads@ == old(self).quads@ + part.quads@,
                self.transparent_quads@ == old(self).transparent_quads@
                    + part.transparent_quads@.take(j as int),
            decreases part.transparent_quads@.len() - j,
        {
            self.transparent_quads.push(part.transparent_quads[j]);
            j += 1;
            assert(self.transparent_quads@ =~= old(self).transparent_quads@
                + part.transparent_quads@.take(j as int));
        }
        assert(part.transparent_quads@.take(j as int) =~= part.transparent_quads@);
        proof {
            assert forall|all: Seq<Quad>, more: Seq<Quad>|
                #![trigger old(self).holds(all), part.holds(more)]
                old(self).holds(all) && part.holds(more) implies self.holds(all + more) by {
                Seq::filter_distributes_over_add(all, more, |q: Quad| !see_through(q));
                Seq::filter_distributes_over_add(all, more, |q: Quad| see_through(q));
            }
        }
    }
}

/// Whether a face of a cell is drawn.
pub open spec fn is_exposed(cells: Cells, x: int, y: int, z: int, direction: Direction) -> bool {
    let o = direction.spec_offset();
    cells(x, y, z) != Block::Air && spec_draw_face(
        cells(x, y, z),
        cells(x + o.0, y + o.1, z + o.2),
    )
}

/// Faces, and after them those of a cell among the first `n` directions.
pub open spec fn with_faces(
    had: Seq<Quad>,
    cells: Cells,
    sky: Levels,
    x: int,
    y: int,
    z: int,
    n: nat,
) -> Seq<Quad>
    decreases n,
{
    if n == 0 {
        had
    } else {
        let before = with_faces(had, cells, sky, x, y, z, (n - 1) as nat);
        let direction = DIRECTIONS@[n - 1];
        if is_exposed(cells, x, y, z, direction) {
            before.push(spec_quad(cells, sky, x, y, z, direction, cells(x, y, z)))
        } else {
            before
        }
    }
}

/// Faces, and after them those of the lowest `n` cells of a column.
pub open spec fn with_column(
    had: Seq<Quad>,
    cells: Cells,
    sky: Levels,
    x: int,
    z: int,
    n: nat,
) -> Seq<Quad>
    decreases n,
{
    if n == 0 {
        had
    } else {
        with_faces(
            with_column(had, cells, sky, x, z, (n - 1) as nat),
            cells,
            sky,
            x,
            Y_MIN + n - 1,
            z,
            DIRECTION_COUNT as nat,
        )
    }
}

/// Faces, and after them those of the first `n` columns of a row.
pub open spec fn with_row(
    had: Seq<Quad>,
    cells: Cells,
    sky: Levels,
    min_x: int,
    z: int,
    n: nat,
) -> Seq<Quad>
    decreases n,
{
    if n == 0 {
        had
    } else {
        with_column(
            with_row(had, cells, sky, min_x, z, (n - 1) as nat),
            cells,
            sky,
            min_x + n - 1,
            z,
            HEIGHT as nat,
        )
    }
}

/// The faces of the first `n` rows of a region.
pub open spec fn region_rows(cells: Cells, sky: Levels, area: Area, n: nat) -> Seq<Quad>
    decreases n,
{
    if n == 0 {
        Seq::empty()
    } else {
        with_row(
            region_rows(cells, sky, area, (n - 1) as nat),
            cells,
            sky,
            area.min_x,
            area.min_z + n - 1,
            area.width() as nat,
        )
    }
}

/// The exposed faces of a region: row by row, column by column, from the lowest cell
/// up. The light is that of the region and the columns around it.
pub open spec fn region_quads(cells: Cells, area: Area) -> Seq<Quad> {
    if area.min_x > area.max_x || area.min_z > area.max_z {
        Seq::empty()
    } else {
        region_rows(
            cells,
            sky_over(cells, area.grown(LIGHT_HALO as int)),
            area,
            area.depth() as nat,
        )
    }
}

/// Adds the exposed faces of a block.
pub fn push_faces<S: BlockSource>(
    mesh: &mut VoxelMesh,
    source: &mut S,
    x: i64,
    y: i64,
    z: i64,
    tiles: &TileTable,
)
    requires
        tiles.wf(),
        has_room(x as int, y as int, z as int),
        covers_around(old(source), x as int, z as int),
    ensures
        unchanged(old(source), final(source)),
        final(mesh).extends(
            old(mesh).lists(),
            with_faces(
                Seq::empty(),
                old(source).cells(),
                old(source).sky(),
                x as int,
                y as int,
                z as int,
                DIRECTION_COUNT as nat,
            ),
        ),
        forall|base: Lists, had: Seq<Quad>| #[trigger]
            old(mesh).extends(base, had) ==> final(mesh).extends(
                base,
                with_faces(
                    had,
                    old(source).cells(),
                    old(source).sky(),
                    x as int,
                    y as int,
                    z as int,
                    DIRECTION_COUNT as nat,
                ),
            ),
{
    let ghost cells = source.cells();
    let ghost sky = source.sky();
    proof {
        mesh.lemma_extends_itself();
    }
    let current = source.block(x, y, z);
    if current == Block::Air {
        proof {
            assert forall|had: Seq<Quad>, n: nat| #[trigger]
                with_faces(had, cells, sky, x as int, y as int, z as int, n) == had by {
                lemma_air_has_no_faces(had, cells, sky, x as int, y as int, z as int, n);
            }
        }
        return;
    }
    let mut n: usize = 0;
    while n < DIRECTION_COUNT
        invariant
            n <= DIRECTION_COUNT,
            tiles.wf(),
            has_room(x as int, y as int, z as int),
            covers_around(source, x as int, z as int),
            unchanged(old(source), source),
            cells == old(source).cells(),
            sky == old(source).sky(),
            current == cells(x as int, y as int, z as int),
            current != Block::Air,
            forall|base: Lists, had: Seq<Quad>| #[trigger]
                old(mesh).extends(base, had) ==> mesh.extends(
                    base,
                    with_faces(had, cells, sky, x as int, y as int, z as int, n as nat),
                ),
        decreases DIRECTION_COUNT - n,
    {
        let direction = DIRECTIONS[n];
        let o = direction.offset();
        let neighbor = source.block(x + o.0, y + o.1, z + o.2);
        if should_draw_face(current, neighbor) {
            let quad = face_quad(source, (x, y, z), direction, current, tiles);
            mesh.put(quad);
        }
        n += 1;
    }
}

pub(crate) proof fn lemma_air_has_no_faces(
    had: Seq<Quad>,
    cells: Cells,
    sky: Levels,
    x: int,
    y: int,
    z: int,
    n: nat,
)
    requires
        cells(x, y, z) == Block::Air,
    ensures
        with_faces(had, cells, sky, x, y, z, n) == had,
    decreases n,
{
    if n > 0 {
        lemma_air_has_no_faces(had, cells, sky, x, y, z, (n - 1) as nat);
    }
}

/// Above the highest block of a column there are no faces.
proof fn lemma_column_ends(
    had: Seq<Quad>,
    cells: Cells,
    sky: Levels,
    x: int,
    z: int,
    top: nat,
    n: nat,
)
    requires
        top <= n,
        forall|y: int| y >= Y_MIN + top ==> #[trigger] cells(x, y, z) == Block::Air,
    ensures
        with_column(had, cells, sky, x, z, n) == with_column(had, cells, sky, x, z, top),
    decreases n,
{
    if n > top {
        lemma_column_ends(had, cells, sky, x, z, top, (n - 1) as nat);
        lemma_air_has_no_faces(
            with_column(had, cells, sky, x, z, (n - 1) as nat),
            cells,
            sky,
            x,
            Y_MIN + n - 1,
            z,
            DIRECTION_COUNT as nat,
        );
    }
}

/// Adds the exposed faces of a column.
fn push_column(mesh: &mut VoxelMesh, copy: &mut MeshingBlocks, x: i64, z: i64, tiles: &TileTable)
    requires
        tiles.wf(),
        has_room(x as int, 0, z as int),
        covers_around(old(copy), x as int, z as int),
    ensures
        unchanged(old(copy), final(copy)),
        forall|had: Seq<Quad>| #[trigger]
            old(mesh).holds(had) ==> final(mesh).holds(
                with_column(
                    had,
                    old(copy).cells(),
                    old(copy).sky(),
                    x as int,
                    z as int,
                    HEIGHT as nat,
                ),
            ),
{
    let ghost cells = copy.cells();
    let ghost sky = copy.sky();
    assert(copy.covers(x as int, z as int));
    let max_y: i64 = copy.top(x, z);
    let mut y: i64 = Y_MIN;
    while y <= max_y
        invariant
            Y_MIN <= y,
            y <= max_y + 1,
            max_y <= Y_MAX,
            tiles.wf(),
            has_room(x as int, 0, z as int),
            covers_around(copy, x as int, z as int),
            unchanged(old(copy), copy),
            cells == old(copy).cells(),
            sky == old(copy).sky(),
            forall|had: Seq<Quad>| #[trigger]
                old(mesh).holds(had) ==> mesh.holds(
                    with_column(had, cells, sky, x as int, z as int, (y - Y_MIN) as nat),
                ),
        decreases max_y + 1 - y,
    {
        proof {
            mesh.lemma_holds();
        }
        push_faces(mesh, copy, x, y, z, tiles);
        proof {
            mesh.lemma_holds();
        }
        y += 1;
    }
    proof {
        assert forall|had: Seq<Quad>| #[trigger] old(mesh).holds(had) implies mesh.holds(
            with_column(had, cells, sky, x as int, z as int, HEIGHT as nat),
        ) by {
            lemma_column_ends(
                had,
                cells,
                sky,
                x as int,
                z as int,
                (y - Y_MIN) as nat,
                HEIGHT as nat,
            );
        }
    }
}

/// Whether blocks and light agree on a rectangle of columns.
pub open spec fn agree_on(
    cells: Cells,
    sky: Levels,
    other_cells: Cells,
    other_sky: Levels,
    area: Area,
) -> bool {
    &&& forall|x: int, y: int, z: int|
        area.has(x, z) ==> #[trigger] cells(x, y, z) == other_cells(x, y, z)
    &&& forall|x: int, y: int, z: int|
        area.has(x, z) ==> #[trigger] sky(x, y, z) == other_sky(x, y, z)
}

pub(crate) proof fn lemma_same_faces(
    had: Seq<Quad>,
    cells: Cells,
    sky: Levels,
    other_cells: Cells,
    other_sky: Levels,
    area: Area,
    x: int,
    y: int,
    z: int,
    n: nat,
)
    requires
        agree_on(cells, sky, other_cells, other_sky, area.grown(1)),
        area.has(x, z),
        n <= DIRECTION_COUNT,
    ensures
        with_faces(had, cells, sky, x, y, z, n) == with_faces(
            had,
            other_cells,
            other_sky,
            x,
            y,
            z,
            n,
        ),
    decreases n,
{
    if n > 0 {
        lemma_same_faces(
            had,
            cells,
            sky,
            other_cells,
            other_sky,
            area,
            x,
            y,
            z,
            (n - 1) as nat,
        );
        lemma_same_face(
            cells,
            sky,
            other_cells,
            other_sky,
            area,
            x,
            y,
            z,
            DIRECTIONS@[n - 1],
        );
    }
}

proof fn lemma_same_face(
    cells: Cells,
    sky: Levels,
    other_cells: Cells,
    other_sky: Levels,
    area: Area,
    x: int,
    y: int,
    z: int,
    direction: Direction,
)
    requires
        agree_on(cells, sky, other_cells, other_sky, area.grown(1)),
        area.has(x, z),
    ensures
        cells(x, y, z) == other_cells(x, y, z),
        is_exposed(cells, x, y, z, direction) == is_exposed(other_cells, x, y, z, direction),
        spec_quad(cells, sky, x, y, z, direction, cells(x, y, z)) == spec_quad(
            other_cells,
            other_sky,
            x,
            y,
            z,
            direction,
            other_cells(x, y, z),
        ),
{
    faces_depend_on_their_surroundings(
        cells,
        sky,
        other_cells,
        other_sky,
        x,
        y,
        z,
        direction,
        cells(x, y, z),
    );
    let o = direction.spec_offset();
    assert(area.grown(1).has(x + o.0, z + o.2));
    assert(area.grown(1).has(x, z));
}

proof fn lemma_same_column(
    had: Seq<Quad>,
    cells: Cells,
    sky: Levels,
    other_cells: Cells,
    other_sky: Levels,
    area: Area,
    x: int,
    z: int,
    n: nat,
)
    requires
        agree_on(cells, sky, other_cells, other_sky, area.grown(1)),
        area.has(x, z),
    ensures
        with_column(had, cells, sky, x, z, n) == with_column(
            had,
            other_cells,
            other_sky,
            x,
            z,
            n,
        ),
    decreases n,
{
    if n > 0 {
        lemma_same_column(had, cells, sky, other_cells, other_sky, area, x, z, (n - 1) as nat);
        lemma_same_faces(
            with_column(had, cells, sky, x, z, (n - 1) as nat),
            cells,
            sky,
            other_cells,
            other_sky,
            area,
            x,
            Y_MIN + n - 1,
            z,
            DIRECTION_COUNT as nat,
        );
    }
}

proof fn lemma_same_row(
    had: Seq<Quad>,
    cells: Cells,
    sky: Levels,
    other_cells: Cells,
    other_sky: Levels,
    area: Area,
    z: int,
    n: nat,
)
    requires
        agree_on(cells, sky, other_cells, other_sky, area.grown(1)),
        area.min_z <= z <= area.max_z,
        n <= area.width(),
    ensures
        with_row(had, cells, sky, area.min_x, z, n) == with_row(
            had,
            other_cells,
            other_sky,
            area.min_x,
            z,
            n,
        ),
    decreases n,
{
    if n > 0 {
        lemma_same_row(had, cells, sky, other_cells, other_sky, area, z, (n - 1) as nat);
        lemma_same_column(
            with_row(had, cells, sky, area.min_x, z, (n - 1) as nat),
            cells,
            sky,
            other_cells,
            other_sky,
            area,
            area.min_x + n - 1,
            z,
            HEIGHT as nat,
        );
    }
}

proof fn lemma_same_rows(
    cells: Cells,
    sky: Levels,
    other_cells: Cells,
    other_sky: Levels,
    area: Area,
    n: nat,
)
    requires
        agree_on(cells, sky, other_cells, other_sky, area.grown(1)),
        n <= area.depth(),
        area.width() >= 0,
    ensures
        region_rows(cells, sky, area, n) == region_rows(other_cells, other_sky, area, n),
    decreases n,
{
    if n > 0 {
        lemma_same_rows(cells, sky, other_cells, other_sky, area, (n - 1) as nat);
        lemma_same_row(
            region_rows(cells, sky, area, (n - 1) as nat),
            cells,
            sky,
            other_cells,
            other_sky,
            area,
            area.min_z + n - 1,
            area.width() as nat,
        );
    }
}

/// The mesh of a region depends only on the blocks within the reach of light: a
/// change farther away leaves it as it is.
pub proof fn meshes_depend_on_near_blocks(cells: Cells, others: Cells, area: Area)
    requires
        forall|x: int, y: int, z: int|
            area.grown(LIGHT_HALO as int).has(x, z) ==> #[trigger] cells(x, y, z) == others(
                x,
                y,
                z,
            ),
    ensures
        region_quads(cells, area) == region_quads(others, area),
{
    let wide = area.grown(LIGHT_HALO as int);
    let sky = sky_over(cells, wide);
    let other_sky = sky_over(others, wide);
    assert forall|x: int, y: int, z: int| area.grown(1).has(x, z) implies #[trigger] sky(x, y, z)
        == other_sky(x, y, z) by {
        light_depends_on_its_area(cells, others, wide, x, y, z);
    }
    if area.min_x <= area.max_x && area.min_z <= area.max_z {
        lemma_same_rows(cells, sky, others, other_sky, area, area.depth() as nat);
    }
}

impl VoxelMesh {
    fn push_rows(
        copy: &mut MeshingBlocks,
        min_x: i64,
        max_x: i64,
        min_z: i64,
        max_z: i64,
        tiles: &TileTable,
    ) -> (r: VoxelMesh)
        requires
            tiles.wf(),
            min_x <= max_x,
            min_z <= max_z,
            has_room(min_x as int, 0, min_z as int),
            has_room(max_x as int, 0, max_z as int),
            forall|x: int, z: int|
                area_of(min_x, max_x, min_z, max_z).grown(1).has(x, z) ==> #[trigger] old(
                    copy,
                ).covers(x, z),
        ensures
            unchanged(old(copy), final(copy)),
            ({
                let area = area_of(min_x, max_x, min_z, max_z);
                r.holds(region_rows(old(copy).cells(), old(copy).sky(), area, area.depth() as nat))
            }),
    {
        let ghost area = area_of(min_x, max_x, min_z, max_z);
        let ghost cells = copy.cells();
        let ghost sky = copy.sky();
        let mut mesh = VoxelMesh::new();
        let mut z: i64 = min_z;
        while z <= max_z
            invariant
                min_x <= max_x,
                min_z <= z <= max_z + 1,
                tiles.wf(),
                has_room(min_x as int, 0, min_z as int),
                has_room(max_x as int, 0, max_z as int),
                area == area_of(min_x, max_x, min_z, max_z),
                forall|x: int, z: int| area.grown(1).has(x, z) ==> #[trigger] copy.covers(x, z),
                unchanged(old(copy), copy),
                cells == old(copy).cells(),
                sky == old(copy).sky(),
                mesh.holds(region_rows(cells, sky, area, (z - min_z) as nat)),
            decreases max_z + 1 - z,
        {
            let ghost rows = region_rows(cells, sky, area, (z - min_z) as nat);
            let mut x: i64 = min_x;
            while x <= max_x
                invariant
                    min_x <= x <= max_x + 1,
                    min_z <= z <= max_z,
                    tiles.wf(),
                    has_room(min_x as int, 0, min_z as int),
                    has_room(max_x as int, 0, max_z as int),
                    area == area_of(min_x, max_x, min_z, max_z),
                    forall|x: int, z: int|
                        area.grown(1).has(x, z) ==> #[trigger] copy.covers(x, z),
                    unchanged(old(copy), copy),
                    cells == old(copy).cells(),
                    sky == old(copy).sky(),
                    mesh.holds(
                        with_row(rows, cells, sky, min_x as int, z as int, (x - min_x) as nat),
                    ),
                decreases max_x + 1 - x,
            {
                push_column(&mut mesh, copy, x, z, tiles);
                x += 1;
            }
            z += 1;
        }
        mesh
    }

    /// The exposed faces of a region at full resolution. The columns that this looks
    /// at are kept.
    pub fn build_region(
        world: &mut GeneratedVoxelWorld,
        min_x: i64,
        max_x: i64,
        min_z: i64,
        max_z: i64,
        tiles: &TileTable,
    ) -> (r: VoxelMesh)
        requires
            old(world).wf(),
            tiles.wf(),
            fits(area_of(min_x, max_x, min_z, max_z).grown(LIGHT_HALO as int)),
            knows_within(
                old(world),
                area_of(min_x, max_x, min_z, max_z).grown(LIGHT_HALO as int),
            ),
        ensures
            r.holds(region_quads(world_cells(old(world)), area_of(min_x, max_x, min_z, max_z))),
            final(world).wf(),
            final(world).same_source(old(world)),
            final(world).keeps_more(old(world)),
            keeps_just(
                old(world),
                final(world),
                columns_of(area_of(min_x, max_x, min_z, max_z).grown(LIGHT_HALO as int)),
            ),
    {
        let ghost area = area_of(min_x, max_x, min_z, max_z);
        let ghost wide = area.grown(LIGHT_HALO as int);
        let ghost cells = world_cells(old(world));
        let mut copy = MeshingBlocks::new(
            world,
            min_x - LIGHT_HALO,
            max_x + LIGHT_HALO,
            min_z - LIGHT_HALO,
            max_z + LIGHT_HALO,
        );
        if min_x > max_x || min_z > max_z {
            return VoxelMesh::new();
        }
        let ghost copied = copy.copied();
        assert(copy.area() == wide);
        let mesh = VoxelMesh::push_rows(&mut copy, min_x, max_x, min_z, max_z, tiles);
        proof {
            assert forall|x: int, y: int, z: int| wide.has(x, z) implies #[trigger] copied(x, y, z)
                == cells(x, y, z) by {}
            meshes_depend_on_near_blocks(copied, cells, area);
        }
        mesh
    }

    /// The exposed faces of the columns around a centre: none where the radius is negative.
    pub fn build(
        world: &mut GeneratedVoxelWorld,
        center_x: i64,
        center_z: i64,
        radius: i64,
        tiles: &TileTable,
    ) -> (r: VoxelMesh)
        requires
            old(world).wf(),
            tiles.wf(),
            around_fits(center_x, center_z, radius),
            knows_within(
                old(world),
                around(center_x, center_z, radius).grown(LIGHT_HALO as int),
            ),
        ensures
            r.holds(region_quads(world_cells(old(world)), around(center_x, center_z, radius))),
            final(world).wf(),
            final(world).same_source(old(world)),
            final(world).keeps_more(old(world)),
            keeps_just(
                old(world),
                final(world),
                columns_of(around(center_x, center_z, radius).grown(LIGHT_HALO as int)),
            ),
    {
        VoxelMesh::build_region(
            world,
            center_x - radius,
            center_x + radius,
            center_z - radius,
            center_z + radius,
            tiles,
        )
    }

    /// The exposed faces of a chunk at full resolution.
    pub fn build_near_chunk(world: &mut GeneratedVoxelWorld, key: ChunkKey, tiles: &TileTable) -> (r:
        VoxelMesh)
        requires
            old(world).wf(),
            tiles.wf(),
            knows_within(old(world), chunk_area(key).grown(LIGHT_HALO as int)),
        ensures
            r.holds(region_quads(world_cells(old(world)), chunk_area(key))),
            final(world).wf(),
            final(world).same_source(old(world)),
            final(world).keeps_more(old(world)),
            keeps_just(
                old(world),
                final(world),
                columns_of(chunk_area(key).grown(LIGHT_HALO as int)),
            ),
    {
        let min_x: i64 = key.min_x();
        let max_x: i64 = key.max_x();
        let min_z: i64 = key.min_z();
        let max_z: i64 = key.max_z();
        assert(area_of(min_x, max_x, min_z, max_z) == chunk_area(key));
        proof {
            lemma_chunk_fits(key);
        }
        VoxelMesh::build_region(world, min_x, max_x, min_z, max_z, tiles)
    }
}

proof fn lemma_chunk_fits(key: ChunkKey)
    ensures
        fits(chunk_area(key).grown(LIGHT_HALO as int)),
{
    let wide = chunk_area(key).grown(LIGHT_HALO as int);
    assert(wide.width() == 64 && wide.depth() == 64);
    assert(wide.width() * wide.depth() * HEIGHT == 524288) by (nonlinear_arith)
        requires
            wide.width() == 64,
            wide.depth() == 64,
    ;
}

/// The square of columns around a centre.
pub open spec fn around(x: i64, z: i64, radius: i64) -> Area {
    Area { min_x: x - radius, max_x: x + radius, min_z: z - radius, max_z: z + radius }
}

/// Whether the square around a centre can be meshed: with its margin it has columns, and
/// they can be numbered.
pub open spec fn around_fits(x: i64, z: i64, radius: i64) -> bool {
    fits(around(x, z, radius).grown(LIGHT_HALO as int))
}

/// The columns of a chunk.
pub open spec fn chunk_area(key: ChunkKey) -> Area {
    Area {
        min_x: key.west(),
        max_x: key.west() + crate::render::chunk::CHUNK_SIZE - 1,
        min_z: key.north(),
        max_z: key.north() + crate::render::chunk::CHUNK_SIZE - 1,
    }
}

/// Whether a face is that of some exposed cell of a region.
pub open spec fn is_face_of(cells: Cells, sky: Levels, area: Area, quad: Quad) -> bool {
    exists|x: int, y: int, z: int, direction: Direction|
        area.has(x, z) && layer(y) && #[trigger] is_exposed(cells, x, y, z, direction) && quad
            == spec_quad(cells, sky, x, y, z, direction, cells(x, y, z))
}

/// The place of a direction in the drawing order.
pub open spec fn direction_place(direction: Direction) -> nat {
    match direction {
        Direction::Up => 0,
        Direction::Down => 1,
        Direction::North => 2,
        Direction::South => 3,
        Direction::West => 4,
        Direction::East => 5,
    }
}

proof fn lemma_pushed_contains(had: Seq<Quad>, q: Quad, quad: Quad)
    ensures
        had.push(q).contains(quad) <==> had.contains(quad) || q == quad,
{
    if had.contains(quad) {
        let k = choose|k: int| 0 <= k < had.len() && had[k] == quad;
        assert(had.push(q)[k] == quad);
    }
    assert(had.push(q)[had.len() as int] == q);
}

pub(crate) proof fn lemma_faces_held(
    had: Seq<Quad>,
    cells: Cells,
    sky: Levels,
    x: int,
    y: int,
    z: int,
    n: nat,
    quad: Quad,
)
    requires
        n <= DIRECTION_COUNT,
    ensures
        with_faces(had, cells, sky, x, y, z, n).contains(quad) <==> had.contains(quad)
            || exists|direction: Direction|
            direction_place(direction) < n && #[trigger] is_exposed(cells, x, y, z, direction)
                && quad == spec_quad(cells, sky, x, y, z, direction, cells(x, y, z)),
    decreases n,
{
    if n > 0 {
        lemma_faces_held(had, cells, sky, x, y, z, (n - 1) as nat, quad);
        let direction = DIRECTIONS@[n - 1];
        assert(direction_place(direction) == n - 1);
        assert(forall|other: Direction|
            #[trigger] direction_place(other) == n - 1 ==> other == direction);
        lemma_pushed_contains(
            with_faces(had, cells, sky, x, y, z, (n - 1) as nat),
            spec_quad(cells, sky, x, y, z, direction, cells(x, y, z)),
            quad,
        );
    }
}

/// Whether a face is that of some exposed cell among the first `n` of a column.
spec fn in_column(cells: Cells, sky: Levels, x: int, z: int, n: nat, quad: Quad) -> bool {
    exists|y: int, direction: Direction|
        Y_MIN <= y < Y_MIN + n && #[trigger] is_exposed(cells, x, y, z, direction) && quad
            == spec_quad(cells, sky, x, y, z, direction, cells(x, y, z))
}

proof fn lemma_column_held(
    had: Seq<Quad>,
    cells: Cells,
    sky: Levels,
    x: int,
    z: int,
    n: nat,
    quad: Quad,
)
    ensures
        with_column(had, cells, sky, x, z, n).contains(quad) <==> had.contains(quad) || in_column(
            cells,
            sky,
            x,
            z,
            n,
            quad,
        ),
    decreases n,
{
    if n > 0 {
        lemma_column_held(had, cells, sky, x, z, (n - 1) as nat, quad);
        let y = Y_MIN + n - 1;
        let before = with_column(had, cells, sky, x, z, (n - 1) as nat);
        lemma_faces_held(before, cells, sky, x, y, z, DIRECTION_COUNT as nat, quad);
        if with_column(had, cells, sky, x, z, n).contains(quad) && !before.contains(quad) {
            let direction = choose|direction: Direction|
                direction_place(direction) < 6 && #[trigger] is_exposed(cells, x, y, z, direction)
                    && quad == spec_quad(cells, sky, x, y, z, direction, cells(x, y, z));
            assert(is_exposed(cells, x, y, z, direction));
        }
        if in_column(cells, sky, x, z, n, quad) {
            let (k, direction) = choose|k: int, direction: Direction|
                Y_MIN <= k < Y_MIN + n && #[trigger] is_exposed(cells, x, k, z, direction) && quad
                    == spec_quad(cells, sky, x, k, z, direction, cells(x, k, z));
            if k == y {
                assert(direction_place(direction) < 6);
            } else {
                assert(in_column(cells, sky, x, z, (n - 1) as nat, quad));
            }
        }
        if in_column(cells, sky, x, z, (n - 1) as nat, quad) {
            let (k, direction) = choose|k: int, direction: Direction|
                Y_MIN <= k < Y_MIN + n - 1 && #[trigger] is_exposed(cells, x, k, z, direction)
                    && quad == spec_quad(cells, sky, x, k, z, direction, cells(x, k, z));
            assert(is_exposed(cells, x, k, z, direction));
        }
    }
}

/// Whether a face is that of some exposed cell among the first `n` columns of a row.
spec fn in_row(cells: Cells, sky: Levels, min_x: int, z: int, n: nat, quad: Quad) -> bool {
    exists|x: int|
        min_x <= x < min_x + n && #[trigger] in_column(cells, sky, x, z, HEIGHT as nat, quad)
}

proof fn lemma_row_held(
    had: Seq<Quad>,
    cells: Cells,
    sky: Levels,
    min_x: int,
    z: int,
    n: nat,
    quad: Quad,
)
    ensures
        with_row(had, cells, sky, min_x, z, n).contains(quad) <==> had.contains(quad) || in_row(
            cells,
            sky,
            min_x,
            z,
            n,
            quad,
        ),
    decreases n,
{
    if n > 0 {
        lemma_row_held(had, cells, sky, min_x, z, (n - 1) as nat, quad);
        let x = min_x + n - 1;
        let before = with_row(had, cells, sky, min_x, z, (n - 1) as nat);
        lemma_column_held(before, cells, sky, x, z, HEIGHT as nat, quad);
        if in_row(cells, sky, min_x, z, n, quad) {
            let k = choose|k: int|
                min_x <= k < min_x + n && #[trigger] in_column(
                    cells,
                    sky,
                    k,
                    z,
                    HEIGHT as nat,
                    quad,
                );
            if k != x {
                assert(in_row(cells, sky, min_x, z, (n - 1) as nat, quad));
            }
        }
        if in_row(cells, sky, min_x, z, (n - 1) as nat, quad) {
            let k = choose|k: int|
                min_x <= k < min_x + n - 1 && #[trigger] in_column(
                    cells,
                    sky,
                    k,
                    z,
                    HEIGHT as nat,
                    quad,
                );
            assert(in_column(cells, sky, k, z, HEIGHT as nat, quad));
        }
    }
}

spec fn in_rows(cells: Cells, sky: Levels, area: Area, n: nat, quad: Quad) -> bool {
    exists|z: int|
        area.min_z <= z < area.min_z + n && #[trigger] in_row(
            cells,
            sky,
            area.min_x,
            z,
            area.width() as nat,
            quad,
        )
}

proof fn lemma_rows_held(cells: Cells, sky: Levels, area: Area, n: nat, quad: Quad)
    requires
        area.width() >= 0,
    ensures
        region_rows(cells, sky, area, n).contains(quad) <==> in_rows(cells, sky, area, n, quad),
    decreases n,
{
    if n > 0 {
        lemma_rows_held(cells, sky, area, (n - 1) as nat, quad);
        let z = area.min_z + n - 1;
        let before = region_rows(cells, sky, area, (n - 1) as nat);
        lemma_row_held(before, cells, sky, area.min_x, z, area.width() as nat, quad);
        if in_rows(cells, sky, area, n, quad) {
            let k = choose|k: int|
                area.min_z <= k < area.min_z + n && #[trigger] in_row(
                    cells,
                    sky,
                    area.min_x,
                    k,
                    area.width() as nat,
                    quad,
                );
            if k != z {
                assert(in_rows(cells, sky, area, (n - 1) as nat, quad));
            }
        }
        if in_rows(cells, sky, area, (n - 1) as nat, quad) {
            let k = choose|k: int|
                area.min_z <= k < area.min_z + n - 1 && #[trigger] in_row(
                    cells,
                    sky,
                    area.min_x,
                    k,
                    area.width() as nat,
                    quad,
                );
            assert(in_row(cells, sky, area.min_x, k, area.width() as nat, quad));
        }
    }
}

/// A mesh holds a face exactly if it is an exposed face of a cell of the region.
pub proof fn meshes_hold_the_exposed_faces(cells: Cells, area: Area, quad: Quad)
    ensures
        region_quads(cells, area).contains(quad) <==> is_face_of(
            cells,
            sky_over(cells, area.grown(LIGHT_HALO as int)),
            area,
            quad,
        ),
{
    let sky = sky_over(cells, area.grown(LIGHT_HALO as int));
    if area.min_x <= area.max_x && area.min_z <= area.max_z {
        let d = area.depth() as nat;
        let w = area.width() as nat;
        lemma_rows_held(cells, sky, area, d, quad);
        if in_rows(cells, sky, area, d, quad) {
            let z = choose|z: int|
                area.min_z <= z < area.min_z + d && #[trigger] in_row(
                    cells,
                    sky,
                    area.min_x,
                    z,
                    w,
                    quad,
                );
            let x = choose|x: int|
                area.min_x <= x < area.min_x + w && #[trigger] in_column(
                    cells,
                    sky,
                    x,
                    z,
                    HEIGHT as nat,
                    quad,
                );
            let (y, direction) = choose|y: int, direction: Direction|
                Y_MIN <= y < Y_MIN + HEIGHT && #[trigger] is_exposed(cells, x, y, z, direction)
                    && quad == spec_quad(cells, sky, x, y, z, direction, cells(x, y, z));
            assert(area.has(x, z) && layer(y) && is_exposed(cells, x, y, z, direction));
        }
        if is_face_of(cells, sky, area, quad) {
            let (x, y, z, direction) = choose|x: int, y: int, z: int, direction: Direction|
                area.has(x, z) && layer(y) && #[trigger] is_exposed(cells, x, y, z, direction)
                    && quad == spec_quad(cells, sky, x, y, z, direction, cells(x, y, z));
            assert(in_column(cells, sky, x, z, HEIGHT as nat, quad));
            assert(in_row(cells, sky, area.min_x, z, w, quad));
            assert(in_rows(cells, sky, area, d, quad));
        }
    }
}

/// The cell next to a cell in a direction.
pub open spec fn next_to(x: int, y: int, z: int, direction: Direction) -> (int, int, int) {
    match direction {
        Direction::Up => (x, y + 1, z),
        Direction::Down => (x, y - 1, z),
        Direction::North => (x, y, z - 1),
        Direction::South => (x, y, z + 1),
        Direction::West => (x - 1, y, z),
        Direction::East => (x + 1, y, z),
    }
}

/// A face is at the place of its block.
pub proof fn lemma_quad_place(
    cells: Cells,
    sky: Levels,
    x: int,
    y: int,
    z: int,
    direction: Direction,
    block: Block,
)
    requires
        i64::MIN <= x <= i64::MAX,
        i64::MIN <= y <= i64::MAX,
        i64::MIN <= z <= i64::MAX,
    ensures
        ({
            let quad = spec_quad(cells, sky, x, y, z, direction, block);
            &&& quad.x == x && quad.y == y && quad.z == z
            &&& quad.direction == direction
            &&& quad.block == block
        }),
{
    reveal(spec_quad);
}

/// A face is drawn towards what can be seen through.
pub proof fn lemma_exposed(cells: Cells, x: int, y: int, z: int, direction: Direction)
    ensures
        is_exposed(cells, x, y, z, direction) <==> {
            let block = cells(x, y, z);
            let n = next_to(x, y, z, direction);
            let other = cells(n.0, n.1, n.2);
            &&& block != Block::Air && block != other
            &&& other == Block::Air || other == Block::Water || other == Block::Glass || other
                == Block::OakLeaves
        },
{
}

/// Every face that can be seen is in the mesh: where a block borders air, water, glass or
/// leaves that it is not itself, the mesh of a region has its face in that direction.
pub proof fn open_faces_are_drawn(
    cells: Cells,
    area: Area,
    x: i64,
    y: i64,
    z: i64,
    direction: Direction,
)
    requires
        area.has(x as int, z as int),
        Y_MIN <= y <= Y_MAX,
        ({
            let block = cells(x as int, y as int, z as int);
            let n = next_to(x as int, y as int, z as int, direction);
            let other = cells(n.0, n.1, n.2);
            &&& block != Block::Air && block != other
            &&& other == Block::Air || other == Block::Water || other == Block::Glass || other
                == Block::OakLeaves
        }),
    ensures
        exists|i: int|
            0 <= i < region_quads(cells, area).len() && {
                let quad = #[trigger] region_quads(cells, area)[i];
                &&& quad.x == x && quad.y == y && quad.z == z
                &&& quad.direction == direction
                &&& quad.block == cells(x as int, y as int, z as int)
            },
{
    let sky = sky_over(cells, area.grown(LIGHT_HALO as int));
    let (a, b, c) = (x as int, y as int, z as int);
    let quad = spec_quad(cells, sky, a, b, c, direction, cells(a, b, c));
    lemma_quad_place(cells, sky, a, b, c, direction, cells(a, b, c));
    lemma_exposed(cells, a, b, c, direction);
    assert(is_exposed(cells, a, b, c, direction));
    meshes_hold_the_exposed_faces(cells, area, quad);
    assert(is_face_of(cells, sky, area, quad));
    let i = choose|i: int|
        0 <= i < region_quads(cells, area).len() && region_quads(cells, area)[i] == quad;
    assert(region_quads(cells, area)[i].x == x);
}

/// Nothing else is in the mesh: each of its faces belongs to a block of the region and
/// looks at air, water, glass or leaves that the block is not itself.
pub proof fn drawn_faces_are_open(cells: Cells, area: Area, i: int)
    requires
        0 <= i < region_quads(cells, area).len(),
        i64::MIN <= area.min_x,
        area.max_x <= i64::MAX,
        i64::MIN <= area.min_z,
        area.max_z <= i64::MAX,
    ensures
        ({
            let quad = region_quads(cells, area)[i];
            let n = next_to(quad.x as int, quad.y as int, quad.z as int, quad.direction);
            let other = cells(n.0, n.1, n.2);
            &&& area.has(quad.x as int, quad.z as int)
            &&& Y_MIN <= quad.y <= Y_MAX
            &&& quad.block == cells(quad.x as int, quad.y as int, quad.z as int)
            &&& quad.block != Block::Air && quad.block != other
            &&& other == Block::Air || other == Block::Water || other == Block::Glass || other
                == Block::OakLeaves
        }),
{
    let sky = sky_over(cells, area.grown(LIGHT_HALO as int));
    let quad = region_quads(cells, area)[i];
    assert(region_quads(cells, area).contains(quad));
    meshes_hold_the_exposed_faces(cells, area, quad);
    let (x, y, z, direction) = choose|x: int, y: int, z: int, direction: Direction|
        area.has(x, z) && layer(y) && #[trigger] is_exposed(cells, x, y, z, direction) && quad
            == spec_quad(cells, sky, x, y, z, direction, cells(x, y, z));
    lemma_quad_place(cells, sky, x, y, z, direction, cells(x, y, z));
    lemma_exposed(cells, x, y, z, direction);
}

/// The order of faces: by row, then by column, then from the lowest cell up, then by
/// direction.
pub open spec fn face_before(a: Quad, b: Quad) -> bool {
    a.z < b.z || a.z == b.z && (a.x < b.x || a.x == b.x && (a.y < b.y || a.y == b.y
        && direction_place(a.direction) < direction_place(b.direction)))
}

/// Whether faces are in order and come before a place in the order.
spec fn ordered_until(all: Seq<Quad>, x: int, y: int, z: int, n: int) -> bool {
    &&& forall|i: int, j: int|
        0 <= i < j < all.len() ==> face_before(#[trigger] all[i], #[trigger] all[j])
    &&& forall|i: int|
        0 <= i < all.len() ==> {
            let a = #[trigger] all[i];
            a.z < z || a.z == z && (a.x < x || a.x == x && (a.y < y || a.y == y
                && direction_place(a.direction) < n))
        }
}

/// No face is drawn twice, and faces come row by row, column by column, from the lowest
/// cell up.
pub proof fn faces_are_drawn_once_and_in_order(cells: Cells, area: Area, i: int, j: int)
    requires
        i64::MIN <= area.min_x,
        area.max_x < i64::MAX,
        i64::MIN <= area.min_z,
        area.max_z < i64::MAX,
        0 <= i < j < region_quads(cells, area).len(),
    ensures
        face_before(region_quads(cells, area)[i], region_quads(cells, area)[j]),
        region_quads(cells, area)[i] != region_quads(cells, area)[j],
{
    let sky = sky_over(cells, area.grown(LIGHT_HALO as int));
    lemma_rows_ordered(cells, sky, area, area.depth() as nat);
    assert(face_before(region_quads(cells, area)[i], region_quads(cells, area)[j]));
}

proof fn lemma_faces_ordered(
    had: Seq<Quad>,
    cells: Cells,
    sky: Levels,
    x: int,
    y: int,
    z: int,
    n: nat,
)
    requires
        ordered_until(had, x, y, z, 0),
        i64::MIN <= x <= i64::MAX,
        layer(y),
        i64::MIN <= z <= i64::MAX,
        n <= DIRECTION_COUNT,
    ensures
        ordered_until(with_faces(had, cells, sky, x, y, z, n), x, y, z, n as int),
    decreases n,
{
    if n > 0 {
        lemma_faces_ordered(had, cells, sky, x, y, z, (n - 1) as nat);
        let direction = DIRECTIONS@[n - 1];
        assert(direction_place(direction) == n - 1);
        let before = with_faces(had, cells, sky, x, y, z, (n - 1) as nat);
        let quad = spec_quad(cells, sky, x, y, z, direction, cells(x, y, z));
        lemma_quad_place(cells, sky, x, y, z, direction, cells(x, y, z));
        lemma_push_ordered(before, quad, x, y, z, n - 1);
        lemma_ordered_later(before, x, y, z, n - 1);
    }
}

proof fn lemma_push_ordered(before: Seq<Quad>, quad: Quad, x: int, y: int, z: int, n: int)
    requires
        ordered_until(before, x, y, z, n),
        quad.x == x && quad.y == y && quad.z == z,
        direction_place(quad.direction) == n,
    ensures
        ordered_until(before.push(quad), x, y, z, n + 1),
{
    let all = before.push(quad);
    assert forall|i: int, j: int| 0 <= i < j < all.len() implies face_before(
        #[trigger] all[i],
        #[trigger] all[j],
    ) by {
        assert(all[i] == before[i]);
        if j < before.len() {
            assert(all[j] == before[j]);
        }
    }
}

proof fn lemma_ordered_later(before: Seq<Quad>, x: int, y: int, z: int, n: int)
    requires
        ordered_until(before, x, y, z, n),
    ensures
        ordered_until(before, x, y, z, n + 1),
{
}

proof fn lemma_column_ordered(
    had: Seq<Quad>,
    cells: Cells,
    sky: Levels,
    x: int,
    z: int,
    n: nat,
)
    requires
        ordered_until(had, x, Y_MIN as int, z, 0),
        i64::MIN <= x <= i64::MAX,
        i64::MIN <= z <= i64::MAX,
        n <= HEIGHT,
    ensures
        ordered_until(with_column(had, cells, sky, x, z, n), x, Y_MIN + n, z, 0),
    decreases n,
{
    if n > 0 {
        lemma_column_ordered(had, cells, sky, x, z, (n - 1) as nat);
        let before = with_column(had, cells, sky, x, z, (n - 1) as nat);
        lemma_faces_ordered(before, cells, sky, x, Y_MIN + n - 1, z, DIRECTION_COUNT as nat);
    }
}

proof fn lemma_row_ordered(
    had: Seq<Quad>,
    cells: Cells,
    sky: Levels,
    min_x: int,
    z: int,
    n: nat,
)
    requires
        ordered_until(had, min_x, Y_MIN as int, z, 0),
        i64::MIN <= min_x,
        min_x + n <= i64::MAX,
        i64::MIN <= z <= i64::MAX,
    ensures
        ordered_until(with_row(had, cells, sky, min_x, z, n), min_x + n, Y_MIN as int, z, 0),
    decreases n,
{
    if n > 0 {
        lemma_row_ordered(had, cells, sky, min_x, z, (n - 1) as nat);
        let before = with_row(had, cells, sky, min_x, z, (n - 1) as nat);
        lemma_column_ordered(before, cells, sky, min_x + n - 1, z, HEIGHT as nat);
    }
}

proof fn lemma_rows_ordered(cells: Cells, sky: Levels, area: Area, n: nat)
    requires
        i64::MIN <= area.min_x <= area.max_x,
        area.max_x < i64::MAX,
        i64::MIN <= area.min_z,
        area.min_z + n <= i64::MAX,
    ensures
        ordered_until(
            region_rows(cells, sky, area, n),
            area.min_x,
            Y_MIN as int,
            area.min_z + n,
            0,
        ),
    decreases n,
{
    if n > 0 {
        lemma_rows_ordered(cells, sky, area, (n - 1) as nat);
        let before = region_rows(cells, sky, area, (n - 1) as nat);
        let w = area.width() as nat;
        lemma_row_ordered(before, cells, sky, area.min_x, area.min_z + n - 1, w);
    }
}

/// Glass and water are drawn after all else, and nothing is left out: each face is in one
/// of the two lists, that of what can be seen through or the other.
pub proof fn faces_are_parted_by_what_is_seen_through(mesh: &VoxelMesh, all: Seq<Quad>, quad: Quad)
    requires
        mesh.holds(all),
    ensures
        mesh.transparent_quads@.contains(quad) <==> all.contains(quad) && (quad.block
            == Block::Glass || quad.block == Block::Water),
        mesh.quads@.contains(quad) <==> all.contains(quad) && quad.block != Block::Glass
            && quad.block != Block::Water,
        mesh.quads@.len() + mesh.transparent_quads@.len() == all.len(),
{
    lemma_filter_holds(all, |q: Quad| !see_through(q), quad);
    lemma_filter_holds(all, |q: Quad| see_through(q), quad);
    lemma_filters_part(all);
}

proof fn lemma_filter_holds(all: Seq<Quad>, pick: spec_fn(Quad) -> bool, quad: Quad)
    ensures
        all.filter(pick).contains(quad) <==> all.contains(quad) && pick(quad),
    decreases all.len(),
{
    reveal(Seq::filter);
    if all.len() > 0 {
        let rest = all.drop_last();
        lemma_filter_holds(rest, pick, quad);
        assert(all =~= rest.push(all.last()));
        lemma_pushed_contains(rest, all.last(), quad);
        lemma_pushed_contains(rest.filter(pick), all.last(), quad);
    }
}

proof fn lemma_filters_part(all: Seq<Quad>)
    ensures
        all.filter(|q: Quad| !see_through(q)).len() + all.filter(|q: Quad| see_through(q)).len()
            == all.len(),
    decreases all.len(),
{
    reveal(Seq::filter);
    if all.len() > 0 {
        lemma_filters_part(all.drop_last());
    }
}

/// Regions agree on the faces that they share: a face of a block in both is in the mesh of
/// one exactly if it is in that of the other, with the same light. So the meshes of chunks
/// that lie side by side fit together.
pub proof fn regions_agree_on_faces(cells: Cells, a: Area, b: Area, quad: Quad)
    requires
        i64::MIN <= a.min_x,
        a.max_x <= i64::MAX,
        i64::MIN <= a.min_z,
        a.max_z <= i64::MAX,
        a.has(quad.x as int, quad.z as int),
        b.has(quad.x as int, quad.z as int),
        region_quads(cells, a).contains(quad),
    ensures
        region_quads(cells, b).contains(quad),
        LIGHT_HALO > LIGHT_MAX,
{
    let in_a = sky_over(cells, a.grown(LIGHT_HALO as int));
    let in_b = sky_over(cells, b.grown(LIGHT_HALO as int));
    meshes_hold_the_exposed_faces(cells, a, quad);
    meshes_hold_the_exposed_faces(cells, b, quad);
    let (x, y, z, direction) = choose|x: int, y: int, z: int, direction: Direction|
        a.has(x, z) && layer(y) && #[trigger] is_exposed(cells, x, y, z, direction) && quad
            == spec_quad(cells, in_a, x, y, z, direction, cells(x, y, z));
    lemma_quad_place(cells, in_a, x, y, z, direction, cells(x, y, z));
    assert forall|c: int, d: int, e: int|
        x - 1 <= c <= x + 1 && y - 1 <= d <= y + 1 && z - 1 <= e <= z + 1 implies #[trigger] in_a(
        c,
        d,
        e,
    ) == in_b(c, d, e) by {
        regions_agree_on_light(
            cells,
            a.grown(LIGHT_HALO as int),
            b.grown(LIGHT_HALO as int),
            c,
            d,
            e,
        );
    }
    faces_depend_on_their_surroundings(
        cells,
        in_a,
        cells,
        in_b,
        x,
        y,
        z,
        direction,
        cells(x, y, z),
    );
    assert(is_face_of(cells, in_b, b, quad));
}

} // verus!
