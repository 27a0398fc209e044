//! How far away a change can be and still matter to the mesh of a chunk.

use crate::render::chunk::{ChunkKey, LodLevel};
use crate::render::coarse::{
    cells_across, chunk_quads, chunk_trees, full_sky, ground_rows, is_fine, is_shore, with_ground,
    with_ground_row, with_trees,
};
use crate::render::face::{Quad, DIRECTION_COUNT};
use crate::render::lod::{
    lemma_same_cell, spec_mixed, surface_up_to, surfaces_of, with_fine, with_fine_row, Surfaces,
};
use crate::render::mesh::{
    agree_on, chunk_area, lemma_same_faces, meshes_depend_on_near_blocks, LIGHT_HALO,
};
use crate::world::column::{Y_MAX, Y_MIN};
use crate::world::generator::tree_rules;
use crate::world::heights::HeightTable;
use crate::world::skylight::{Area, Cells};
use crate::world::tree::{Placed, TreeDecorator, REACH};
use vstd::prelude::*;

verus! {

/// Whether surfaces agree on a rectangle of columns.
spec fn same_surfaces(a: Surfaces, b: Surfaces, area: Area) -> bool {
    forall|x: int, z: int| area.has(x, z) ==> #[trigger] a(x, z) == b(x, z)
}

proof fn lemma_same_surface(cells: Cells, others: Cells, x: int, z: int, y: int)
    requires
        forall|b: int| #[trigger] cells(x, b, z) == others(x, b, z),
    ensures
        surface_up_to(cells, x, z, y) == surface_up_to(others, x, z, y),
    decreases y + 1 - Y_MIN,
{
    if y >= Y_MIN {
        assert(cells(x, y, z) == others(x, y, z));
        lemma_same_surface(cells, others, x, z, y - 1);
    }
}

proof fn lemma_same_fine_row(
    had: Seq<Quad>,
    a: Surfaces,
    b: Surfaces,
    area: Area,
    x: int,
    z: int,
    n: nat,
)
    requires
        same_surfaces(a, b, area),
        n > 0 ==> area.has(x - 1, z - 1) && area.has(x + n, z + 1),
    ensures
        with_fine_row(had, a, x, z, n) == with_fine_row(had, b, x, z, n),
    decreases n,
{
    if n > 0 {
        lemma_same_fine_row(had, a, b, area, x, z, (n - 1) as nat);
        let c = x + n - 1;
        assert(a(c, z) == b(c, z));
        assert(a(c - 1, z) == b(c - 1, z));
        assert(a(c + 1, z) == b(c + 1, z));
        assert(a(c, z - 1) == b(c, z - 1));
        assert(a(c, z + 1) == b(c, z + 1));
        match a(c, z) {
            Some(surface) => {
                lemma_same_cell(
                    with_fine_row(had, a, x, z, (n - 1) as nat),
                    a,
                    b,
                    surface,
                    c,
                    z,
                    1,
                    false,
                );
            },
            None => {},
        }
    }
}

proof fn lemma_same_fine(
    had: Seq<Quad>,
    a: Surfaces,
    b: Surfaces,
    area: Area,
    x: int,
    z: int,
    step: int,
    n: nat,
)
    requires
        same_surfaces(a, b, area),
        step > 0,
        n > 0 ==> area.has(x - 1, z - 1) && area.has(x + step, z + n),
    ensures
        with_fine(had, a, x, z, step, n) == with_fine(had, b, x, z, step, n),
    decreases n,
{
    if n > 0 {
        lemma_same_fine(had, a, b, area, x, z, step, (n - 1) as nat);
        lemma_same_fine_row(
            with_fine(had, a, x, z, step, (n - 1) as nat),
            a,
            b,
            area,
            x,
            z + n - 1,
            step as nat,
        );
    }
}

proof fn lemma_same_shore(a: Surfaces, b: Surfaces, area: Area, x: int, z: int, step: int)
    requires
        same_surfaces(a, b, area.grown(step)),
        step > 0,
    ensures
        is_shore(a, area, x, z, step) == is_shore(b, area, x, z, step),
{
    if area.has(x, z) {
        assert(a(x, z) == b(x, z));
        assert(a(x + step, z) == b(x + step, z));
        assert(a(x, z + step) == b(x, z + step));
        assert(a(x + step, z + step) == b(x + step, z + step));
        assert(spec_mixed(a, x, z, step) == spec_mixed(b, x, z, step));
    }
}

proof fn lemma_same_ground(
    had: Seq<Quad>,
    a: Surfaces,
    b: Surfaces,
    area: Area,
    x: int,
    z: int,
    step: int,
)
    requires
        same_surfaces(a, b, area.grown(step)),
        step > 1,
        area.has(x, z),
    ensures
        with_ground(had, a, area, x, z, step) == with_ground(had, b, area, x, z, step),
{
    lemma_same_shore(a, b, area, x, z, step);
    lemma_same_shore(a, b, area, x - step, z, step);
    lemma_same_shore(a, b, area, x + step, z, step);
    lemma_same_shore(a, b, area, x, z - step, step);
    lemma_same_shore(a, b, area, x, z + step, step);
    assert(is_fine(a, area, x, z, step) == is_fine(b, area, x, z, step));
    assert(a(x, z) == b(x, z));
    assert(a(x + step, z) == b(x + step, z));
    assert(a(x, z + step) == b(x, z + step));
    assert(a(x - step, z) == b(x - step, z));
    assert(a(x, z - step) == b(x, z - step));
    match a(x, z) {
        Some(surface) => {
            lemma_same_fine(had, a, b, area.grown(step), x, z, step, step as nat);
            lemma_same_cell(
                had,
                a,
                b,
                surface,
                x,
                z,
                step,
                crate::render::coarse::at_border(area, x, z, step),
            );
        },
        None => {},
    }
}

proof fn lemma_same_ground_row(
    had: Seq<Quad>,
    a: Surfaces,
    b: Surfaces,
    area: Area,
    z: int,
    step: int,
    n: nat,
)
    requires
        same_surfaces(a, b, area.grown(step)),
        step > 1,
        n * step <= area.width(),
        area.min_z <= z <= area.max_z,
    ensures
        with_ground_row(had, a, area, z, step, n) == with_ground_row(had, b, area, z, step, n),
    decreases n,
{
    if n > 0 {
        assert((n - 1) * step + step == n * step) by (nonlinear_arith);
        assert(0 <= (n - 1) * step) by (nonlinear_arith)
            requires
                n >= 1,
                step > 0,
        ;
        lemma_same_ground_row(had, a, b, area, z, step, (n - 1) as nat);
        lemma_same_ground(
            with_ground_row(had, a, area, z, step, (n - 1) as nat),
            a,
            b,
            area,
            area.min_x + (n - 1) * step,
            z,
            step,
        );
    }
}

proof fn lemma_same_ground_rows(
    a: Surfaces,
    b: Surfaces,
    area: Area,
    step: int,
    across: nat,
    n: nat,
)
    requires
        same_surfaces(a, b, area.grown(step)),
        step > 1,
        across * step <= area.width(),
        n * step <= area.depth(),
    ensures
        ground_rows(a, area, step, across, n) == ground_rows(b, area, step, across, n),
    decreases n,
{
    if n > 0 {
        assert((n - 1) * step + step == n * step) by (nonlinear_arith);
        assert(0 <= (n - 1) * step) by (nonlinear_arith)
            requires
                n >= 1,
                step > 0,
        ;
        lemma_same_ground_rows(a, b, area, step, across, (n - 1) as nat);
        lemma_same_ground_row(
            ground_rows(a, area, step, across, (n - 1) as nat),
            a,
            b,
            area,
            area.min_z + (n - 1) * step,
            step,
            across,
        );
    }
}

proof fn lemma_same_trees(
    had: Seq<Quad>,
    cells: Cells,
    others: Cells,
    area: Area,
    list: Seq<Placed>,
    n: nat,
)
    requires
        agree_on(cells, full_sky(), others, full_sky(), area.grown(1)),
    ensures
        with_trees(had, cells, area, list, n) == with_trees(had, others, area, list, n),
    decreases n,
{
    if n > 0 {
        lemma_same_trees(had, cells, others, area, list, (n - 1) as nat);
        let (x, y, z, block) = list[n - 1];
        if area.has(x as int, z as int) {
            assert(area.grown(1).has(x as int, z as int));
            lemma_same_faces(
                with_trees(had, cells, area, list, (n - 1) as nat),
                cells,
                full_sky(),
                others,
                full_sky(),
                area,
                x as int,
                y as int,
                z as int,
                DIRECTION_COUNT as nat,
            );
        }
    }
}

/// The mesh of a chunk depends only on the blocks within the reach of light from it,
/// at every level of detail: a change farther away leaves it as it is.
pub proof fn chunk_meshes_depend_on_near_blocks(
    cells: Cells,
    others: Cells,
    seed: u64,
    ground: &HeightTable,
    key: ChunkKey,
    lod: LodLevel,
)
    requires
        forall|x: int, y: int, z: int|
            chunk_area(key).grown(LIGHT_HALO as int).has(x, z) ==> #[trigger] cells(x, y, z)
                == others(x, y, z),
    ensures
        chunk_quads(cells, seed, ground, key, lod) == chunk_quads(others, seed, ground, key, lod),
{
    reveal(chunk_quads);
    let area = chunk_area(key);
    let step = lod.spec_step() as int;
    if lod == LodLevel::Near {
        meshes_depend_on_near_blocks(cells, others, area);
    } else {
        let a = surfaces_of(cells);
        let b = surfaces_of(others);
        assert forall|x: int, z: int| area.grown(step).has(x, z) implies #[trigger] a(x, z) == b(
            x,
            z,
        ) by {
            assert(area.grown(LIGHT_HALO as int).has(x, z));
            assert forall|y: int| #[trigger] cells(x, y, z) == others(x, y, z) by {}
            lemma_same_surface(cells, others, x, z, Y_MAX as int);
        }
        let across = cells_across(step);
        assert(across * step == 32) by (nonlinear_arith)
            requires
                step == 2 && across == 16 || step == 4 && across == 8,
        ;
        lemma_same_ground_rows(a, b, area, step, across, across);
        let trees = chunk_trees(seed, ground, area);
        lemma_same_trees(
            ground_rows(a, area, step, across, across),
            cells,
            others,
            area,
            trees,
            trees.len(),
        );
    }
}

/// How far away heights matter to the mesh of a chunk: they shape the columns within
/// the reach of light.
pub const GROUND_REACH: i64 = 20;

/// Whether two tables agree on the heights of a rectangle of columns.
pub open spec fn same_heights(a: &HeightTable, b: &HeightTable, area: Area) -> bool {
    forall|x: i64, z: i64| area.has(x as int, z as int) ==> #[trigger] a.at(x, z) == b.at(x, z)
}

proof fn lemma_same_stands(
    rules: &TreeDecorator,
    a: &HeightTable,
    b: &HeightTable,
    x: i64,
    z: i64,
)
    requires
        same_heights(
            a,
            b,
            Area {
                min_x: x - REACH,
                max_x: x + REACH,
                min_z: z - REACH,
                max_z: z + REACH,
            },
        ),
    ensures
        rules.stands(a, x, z) == rules.stands(b, x, z),
        rules.tree_at(a, x, z) == rules.tree_at(b, x, z),
{
    assert(a.at(x, z) == b.at(x, z));
    assert forall|e: i64, f: i64|
        -REACH <= e - x <= REACH && -REACH <= f - z <= REACH implies #[trigger] rules.candidate(
        a,
        e,
        f,
    ) == rules.candidate(b, e, f) by {
        assert(a.at(e, f) == b.at(e, f));
    }
    if rules.stands(a, x, z) {
        assert forall|e: i64, f: i64|
            -REACH <= e - x <= REACH && -REACH <= f - z <= REACH && (e != x || f
                != z) implies !(#[trigger] rules.candidate(b, e, f) && rules.outranks(
            e,
            f,
            x,
            z,
        )) by {
            assert(rules.candidate(a, e, f) == rules.candidate(b, e, f));
        }
    }
    if rules.stands(b, x, z) {
        assert forall|e: i64, f: i64|
            -REACH <= e - x <= REACH && -REACH <= f - z <= REACH && (e != x || f
                != z) implies !(#[trigger] rules.candidate(a, e, f) && rules.outranks(
            e,
            f,
            x,
            z,
        )) by {
            assert(rules.candidate(a, e, f) == rules.candidate(b, e, f));
        }
    }
}

proof fn lemma_same_tree_row(
    rules: &TreeDecorator,
    a: &HeightTable,
    b: &HeightTable,
    area: Area,
    x1: int,
    z: int,
)
    requires
        same_heights(a, b, area.grown(REACH as int)),
        x1 <= area.max_x + 1,
        area.min_z <= z <= area.max_z,
        i64::MIN <= area.min_x,
        area.max_x <= i64::MAX,
        i64::MIN <= area.min_z,
        area.max_z <= i64::MAX,
    ensures
        rules.row(a, area.min_x, x1, z) == rules.row(b, area.min_x, x1, z),
    decreases x1 - area.min_x,
{
    if x1 > area.min_x {
        lemma_same_tree_row(rules, a, b, area, x1 - 1, z);
        lemma_same_stands(rules, a, b, (x1 - 1) as i64, z as i64);
    }
}

proof fn lemma_same_tree_rows(
    rules: &TreeDecorator,
    a: &HeightTable,
    b: &HeightTable,
    area: Area,
    z1: int,
)
    requires
        same_heights(a, b, area.grown(REACH as int)),
        z1 <= area.max_z + 1,
        i64::MIN <= area.min_x,
        area.max_x <= i64::MAX,
        i64::MIN <= area.min_z,
        area.max_z <= i64::MAX,
    ensures
        rules.forest(a, area.min_x, area.max_x + 1, area.min_z, z1) == rules.forest(
            b,
            area.min_x,
            area.max_x + 1,
            area.min_z,
            z1,
        ),
    decreases z1 - area.min_z,
{
    if z1 > area.min_z {
        lemma_same_tree_rows(rules, a, b, area, z1 - 1);
        lemma_same_tree_row(rules, a, b, area, area.max_x + 1, z1 - 1);
    }
}

/// The mesh of a chunk depends only on the blocks within the reach of light from it
/// and on the heights from which they and its trees grow.
pub proof fn chunk_meshes_depend_on_near_heights(
    cells: Cells,
    others: Cells,
    seed: u64,
    a: &HeightTable,
    b: &HeightTable,
    key: ChunkKey,
    lod: LodLevel,
)
    requires
        forall|x: int, y: int, z: int|
            chunk_area(key).grown(LIGHT_HALO as int).has(x, z) ==> #[trigger] cells(x, y, z)
                == others(x, y, z),
        same_heights(a, b, chunk_area(key).grown(GROUND_REACH as int)),
    ensures
        chunk_quads(cells, seed, a, key, lod) == chunk_quads(others, seed, b, key, lod),
{
    reveal(chunk_quads);
    let area = chunk_area(key);
    chunk_meshes_depend_on_near_blocks(cells, others, seed, b, key, lod);
    let wooded = Area {
        min_x: area.min_x - 2,
        max_x: area.max_x + 2,
        min_z: area.min_z - 2,
        max_z: area.max_z + 2,
    };
    lemma_same_tree_rows(&tree_rules(seed), a, b, wooded, wooded.max_z + 1);
    assert(chunk_trees(seed, a, area) == chunk_trees(seed, b, area));
}

} // verus!
