//! Sky light as a function of the blocks of a rectangle of columns.

use crate::world::block::{Block, LIGHT_MAX};
use crate::world::column::{Y_MAX, Y_MIN};
use crate::world::light::{
    brought, cell_x, cell_y, cell_z, gap, is_lit, lemma_cell, lemma_cell_of, lemma_path_below,
    sees_sky, sky_layer, sky_sources, touching,
};
use vstd::prelude::*;

verus! {

/// Layers of a column.
pub const HEIGHT: usize = 128;

/// The block at each position.
pub type Cells = spec_fn(int, int, int) -> Block;

/// A rectangle of columns, both ends included.
pub struct Area {
    pub min_x: int,
    pub max_x: int,
    pub min_z: int,
    pub max_z: int,
}

impl Area {
    /// Columns along x.
    pub open spec fn width(self) -> int {
        self.max_x - self.min_x + 1
    }

    /// Columns along z.
    pub open spec fn depth(self) -> int {
        self.max_z - self.min_z + 1
    }

    /// Whether a column belongs to the rectangle.
    pub open spec fn has(self, x: int, z: int) -> bool {
        self.min_x <= x <= self.max_x && self.min_z <= z <= self.max_z
    }

    /// The rectangle with a margin on each side.
    pub open spec fn grown(self, by: int) -> Area {
        Area {
            min_x: self.min_x - by,
            max_x: self.max_x + by,
            min_z: self.min_z - by,
            max_z: self.max_z + by,
        }
    }

    /// Size of the box over the rectangle: columns along x and z, and layers.
    pub open spec fn size(self) -> (int, int, int) {
        (self.width(), self.depth(), HEIGHT as int)
    }

    /// The index of a cell of the box.
    pub open spec fn index(self, x: int, y: int, z: int) -> int {
        ((z - self.min_z) * self.width() + (x - self.min_x)) * HEIGHT + (y - Y_MIN)
    }

    /// The blocks of the box.
    pub open spec fn blocks(self, cells: Cells) -> Seq<Block> {
        let size = self.size();
        Seq::new(
            (size.0 * size.1 * size.2) as nat,
            |i: int|
                cells(
                    self.min_x + cell_x(size.0, size.2, i),
                    Y_MIN + cell_y(size.2, i),
                    self.min_z + cell_z(size.0, size.2, i),
                ),
        )
    }
}

/// The highest level up to `bound` that any path brings to a cell.
pub open spec fn brightest(
    sources: Seq<u8>,
    blocks: Seq<Block>,
    size: (int, int, int),
    i: int,
    bound: nat,
) -> nat
    decreases bound,
{
    if bound == 0 || exists|steps: nat| #[trigger]
        brought(sources, blocks, size, i, bound as int, steps) {
        bound
    } else {
        brightest(sources, blocks, size, i, (bound - 1) as nat)
    }
}

/// The sky light at a position of a rectangle: what the sky above the rectangle
/// brings. Above and below the world all is bright.
pub open spec fn sky_level(cells: Cells, area: Area, x: int, y: int, z: int) -> u8 {
    if Y_MIN <= y <= Y_MAX {
        let blocks = area.blocks(cells);
        let sources = sky_sources(blocks, area.size(), HEIGHT - 1);
        brightest(sources, blocks, area.size(), area.index(x, y, z), LIGHT_MAX as nat) as u8
    } else {
        LIGHT_MAX
    }
}

proof fn lemma_brightest(
    sources: Seq<u8>,
    blocks: Seq<Block>,
    size: (int, int, int),
    i: int,
    bound: nat,
)
    ensures
        brightest(sources, blocks, size, i, bound) <= bound,
        forall|level: int, steps: nat|
            level <= bound && #[trigger] brought(sources, blocks, size, i, level, steps)
                ==> brightest(sources, blocks, size, i, bound) >= level,
        brightest(sources, blocks, size, i, bound) > 0 ==> exists|steps: nat| #[trigger]
            brought(
                sources,
                blocks,
                size,
                i,
                brightest(sources, blocks, size, i, bound) as int,
                steps,
            ),
    decreases bound,
{
    if bound > 0 {
        lemma_brightest(sources, blocks, size, i, (bound - 1) as nat);
    }
}

proof fn lemma_sky_sources(blocks: Seq<Block>, size: (int, int, int), max_top: int)
    ensures
        forall|k: int|
            0 <= k < sky_sources(blocks, size, max_top).len() ==> #[trigger] sky_sources(
                blocks,
                size,
                max_top,
            )[k] <= LIGHT_MAX,
{
}

/// The level of a cell in a box that is lit by the sky is the brightest that any
/// path brings.
pub proof fn sky_light_is_brightest(
    blocks: Seq<Block>,
    size: (int, int, int),
    max_top: int,
    light: Seq<u8>,
    i: int,
)
    requires
        is_lit(sky_sources(blocks, size, max_top), blocks, size, light),
        0 <= i < light.len(),
    ensures
        light[i] == brightest(
            sky_sources(blocks, size, max_top),
            blocks,
            size,
            i,
            LIGHT_MAX as nat,
        ),
{
    let sources = sky_sources(blocks, size, max_top);
    lemma_brightest(sources, blocks, size, i, LIGHT_MAX as nat);
    let best = brightest(sources, blocks, size, i, LIGHT_MAX as nat);
    if light[i] > 0 {
        let steps = choose|steps: nat| #[trigger]
            brought(sources, blocks, size, i, light[i] as int, steps);
        lemma_sky_sources(blocks, size, max_top);
        lemma_path_below(sources, blocks, size, LIGHT_MAX, i, light[i] as int, steps);
    }
    if best > 0 {
        let steps = choose|steps: nat| #[trigger]
            brought(sources, blocks, size, i, best as int, steps);
    }
}

/// What a path under the ceiling brings, it brings in the whole box.
proof fn lemma_low_path(
    blocks: Seq<Block>,
    size: (int, int, int),
    max_top: int,
    i: int,
    level: int,
    steps: nat,
)
    requires
        size.0 >= 0,
        size.1 >= 0,
        size.2 > 0,
        blocks.len() == size.0 * size.1 * size.2,
        0 <= max_top,
        bare_above(blocks, size, max_top),
        brought(sky_sources(blocks, size, max_top), blocks, size, i, level, steps),
    ensures
        brought(sky_sources(blocks, size, size.2 - 1), blocks, size, i, level, steps),
    decreases steps,
{
    let low = sky_sources(blocks, size, max_top);
    if steps == 0 {
        lemma_sky_above(blocks, size, max_top, i);
    } else {
        let next = level + blocks[i].spec_attenuation();
        let j = choose|j: int| #[trigger]
            touching(size.0, size.1, size.2, j, i) && brought(
                low,
                blocks,
                size,
                j,
                next,
                (steps - 1) as nat,
            );
        lemma_low_path(blocks, size, max_top, j, next, (steps - 1) as nat);
    }
}

/// Whether all cells above a layer are air.
pub open spec fn bare_above(blocks: Seq<Block>, size: (int, int, int), max_top: int) -> bool {
    forall|i: int|
        0 <= i < blocks.len() && cell_y(size.2, i) > max_top ==> #[trigger] blocks[i]
            == Block::Air
}

/// A cell that sees the sky up to the ceiling sees it to the top of the box.
proof fn lemma_sky_above(blocks: Seq<Block>, size: (int, int, int), max_top: int, i: int)
    requires
        size.0 >= 0,
        size.1 >= 0,
        size.2 > 0,
        blocks.len() == size.0 * size.1 * size.2,
        0 <= max_top,
        bare_above(blocks, size, max_top),
        0 <= i < blocks.len(),
        cell_y(size.2, i) <= sky_layer(size.2, max_top),
    ensures
        sees_sky(blocks, size.2, sky_layer(size.2, max_top), i) == sees_sky(
            blocks,
            size.2,
            size.2 - 1,
            i,
        ),
{
    let h = size.2;
    let low = sky_layer(h, max_top);
    lemma_cell(size, i);
    let y = cell_y(h, i);
    let base = i - y;
    if sees_sky(blocks, h, low, i) {
        assert forall|k: int| y <= k <= h - 1 implies #[trigger] blocks[i - y + k]
            == Block::Air by {
            if k > low {
                let x = cell_x(size.0, h, i);
                let z = cell_z(size.0, h, i);
                lemma_cell_of(size, x, k, z);
                assert(i - y + k == (z * size.0 + x) * h + k);
            }
        }
    }
    if sees_sky(blocks, h, h - 1, i) {
        assert forall|k: int| y <= k <= low implies #[trigger] blocks[i - y + k]
            == Block::Air by {}
    }
}

/// A path through the whole box brings to a cell under the ceiling no more than the
/// light there.
proof fn lemma_high_path(
    blocks: Seq<Block>,
    size: (int, int, int),
    max_top: int,
    light: Seq<u8>,
    i: int,
    level: int,
    steps: nat,
)
    requires
        size.0 >= 0,
        size.1 >= 0,
        size.2 > 0,
        blocks.len() == size.0 * size.1 * size.2,
        0 <= max_top,
        bare_above(blocks, size, max_top),
        is_lit(sky_sources(blocks, size, max_top), blocks, size, light),
        brought(sky_sources(blocks, size, size.2 - 1), blocks, size, i, level, steps),
        cell_y(size.2, i) <= sky_layer(size.2, max_top),
    ensures
        light[i] >= level,
    decreases steps,
{
    let high = sky_sources(blocks, size, size.2 - 1);
    let low = sky_sources(blocks, size, max_top);
    lemma_cell(size, i);
    if steps == 0 {
        lemma_sky_above(blocks, size, max_top, i);
        assert(brought(low, blocks, size, i, level, 0));
    } else {
        let next = level + blocks[i].spec_attenuation();
        let j = choose|j: int| #[trigger]
            touching(size.0, size.1, size.2, j, i) && brought(
                high,
                blocks,
                size,
                j,
                next,
                (steps - 1) as nat,
            );
        lemma_cell(size, j);
        if cell_y(size.2, j) <= sky_layer(size.2, max_top) {
            lemma_high_path(blocks, size, max_top, light, j, next, (steps - 1) as nat);
            let had = choose|had: nat| #[trigger]
                brought(low, blocks, size, j, light[j] as int, had);
            if light[j] > next {
                assert(brought(
                    low,
                    blocks,
                    size,
                    i,
                    light[j] - blocks[i].spec_attenuation(),
                    had + 1,
                ));
            } else {
                assert(brought(low, blocks, size, i, level, had + 1));
            }
        } else {
            let y = cell_y(size.2, i);
            assert(y == max_top + 1);
            assert(blocks[i] == Block::Air);
            assert(sees_sky(blocks, size.2, y, i));
            assert(low[i] == LIGHT_MAX);
            assert(brought(low, blocks, size, i, LIGHT_MAX as int, 0));
            lemma_sky_sources(blocks, size, size.2 - 1);
            lemma_path_below(high, blocks, size, LIGHT_MAX, i, level, steps);
        }
    }
}

/// Light that is filled in below a ceiling over the highest block is the light of
/// the whole box, and above that ceiling all cells are fully lit.
pub proof fn ceiling_changes_no_light(
    blocks: Seq<Block>,
    size: (int, int, int),
    max_top: int,
    light: Seq<u8>,
    i: int,
)
    requires
        size.0 >= 0,
        size.1 >= 0,
        size.2 > 0,
        blocks.len() == size.0 * size.1 * size.2,
        0 <= max_top,
        bare_above(blocks, size, max_top),
        is_lit(sky_sources(blocks, size, max_top), blocks, size, light),
        0 <= i < blocks.len(),
    ensures
        cell_y(size.2, i) <= sky_layer(size.2, max_top) ==> light[i] == brightest(
            sky_sources(blocks, size, size.2 - 1),
            blocks,
            size,
            i,
            LIGHT_MAX as nat,
        ),
        cell_y(size.2, i) > sky_layer(size.2, max_top) ==> brightest(
            sky_sources(blocks, size, size.2 - 1),
            blocks,
            size,
            i,
            LIGHT_MAX as nat,
        ) == LIGHT_MAX,
{
    let high = sky_sources(blocks, size, size.2 - 1);
    let low = sky_sources(blocks, size, max_top);
    let y = cell_y(size.2, i);
    lemma_cell(size, i);
    lemma_brightest(high, blocks, size, i, LIGHT_MAX as nat);
    let best = brightest(high, blocks, size, i, LIGHT_MAX as nat);
    if y <= sky_layer(size.2, max_top) {
        if light[i] > 0 {
            let steps = choose|steps: nat| #[trigger]
                brought(low, blocks, size, i, light[i] as int, steps);
            lemma_low_path(blocks, size, max_top, i, light[i] as int, steps);
            lemma_sky_sources(blocks, size, max_top);
            lemma_path_below(low, blocks, size, LIGHT_MAX, i, light[i] as int, steps);
        }
        if best > 0 {
            let steps = choose|steps: nat| #[trigger]
                brought(high, blocks, size, i, best as int, steps);
            lemma_high_path(blocks, size, max_top, light, i, best as int, steps);
        }
    } else {
        assert forall|k: int| y <= k <= size.2 - 1 implies #[trigger] blocks[i - y + k]
            == Block::Air by {
            let x = cell_x(size.0, size.2, i);
            let z = cell_z(size.0, size.2, i);
            lemma_cell_of(size, x, k, z);
            assert(i - y + k == (z * size.0 + x) * size.2 + k);
        }
        assert(sees_sky(blocks, size.2, size.2 - 1, i));
        assert(brought(high, blocks, size, i, LIGHT_MAX as int, 0));
    }
}

/// A path in one rectangle is a path in another that holds all columns near its end.
proof fn lemma_path_elsewhere(
    cells: Cells,
    a: Area,
    b: Area,
    x: int,
    y: int,
    z: int,
    level: int,
    steps: nat,
)
    requires
        a.has(x, z),
        Y_MIN <= y <= Y_MAX,
        level > 0,
        b.grown(level - LIGHT_MAX).has(x, z),
        brought(
            sky_sources(a.blocks(cells), a.size(), HEIGHT - 1),
            a.blocks(cells),
            a.size(),
            a.index(x, y, z),
            level,
            steps,
        ),
    ensures
        brought(
            sky_sources(b.blocks(cells), b.size(), HEIGHT - 1),
            b.blocks(cells),
            b.size(),
            b.index(x, y, z),
            level,
            steps,
        ),
    decreases steps,
{
    let in_a = sky_sources(a.blocks(cells), a.size(), HEIGHT - 1);
    let in_b = sky_sources(b.blocks(cells), b.size(), HEIGHT - 1);
    let i = a.index(x, y, z);
    let k = b.index(x, y, z);
    lemma_sky_sources(a.blocks(cells), a.size(), HEIGHT - 1);
    lemma_path_below(in_a, a.blocks(cells), a.size(), LIGHT_MAX, i, level, steps);
    lemma_place(cells, a, x, y, z);
    lemma_place(cells, b, x, y, z);
    if steps == 0 {
        assert(sees_sky(a.blocks(cells), HEIGHT as int, HEIGHT - 1, i));
        assert forall|n: int| y - Y_MIN <= n <= HEIGHT - 1 implies #[trigger] b.blocks(cells)[k - (y
            - Y_MIN) + n] == Block::Air by {
            lemma_place(cells, a, x, n + Y_MIN, z);
            lemma_place(cells, b, x, n + Y_MIN, z);
            assert(a.blocks(cells)[i - (y - Y_MIN) + n] == Block::Air);
        }
        assert(sees_sky(b.blocks(cells), HEIGHT as int, HEIGHT - 1, k));
    } else {
        let next = level + a.blocks(cells)[i].spec_attenuation();
        let j = choose|j: int| #[trigger]
            touching(a.size().0, a.size().1, a.size().2, j, i) && brought(
                in_a,
                a.blocks(cells),
                a.size(),
                j,
                next,
                (steps - 1) as nat,
            );
        lemma_path_below(in_a, a.blocks(cells), a.size(), LIGHT_MAX, j, next, (steps - 1) as nat);
        lemma_cell(a.size(), j);
        let jx = a.min_x + cell_x(a.size().0, a.size().2, j);
        let jy = Y_MIN + cell_y(a.size().2, j);
        let jz = a.min_z + cell_z(a.size().0, a.size().2, j);
        assert(j == a.index(jx, jy, jz));
        lemma_path_elsewhere(cells, a, b, jx, jy, jz, next, (steps - 1) as nat);
        lemma_place(cells, b, jx, jy, jz);
        assert(touching(b.size().0, b.size().1, b.size().2, b.index(jx, jy, jz), k));
    }
}

/// Where the cell of a position lies in the box over a rectangle.
pub proof fn lemma_place(cells: Cells, a: Area, x: int, y: int, z: int)
    requires
        a.has(x, z),
        Y_MIN <= y <= Y_MAX,
    ensures
        ({
            let i = a.index(x, y, z);
            &&& 0 <= i < a.blocks(cells).len()
            &&& a.blocks(cells).len() == a.size().0 * a.size().1 * a.size().2
            &&& a.blocks(cells)[i] == cells(x, y, z)
            &&& cell_x(a.size().0, a.size().2, i) == x - a.min_x
            &&& cell_y(a.size().2, i) == y - Y_MIN
            &&& cell_z(a.size().0, a.size().2, i) == z - a.min_z
        }),
{
    lemma_cell_of(a.size(), x - a.min_x, y - Y_MIN, z - a.min_z);
}

/// The sky light of a column is the same in every rectangle that holds all columns
/// within the reach of light: meshes of neighbouring regions agree on it.
pub proof fn regions_agree_on_light(cells: Cells, a: Area, b: Area, x: int, y: int, z: int)
    requires
        a.grown(1 - LIGHT_MAX).has(x, z),
        b.grown(1 - LIGHT_MAX).has(x, z),
    ensures
        sky_level(cells, a, x, y, z) == sky_level(cells, b, x, y, z),
{
    if Y_MIN <= y <= Y_MAX {
        lemma_no_brighter(cells, a, b, x, y, z);
        lemma_no_brighter(cells, b, a, x, y, z);
    }
}

proof fn lemma_no_brighter(cells: Cells, a: Area, b: Area, x: int, y: int, z: int)
    requires
        a.grown(1 - LIGHT_MAX).has(x, z),
        b.grown(1 - LIGHT_MAX).has(x, z),
        Y_MIN <= y <= Y_MAX,
    ensures
        sky_level(cells, a, x, y, z) <= sky_level(cells, b, x, y, z),
{
    let in_a = sky_sources(a.blocks(cells), a.size(), HEIGHT - 1);
    let in_b = sky_sources(b.blocks(cells), b.size(), HEIGHT - 1);
    let i = a.index(x, y, z);
    let k = b.index(x, y, z);
    lemma_brightest(in_a, a.blocks(cells), a.size(), i, LIGHT_MAX as nat);
    lemma_brightest(in_b, b.blocks(cells), b.size(), k, LIGHT_MAX as nat);
    let level = brightest(in_a, a.blocks(cells), a.size(), i, LIGHT_MAX as nat);
    if level > 0 {
        let steps = choose|steps: nat| #[trigger]
            brought(in_a, a.blocks(cells), a.size(), i, level as int, steps);
        lemma_path_elsewhere(cells, a, b, x, y, z, level as int, steps);
    }
}

/// Sky light depends on the blocks of the rectangle only.
pub proof fn light_depends_on_its_area(
    cells: Cells,
    others: Cells,
    area: Area,
    x: int,
    y: int,
    z: int,
)
    requires
        forall|a: int, b: int, c: int|
            area.has(a, c) && Y_MIN <= b <= Y_MAX ==> #[trigger] cells(a, b, c) == others(
                a,
                b,
                c,
            ),
        area.has(x, z),
    ensures
        sky_level(cells, area, x, y, z) == sky_level(others, area, x, y, z),
{
    assert forall|i: int| 0 <= i < area.blocks(cells).len() implies area.blocks(cells)[i]
        == area.blocks(others)[i] by {
        lemma_cell(area.size(), i);
    }
    assert(area.blocks(cells) =~= area.blocks(others));
}

/// Open air has full light: where nothing but air is above, as far as the layers go and
/// beyond them.
pub proof fn open_air_is_bright(cells: Cells, area: Area, x: int, y: int, z: int)
    requires
        area.has(x, z),
        forall|k: int| y <= k <= Y_MAX ==> #[trigger] cells(x, k, z) == Block::Air,
        y >= Y_MIN,
    ensures
        sky_level(cells, area, x, y, z) == LIGHT_MAX,
{
    if y <= Y_MAX {
        let blocks = area.blocks(cells);
        let sources = sky_sources(blocks, area.size(), HEIGHT - 1);
        let i = area.index(x, y, z);
        lemma_place(cells, area, x, y, z);
        assert(sees_sky(blocks, HEIGHT as int, HEIGHT - 1, i)) by {
            assert forall|k: int| y - Y_MIN <= k <= HEIGHT - 1 implies #[trigger] blocks[i - (y
                - Y_MIN) + k] == Block::Air by {
                lemma_place(cells, area, x, k + Y_MIN, z);
                assert(area.index(x, k + Y_MIN, z) == i - (y - Y_MIN) + k);
            }
        }
        assert(brought(sources, blocks, area.size(), i, LIGHT_MAX as int, 0));
        lemma_brightest(sources, blocks, area.size(), i, LIGHT_MAX as nat);
    }
}

/// Sky light passes from each cell to the six around it: into air and glass it comes one
/// level weaker, into water and leaves two. All other blocks are dark.
pub proof fn sky_light_passes_to_all_sides(
    cells: Cells,
    area: Area,
    from: (int, int, int),
    to: (int, int, int),
)
    requires
        area.has(from.0, from.2),
        area.has(to.0, to.2),
        Y_MIN <= from.1 <= Y_MAX,
        Y_MIN <= to.1 <= Y_MAX,
        gap(from.0, to.0) + gap(from.1, to.1) + gap(from.2, to.2) == 1,
    ensures
        ({
            let here = sky_level(cells, area, from.0, from.1, from.2);
            let there = sky_level(cells, area, to.0, to.1, to.2);
            let block = cells(to.0, to.1, to.2);
            &&& here <= LIGHT_MAX && there <= LIGHT_MAX
            &&& block == Block::Air || block == Block::Glass ==> there >= here - 1
            &&& block == Block::Water || block == Block::OakLeaves ==> there >= here - 2
            &&& block != Block::Air && block != Block::Glass && block != Block::Water && block
                != Block::OakLeaves ==> there == 0
        }),
{
    let blocks = area.blocks(cells);
    let size = area.size();
    let sources = sky_sources(blocks, size, HEIGHT - 1);
    let i = area.index(from.0, from.1, from.2);
    let j = area.index(to.0, to.1, to.2);
    lemma_place(cells, area, from.0, from.1, from.2);
    lemma_place(cells, area, to.0, to.1, to.2);
    lemma_brightest(sources, blocks, size, i, LIGHT_MAX as nat);
    lemma_brightest(sources, blocks, size, j, LIGHT_MAX as nat);
    let here = brightest(sources, blocks, size, i, LIGHT_MAX as nat);
    let there = brightest(sources, blocks, size, j, LIGHT_MAX as nat);
    let block = cells(to.0, to.1, to.2);
    if !block.spec_opaque() && here > block.spec_attenuation() {
        let steps = choose|steps: nat| #[trigger]
            brought(sources, blocks, size, i, here as int, steps);
        assert(touching(size.0, size.1, size.2, i, j));
        assert(brought(sources, blocks, size, j, here - block.spec_attenuation(), steps + 1));
    }
    if block.spec_opaque() && there > 0 {
        let steps = choose|steps: nat| #[trigger]
            brought(sources, blocks, size, j, there as int, steps);
        assert(steps == 0);
        let y = cell_y(HEIGHT as int, j);
        assert(blocks[j - y + y] == Block::Air);
    }
}

/// All sky light comes from the sky: a cell that is lit has nothing but air above it, or one
/// of the six around it has as much more light as the cell takes away.
pub proof fn sky_light_comes_from_beside(cells: Cells, area: Area, x: int, y: int, z: int)
    requires
        area.has(x, z),
        Y_MIN <= y <= Y_MAX,
        sky_level(cells, area, x, y, z) > 0,
    ensures
        (forall|k: int| y <= k <= Y_MAX ==> #[trigger] cells(x, k, z) == Block::Air) || exists|
            a: int,
            b: int,
            c: int,
        |
            {
                &&& area.has(a, c) && Y_MIN <= b <= Y_MAX
                &&& gap(a, x) + gap(b, y) + gap(c, z) == 1
                &&& #[trigger] sky_level(cells, area, a, b, c) == sky_level(cells, area, x, y, z)
                    + (if cells(x, y, z) == Block::Water || cells(x, y, z) == Block::OakLeaves {
                    2int
                } else {
                    1int
                })
            },
{
    let blocks = area.blocks(cells);
    let size = area.size();
    let sources = sky_sources(blocks, size, HEIGHT - 1);
    let i = area.index(x, y, z);
    lemma_place(cells, area, x, y, z);
    lemma_brightest(sources, blocks, size, i, LIGHT_MAX as nat);
    let level = brightest(sources, blocks, size, i, LIGHT_MAX as nat) as int;
    let steps = choose|steps: nat| #[trigger] brought(sources, blocks, size, i, level, steps);
    if steps == 0 {
        assert forall|k: int| y <= k <= Y_MAX implies #[trigger] cells(x, k, z) == Block::Air by {
            lemma_place(cells, area, x, k, z);
            assert(area.index(x, k, z) == i - (y - Y_MIN) + (k - Y_MIN));
            assert(blocks[i - (y - Y_MIN) + (k - Y_MIN)] == Block::Air);
        }
    } else {
        let more = level + blocks[i].spec_attenuation();
        let j = choose|j: int| #[trigger]
            touching(size.0, size.1, size.2, j, i) && brought(
                sources,
                blocks,
                size,
                j,
                more,
                (steps - 1) as nat,
            );
        lemma_cell(size, j);
        let a = area.min_x + cell_x(size.0, size.2, j);
        let b = Y_MIN + cell_y(size.2, j);
        let c = area.min_z + cell_z(size.0, size.2, j);
        assert(area.index(a, b, c) == j);
        lemma_sky_sources(blocks, size, HEIGHT - 1);
        lemma_path_below(sources, blocks, size, LIGHT_MAX, j, more, (steps - 1) as nat);
        lemma_brightest(sources, blocks, size, j, LIGHT_MAX as nat);
        let there = brightest(sources, blocks, size, j, LIGHT_MAX as nat) as int;
        assert(there >= more);
        if there > more {
            let far = choose|far: nat| #[trigger]
                brought(sources, blocks, size, j, there, far);
            let brighter = there - blocks[i].spec_attenuation();
            assert(brought(sources, blocks, size, i, brighter, far + 1));
        }
        assert(sky_level(cells, area, a, b, c) == more);
    }
}

} // verus!
