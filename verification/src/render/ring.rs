//! The coarse cells of a ring around a centre.

use crate::render::chunk::floor_div;
use vstd::arithmetic::div_mod::{lemma_fundamental_div_mod, lemma_fundamental_div_mod_converse};
use vstd::prelude::*;

verus! {

/// A cell: its corner and its edge length.
pub type RingCell = (i64, i64, i64);

/// Whether a cell lies on the grid of its step, and some of it may be within a radius.
pub open spec fn on_axis(v: int, center: int, radius: int, step: int) -> bool {
    v % step == 0 && center - radius - step < v <= center + radius
}

/// Whether a cell has no part in the inner square.
pub open spec fn is_outside(
    x: int,
    z: int,
    center: (i64, i64),
    inner_radius: int,
    step: int,
) -> bool {
    ||| x + step - 1 < center.0 - inner_radius
    ||| x > center.0 + inner_radius
    ||| z + step - 1 < center.1 - inner_radius
    ||| z > center.1 + inner_radius
}

/// Whether a cell belongs to a ring.
pub open spec fn in_ring(
    cell: RingCell,
    center: (i64, i64),
    radius: int,
    inner_radius: int,
    step: int,
) -> bool {
    &&& cell.2 == step
    &&& on_axis(cell.0 as int, center.0 as int, radius, step)
    &&& on_axis(cell.1 as int, center.1 as int, radius, step)
    &&& is_outside(cell.0 as int, cell.1 as int, center, inner_radius, step)
}

/// The order of cells: row by row.
pub open spec fn cell_before(a: RingCell, b: RingCell) -> bool {
    a.1 < b.1 || (a.1 == b.1 && a.0 < b.0)
}

/// Whether a cell comes before a place in the order.
spec fn is_passed(cell: RingCell, x: int, z: int) -> bool {
    cell.1 < z || (cell.1 == z && cell.0 < x)
}

spec fn so_far(
    cells: Seq<RingCell>,
    center: (i64, i64),
    radius: int,
    inner_radius: int,
    step: int,
    x: int,
    z: int,
) -> bool {
    &&& forall|cell: RingCell| #[trigger]
        cells.contains(cell) <==> in_ring(cell, center, radius, inner_radius, step) && is_passed(
            cell,
            x,
            z,
        )
    &&& forall|i: int, j: int|
        0 <= i < j < cells.len() ==> cell_before(#[trigger] cells[i], #[trigger] cells[j])
}

/// The next multiple of a step is one step away.
proof fn lemma_next_multiple(v: int, w: int, step: int)
    requires
        step > 0,
        v % step == 0,
    ensures
        (v + step) % step == 0,
        v < w < v + step ==> w % step != 0,
        v - step < w < v ==> w % step != 0,
{
    lemma_fundamental_div_mod(v, step);
    let q = v / step;
    assert(v + step == (q + 1) * step) by (nonlinear_arith)
        requires
            v == step * q,
    ;
    lemma_fundamental_div_mod_converse(v + step, step, q + 1, 0);
    if v < w < v + step {
        assert(w == q * step + (w - v)) by (nonlinear_arith)
            requires
                v == step * q,
        ;
        lemma_fundamental_div_mod_converse(w, step, q, w - v);
    }
    if v - step < w < v {
        assert(w == (q - 1) * step + (w - v + step)) by (nonlinear_arith)
            requires
                v == step * q,
        ;
        lemma_fundamental_div_mod_converse(w, step, q - 1, w - v + step);
    }
}

/// The first multiple of a step on an axis.
fn first_cell(low: i64, step: i64) -> (r: i64)
    requires
        step > 0,
        i64::MIN + step <= low,
    ensures
        r as int % step as int == 0,
        low - step < r <= low,
{
    let q: i64 = floor_div(low, step);
    assert(q * step <= low && low < q * step + step);
    proof {
        lemma_fundamental_div_mod_converse(q * step, step as int, q as int, 0);
    }
    q * step
}

fn push_cell(
    cells: &mut Vec<RingCell>,
    center: (i64, i64),
    inner_radius: i64,
    step: i64,
    x: i64,
    z: i64,
    Ghost(radius): Ghost<int>,
)
    requires
        step > 0,
        x + step <= i64::MAX,
        z + step <= i64::MAX,
        i64::MIN <= center.0 - inner_radius <= i64::MAX,
        i64::MIN <= center.1 - inner_radius <= i64::MAX,
        i64::MIN <= center.0 + inner_radius <= i64::MAX,
        i64::MIN <= center.1 + inner_radius <= i64::MAX,
        on_axis(x as int, center.0 as int, radius, step as int),
        on_axis(z as int, center.1 as int, radius, step as int),
        so_far(
            old(cells)@,
            center,
            radius,
            inner_radius as int,
            step as int,
            x as int,
            z as int,
        ),
    ensures
        so_far(
            final(cells)@,
            center,
            radius,
            inner_radius as int,
            step as int,
            x + step,
            z as int,
        ),
{
    let cell_max_x: i64 = x + step - 1;
    let cell_max_z: i64 = z + step - 1;
    let outside_inner = cell_max_x < center.0 - inner_radius || x > center.0 + inner_radius
        || cell_max_z < center.1 - inner_radius || z > center.1 + inner_radius;
    let ghost had = cells@;
    let ghost here: RingCell = (x, z, step);
    if outside_inner {
        cells.push((x, z, step));
    }
    proof {
        assert forall|cell: RingCell| #[trigger]
            cells@.contains(cell) <==> in_ring(
                cell,
                center,
                radius,
                inner_radius as int,
                step as int,
            ) && is_passed(cell, x + step, z as int) by {
            assert(had.contains(cell) <==> in_ring(
                cell,
                center,
                radius,
                inner_radius as int,
                step as int,
            ) && is_passed(cell, x as int, z as int));
            lemma_next_multiple(x as int, cell.0 as int, step as int);
            if outside_inner {
                assert(cells@[had.len() as int] == here);
                if had.contains(cell) {
                    let k = choose|k: int| 0 <= k < had.len() && had[k] == cell;
                    assert(cells@[k] == cell);
                }
                if cells@.contains(cell) {
                    let k = choose|k: int| 0 <= k < cells@.len() && cells@[k] == cell;
                    if k < had.len() {
                        assert(had[k] == cell);
                    }
                }
            }
        }
        assert forall|i: int, j: int| 0 <= i < j < cells@.len() implies cell_before(
            #[trigger] cells@[i],
            #[trigger] cells@[j],
        ) by {
            if j == had.len() {
                assert(had.contains(had[i]));
            } else {
                assert(cell_before(had[i], had[j]));
            }
        }
    }
}

fn push_row(
    cells: &mut Vec<RingCell>,
    center: (i64, i64),
    radius: i64,
    inner_radius: i64,
    step: i64,
    start_x: i64,
    z: i64,
)
    requires
        step > 0,
        i64::MIN + step <= center.0 - radius <= i64::MAX,
        i64::MIN <= center.0 + radius <= i64::MAX - step,
        i64::MIN <= center.1 + radius <= i64::MAX - step,
        i64::MIN <= center.0 - inner_radius <= i64::MAX,
        i64::MIN <= center.1 - inner_radius <= i64::MAX,
        i64::MIN <= center.0 + inner_radius <= i64::MAX,
        i64::MIN <= center.1 + inner_radius <= i64::MAX,
        start_x as int % step as int == 0,
        center.0 - radius - step < start_x <= center.0 - radius,
        on_axis(z as int, center.1 as int, radius as int, step as int),
        so_far(
            old(cells)@,
            center,
            radius as int,
            inner_radius as int,
            step as int,
            start_x as int,
            z as int,
        ),
    ensures
        so_far(
            final(cells)@,
            center,
            radius as int,
            inner_radius as int,
            step as int,
            start_x as int,
            z + step,
        ),
{
    let max_x: i64 = center.0 + radius;
    let mut x: i64 = start_x;
    while x <= max_x
        invariant
            step > 0,
                    max_x == center.0 + radius,
            max_x <= i64::MAX - step,
            i64::MIN <= center.1 + radius <= i64::MAX - step,
            i64::MIN <= center.0 - inner_radius <= i64::MAX,
            i64::MIN <= center.1 - inner_radius <= i64::MAX,
            i64::MIN <= center.0 + inner_radius <= i64::MAX,
            i64::MIN <= center.1 + inner_radius <= i64::MAX,
            x as int % step as int == 0,
            center.0 - radius - step < x,
            x <= max_x + step || x == start_x,
            on_axis(z as int, center.1 as int, radius as int, step as int),
            so_far(
                cells@,
                center,
                radius as int,
                inner_radius as int,
                step as int,
                x as int,
                z as int,
            ),
        decreases max_x + step - x,
    {
        push_cell(cells, center, inner_radius, step, x, z, Ghost(radius as int));
        proof {
            lemma_next_multiple(x as int, x as int, step as int);
        }
        x += step;
    }
    proof {
        assert forall|cell: RingCell| #[trigger]
            cells@.contains(cell) <==> in_ring(
                cell,
                center,
                radius as int,
                inner_radius as int,
                step as int,
            ) && is_passed(cell, start_x as int, z + step) by {
            lemma_next_multiple(z as int, cell.1 as int, step as int);
            lemma_next_multiple(start_x as int, cell.0 as int, step as int);
        }
    }
}

/// Whether cells are those of a ring, row by row.
pub open spec fn is_ring(
    cells: Seq<RingCell>,
    center: (i64, i64),
    radius: int,
    inner_radius: int,
    step: int,
) -> bool {
    &&& forall|cell: RingCell| #[trigger]
        cells.contains(cell) <==> in_ring(cell, center, radius, inner_radius, step)
    &&& forall|i: int, j: int|
        0 <= i < j < cells.len() ==> cell_before(#[trigger] cells[i], #[trigger] cells[j])
}

/// The coarse cells of a ring: those of a square around a centre without those that
/// have a part in an inner square, row by row.
pub fn lod_ring_cells(center: (i64, i64), radius: i64, inner_radius: i64, step: i64) -> (r: Vec<
    RingCell,
>)
    requires
        step > 0,
        i64::MIN + step <= center.0 - radius <= i64::MAX,
        i64::MIN + step <= center.1 - radius <= i64::MAX,
        i64::MIN <= center.0 + radius <= i64::MAX - step,
        i64::MIN <= center.1 + radius <= i64::MAX - step,
        i64::MIN <= center.0 - inner_radius <= i64::MAX,
        i64::MIN <= center.1 - inner_radius <= i64::MAX,
        i64::MIN <= center.0 + inner_radius <= i64::MAX,
        i64::MIN <= center.1 + inner_radius <= i64::MAX,
    ensures
        is_ring(r@, center, radius as int, inner_radius as int, step as int),
{
    let start_x: i64 = first_cell(center.0 - radius, step);
    let start_z: i64 = first_cell(center.1 - radius, step);
    let max_z: i64 = center.1 + radius;
    let mut cells: Vec<RingCell> = Vec::new();
    let mut z: i64 = start_z;
    proof {
        assert forall|cell: RingCell| !(in_ring(
            cell,
            center,
            radius as int,
            inner_radius as int,
            step as int,
        ) && #[trigger] is_passed(cell, start_x as int, start_z as int)) by {
            lemma_next_multiple(start_x as int, cell.0 as int, step as int);
            lemma_next_multiple(start_z as int, cell.1 as int, step as int);
        }
    }
    while z <= max_z
        invariant
            step > 0,
                    max_z == center.1 + radius,
            i64::MIN + step <= center.0 - radius <= i64::MAX,
            i64::MIN <= center.0 + radius <= i64::MAX - step,
            i64::MIN <= center.1 + radius <= i64::MAX - step,
            i64::MIN <= center.0 - inner_radius <= i64::MAX,
            i64::MIN <= center.1 - inner_radius <= i64::MAX,
            i64::MIN <= center.0 + inner_radius <= i64::MAX,
            i64::MIN <= center.1 + inner_radius <= i64::MAX,
            start_x as int % step as int == 0,
            center.0 - radius - step < start_x <= center.0 - radius,
            z as int % step as int == 0,
            center.1 - radius - step < z,
            z <= max_z + step || z == start_z,
            so_far(
                cells@,
                center,
                radius as int,
                inner_radius as int,
                step as int,
                start_x as int,
                z as int,
            ),
        decreases max_z + step - z,
    {
        push_row(&mut cells, center, radius, inner_radius, step, start_x, z);
        proof {
            lemma_next_multiple(z as int, z as int, step as int);
        }
        z += step;
    }
    proof {
        assert forall|cell: RingCell| #[trigger]
            cells@.contains(cell) <==> in_ring(
                cell,
                center,
                radius as int,
                inner_radius as int,
                step as int,
            ) by {
            assert(in_ring(cell, center, radius as int, inner_radius as int, step as int)
                ==> is_passed(cell, start_x as int, z as int));
        }
    }
    cells
}

/// A ring covers what is around its middle: the cell of a column within the radius belongs
/// to it exactly if no column of that cell lies within the inner radius.
pub proof fn rings_cover_what_is_around(
    center: (i64, i64),
    radius: int,
    inner_radius: int,
    step: int,
    cell: RingCell,
    x: int,
    z: int,
)
    requires
        step > 0,
        inner_radius >= 0,
        cell.2 == step,
        cell.0 as int % step == 0,
        cell.1 as int % step == 0,
        cell.0 <= x < cell.0 + step,
        cell.1 <= z < cell.1 + step,
        center.0 - radius <= x <= center.0 + radius,
        center.1 - radius <= z <= center.1 + radius,
    ensures
        in_ring(cell, center, radius, inner_radius, step) <==> !exists|a: int, b: int|
            {
                &&& cell.0 <= a < cell.0 + step
                &&& cell.1 <= b < cell.1 + step
                &&& #[trigger] is_within(center, inner_radius, a, b)
            },
{
    if !is_outside(cell.0 as int, cell.1 as int, center, inner_radius, step) {
        let a = if cell.0 >= center.0 - inner_radius {
            cell.0 as int
        } else {
            center.0 - inner_radius
        };
        let b = if cell.1 >= center.1 - inner_radius {
            cell.1 as int
        } else {
            center.1 - inner_radius
        };
        assert(is_within(center, inner_radius, a, b));
    }
}

/// Whether a column lies in the square around a centre.
pub open spec fn is_within(center: (i64, i64), radius: int, x: int, z: int) -> bool {
    center.0 - radius <= x <= center.0 + radius && center.1 - radius <= z <= center.1 + radius
}

} // verus!
