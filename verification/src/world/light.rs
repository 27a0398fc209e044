//! Light on a dense box of blocks.
//!
//! Light comes from sources, loses [`Block::light_attenuation`] for every cell it
//! enters and does not enter opaque cells. The level of a cell is the brightest
//! that any path brings. Sky light has the cells that see the sky as sources,
//! block light the cells that glow. Cell `(x, y, z)` of the box is at index
//! `(z * width + x) * height + y`.

use crate::world::block::{Block, LIGHT_MAX};
use std::collections::VecDeque;
use vstd::arithmetic::div_mod::{lemma_fundamental_div_mod, lemma_fundamental_div_mod_converse};
use vstd::prelude::*;

verus! {

/// The column of a cell along x.
pub open spec fn cell_x(width: int, height: int, i: int) -> int {
    (i / height) % width
}

/// The layer of a cell.
pub open spec fn cell_y(height: int, i: int) -> int {
    i % height
}

/// The row of a cell along z.
pub open spec fn cell_z(width: int, height: int, i: int) -> int {
    (i / height) / width
}

/// The distance of two numbers.
pub open spec fn gap(a: int, b: int) -> int {
    if a < b {
        b - a
    } else {
        a - b
    }
}

/// Whether two cells of the box share a face.
pub open spec fn touching(width: int, depth: int, height: int, i: int, j: int) -> bool {
    &&& 0 <= i < width * depth * height
    &&& 0 <= j < width * depth * height
    &&& gap(cell_x(width, height, i), cell_x(width, height, j)) + gap(
        cell_y(height, i),
        cell_y(height, j),
    ) + gap(cell_z(width, height, i), cell_z(width, height, j)) == 1
}

/// What is left of a light level after it enters a cell; zero for opaque cells.
pub open spec fn spread(level: u8, into: Block) -> u8 {
    if into.spec_opaque() || level <= into.spec_attenuation() {
        0
    } else {
        (level - into.spec_attenuation()) as u8
    }
}

/// Whether a path of `steps` cells from a source brings a level to a cell.
pub open spec fn brought(
    sources: Seq<u8>,
    blocks: Seq<Block>,
    size: (int, int, int),
    i: int,
    level: int,
    steps: nat,
) -> bool
    decreases steps,
{
    &&& 0 <= i < sources.len()
    &&& level > 0
    &&& if steps == 0 {
        sources[i] == level
    } else {
        !blocks[i].spec_opaque() && exists|j: int| #[trigger]
            touching(size.0, size.1, size.2, j, i) && brought(
                sources,
                blocks,
                size,
                j,
                level + blocks[i].spec_attenuation(),
                (steps - 1) as nat,
            )
    }
}

/// Whether each cell has the brightest level that any path brings, and is dark
/// where no path leads.
pub open spec fn is_lit(
    sources: Seq<u8>,
    blocks: Seq<Block>,
    size: (int, int, int),
    light: Seq<u8>,
) -> bool {
    &&& light.len() == sources.len()
    &&& forall|i: int, level: int, steps: nat| #[trigger]
        brought(sources, blocks, size, i, level, steps) ==> light[i] >= level
    &&& forall|i: int|
        0 <= i < light.len() && #[trigger] light[i] > 0 ==> exists|steps: nat| #[trigger]
            brought(sources, blocks, size, i, light[i] as int, steps)
}

/// Whether a cell has brought all it can to its neighbours.
pub open spec fn settled(
    blocks: Seq<Block>,
    size: (int, int, int),
    light: Seq<u8>,
    i: int,
) -> bool {
    forall|j: int| #[trigger]
        touching(size.0, size.1, size.2, i, j) ==> light[j] >= spread(light[i], blocks[j])
}

/// Whether every cell but one is queued or has brought all it can to its neighbours.
pub open spec fn steady(
    blocks: Seq<Block>,
    size: (int, int, int),
    light: Seq<u8>,
    queue: Seq<usize>,
    except: int,
) -> bool {
    forall|k: int|
        0 <= k < light.len() && k != except && !queued(queue, k) ==> #[trigger] settled(
            blocks,
            size,
            light,
            k,
        )
}

/// Whether a cell is in the queue.
pub open spec fn queued(queue: Seq<usize>, k: int) -> bool {
    exists|q: int| 0 <= q < queue.len() && #[trigger] queue[q] == k
}

/// Whether each level was brought by some path from the sources, and no source has
/// been dimmed.
spec fn earned(
    sources: Seq<u8>,
    blocks: Seq<Block>,
    size: (int, int, int),
    light: Seq<u8>,
) -> bool {
    &&& light.len() == sources.len()
    &&& forall|i: int| 0 <= i < light.len() ==> #[trigger] light[i] >= sources[i]
    &&& forall|i: int|
        0 <= i < light.len() && #[trigger] light[i] > 0 ==> exists|steps: nat| #[trigger]
            brought(sources, blocks, size, i, light[i] as int, steps)
}

/// How much brighter the cells could become.
spec fn room(light: Seq<u8>) -> nat
    decreases light.len(),
{
    if light.len() == 0 {
        0
    } else {
        room(light.drop_last()) + (255 - light.last()) as nat
    }
}

proof fn lemma_room_shrinks(light: Seq<u8>, t: int, level: u8)
    requires
        0 <= t < light.len(),
        light[t] < level,
    ensures
        room(light.update(t, level)) < room(light),
    decreases light.len(),
{
    let next = light.update(t, level);
    if t == light.len() - 1 {
        assert(next.drop_last() =~= light.drop_last());
    } else {
        lemma_room_shrinks(light.drop_last(), t, level);
        assert(next.drop_last() =~= light.drop_last().update(t, level));
    }
}

/// The coordinates of an index, and that they give the index back.
pub(crate) proof fn lemma_cell(size: (int, int, int), i: int)
    requires
        0 <= i < size.0 * size.1 * size.2,
        size.0 >= 0,
        size.1 >= 0,
        size.2 >= 0,
    ensures
        size.0 > 0,
        size.1 > 0,
        size.2 > 0,
        0 <= cell_x(size.0, size.2, i) < size.0,
        0 <= cell_y(size.2, i) < size.2,
        0 <= cell_z(size.0, size.2, i) < size.1,
        i == (cell_z(size.0, size.2, i) * size.0 + cell_x(size.0, size.2, i)) * size.2 + cell_y(
            size.2,
            i,
        ),
{
    let (w, d, h) = size;
    assert(w > 0 && d > 0 && h > 0) by (nonlinear_arith)
        requires
            w * d * h > 0,
            w >= 0,
            d >= 0,
            h >= 0,
    ;
    lemma_fundamental_div_mod(i, h);
    let c = i / h;
    lemma_fundamental_div_mod(c, w);
    let z = c / w;
    assert(c >= 0) by (nonlinear_arith)
        requires
            i == h * c + i % h,
            0 <= i % h < h,
            i >= 0,
            h > 0,
    ;
    assert(c < w * d) by (nonlinear_arith)
        requires
            h * c <= i,
            i < w * d * h,
            h > 0,
    ;
    assert(0 <= z) by (nonlinear_arith)
        requires
            c == w * z + c % w,
            0 <= c % w < w,
            c >= 0,
            w > 0,
    ;
    assert(z < d) by (nonlinear_arith)
        requires
            w * z <= c,
            c < w * d,
            w > 0,
    ;
    assert((z * w + c % w) * h == h * c) by (nonlinear_arith)
        requires
            c == w * z + c % w,
    ;
}

/// The coordinates of a given index.
pub(crate) proof fn lemma_cell_of(size: (int, int, int), x: int, y: int, z: int)
    requires
        0 <= x < size.0,
        0 <= y < size.2,
        0 <= z < size.1,
    ensures
        ({
            let i = (z * size.0 + x) * size.2 + y;
            &&& 0 <= i < size.0 * size.1 * size.2
            &&& cell_x(size.0, size.2, i) == x
            &&& cell_y(size.2, i) == y
            &&& cell_z(size.0, size.2, i) == z
        }),
{
    let (w, d, h) = size;
    let c = z * w + x;
    let i = c * h + y;
    assert(0 <= z * w) by (nonlinear_arith)
        requires
            z >= 0,
            w > 0,
    ;
    assert(z * w + w <= w * d) by (nonlinear_arith)
        requires
            z + 1 <= d,
            w > 0,
    ;
    assert(0 <= c * h) by (nonlinear_arith)
        requires
            c >= 0,
            h > 0,
    ;
    let area = w * d;
    assert(c * h + h <= area * h) by (nonlinear_arith)
        requires
            c + 1 <= area,
            h > 0,
    ;
    lemma_fundamental_div_mod_converse(i, h, c, y);
    lemma_fundamental_div_mod_converse(c, w, z, x);
}

/// The six neighbours of a cell, by their indices.
proof fn lemma_neighbours(size: (int, int, int), i: int)
    requires
        0 <= i < size.0 * size.1 * size.2,
        size.0 >= 0,
        size.1 >= 0,
        size.2 >= 0,
    ensures
        ({
            let (w, d, h) = size;
            let x = cell_x(w, h, i);
            let y = cell_y(h, i);
            let z = cell_z(w, h, i);
            &&& y > 0 ==> touching(w, d, h, i, i - 1)
            &&& y + 1 < h ==> touching(w, d, h, i, i + 1)
            &&& x > 0 ==> touching(w, d, h, i, i - h)
            &&& x + 1 < w ==> touching(w, d, h, i, i + h)
            &&& z > 0 ==> touching(w, d, h, i, i - w * h)
            &&& z + 1 < d ==> touching(w, d, h, i, i + w * h)
            &&& forall|j: int| #[trigger]
                touching(w, d, h, i, j) ==> {
                    ||| j == i - 1 && y > 0
                    ||| j == i + 1 && y + 1 < h
                    ||| j == i - h && x > 0
                    ||| j == i + h && x + 1 < w
                    ||| j == i - w * h && z > 0
                    ||| j == i + w * h && z + 1 < d
                }
        }),
{
    let (w, d, h) = size;
    lemma_cell(size, i);
    let x = cell_x(w, h, i);
    let y = cell_y(h, i);
    let z = cell_z(w, h, i);
    lemma_index_steps(w, h, x, y, z);
    if y > 0 {
        lemma_cell_of(size, x, y - 1, z);
    }
    if y + 1 < h {
        lemma_cell_of(size, x, y + 1, z);
    }
    if x > 0 {
        lemma_cell_of(size, x - 1, y, z);
    }
    if x + 1 < w {
        lemma_cell_of(size, x + 1, y, z);
    }
    if z > 0 {
        lemma_cell_of(size, x, y, z - 1);
    }
    if z + 1 < d {
        lemma_cell_of(size, x, y, z + 1);
    }
    assert forall|j: int| #[trigger] touching(w, d, h, i, j) implies {
        ||| j == i - 1 && y > 0
        ||| j == i + 1 && y + 1 < h
        ||| j == i - h && x > 0
        ||| j == i + h && x + 1 < w
        ||| j == i - w * h && z > 0
        ||| j == i + w * h && z + 1 < d
    } by {
        lemma_cell(size, j);
    }
}

proof fn lemma_index_steps(w: int, h: int, x: int, y: int, z: int)
    ensures
        (z * w + (x + 1)) * h + y == ((z * w + x) * h + y) + h,
        (z * w + (x - 1)) * h + y == ((z * w + x) * h + y) - h,
        ((z + 1) * w + x) * h + y == ((z * w + x) * h + y) + w * h,
        ((z - 1) * w + x) * h + y == ((z * w + x) * h + y) - w * h,
{
    assert((z * w + (x + 1)) * h + y == ((z * w + x) * h + y) + h) by (nonlinear_arith);
    assert((z * w + (x - 1)) * h + y == ((z * w + x) * h + y) - h) by (nonlinear_arith);
    assert(((z + 1) * w + x) * h + y == ((z * w + x) * h + y) + w * h) by (nonlinear_arith);
    assert(((z - 1) * w + x) * h + y == ((z * w + x) * h + y) - w * h) by (nonlinear_arith);
}

/// The neighbours that a cell has within the box.
proof fn lemma_step_targets(size: (int, int, int), i: int)
    requires
        0 <= i < size.0 * size.1 * size.2,
        size.0 >= 0,
        size.1 >= 0,
        size.2 >= 0,
    ensures
        ({
            let (w, d, h) = size;
            let x = cell_x(w, h, i);
            let y = cell_y(h, i);
            let z = cell_z(w, h, i);
            &&& y > 0 ==> touching(w, d, h, i, i - 1)
            &&& y + 1 < h ==> touching(w, d, h, i, i + 1)
            &&& x > 0 ==> touching(w, d, h, i, i - h)
            &&& x + 1 < w ==> touching(w, d, h, i, i + h)
            &&& z > 0 ==> touching(w, d, h, i, i - w * h)
            &&& z + 1 < d ==> touching(w, d, h, i, i + w * h)
        }),
{
    lemma_neighbours(size, i);
}

/// The state of a run: what holds between two steps, with one cell under work.
#[verifier::opaque]
spec fn running(
    sources: Seq<u8>,
    blocks: Seq<Block>,
    size: (int, int, int),
    light: Seq<u8>,
    queue: Seq<usize>,
    except: int,
) -> bool {
    &&& earned(sources, blocks, size, light)
    &&& steady(blocks, size, light, queue, except)
    &&& forall|q: int| 0 <= q < queue.len() ==> 0 <= #[trigger] queue[q] < light.len()
}

proof fn lemma_relax(
    sources: Seq<u8>,
    blocks: Seq<Block>,
    size: (int, int, int),
    light: Seq<u8>,
    queue: Seq<usize>,
    i: int,
    t: usize,
)
    requires
        running(sources, blocks, size, light, queue, i),
        touching(size.0, size.1, size.2, i, t as int),
        light.len() == size.0 * size.1 * size.2,
        spread(light[i], blocks[t as int]) > light[t as int],
    ensures
        running(
            sources,
            blocks,
            size,
            light.update(t as int, spread(light[i], blocks[t as int])),
            queue.push(t),
            i,
        ),
{
    reveal(running);
    let level = spread(light[i], blocks[t as int]);
    let next = light.update(t as int, level);
    let waiting = queue.push(t);
    let from = light[i];
    assert(from > 0);
    let steps = choose|steps: nat| #[trigger]
        brought(sources, blocks, size, i, from as int, steps);
    assert(brought(sources, blocks, size, t as int, level as int, steps + 1)) by {
        assert(level + blocks[t as int].spec_attenuation() == from);
    }
    assert forall|k: int| 0 <= k < next.len() && #[trigger] next[k] > 0 implies exists|
        steps: nat,
    | #[trigger] brought(sources, blocks, size, k, next[k] as int, steps) by {
        if k != t {
            assert(light[k] > 0);
        }
    }
    assert forall|k: int| 0 <= k < next.len() implies #[trigger] next[k] >= sources[k] by {
        assert(light[k] >= sources[k]);
    }
    assert forall|k: int|
        0 <= k < next.len() && k != i && !queued(waiting, k) implies #[trigger] settled(
        blocks,
        size,
        next,
        k,
    ) by {
        assert(waiting[queue.len() as int] == t);
        assert(k != t);
        if queued(queue, k) {
            let q = choose|q: int| 0 <= q < queue.len() && #[trigger] queue[q] == k;
            assert(waiting[q] == k);
        }
        assert(settled(blocks, size, light, k));
    }
}

/// Brings a level to a neighbour, and queues the neighbour if that made it brighter.
fn relax(
    light: &mut Vec<u8>,
    blocks: &[Block],
    queue: &mut VecDeque<usize>,
    target: usize,
    level: u8,
)
    requires
        target < old(light).len(),
        target < blocks.len(),
    ensures
        spread(level, blocks@[target as int]) > old(light)@[target as int] ==> {
            &&& final(light)@ == old(light)@.update(
                target as int,
                spread(level, blocks@[target as int]),
            )
            &&& final(queue)@ == old(queue)@.push(target)
        },
        spread(level, blocks@[target as int]) <= old(light)@[target as int] ==> {
            &&& final(light)@ == old(light)@
            &&& final(queue)@ == old(queue)@
        },
{
    let attenuation: u8 = blocks[target].light_attenuation();
    if attenuation > LIGHT_MAX {
        return;
    }
    let candidate: u8 = level.saturating_sub(attenuation);
    if candidate > light[target] {
        light.set(target, candidate);
        queue.push_back(target);
    }
}

/// Brings the level of a cell to its six neighbours.
fn spread_from(
    light: &mut Vec<u8>,
    blocks: &[Block],
    width: usize,
    depth: usize,
    height: usize,
    queue: &mut VecDeque<usize>,
    index: usize,
    sources: Ghost<Seq<u8>>,
)
    requires
        width * depth * height <= usize::MAX,
        old(light).len() == width * depth * height,
        blocks.len() >= old(light).len(),
        index < old(light).len(),
        running(
            sources@,
            blocks@,
            (width as int, depth as int, height as int),
            old(light)@,
            old(queue)@,
            index as int,
        ),
    ensures
        running(
            sources@,
            blocks@,
            (width as int, depth as int, height as int),
            final(light)@,
            final(queue)@,
            -1,
        ),
        final(light).len() == old(light).len(),
        final(light)@ == old(light)@ ==> final(queue)@ == old(queue)@,
        final(light)@ == old(light)@ || room(final(light)@) < room(old(light)@),
{
    let ghost size = (width as int, depth as int, height as int);
    let ghost i = index as int;
    let ghost sources = sources@;
    proof {
        lemma_cell(size, i);
        lemma_step_targets(size, i);
        assert(width * height <= width * depth * height) by (nonlinear_arith)
            requires
                depth >= 1,
                width >= 0,
                height >= 0,
        ;
    }
    let level: u8 = light[index];
    let y: usize = index % height;
    let column: usize = index / height;
    let x: usize = column % width;
    let z: usize = column / width;
    if y > 0 {
        step(light, blocks, queue, index, index - 1, level, Ghost(sources), Ghost(size));
    }
    if y + 1 < height {
        step(light, blocks, queue, index, index + 1, level, Ghost(sources), Ghost(size));
    }
    if x > 0 {
        step(light, blocks, queue, index, index - height, level, Ghost(sources), Ghost(size));
    }
    if x + 1 < width {
        step(light, blocks, queue, index, index + height, level, Ghost(sources), Ghost(size));
    }
    if z > 0 {
        let below: usize = index - width * height;
        step(light, blocks, queue, index, below, level, Ghost(sources), Ghost(size));
    }
    if z + 1 < depth {
        let above: usize = index + width * height;
        step(light, blocks, queue, index, above, level, Ghost(sources), Ghost(size));
    }
    proof {
        lemma_finished(sources, blocks@, size, light@, queue@, i);
    }
}

/// A cell that has brought its level to each of its neighbours is settled.
proof fn lemma_finished(
    sources: Seq<u8>,
    blocks: Seq<Block>,
    size: (int, int, int),
    light: Seq<u8>,
    queue: Seq<usize>,
    i: int,
)
    requires
        running(sources, blocks, size, light, queue, i),
        light.len() == size.0 * size.1 * size.2,
        0 <= i < light.len(),
        size.0 >= 0,
        size.1 >= 0,
        size.2 >= 0,
        ({
            let (w, d, h) = size;
            let x = cell_x(w, h, i);
            let y = cell_y(h, i);
            let z = cell_z(w, h, i);
            &&& y > 0 ==> light[i - 1] >= spread(light[i], blocks[i - 1])
            &&& y + 1 < h ==> light[i + 1] >= spread(light[i], blocks[i + 1])
            &&& x > 0 ==> light[i - h] >= spread(light[i], blocks[i - h])
            &&& x + 1 < w ==> light[i + h] >= spread(light[i], blocks[i + h])
            &&& z > 0 ==> light[i - w * h] >= spread(light[i], blocks[i - w * h])
            &&& z + 1 < d ==> light[i + w * h] >= spread(light[i], blocks[i + w * h])
        }),
    ensures
        running(sources, blocks, size, light, queue, -1),
{
    reveal(running);
    lemma_neighbours(size, i);
    assert(settled(blocks, size, light, i));
}

/// Brings light from the queued cells to everywhere it reaches.
pub fn propagate(
    light: &mut Vec<u8>,
    blocks: &[Block],
    width: usize,
    depth: usize,
    height: usize,
    queue: &mut VecDeque<usize>,
)
    requires
        width * depth * height <= usize::MAX,
        old(light).len() == width * depth * height,
        blocks.len() >= width * depth * height,
        forall|q: int|
            0 <= q < old(queue).len() ==> 0 <= #[trigger] old(queue)@[q] < old(light).len(),
        steady(
            blocks@,
            (width as int, depth as int, height as int),
            old(light)@,
            old(queue)@,
            -1,
        ),
    ensures
        is_lit(
            old(light)@,
            blocks@,
            (width as int, depth as int, height as int),
            final(light)@,
        ),
        final(queue)@.len() == 0,
{
    let ghost sources = light@;
    let ghost size = (width as int, depth as int, height as int);
    let ghost n = light@.len() as int;
    reveal(running);
    assert(earned(sources, blocks@, size, light@)) by {
        assert forall|i: int| 0 <= i < light@.len() && #[trigger] light@[i] > 0 implies exists|
            steps: nat,
        | #[trigger] brought(sources, blocks@, size, i, light@[i] as int, steps) by {
            assert(brought(sources, blocks@, size, i, light@[i] as int, 0));
        }
    }
    while queue.len() > 0
        invariant
            n == width * depth * height,
            width * depth * height <= usize::MAX,
            light@.len() == n,
            blocks@.len() >= n,
            size == (width as int, depth as int, height as int),
            running(sources, blocks@, size, light@, queue@, -1),
        decreases room(light@), queue@.len(),
    {
        reveal(running);
        let ghost queue0 = queue@;
        let index: usize = match queue.pop_front() {
            Some(index) => index,
            None => {
                return;
            },
        };
        let ghost i = index as int;
        assert(queue0[0] == i);
        let level: u8 = light[index];
        proof {
            assert forall|k: int|
                0 <= k < light@.len() && k != i && !queued(queue@, k) implies #[trigger] settled(
                blocks@,
                size,
                light@,
                k,
            ) by {
                if queued(queue0, k) {
                    let q = choose|q: int| 0 <= q < queue0.len() && #[trigger] queue0[q] == k;
                    assert(queue@[q - 1] == k);
                }
            }
            assert forall|q: int| 0 <= q < queue@.len() implies 0 <= #[trigger] queue@[q]
                < light@.len() by {
                assert(queue@[q] == queue0[q + 1]);
            }
            assert(running(sources, blocks@, size, light@, queue@, i));
        }
        if level > 1 {
            spread_from(light, blocks, width, depth, height, queue, index, Ghost(sources));
        } else {
            assert(settled(blocks@, size, light@, i));
        }
    }
    proof {
        reveal(running);
        assert forall|i: int, level: int, steps: nat| #[trigger]
            brought(sources, blocks@, size, i, level, steps) implies light@[i] >= level by {
            lemma_brightest(sources, blocks@, size, light@, i, level, steps);
        }
    }
}

/// Brings the level of the cell under work to one of its neighbours.
fn step(
    light: &mut Vec<u8>,
    blocks: &[Block],
    queue: &mut VecDeque<usize>,
    index: usize,
    target: usize,
    level: u8,
    sources: Ghost<Seq<u8>>,
    size: Ghost<(int, int, int)>,
)
    requires
        size@.0 * size@.1 * size@.2 == old(light).len(),
        blocks.len() >= old(light).len(),
        index < old(light).len(),
        level == old(light)@[index as int],
        touching(size@.0, size@.1, size@.2, index as int, target as int),
        running(sources@, blocks@, size@, old(light)@, old(queue)@, index as int),
    ensures
        running(sources@, blocks@, size@, final(light)@, final(queue)@, index as int),
        final(light).len() == old(light).len(),
        final(light)@[index as int] == level,
        final(light)@[target as int] >= spread(level, blocks@[target as int]),
        forall|k: int|
            0 <= k < old(light).len() ==> #[trigger] final(light)@[k] >= old(light)@[k],
        final(light)@ == old(light)@ ==> final(queue)@ == old(queue)@,
        final(light)@ == old(light)@ || room(final(light)@) < room(old(light)@),
{
    relax(light, blocks, queue, target, level);
    proof {
        let l0 = old(light)@;
        let t = target as int;
        if spread(level, blocks@[t]) > l0[t] {
            lemma_relax(sources@, blocks@, size@, l0, old(queue)@, index as int, target);
            lemma_room_shrinks(l0, t, spread(level, blocks@[t]));
            assert(index != target);
        }
    }
}

/// No path brings more than a settled box holds.
proof fn lemma_brightest(
    sources: Seq<u8>,
    blocks: Seq<Block>,
    size: (int, int, int),
    light: Seq<u8>,
    i: int,
    level: int,
    steps: nat,
)
    requires
        earned(sources, blocks, size, light),
        light.len() == size.0 * size.1 * size.2,
        forall|k: int| 0 <= k < light.len() ==> #[trigger] settled(blocks, size, light, k),
        brought(sources, blocks, size, i, level, steps),
    ensures
        light[i] >= level,
    decreases steps,
{
    if steps > 0 {
        let j = choose|j: int| #[trigger]
            touching(size.0, size.1, size.2, j, i) && brought(
                sources,
                blocks,
                size,
                j,
                level + blocks[i].spec_attenuation(),
                (steps - 1) as nat,
            );
        lemma_brightest(
            sources,
            blocks,
            size,
            light,
            j,
            level + blocks[i].spec_attenuation(),
            (steps - 1) as nat,
        );
        assert(settled(blocks, size, light, j));
    }
}

/// The highest layer that the sky reaches: one above the highest block of the box.
pub open spec fn sky_layer(height: int, max_top: int) -> int {
    if max_top + 1 < height - 1 {
        max_top + 1
    } else {
        height - 1
    }
}

/// Whether a cell and all cells above it, up to a layer, are air.
pub open spec fn sees_sky(blocks: Seq<Block>, height: int, layer: int, i: int) -> bool {
    let y = cell_y(height, i);
    y <= layer && forall|k: int| y <= k <= layer ==> #[trigger] blocks[i - y + k] == Block::Air
}

/// The sources of sky light: the cells that see the sky.
pub open spec fn sky_sources(
    blocks: Seq<Block>,
    size: (int, int, int),
    max_top: int,
) -> Seq<u8> {
    Seq::new(
        (size.0 * size.1 * size.2) as nat,
        |i: int|
            if sees_sky(blocks, size.2, sky_layer(size.2, max_top), i) {
                LIGHT_MAX
            } else {
                0
            },
    )
}

/// The sky light of a box. `max_top` is the layer of the highest block; what lies
/// more than one layer above it is left dark, as callers know that it sees the sky.
pub fn flood_fill_sky(
    blocks: &[Block],
    width: usize,
    depth: usize,
    height: usize,
    max_top: usize,
) -> (r: Vec<u8>)
    requires
        height > 0,
        max_top < usize::MAX,
        width * depth * height <= usize::MAX,
        blocks.len() >= width * depth * height,
    ensures
        ({
            let size = (width as int, depth as int, height as int);
            is_lit(sky_sources(blocks@, size, max_top as int), blocks@, size, r@)
        }),
{
    let ghost size = (width as int, depth as int, height as int);
    let ghost sources = sky_sources(blocks@, size, max_top as int);
    proof {
        assert(width * depth <= width * depth * height) by (nonlinear_arith)
            requires
                height >= 1,
                width >= 0,
                depth >= 0,
        ;
    }
    let columns: usize = width * depth;
    let mut light: Vec<u8> = vec![0; columns * height];
    let mut queue: VecDeque<usize> = VecDeque::new();
    let seed_top: usize = if max_top + 1 < height - 1 { max_top + 1 } else { height - 1 };
    let mut c: usize = 0;
    assert(forall|i: int| 0 <= i < 0 * height ==> #[trigger] light@[i] == sources[i]) by (
    nonlinear_arith);
    while c < columns
        invariant
            height > 0,
            columns * height == light@.len(),
            columns == width * depth,
            columns * height <= usize::MAX,
            size == (width as int, depth as int, height as int),
            light@.len() == width * depth * height,
            blocks@.len() >= light@.len(),
            sources == sky_sources(blocks@, size, max_top as int),
            seed_top == sky_layer(height as int, max_top as int),
            seed_top < height,
            c <= columns,
            columns_done(sources, light@, queue@, c * height),
            forall|i: int| c * height <= i < light@.len() ==> #[trigger] light@[i] == 0,
        decreases columns - c,
    {
        proof {
            lemma_column_room(c as int, columns as int, height as int);
        }
        let base: usize = c * height;
        let mut open: usize = seed_top + 1;
        while open > 0 && blocks[base + open - 1] == Block::Air
            invariant
                base == c * height,
                base + height <= light@.len() <= usize::MAX,
                light@.len() <= blocks@.len(),
                open <= seed_top + 1 <= height,
                forall|k: int| open <= k <= seed_top ==> #[trigger] blocks@[base + k] == Block::Air,
            decreases open,
        {
            open -= 1;
            assert(blocks@[base + open] == Block::Air);
        }
        let mut y: usize = open;
        proof {
            assert forall|i: int| base <= i < base + height implies #[trigger] sees_sky(
                blocks@,
                height as int,
                seed_top as int,
                i,
            ) == (base + open <= i <= base + seed_top) by {
                lemma_fundamental_div_mod_converse(i, height as int, c as int, i - base);
                if i - base < open {
                    assert(blocks@[base + (open - 1)] != Block::Air);
                }
            }
        }
        while y <= seed_top
            invariant
                base == c * height,
                base + height <= light@.len() <= usize::MAX,
                seed_top < height,
                open <= y <= seed_top + 1,
                sources.len() == light@.len(),
                columns_done(sources, light@, queue@, base as int),
                forall|k: int|
                    base <= k < light@.len() ==> #[trigger] light@[k] == if base + open <= k < base
                        + y {
                        LIGHT_MAX
                    } else {
                        0
                    },
                forall|k: int| base + open <= k < base + y ==> #[trigger] queued(queue@, k),
            decreases seed_top + 1 - y,
        {
            let ghost had = queue@;
            let ghost before = light@;
            light.set(base + y, LIGHT_MAX);
            queue.push_back(base + y);
            proof {
                lemma_queue_grows(had, (base + y) as usize);
                assert(queue@ == had.push((base + y) as usize));
                assert forall|i: int| 0 <= i < base implies #[trigger] light@[i] == sources[i] by {
                    assert(before[i] == sources[i]);
                }
            }
            y += 1;
        }
        proof {
            assert((c + 1) * height == c * height + height) by (nonlinear_arith);
            assert forall|i: int| 0 <= i < base + height implies #[trigger] light@[i]
                == sources[i] by {
                if i >= base {
                    assert(sees_sky(blocks@, height as int, seed_top as int, i) == (base + open
                        <= i <= base + seed_top));
                }
            }
            assert forall|i: int|
                0 <= i < base + height && sources[i] > 0 implies #[trigger] queued(
                queue@,
                i,
            ) by {
                if i >= base {
                    assert(light@[i] == sources[i]);
                }
            }
        }
        c += 1;
    }
    proof {
        assert(light@ =~= sources);
        assert forall|k: int|
            0 <= k < light@.len() && k != -1 && !queued(queue@, k) implies #[trigger] settled(
            blocks@,
            size,
            light@,
            k,
        ) by {
            assert(light@[k] == 0);
        }
    }
    propagate(&mut light, blocks, width, depth, height, &mut queue);
    light
}

/// Whether the sources below an index are lit and queued.
spec fn columns_done(sources: Seq<u8>, light: Seq<u8>, queue: Seq<usize>, end: int) -> bool {
    &&& light.len() == sources.len()
    &&& forall|i: int| 0 <= i < end ==> #[trigger] light[i] == sources[i]
    &&& forall|i: int| 0 <= i < end && sources[i] > 0 ==> #[trigger] queued(queue, i)
    &&& forall|q: int| 0 <= q < queue.len() ==> 0 <= #[trigger] queue[q] < light.len()
}

proof fn lemma_queue_grows(queue: Seq<usize>, t: usize)
    ensures
        queued(queue.push(t), t as int),
        forall|k: int|
            #![trigger queued(queue, k)]
            #![trigger queued(queue.push(t), k)]
            queued(queue, k) ==> queued(queue.push(t), k),
{
    let next = queue.push(t);
    assert(next[queue.len() as int] == t);
    assert forall|k: int|
        #![trigger queued(queue, k)]
        #![trigger queued(next, k)]
        queued(queue, k) implies queued(next, k) by {
        let q = choose|q: int| 0 <= q < queue.len() && #[trigger] queue[q] == k;
        assert(next[q] == k);
    }
}

proof fn lemma_column_room(c: int, columns: int, height: int)
    requires
        0 <= c < columns,
        height > 0,
    ensures
        0 <= c * height,
        c * height + height <= columns * height,
{
    assert(0 <= c * height && c * height + height <= columns * height) by (nonlinear_arith)
        requires
            0 <= c,
            c + 1 <= columns,
            height > 0,
    ;
}

/// The light of the glowing blocks of a box. No registered block glows, so the box
/// stays dark.
pub fn flood_fill_block(
    blocks: &[Block],
    width: usize,
    depth: usize,
    height: usize,
) -> (r: Vec<u8>)
    requires
        width * depth * height <= usize::MAX,
        blocks.len() >= width * depth * height,
    ensures
        r@ == Seq::new((width * depth * height) as nat, |i: int| 0u8),
        ({
            let size = (width as int, depth as int, height as int);
            is_lit(
                Seq::new((width * depth * height) as nat, |i: int| 0u8),
                blocks@,
                size,
                r@,
            )
        }),
{
    let ghost size = (width as int, depth as int, height as int);
    proof {
        assert(width * depth <= usize::MAX || height == 0) by (nonlinear_arith)
            requires
                width * depth * height <= usize::MAX,
                width >= 0,
                depth >= 0,
                height >= 0,
        ;
    }
    let total: usize = if height == 0 {
        0
    } else {
        width * depth * height
    };
    assert(total == width * depth * height) by (nonlinear_arith)
        requires
            height == 0 ==> total == 0,
            height != 0 ==> total == width * depth * height,
    ;
    let mut light: Vec<u8> = vec![0; total];
    let ghost sources = Seq::new(total as nat, |i: int| 0u8);
    let mut queue: VecDeque<usize> = VecDeque::new();
    let mut index: usize = 0;
    while index < total
        invariant
            index <= total,
            total <= blocks@.len(),
            light@.len() == total,
            queue@.len() == 0,
            forall|k: int| 0 <= k < total ==> #[trigger] light@[k] == 0,
        decreases total - index,
    {
        let emission: u8 = blocks[index].light_emission();
        if emission > 0 {
            light.set(index, emission);
            queue.push_back(index);
        }
        index += 1;
    }
    assert(light@ =~= sources);
    propagate(&mut light, blocks, width, depth, height, &mut queue);
    proof {
        assert forall|k: int| 0 <= k < light@.len() implies #[trigger] light@[k] == 0 by {
            if light@[k] > 0 {
                let steps = choose|steps: nat| #[trigger]
                    brought(sources, blocks@, size, k, light@[k] as int, steps);
                lemma_no_source(sources, blocks@, size, k, light@[k] as int, steps);
            }
        }
    }
    light
}

proof fn lemma_no_source(
    sources: Seq<u8>,
    blocks: Seq<Block>,
    size: (int, int, int),
    i: int,
    level: int,
    steps: nat,
)
    requires
        forall|k: int| 0 <= k < sources.len() ==> #[trigger] sources[k] == 0,
    ensures
        !brought(sources, blocks, size, i, level, steps),
    decreases steps,
{
    if steps > 0 && brought(sources, blocks, size, i, level, steps) {
        let j = choose|j: int| #[trigger]
            touching(size.0, size.1, size.2, j, i) && brought(
                sources,
                blocks,
                size,
                j,
                level + blocks[i].spec_attenuation(),
                (steps - 1) as nat,
            );
        lemma_no_source(
            sources,
            blocks,
            size,
            j,
            level + blocks[i].spec_attenuation(),
            (steps - 1) as nat,
        );
    }
}

/// Sources and blocks determine the light: no two boxes of levels are both right.
pub proof fn light_is_determined(
    sources: Seq<u8>,
    blocks: Seq<Block>,
    size: (int, int, int),
    a: Seq<u8>,
    b: Seq<u8>,
)
    requires
        is_lit(sources, blocks, size, a),
        is_lit(sources, blocks, size, b),
    ensures
        a == b,
{
    assert forall|i: int| 0 <= i < a.len() implies a[i] == b[i] by {
        if a[i] > 0 {
            let steps = choose|steps: nat| #[trigger]
                brought(sources, blocks, size, i, a[i] as int, steps);
            assert(b[i] >= a[i]);
        }
        if b[i] > 0 {
            let steps = choose|steps: nat| #[trigger]
                brought(sources, blocks, size, i, b[i] as int, steps);
            assert(a[i] >= b[i]);
        }
    }
    assert(a =~= b);
}

/// Between two cells that share a face, light falls by no more than the darker
/// cell takes away, unless that cell is opaque.
pub proof fn light_falls_off_gradually(
    sources: Seq<u8>,
    blocks: Seq<Block>,
    size: (int, int, int),
    light: Seq<u8>,
    i: int,
    j: int,
)
    requires
        is_lit(sources, blocks, size, light),
        sources.len() == size.0 * size.1 * size.2,
        touching(size.0, size.1, size.2, i, j),
        !blocks[j].spec_opaque(),
    ensures
        light[j] >= light[i] - blocks[j].spec_attenuation(),
{
    if light[i] > blocks[j].spec_attenuation() {
        let steps = choose|steps: nat| #[trigger]
            brought(sources, blocks, size, i, light[i] as int, steps);
        assert(brought(
            sources,
            blocks,
            size,
            j,
            light[i] - blocks[j].spec_attenuation(),
            steps + 1,
        ));
    }
}

/// An opaque cell that is no source stays dark.
pub proof fn opaque_cells_are_dark(
    sources: Seq<u8>,
    blocks: Seq<Block>,
    size: (int, int, int),
    light: Seq<u8>,
    i: int,
)
    requires
        is_lit(sources, blocks, size, light),
        0 <= i < light.len(),
        sources[i] == 0,
        blocks[i].spec_opaque(),
    ensures
        light[i] == 0,
{
}

/// No cell is brighter than the brightest source.
pub proof fn light_stays_below_its_sources(
    sources: Seq<u8>,
    blocks: Seq<Block>,
    size: (int, int, int),
    light: Seq<u8>,
    limit: u8,
    i: int,
)
    requires
        is_lit(sources, blocks, size, light),
        forall|k: int| 0 <= k < sources.len() ==> #[trigger] sources[k] <= limit,
        0 <= i < light.len(),
    ensures
        light[i] <= limit,
{
    if light[i] > 0 {
        let steps = choose|steps: nat| #[trigger]
            brought(sources, blocks, size, i, light[i] as int, steps);
        lemma_path_below(sources, blocks, size, limit, i, light[i] as int, steps);
    }
}

pub(crate) proof fn lemma_path_below(
    sources: Seq<u8>,
    blocks: Seq<Block>,
    size: (int, int, int),
    limit: u8,
    i: int,
    level: int,
    steps: nat,
)
    requires
        brought(sources, blocks, size, i, level, steps),
        forall|k: int| 0 <= k < sources.len() ==> #[trigger] sources[k] <= limit,
    ensures
        level <= limit,
    decreases steps,
{
    if steps > 0 {
        let next = level + blocks[i].spec_attenuation();
        let j = choose|j: int| #[trigger]
            touching(size.0, size.1, size.2, j, i) && brought(
                sources,
                blocks,
                size,
                j,
                next,
                (steps - 1) as nat,
            );
        lemma_path_below(sources, blocks, size, limit, j, next, (steps - 1) as nat);
    }
}

/// The place of a cell in a box.
pub open spec fn place_in(size: (int, int, int), x: int, y: int, z: int) -> int {
    (z * size.0 + x) * size.2 + y
}

/// Whether a cell lies in a box.
pub open spec fn in_box(size: (int, int, int), x: int, y: int, z: int) -> bool {
    0 <= x < size.0 && 0 <= y < size.2 && 0 <= z < size.1
}

/// Light passes from each cell to the six around it: into air and glass it comes one level
/// weaker, into water and leaves two, and into anything else not at all.
pub proof fn light_passes_to_all_sides(
    sources: Seq<u8>,
    blocks: Seq<Block>,
    size: (int, int, int),
    light: Seq<u8>,
    from: (int, int, int),
    to: (int, int, int),
)
    requires
        is_lit(sources, blocks, size, light),
        sources.len() == size.0 * size.1 * size.2,
        in_box(size, from.0, from.1, from.2),
        in_box(size, to.0, to.1, to.2),
        (to.1 == from.1 && to.2 == from.2 && (to.0 == from.0 + 1 || to.0 == from.0 - 1)) || (to.0
            == from.0 && to.2 == from.2 && (to.1 == from.1 + 1 || to.1 == from.1 - 1)) || (to.0
            == from.0 && to.1 == from.1 && (to.2 == from.2 + 1 || to.2 == from.2 - 1)),
        sources[place_in(size, to.0, to.1, to.2)] == 0,
    ensures
        ({
            let here = light[place_in(size, from.0, from.1, from.2)];
            let there = light[place_in(size, to.0, to.1, to.2)];
            let block = blocks[place_in(size, to.0, to.1, to.2)];
            &&& block == Block::Air || block == Block::Glass ==> there >= here - 1
            &&& block == Block::Water || block == Block::OakLeaves ==> there >= here - 2
            &&& block != Block::Air && block != Block::Glass && block != Block::Water && block
                != Block::OakLeaves ==> there == 0
        }),
{
    let i = place_in(size, from.0, from.1, from.2);
    let j = place_in(size, to.0, to.1, to.2);
    lemma_cell_of(size, from.0, from.1, from.2);
    lemma_cell_of(size, to.0, to.1, to.2);
    assert(touching(size.0, size.1, size.2, i, j));
    if blocks[j].spec_opaque() {
        opaque_cells_are_dark(sources, blocks, size, light, j);
    } else {
        light_falls_off_gradually(sources, blocks, size, light, i, j);
    }
}

/// All light comes from somewhere: a cell that is lit is a source of its light, or one of
/// the six around it has as much more as the cell takes away.
pub proof fn light_comes_from_beside(
    sources: Seq<u8>,
    blocks: Seq<Block>,
    size: (int, int, int),
    light: Seq<u8>,
    at: (int, int, int),
)
    requires
        is_lit(sources, blocks, size, light),
        sources.len() == size.0 * size.1 * size.2,
        size.0 > 0,
        size.1 > 0,
        size.2 > 0,
        in_box(size, at.0, at.1, at.2),
        light[place_in(size, at.0, at.1, at.2)] > 0,
    ensures
        ({
            let i = place_in(size, at.0, at.1, at.2);
            light[i] == sources[i] || exists|x: int, y: int, z: int|
                {
                    &&& #[trigger] in_box(size, x, y, z)
                    &&& gap(x, at.0) + gap(y, at.1) + gap(z, at.2) == 1
                    &&& light[place_in(size, x, y, z)] == light[i] + (if blocks[i] == Block::Water
                        || blocks[i] == Block::OakLeaves {
                        2int
                    } else {
                        1int
                    })
                }
        }),
{
    let i = place_in(size, at.0, at.1, at.2);
    lemma_cell_of(size, at.0, at.1, at.2);
    let steps = choose|steps: nat| #[trigger]
        brought(sources, blocks, size, i, light[i] as int, steps);
    if steps > 0 {
        let more = light[i] + blocks[i].spec_attenuation();
        let j = choose|j: int| #[trigger]
            touching(size.0, size.1, size.2, j, i) && brought(
                sources,
                blocks,
                size,
                j,
                more,
                (steps - 1) as nat,
            );
        lemma_cell(size, j);
        let x = cell_x(size.0, size.2, j);
        let y = cell_y(size.2, j);
        let z = cell_z(size.0, size.2, j);
        assert(in_box(size, x, y, z));
        assert(place_in(size, x, y, z) == j);
        assert(light[j] >= more);
        if light[j] > more {
            let far = choose|far: nat| #[trigger]
                brought(sources, blocks, size, j, light[j] as int, far);
            let level = light[j] - blocks[i].spec_attenuation();
            assert(brought(sources, blocks, size, i, level, far + 1));
        }
    }
}

/// The sky lights what lies open to it: the air of a column is a source of full light down
/// to the first block, and nothing else is a source.
pub proof fn the_sky_lights_open_air(
    blocks: Seq<Block>,
    size: (int, int, int),
    max_top: int,
    x: int,
    y: int,
    z: int,
)
    requires
        in_box(size, x, y, z),
        0 <= max_top,
        forall|k: int|
            max_top < k < size.2 ==> #[trigger] blocks[place_in(size, x, k, z)] == Block::Air,
    ensures
        ({
            let level = sky_sources(blocks, size, max_top)[place_in(size, x, y, z)];
            let open = forall|k: int|
                y <= k < size.2 ==> #[trigger] blocks[place_in(size, x, k, z)] == Block::Air;
            &&& level == 0 || level == LIGHT_MAX
            &&& level == LIGHT_MAX ==> open
            &&& open && y <= max_top + 1 ==> level == LIGHT_MAX
        }),
{
    let i = place_in(size, x, y, z);
    lemma_cell_of(size, x, y, z);
    let layer = sky_layer(size.2, max_top);
    let level = sky_sources(blocks, size, max_top)[i];
    if level == LIGHT_MAX {
        assert forall|k: int| y <= k < size.2 implies #[trigger] blocks[place_in(size, x, k, z)]
            == Block::Air by {
            assert(place_in(size, x, k, z) == i - y + k);
            if k <= layer {
                assert(blocks[i - y + k] == Block::Air);
            }
        }
    }
    if y <= max_top + 1 && (forall|k: int|
        y <= k < size.2 ==> #[trigger] blocks[place_in(size, x, k, z)] == Block::Air) {
        assert forall|k: int| y <= k <= layer implies #[trigger] blocks[i - y + k]
            == Block::Air by {
            assert(place_in(size, x, k, z) == i - y + k);
        }
    }
}

} // verus!
