//! Draw batches: runs of faces that are drawn or left out together.

use crate::render::face::Quad;
use crate::world::block::Block;
use vstd::prelude::*;

verus! {

/// Indices of a batch.
pub const INDICES_PER_BATCH: usize = 1536;

/// The material code of water.
pub const WATER_MATERIAL: u32 = 1;

/// A run of indices. Batches follow the order of the mesh.
#[derive(Clone, Copy, Debug, PartialEq, Eq, Structural)]
pub struct DrawBatch {
    pub start: u32,
    pub end: u32,
    pub has_water: bool,
    pub casts_shadow: bool,
}

/// Whether some index of a run belongs to a vertex of water, or to one that is not.
pub open spec fn touches_material(
    materials: Seq<u32>,
    indices: Seq<u32>,
    from: int,
    to: int,
    water: bool,
) -> bool {
    exists|i: int|
        from <= i < to && (materials[#[trigger] indices[i] as int] == WATER_MATERIAL) == water
}

/// Whether a batch is the run of indices between two places. Water casts no shadow.
pub open spec fn is_batch(
    materials: Seq<u32>,
    indices: Seq<u32>,
    from: int,
    to: int,
    batch: DrawBatch,
) -> bool {
    &&& batch.start == from
    &&& batch.end == to
    &&& batch.has_water == touches_material(materials, indices, from, to, true)
    &&& batch.casts_shadow == touches_material(materials, indices, from, to, false)
}

/// Where a batch ends.
pub open spec fn batch_end(total: int, k: int) -> int {
    if (k + 1) * INDICES_PER_BATCH <= total {
        (k + 1) * INDICES_PER_BATCH
    } else {
        total
    }
}

/// Whether batches are those of a mesh: full ones, and a shorter one for the rest.
pub open spec fn are_batches(
    materials: Seq<u32>,
    indices: Seq<u32>,
    batches: Seq<DrawBatch>,
) -> bool {
    &&& batches.len() * INDICES_PER_BATCH >= indices.len()
    &&& batches.len() > 0 ==> (batches.len() - 1) * INDICES_PER_BATCH < indices.len()
    &&& forall|k: int|
        0 <= k < batches.len() ==> is_batch(
            materials,
            indices,
            k * INDICES_PER_BATCH,
            batch_end(indices.len() as int, k),
            #[trigger] batches[k],
        )
}

fn one_batch(materials: &Vec<u32>, indices: &Vec<u32>, from: usize, to: usize) -> (r: DrawBatch)
    requires
        from <= to <= indices@.len(),
        indices@.len() <= u32::MAX,
        forall|i: int| 0 <= i < indices@.len() ==> #[trigger] indices@[i] < materials@.len(),
    ensures
        is_batch(materials@, indices@, from as int, to as int, r),
{
    let mut has_water = false;
    let mut casts_shadow = false;
    let mut i: usize = from;
    while i < to
        invariant
            from <= i <= to <= indices@.len(),
            forall|i: int| 0 <= i < indices@.len() ==> #[trigger] indices@[i] < materials@.len(),
            has_water == touches_material(materials@, indices@, from as int, i as int, true),
            casts_shadow == touches_material(materials@, indices@, from as int, i as int, false),
        decreases to - i,
    {
        let index: usize = indices[i] as usize;
        let ghost here = indices@[i as int];
        assert(here < materials@.len());
        proof {
            lemma_touch_step(materials@, indices@, from as int, i as int, true);
            lemma_touch_step(materials@, indices@, from as int, i as int, false);
        }
        if materials[index] == WATER_MATERIAL {
            has_water = true;
        } else {
            casts_shadow = true;
        }
        i += 1;
    }
    DrawBatch { start: from as u32, end: to as u32, has_water, casts_shadow }
}

proof fn lemma_touch_step(
    materials: Seq<u32>,
    indices: Seq<u32>,
    from: int,
    to: int,
    water: bool,
)
    requires
        from <= to < indices.len(),
    ensures
        touches_material(materials, indices, from, to + 1, water) == (touches_material(
            materials,
            indices,
            from,
            to,
            water,
        ) || (materials[indices[to] as int] == WATER_MATERIAL) == water),
{
    if touches_material(materials, indices, from, to, water) {
        let i = choose|i: int|
            from <= i < to && (materials[#[trigger] indices[i] as int] == WATER_MATERIAL) == water;
        assert(from <= i < to + 1);
    }
}

/// Splits the indices of a mesh into batches.
pub fn mesh_batches(materials: &Vec<u32>, indices: &Vec<u32>) -> (r: Vec<DrawBatch>)
    requires
        indices@.len() <= u32::MAX,
        forall|i: int| 0 <= i < indices@.len() ==> #[trigger] indices@[i] < materials@.len(),
    ensures
        are_batches(materials@, indices@, r@),
{
    let mut batches: Vec<DrawBatch> = Vec::new();
    let mut from: usize = 0;
    while from < indices.len()
        invariant
            from <= indices@.len(),
            indices@.len() <= u32::MAX,
            forall|i: int| 0 <= i < indices@.len() ==> #[trigger] indices@[i] < materials@.len(),
            from == batches@.len() * INDICES_PER_BATCH || from == indices@.len(),
            batches@.len() * INDICES_PER_BATCH >= from,
            batches@.len() > 0 ==> (batches@.len() - 1) * INDICES_PER_BATCH < indices@.len(),
            forall|k: int|
                0 <= k < batches@.len() ==> is_batch(
                    materials@,
                    indices@,
                    k * INDICES_PER_BATCH,
                    batch_end(indices@.len() as int, k),
                    #[trigger] batches@[k],
                ),
        decreases indices@.len() - from,
    {
        let to: usize = if indices.len() - from >= INDICES_PER_BATCH {
            from + INDICES_PER_BATCH
        } else {
            indices.len()
        };
        let batch = one_batch(materials, indices, from, to);
        assert(to == batch_end(indices@.len() as int, batches@.len() as int));
        batches.push(batch);
        from = to;
    }
    batches
}

/// Ranges with one more, which joins the last where that ends at its start.
pub open spec fn joined(ranges: Seq<(u32, u32)>, batch: DrawBatch) -> Seq<(u32, u32)> {
    if ranges.len() > 0 && ranges.last().1 == batch.start {
        ranges.drop_last().push((ranges.last().0, batch.end))
    } else {
        ranges.push((batch.start, batch.end))
    }
}

/// Whether a batch is drawn: it is in view, and casts a shadow where only those count.
pub open spec fn is_drawn(batch: DrawBatch, in_view: bool, shadows: bool) -> bool {
    in_view && (!shadows || batch.casts_shadow)
}

/// The ranges of the first `n` batches that are drawn, neighbours joined.
pub open spec fn drawn_ranges(
    batches: Seq<DrawBatch>,
    in_view: Seq<bool>,
    shadows: bool,
    n: nat,
) -> Seq<(u32, u32)>
    decreases n,
{
    if n == 0 {
        Seq::empty()
    } else {
        let before = drawn_ranges(batches, in_view, shadows, (n - 1) as nat);
        if is_drawn(batches[n - 1], in_view[n - 1], shadows) {
            joined(before, batches[n - 1])
        } else {
            before
        }
    }
}

/// The ranges of indices to draw, in order, neighbours joined.
pub fn visible_ranges(batches: &Vec<DrawBatch>, in_view: &Vec<bool>, shadows: bool) -> (r: Vec<
    (u32, u32),
>)
    requires
        in_view@.len() == batches@.len(),
    ensures
        r@ == drawn_ranges(batches@, in_view@, shadows, batches@.len()),
{
    let mut ranges: Vec<(u32, u32)> = Vec::new();
    let mut n: usize = 0;
    while n < batches.len()
        invariant
            n <= batches@.len(),
            in_view@.len() == batches@.len(),
            ranges@ == drawn_ranges(batches@, in_view@, shadows, n as nat),
        decreases batches@.len() - n,
    {
        let batch = batches[n];
        if in_view[n] && (!shadows || batch.casts_shadow) {
            let count: usize = ranges.len();
            if count > 0 && ranges[count - 1].1 == batch.start {
                let start: u32 = ranges[count - 1].0;
                let ghost before = ranges@;
                ranges.set(count - 1, (start, batch.end));
                assert(ranges@ =~= before.drop_last().push((start, batch.end)));
            } else {
                ranges.push((batch.start, batch.end));
            }
        }
        n += 1;
    }
    ranges
}

/// Whether ranges draw an index.
pub open spec fn draws(ranges: Seq<(u32, u32)>, index: int) -> bool {
    exists|k: int| 0 <= k < ranges.len() && (#[trigger] ranges[k]).0 <= index < ranges[k].1
}

/// Whether one of the first `n` batches that are drawn has an index.
pub open spec fn is_wanted(
    batches: Seq<DrawBatch>,
    in_view: Seq<bool>,
    shadows: bool,
    n: nat,
    index: int,
) -> bool {
    exists|k: int|
        0 <= k < n && is_drawn(#[trigger] batches[k], in_view[k], shadows) && batches[k].start
            <= index < batches[k].end
}

/// The ranges draw the indices of the batches that are drawn, and no others.
pub proof fn ranges_draw_what_is_wanted(
    batches: Seq<DrawBatch>,
    in_view: Seq<bool>,
    shadows: bool,
    n: nat,
    index: int,
)
    requires
        n <= batches.len(),
        in_view.len() == batches.len(),
        forall|k: int| 0 <= k < batches.len() ==> (#[trigger] batches[k]).start <= batches[k].end,
    ensures
        draws(drawn_ranges(batches, in_view, shadows, n), index) == is_wanted(
            batches,
            in_view,
            shadows,
            n,
            index,
        ),
        forall|k: int|
            0 <= k < drawn_ranges(batches, in_view, shadows, n).len() ==> (
            #[trigger] drawn_ranges(batches, in_view, shadows, n)[k]).0 <= drawn_ranges(
                batches,
                in_view,
                shadows,
                n,
            )[k].1,
    decreases n,
{
    if n > 0 {
        let m = (n - 1) as nat;
        ranges_draw_what_is_wanted(batches, in_view, shadows, m, index);
        let before = drawn_ranges(batches, in_view, shadows, m);
        let after = drawn_ranges(batches, in_view, shadows, n);
        let batch = batches[n - 1];
        if is_wanted(batches, in_view, shadows, m, index) {
            let k = choose|k: int|
                0 <= k < m && is_drawn(#[trigger] batches[k], in_view[k], shadows)
                    && batches[k].start <= index < batches[k].end;
            assert(0 <= k < n);
        }
        if is_drawn(batch, in_view[n - 1], shadows) {
            let last = after.len() - 1;
            assert(after[last].1 == batch.end);
            if draws(before, index) {
                let k = choose|k: int|
                    0 <= k < before.len() && (#[trigger] before[k]).0 <= index < before[k].1;
                assert(after[k].0 <= index < after[k].1);
            }
            if batch.start <= index < batch.end {
                if before.len() > 0 && before.last().1 == batch.start {
                    assert(before[before.len() - 1].0 <= before[before.len() - 1].1);
                }
                assert(after[last].0 <= index < after[last].1);
            }
            if draws(after, index) {
                let k = choose|k: int|
                    0 <= k < after.len() && (#[trigger] after[k]).0 <= index < after[k].1;
                if !(batch.start <= index < batch.end) {
                    if k < before.len() {
                        assert(before[k].0 <= index < before[k].1);
                    }
                }
            }
            assert forall|k: int| 0 <= k < after.len() implies (#[trigger] after[k]).0
                <= after[k].1 by {
                if k < before.len() {
                    assert(before[k].0 <= before[k].1);
                }
            }
        }
    }
}

/// The corner of a face that an index of its two triangles names.
pub open spec fn triangle_corner(i: int) -> int {
    if i == 0 || i == 3 {
        0
    } else if i == 1 {
        1
    } else if i == 2 || i == 4 {
        2
    } else {
        3
    }
}

/// The indices of the triangles of faces: two for each, over its four corners.
pub fn face_indices(faces: usize) -> (r: Vec<u32>)
    requires
        6 * faces <= u32::MAX,
    ensures
        r@.len() == 6 * faces,
        forall|i: int|
            0 <= i < r@.len() ==> #[trigger] r@[i] == 4 * (i / 6) + triangle_corner(i % 6),
{
    let mut out: Vec<u32> = Vec::new();
    let mut n: usize = 0;
    while n < faces
        invariant
            n <= faces,
            6 * faces <= u32::MAX,
            out@.len() == 6 * n,
            forall|i: int|
                0 <= i < out@.len() ==> #[trigger] out@[i] == 4 * (i / 6) + triangle_corner(i % 6),
        decreases faces - n,
    {
        let base: u32 = 4 * (n as u32);
        out.push(base);
        out.push(base + 1);
        out.push(base + 2);
        out.push(base);
        out.push(base + 2);
        out.push(base + 3);
        n += 1;
    }
    out
}

/// The material codes of the corners of faces.
pub fn face_materials(quads: &Vec<Quad>) -> (r: Vec<u32>)
    requires
        4 * quads@.len() <= usize::MAX,
    ensures
        r@.len() == 4 * quads@.len(),
        forall|i: int|
            0 <= i < r@.len() ==> #[trigger] r@[i] == quads@[i / 4].block.spec_material(),
{
    let mut out: Vec<u32> = Vec::new();
    let mut n: usize = 0;
    while n < quads.len()
        invariant
            n <= quads@.len(),
            out@.len() == 4 * n,
            forall|i: int|
                0 <= i < out@.len() ==> #[trigger] out@[i] == quads@[i / 4].block.spec_material(),
        decreases quads@.len() - n,
    {
        let material: u32 = quads[n].block.render_material();
        out.push(material);
        out.push(material);
        out.push(material);
        out.push(material);
        n += 1;
    }
    out
}

/// Batches cut all indices into pieces that follow each other, from the first to the last,
/// and none is larger than it may be.
pub proof fn batches_follow_each_other(
    materials: Seq<u32>,
    indices: Seq<u32>,
    batches: Seq<DrawBatch>,
    k: int,
)
    requires
        are_batches(materials, indices, batches),
        0 <= k < batches.len(),
    ensures
        batches[0].start == 0,
        k + 1 < batches.len() ==> batches[k + 1].start == batches[k].end,
        batches[batches.len() - 1].end == indices.len(),
        batches[k].start < batches[k].end,
        batches[k].end - batches[k].start <= INDICES_PER_BATCH,
{
    let n = batches.len() - 1;
    assert(is_batch(
        materials,
        indices,
        0 * INDICES_PER_BATCH as int,
        batch_end(indices.len() as int, 0),
        batches[0],
    ));
    assert(batches[k].start == k * INDICES_PER_BATCH);
    assert(batches[n].start == n * INDICES_PER_BATCH);
    if k + 1 < batches.len() {
        assert(batches[k + 1].start == (k + 1) * INDICES_PER_BATCH);
    }
    assert(k * INDICES_PER_BATCH <= n * INDICES_PER_BATCH);
}

/// A batch casts a shadow exactly if some of it is not water, and has water exactly if some
/// of it is.
pub proof fn water_casts_no_shadow(
    materials: Seq<u32>,
    indices: Seq<u32>,
    batches: Seq<DrawBatch>,
    k: int,
    i: int,
)
    requires
        are_batches(materials, indices, batches),
        0 <= k < batches.len(),
        batches[k].start <= i < batches[k].end,
    ensures
        materials[indices[i] as int] == Block::Water.spec_material() ==> batches[k].has_water,
        materials[indices[i] as int] != Block::Water.spec_material() ==> batches[k].casts_shadow,
        (forall|j: int|
            batches[k].start <= j < batches[k].end ==> materials[#[trigger] indices[j] as int]
                == Block::Water.spec_material()) ==> !batches[k].casts_shadow,
        (forall|j: int|
            batches[k].start <= j < batches[k].end ==> materials[#[trigger] indices[j] as int]
                != Block::Water.spec_material()) ==> !batches[k].has_water,
{
}

/// What is in view is drawn, and in the shadow map only what casts a shadow; what is out of
/// view is not.
pub proof fn batches_in_view_are_drawn(batch: DrawBatch)
    ensures
        is_drawn(batch, true, false),
        is_drawn(batch, true, true) <==> batch.casts_shadow,
        !is_drawn(batch, false, false),
        !is_drawn(batch, false, true),
{
}

/// Ranges that meet are drawn as one: none begins where the one before it ends.
pub proof fn ranges_that_meet_are_joined(
    batches: Seq<DrawBatch>,
    in_view: Seq<bool>,
    shadows: bool,
    n: nat,
    k: int,
)
    requires
        n <= batches.len(),
        in_view.len() == batches.len(),
        forall|j: int| 0 <= j < batches.len() ==> (#[trigger] batches[j]).start < batches[j].end,
        0 < k < drawn_ranges(batches, in_view, shadows, n).len(),
    ensures
        drawn_ranges(batches, in_view, shadows, n)[k].0 != drawn_ranges(
            batches,
            in_view,
            shadows,
            n,
        )[k - 1].1,
    decreases n,
{
    if n > 0 {
        let before = drawn_ranges(batches, in_view, shadows, (n - 1) as nat);
        if k < before.len() {
            ranges_that_meet_are_joined(batches, in_view, shadows, (n - 1) as nat, k);
        }
    }
}

/// The two triangles of a face have its four corners: one lies on each side of the line
/// from the first corner to the third.
pub proof fn triangles_cover_the_face(corner: int)
    requires
        0 <= corner < 4,
    ensures
        exists|i: int| 0 <= i < 6 && #[trigger] triangle_corner(i) == corner,
        triangle_corner(0) == 0 && triangle_corner(2) == 2,
        triangle_corner(3) == 0 && triangle_corner(4) == 2,
        triangle_corner(1) + triangle_corner(5) == 4,
        triangle_corner(1) < triangle_corner(2) < triangle_corner(5),
{
    assert(triangle_corner(0) == 0 && triangle_corner(1) == 1 && triangle_corner(2) == 2
        && triangle_corner(5) == 3);
}

} // verus!
