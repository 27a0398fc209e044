//! What the renderer keeps in graphics memory.

use crate::render::probe::TEXELS;
use vstd::arithmetic::power2::{lemma2_to64, lemma_pow2_pos, lemma_pow2_unfold, pow2};
use vstd::prelude::*;

verus! {

/// Edge of the shadow map in texels.
pub const SHADOW_SIZE: u32 = 2048;

/// Buffers and textures of the renderer, in numbers and bytes.
#[derive(Clone, Copy, Debug, PartialEq, Eq)]
pub struct GpuDebugStats {
    pub surface_width: u32,
    pub surface_height: u32,
    pub vertex_count: u32,
    pub index_count: u32,
    pub transparent_vertex_count: u32,
    pub transparent_index_count: u32,
    pub vertex_buffer_bytes: u64,
    pub index_buffer_bytes: u64,
    pub transparent_vertex_buffer_bytes: u64,
    pub transparent_index_buffer_bytes: u64,
    pub visible_indices: u32,
    pub shadow_indices: u32,
    pub scene_draw_calls: usize,
    pub shadow_draw_calls: usize,
    pub last_mesh_upload_bytes: u64,
    pub highlight_buffer_bytes: u64,
    pub scene_texture_bytes: u64,
    pub depth_texture_bytes: u64,
    pub shadow_texture_bytes: u64,
    pub atlas_texture_bytes: u64,
    pub probe_texture_bytes: u64,
}

impl Default for GpuDebugStats {
    fn default() -> (r: Self)
        ensures
            r.mesh_bytes() == 0,
            r.total_bytes() == 0,
            r.index_count == 0,
            r.transparent_index_count == 0,
            r.surface_width == 0,
            r.surface_height == 0,
            r.vertex_count == 0,
            r.transparent_vertex_count == 0,
            r.visible_indices == 0,
            r.shadow_indices == 0,
            r.scene_draw_calls == 0,
            r.shadow_draw_calls == 0,
            r.last_mesh_upload_bytes == 0,
    {
        GpuDebugStats {
            surface_width: 0,
            surface_height: 0,
            vertex_count: 0,
            index_count: 0,
            transparent_vertex_count: 0,
            transparent_index_count: 0,
            vertex_buffer_bytes: 0,
            index_buffer_bytes: 0,
            transparent_vertex_buffer_bytes: 0,
            transparent_index_buffer_bytes: 0,
            visible_indices: 0,
            shadow_indices: 0,
            scene_draw_calls: 0,
            shadow_draw_calls: 0,
            last_mesh_upload_bytes: 0,
            highlight_buffer_bytes: 0,
            scene_texture_bytes: 0,
            depth_texture_bytes: 0,
            shadow_texture_bytes: 0,
            atlas_texture_bytes: 0,
            probe_texture_bytes: 0,
        }
    }
}

impl GpuDebugStats {
    /// Bytes of the mesh buffers.
    pub open spec fn mesh_bytes(self) -> int {
        self.vertex_buffer_bytes + self.index_buffer_bytes + self.transparent_vertex_buffer_bytes
            + self.transparent_index_buffer_bytes
    }

    /// Bytes of all buffers and textures.
    pub open spec fn total_bytes(self) -> int {
        self.mesh_bytes() + self.highlight_buffer_bytes + self.scene_texture_bytes
            + self.depth_texture_bytes + self.shadow_texture_bytes + self.atlas_texture_bytes
            + self.probe_texture_bytes
    }

    /// Bytes of the mesh buffers.
    pub fn mesh_buffer_bytes(self) -> (r: u64)
        requires
            self.mesh_bytes() <= u64::MAX,
        ensures
            r == self.mesh_bytes(),
    {
        self.vertex_buffer_bytes + self.index_buffer_bytes + self.transparent_vertex_buffer_bytes
            + self.transparent_index_buffer_bytes
    }

    /// Bytes of all buffers and textures.
    pub fn total_gpu_bytes(self) -> (r: u64)
        requires
            self.total_bytes() <= u64::MAX,
        ensures
            r == self.total_bytes(),
    {
        self.mesh_buffer_bytes() + self.highlight_buffer_bytes + self.scene_texture_bytes
            + self.depth_texture_bytes + self.shadow_texture_bytes + self.atlas_texture_bytes
            + self.probe_texture_bytes
    }

    /// Triangles that are drawn solid.
    pub fn opaque_triangles(self) -> (r: u32)
        ensures
            r == self.index_count / 3,
    {
        self.index_count / 3
    }

    /// Triangles that are drawn blended.
    pub fn transparent_triangles(self) -> (r: u32)
        ensures
            r == self.transparent_index_count / 3,
    {
        self.transparent_index_count / 3
    }

    /// Sets the bytes of the textures: the scene in its format and its depth for a
    /// surface, the shadow map, the probes, and the atlas, which has colours, normals
    /// and roughness, each with smaller copies that take a third more.
    pub fn set_textures(&mut self, width: u32, height: u32, color_bytes: u32, atlas_side: u32)
        requires
            width * height * color_bytes <= u64::MAX,
            width * height * 4 <= u64::MAX,
            atlas_side <= 0x2000_0000,
        ensures
            *final(self) == (GpuDebugStats {
                surface_width: width,
                surface_height: height,
                scene_texture_bytes: (width * height * color_bytes) as u64,
                depth_texture_bytes: (width * height * 4) as u64,
                shadow_texture_bytes: 16_777_216,
                atlas_texture_bytes: (16 * (atlas_side * atlas_side)) as u64,
                probe_texture_bytes: (8 * TEXELS) as u64,
                ..*old(self)
            }),
    {
        proof {
            assert(0 <= width * height <= u64::MAX) by (nonlinear_arith)
                requires
                    0 <= width <= 0xffff_ffff,
                    0 <= height <= 0xffff_ffff,
            ;
            assert(atlas_side * atlas_side <= 0x0400_0000_0000_0000) by (nonlinear_arith)
                requires
                    0 <= atlas_side <= 0x2000_0000,
            ;
        }
        let area: u64 = width as u64 * height as u64;
        let side: u64 = atlas_side as u64;
        self.surface_width = width;
        self.surface_height = height;
        self.scene_texture_bytes = area * color_bytes as u64;
        self.depth_texture_bytes = area * 4;
        let shadow_side: u64 = SHADOW_SIZE as u64;
        assert(shadow_side * shadow_side == 4_194_304) by (nonlinear_arith)
            requires
                shadow_side == 2048,
        ;
        self.shadow_texture_bytes = shadow_side * shadow_side * 4;
        self.atlas_texture_bytes = side * side * 16;
        self.probe_texture_bytes = TEXELS as u64 * 8;
    }
}

/// Whether a number is a power of two.
pub open spec fn is_power(n: int) -> bool
    decreases n,
{
    n == 1 || (n > 1 && n % 2 == 0 && is_power(n / 2))
}

/// The capacity that a buffer needs: what it has, if that is enough, else the least
/// power of two that is enough.
pub fn grown_capacity(needed: u64, capacity: u64) -> (r: u64)
    requires
        needed <= 0x8000_0000_0000_0000,
    ensures
        needed <= capacity ==> r == capacity,
        needed > capacity ==> r >= needed && is_power(r as int) && (r == 1 || r / 2 < needed),
{
    if needed <= capacity {
        return capacity;
    }
    let mut r: u64 = 1;
    while r < needed
        invariant
            needed <= 0x8000_0000_0000_0000,
            is_power(r as int),
            r == 1 || r / 2 < needed,
            r >= 1,
        decreases 0x1_0000_0000_0000_0000 - r,
    {
        r = r * 2;
        assert(r as int / 2 * 2 == r);
    }
    r
}

/// Bytes that the upload of a mesh takes: four vertices and six indices for each face.
pub fn upload_bytes(faces: usize, vertex_bytes: u64) -> (r: u64)
    requires
        faces * (4 * vertex_bytes + 24) <= u64::MAX,
        vertex_bytes <= 0x1_0000,
    ensures
        r == faces * (4 * vertex_bytes + 24),
{
    faces as u64 * (4 * vertex_bytes + 24)
}

/// The total of the lengths of ranges.
pub open spec fn total_length(ranges: Seq<(u32, u32)>) -> int
    decreases ranges.len(),
{
    if ranges.len() == 0 {
        0
    } else {
        total_length(ranges.drop_last()) + (ranges.last().1 - ranges.last().0)
    }
}

/// The indices that ranges draw.
pub fn drawn_indices(ranges: &Vec<(u32, u32)>) -> (r: u64)
    requires
        forall|i: int| 0 <= i < ranges@.len() ==> (#[trigger] ranges@[i]).0 <= ranges@[i].1,
        ranges@.len() <= u32::MAX,
    ensures
        r == total_length(ranges@),
{
    let mut total: u64 = 0;
    let mut i: usize = 0;
    assert(ranges@.take(0) =~= Seq::<(u32, u32)>::empty());
    while i < ranges.len()
        invariant
            i <= ranges@.len(),
            ranges@.len() <= u32::MAX,
            forall|i: int| 0 <= i < ranges@.len() ==> (#[trigger] ranges@[i]).0 <= ranges@[i].1,
            total == total_length(ranges@.take(i as int)),
            total <= i * 0xffff_ffff,
        decreases ranges@.len() - i,
    {
        let (start, end) = ranges[i];
        assert(ranges@[i as int] == (start, end));
        assert(ranges@.take(i + 1).drop_last() =~= ranges@.take(i as int));
        assert(i * 0xffff_ffff + 0xffff_ffff <= 0xffff_ffff * 0xffff_ffff) by (nonlinear_arith)
            requires
                i + 1 <= 0xffff_ffff,
        ;
        total = total + (end - start) as u64;
        i += 1;
    }
    assert(ranges@.take(i as int) =~= ranges@);
    total
}

/// The mip levels of a texture: one for each halving down to a single texel.
pub open spec fn halvings(side: int) -> int
    decreases side,
{
    if side <= 1 {
        1
    } else {
        1 + halvings(side / 2)
    }
}

/// The mip levels of a texture.
pub fn mip_levels(width: u32, height: u32) -> (r: u32)
    ensures
        r == halvings(if width >= height {
            width as int
        } else {
            height as int
        }),
{
    let longer: u32 = if width >= height { width } else { height };
    let mut side: u32 = longer;
    let mut levels: u32 = 1;
    while side > 1
        invariant
            1 <= levels <= 32,
            levels + halvings(side as int) == halvings(longer as int) + 1,
            side as int * levels <= 0xffff_ffff,
        decreases side,
    {
        proof {
            lemma2_to64();
            lemma_halvings_few(longer as int, 32);
            assert(halvings(side as int) >= 2) by {
                lemma_halvings_some(side as int / 2);
            }
            assert((side as int / 2) * (levels + 1) <= side * levels) by (nonlinear_arith)
                requires
                    side >= 2,
                    levels >= 1,
            ;
        }
        side = side / 2;
        levels = levels + 1;
    }
    levels
}

proof fn lemma_halvings_some(side: int)
    ensures
        halvings(side) >= 1,
    decreases side,
{
    if side > 1 {
        lemma_halvings_some(side / 2);
    }
}

proof fn lemma_halvings_few(side: int, n: int)
    requires
        n >= 1,
        side < pow2(n as nat),
    ensures
        halvings(side) <= n,
    decreases side,
{
    if side > 1 {
        lemma_pow2_unfold(n as nat);
        if n == 1 {
            lemma2_to64();
        } else {
            lemma_halvings_few(side / 2, n - 1);
        }
    }
}

/// There is a level for each size from the full one down to a single pixel: halving the
/// longer side once less often than there are levels leaves one pixel.
pub proof fn levels_end_at_one_pixel(side: int)
    requires
        side >= 1,
    ensures
        halvings(side) >= 1,
        pow2((halvings(side) - 1) as nat) <= side < pow2(halvings(side) as nat),
    decreases side,
{
    lemma2_to64();
    if side > 1 {
        levels_end_at_one_pixel(side / 2);
        let n = halvings(side / 2) as nat;
        lemma_pow2_unfold(n);
        lemma_pow2_unfold(n + 1);
    }
}

/// Everything in graphics memory counts once: more of anything is as much more in total.
pub proof fn all_memory_counts(a: GpuDebugStats, b: GpuDebugStats)
    ensures
        b.mesh_bytes() - a.mesh_bytes() == (b.vertex_buffer_bytes - a.vertex_buffer_bytes) + (
        b.index_buffer_bytes - a.index_buffer_bytes) + (b.transparent_vertex_buffer_bytes
            - a.transparent_vertex_buffer_bytes) + (b.transparent_index_buffer_bytes
            - a.transparent_index_buffer_bytes),
        b.total_bytes() - a.total_bytes() == (b.mesh_bytes() - a.mesh_bytes()) + (
        b.highlight_buffer_bytes - a.highlight_buffer_bytes) + (b.scene_texture_bytes
            - a.scene_texture_bytes) + (b.depth_texture_bytes - a.depth_texture_bytes) + (
        b.shadow_texture_bytes - a.shadow_texture_bytes) + (b.atlas_texture_bytes
            - a.atlas_texture_bytes) + (b.probe_texture_bytes - a.probe_texture_bytes),
        a.total_bytes() >= a.mesh_bytes() >= 0,
{
}

/// A capacity that has grown is a power of two.
pub proof fn powers_are_powers_of_two(n: int)
    ensures
        is_power(n) <==> exists|k: nat| n == #[trigger] pow2(k),
    decreases n,
{
    lemma2_to64();
    if is_power(n) {
        if n == 1 {
            assert(n == pow2(0));
        } else {
            powers_are_powers_of_two(n / 2);
            let k = choose|k: nat| n / 2 == #[trigger] pow2(k);
            lemma_pow2_unfold(k + 1);
            assert(n == pow2(k + 1));
        }
    }
    if exists|k: nat| n == #[trigger] pow2(k) {
        let k = choose|k: nat| n == #[trigger] pow2(k);
        if k > 0 {
            lemma_pow2_unfold(k);
            lemma_pow2_pos((k - 1) as nat);
            assert(n / 2 == pow2((k - 1) as nat));
            powers_are_powers_of_two(n / 2);
        }
    }
}

/// Ranges draw as many indices as they are long, all together.
pub proof fn lengths_add_up(ranges: Seq<(u32, u32)>, range: (u32, u32))
    ensures
        total_length(ranges.push(range)) == total_length(ranges) + range.1 - range.0,
        total_length(Seq::empty()) == 0,
{
    assert(ranges.push(range).drop_last() =~= ranges);
}

} // verus!
