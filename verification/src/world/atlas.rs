//! The texture atlas: where each tile lies, and which tile a face shows.

use crate::render::stats::{halvings, mip_levels};
use crate::world::block::{
    name_views, position_of, textures_are_distinct, textures_below, textures_cover_faces, Block,
    Face, ALL, COUNT,
};
use crate::world::names::text_from_chars;
use crate::world::picture::{blended, has_pixel, pixel_in, pixels_of, size_of, Picture};
use vstd::arithmetic::div_mod::{
    lemma_fundamental_div_mod, lemma_fundamental_div_mod_converse, lemma_mod_bound,
};
use vstd::prelude::*;

verus! {

/// Edge of a tile in pixels.
pub const TILE: u32 = 512;

/// Pixels around a tile that repeat its edge, so that filtering takes nothing from
/// its neighbours.
pub const GUTTER: u32 = 8;

/// Distance of two tiles in pixels.
pub const STRIDE: u32 = 528;

/// The place of a texture file in the atlas.
pub open spec fn tile_place(name: Seq<char>) -> int {
    textures_below(COUNT as nat).index_of(name)
}

/// The tile that a face of a block shows.
pub open spec fn tile_number(block: Block, face: Face) -> u32 {
    tile_place(block.spec_tile(face)@) as u32
}

/// The place of a kind of face among the three.
pub open spec fn face_place(face: Face) -> int {
    match face {
        Face::Top => 0,
        Face::Side => 1,
        Face::Bottom => 2,
    }
}

/// The tile of each face of each block.
pub struct TileTable {
    numbers: Vec<u32>,
}

impl TileTable {
    /// Whether the table is complete.
    pub closed spec fn wf(&self) -> bool {
        &&& self.numbers@.len() == 3 * COUNT
        &&& forall|block: Block, face: Face|
            block != Block::Air ==> self.numbers@[3 * block.spec_id() + face_place(face)]
                == #[trigger] tile_number(block, face)
    }

    /// The tiles of all faces.
    pub fn new() -> (r: TileTable)
        ensures
            r.wf(),
    {
        let names = Block::unique_textures();
        let mut numbers: Vec<u32> = Vec::new();
        let mut i: usize = 0;
        while i < COUNT
            invariant
                i <= COUNT,
                numbers@.len() == 3 * i,
                name_views(names@) == textures_below(COUNT as nat),
                forall|block: Block, face: Face|
                    block != Block::Air && block.spec_id() < i ==> numbers@[3 * block.spec_id()
                        + face_place(face)] == #[trigger] tile_number(block, face),
            decreases COUNT - i,
        {
            let block = ALL[i];
            let top: u32 = tile_of(&names, block, Face::Top);
            let side: u32 = tile_of(&names, block, Face::Side);
            let bottom: u32 = tile_of(&names, block, Face::Bottom);
            let ghost had = numbers@;
            numbers.push(top);
            numbers.push(side);
            numbers.push(bottom);
            proof {
                assert forall|other: Block, face: Face|
                    other != Block::Air && other.spec_id() < i + 1 implies numbers@[3
                    * other.spec_id() + face_place(face)] == #[trigger] tile_number(other, face) by {
                    crate::world::block::ids_are_places(other, block);
                    if other.spec_id() < i {
                        let k = 3 * other.spec_id() + face_place(face);
                        assert(numbers@[k] == had[k]);
                    }
                }
            }
            i += 1;
        }
        proof {
            assert forall|block: Block, face: Face| block != Block::Air implies numbers@[3
                * block.spec_id() + face_place(face)] == #[trigger] tile_number(block, face) by {
                crate::world::block::ids_are_places(block, block);
            }
        }
        TileTable { numbers }
    }

    /// The tile that a face of a block shows.
    pub fn number(&self, block: Block, face: Face) -> (r: u32)
        requires
            self.wf(),
            block != Block::Air,
        ensures
            r == tile_number(block, face),
    {
        proof {
            crate::world::block::ids_are_places(block, block);
        }
        let place: usize = match face {
            Face::Top => 0,
            Face::Side => 1,
            Face::Bottom => 2,
        };
        self.numbers[3 * block.id() as usize + place]
    }
}

fn tile_of(names: &Vec<&'static str>, block: Block, face: Face) -> (r: u32)
    requires
        name_views(names@) == textures_below(COUNT as nat),
    ensures
        block != Block::Air ==> r == tile_number(block, face),
{
    match position_of(names, block.tile(face)) {
        Some(place) => {
            proof {
                lemma_tile_place(names@, place as int);
            }
            place as u32
        },
        None => {
            proof {
                if block != Block::Air {
                    textures_cover_faces(block, face);
                }
            }
            0
        },
    }
}

/// The place at which a name is listed is its place in the atlas.
pub proof fn lemma_tile_place(names: Seq<&'static str>, place: int)
    requires
        name_views(names) == textures_below(COUNT as nat),
        0 <= place < names.len(),
    ensures
        tile_place(names[place]@) == place,
        place < 3 * COUNT,
{
    let all = textures_below(COUNT as nat);
    textures_are_distinct(COUNT as nat);
    lemma_textures_few(COUNT as nat);
    assert(all[place] == names[place]@);
    assert(all.contains(names[place]@));
}

proof fn lemma_textures_few(n: nat)
    requires
        n <= COUNT,
    ensures
        textures_below(n).len() <= 3 * n,
    decreases n,
{
    if n > 0 {
        lemma_textures_few((n - 1) as nat);
    }
}

/// A coordinate moved into a tile.
pub open spec fn clamped(v: int) -> int {
    if v < 0 {
        0
    } else if v >= TILE {
        TILE - 1
    } else {
        v
    }
}

/// Whether a place is within the slot at a corner.
pub open spec fn in_slot(x: int, y: int, a: int, b: int) -> bool {
    x <= a < x + STRIDE && y <= b < y + STRIDE
}

/// Whether a picture has a tile in a slot, with its edges repeated around it, and is
/// otherwise as it was.
pub open spec fn holds_tile(now: Picture, was: Picture, tile: Picture, x: int, y: int) -> bool {
    &&& size_of(now) == size_of(was)
    &&& forall|a: int, b: int|
        has_pixel(was, a, b) ==> #[trigger] pixels_of(now)[(a, b)] == if in_slot(x, y, a, b) {
            pixels_of(tile)[(clamped(a - x - GUTTER), clamped(b - y - GUTTER))]
        } else {
            pixels_of(was)[(a, b)]
        }
}

/// Whether a picture is a tile.
pub open spec fn is_tile(tile: Picture) -> bool {
    size_of(tile) == (TILE as int, TILE as int)
}

/// Whether a slot lies within a picture.
pub open spec fn slot_fits(atlas: Picture, x: int, y: int) -> bool {
    x + STRIDE <= size_of(atlas).0 && y + STRIDE <= size_of(atlas).1
}

/// Which pixels of a slot are set while its gutter is being filled: those of the tile,
/// the rows above `row`, and that row up to `column`.
spec fn filled_to(x: int, y: int, row: int, column: int) -> spec_fn(int, int) -> bool {
    |a: int, b: int|
        {
            ||| x + GUTTER <= a < x + GUTTER + TILE && y + GUTTER <= b < y + GUTTER + TILE
            ||| b < y + row
            ||| b == y + row && a < x + column
        }
}

/// Whether a picture has those pixels of a slot that a condition picks, and is
/// otherwise as it was.
spec fn holds_part(
    now: Picture,
    was: Picture,
    tile: Picture,
    x: int,
    y: int,
    part: spec_fn(int, int) -> bool,
) -> bool {
    &&& size_of(now) == size_of(was)
    &&& forall|a: int, b: int|
        has_pixel(was, a, b) ==> #[trigger] pixels_of(now)[(a, b)] == if in_slot(x, y, a, b)
            && part(a, b) {
            pixels_of(tile)[(clamped(a - x - GUTTER), clamped(b - y - GUTTER))]
        } else {
            pixels_of(was)[(a, b)]
        }
}

/// Sets a pixel of a slot to that of the tile's nearest pixel.
fn put_near(
    atlas: &mut Picture,
    tile: &Picture,
    x: u32,
    y: u32,
    c: u32,
    d: u32,
    Ghost(was): Ghost<Picture>,
    Ghost(part): Ghost<spec_fn(int, int) -> bool>,
)
    requires
        is_tile(*tile),
        slot_fits(was, x as int, y as int),
        c < STRIDE,
        d < STRIDE,
        x + STRIDE <= u32::MAX,
        y + STRIDE <= u32::MAX,
        holds_part(*old(atlas), was, *tile, x as int, y as int, part),
    ensures
        holds_part(
            *final(atlas),
            was,
            *tile,
            x as int,
            y as int,
            |a: int, b: int| part(a, b) || (a == x + c && b == y + d),
        ),
{
    let from_x: u32 = if c < GUTTER {
        0
    } else if c >= GUTTER + TILE {
        TILE - 1
    } else {
        c - GUTTER
    };
    let from_y: u32 = if d < GUTTER {
        0
    } else if d >= GUTTER + TILE {
        TILE - 1
    } else {
        d - GUTTER
    };
    let pixel = tile.get(from_x, from_y);
    atlas.put(x + c, y + d, pixel);
}

/// Copies a tile to a slot of an atlas and repeats its edges around it. It is an error
/// if the tile does not fit there.
pub fn copy_with_gutter(atlas: &mut Picture, tile: &Picture, x: u32, y: u32) -> (r: Result<
    (),
    AtlasError,
>)
    requires
        is_tile(*tile),
        x + STRIDE <= u32::MAX,
        y + STRIDE <= u32::MAX,
        x + GUTTER + TILE <= size_of(*old(atlas)).0 && y + GUTTER + TILE <= size_of(*old(atlas)).1
            ==> slot_fits(*old(atlas), x as int, y as int),
    ensures
        r is Ok <==> slot_fits(*old(atlas), x as int, y as int),
        r is Ok ==> holds_tile(*final(atlas), *old(atlas), *tile, x as int, y as int),
        r is Err ==> r->Err_0 is TileDoesNotFit && pixels_of(*final(atlas)) == pixels_of(
            *old(atlas),
        ) && size_of(*final(atlas)) == size_of(*old(atlas)),
{
    let ghost was = *atlas;
    match atlas.copy_from(tile, x + GUTTER, y + GUTTER) {
        Ok(_) => {},
        Err(_) => {
            return Err(AtlasError::TileDoesNotFit);
        },
    }
    assert(holds_part(*atlas, was, *tile, x as int, y as int, filled_to(x as int, y as int, 0, 0)));
    let mut d: u32 = 0;
    while d < STRIDE
        invariant
            d <= STRIDE,
            is_tile(*tile),
            slot_fits(was, x as int, y as int),
            x + STRIDE <= u32::MAX,
            y + STRIDE <= u32::MAX,
            holds_part(
                *atlas,
                was,
                *tile,
                x as int,
                y as int,
                filled_to(x as int, y as int, d as int, 0),
            ),
        decreases STRIDE - d,
    {
        fill_row(atlas, tile, x, y, d, Ghost(was));
        d += 1;
    }
    Ok(())
}

/// Fills a row of the gutter of a slot.
fn fill_row(atlas: &mut Picture, tile: &Picture, x: u32, y: u32, d: u32, Ghost(was): Ghost<Picture>)
    requires
        d < STRIDE,
        is_tile(*tile),
        slot_fits(was, x as int, y as int),
        x + STRIDE <= u32::MAX,
        y + STRIDE <= u32::MAX,
        holds_part(
            *old(atlas),
            was,
            *tile,
            x as int,
            y as int,
            filled_to(x as int, y as int, d as int, 0),
        ),
    ensures
        holds_part(
            *final(atlas),
            was,
            *tile,
            x as int,
            y as int,
            filled_to(x as int, y as int, d + 1, 0),
        ),
{
    let beside = d >= GUTTER && d < GUTTER + TILE;
    let mut c: u32 = 0;
    while c < STRIDE
        invariant
            d < STRIDE,
            c <= STRIDE,
            beside == (GUTTER <= d < GUTTER + TILE),
            is_tile(*tile),
            slot_fits(was, x as int, y as int),
            x + STRIDE <= u32::MAX,
            y + STRIDE <= u32::MAX,
            holds_part(
                *atlas,
                was,
                *tile,
                x as int,
                y as int,
                filled_to(x as int, y as int, d as int, c as int),
            ),
        decreases STRIDE - c,
    {
        let ghost part = filled_to(x as int, y as int, d as int, c as int);
        if beside && c == GUTTER {
            c = GUTTER + TILE;
        } else {
            put_near(atlas, tile, x, y, c, d, Ghost(was), Ghost(part));
            c += 1;
        }
    }
}

/// Why an atlas cannot be made.
#[derive(Clone, Copy, Debug, PartialEq, Eq, Structural)]
pub enum AtlasError {
    /// A tile does not fit at its place.
    TileDoesNotFit,
    /// A texture is not of the size of a tile.
    WrongSize { width: u32, height: u32 },
    /// A texture has fewer bytes than its size takes.
    TooShort,
}

/// Which of the pictures that belong to a texture.
#[derive(Clone, Copy, Debug, PartialEq, Eq, Structural)]
pub enum MapKind {
    Color,
    Normal,
    Roughness,
}

/// The least number whose square is at least as large as another.
pub open spec fn is_side(n: int, side: int) -> bool {
    side >= 0 && side * side >= n && (side == 0 || (side - 1) * (side - 1) < n)
}

/// A picture of an atlas at one of its sizes: its edge in pixels, and its bytes, row by row
/// and four to a pixel.
pub struct Mip {
    pub side: u32,
    pub bytes: Vec<u8>,
}

/// The edge of a picture after a number of halvings: never less than one pixel.
pub open spec fn halved(side: int, times: nat) -> int
    decreases times,
{
    if times == 0 {
        side
    } else {
        let before = halved(side, (times - 1) as nat);
        if before / 2 < 1 {
            1
        } else {
            before / 2
        }
    }
}

/// The tiles of an atlas, packed in rows.
pub struct Atlas {
    /// Edge of the atlas in pixels.
    pub size: u32,
    /// Tiles of a row.
    pub cols: u32,
    pub image: Picture,
    pub normal_image: Picture,
    pub roughness_image: Picture,
    pub tiles: Vec<&'static str>,
}

/// Whether bytes are those of a square picture.
spec fn holds_bytes(bytes: Seq<u8>, picture: Picture, side: int) -> bool {
    forall|x: int, y: int|
        0 <= x < side && 0 <= y < side ==> #[trigger] pixel_in(bytes, side, x, y) == pixels_of(
            picture,
        )[(x, y)]
}

/// A square picture at all its sizes, the largest first.
fn mip_chain(picture: &Picture, size: u32) -> (r: Vec<Mip>)
    requires
        1 <= size <= 0x4000,
        16 * size * size <= isize::MAX,
        size_of(*picture) == (size as int, size as int),
    ensures
        r@.len() == halvings(size as int),
        forall|k: int|
            0 <= k < r@.len() ==> {
                &&& (#[trigger] r@[k]).side == halved(size as int, k as nat)
                &&& r@[k].bytes@.len() >= 4 * r@[k].side * r@[k].side
            },
        forall|x: int, y: int|
            0 <= x < size && 0 <= y < size ==> #[trigger] pixel_in(
                r@[0].bytes@,
                size as int,
                x,
                y,
            ) == pixels_of(*picture)[(x, y)],
{
    let levels: u32 = mip_levels(size, size);
    let mut out: Vec<Mip> = Vec::new();
    let mut side: u32 = size;
    let mut current: Picture = picture.resize(side, side);
    let ghost first = current;
    let mut k: u32 = 0;
    while k < levels
        invariant
            k <= levels,
            levels == halvings(size as int),
            1 <= side <= size <= 0x4000,
            16 * size * size <= isize::MAX,
            size_of(current) == (side as int, side as int),
            side == halved(size as int, k as nat),
            k == 0 ==> current == first,
            out@.len() == k,
            forall|i: int|
                0 <= i < k ==> {
                    &&& (#[trigger] out@[i]).side == halved(size as int, i as nat)
                    &&& out@[i].bytes@.len() >= 4 * out@[i].side * out@[i].side
                },
            k > 0 ==> holds_bytes(out@[0].bytes@, first, size as int),
        decreases levels - k,
    {
        let bytes = current.to_raw();
        proof {
            if k == 0 {
                assert(holds_bytes(bytes@, first, size as int)) by {
                    assert forall|x: int, y: int|
                        0 <= x < size && 0 <= y < size implies #[trigger] pixel_in(
                        bytes@,
                        size as int,
                        x,
                        y,
                    ) == pixels_of(first)[(x, y)] by {
                        assert(has_pixel(first, x, y));
                    }
                }
            }
            assert(16 * side * side <= 16 * size * size) by (nonlinear_arith)
                requires
                    0 <= side <= size,
            ;
        }
        out.push(Mip { side, bytes });
        let next: u32 = if side / 2 < 1 { 1 } else { side / 2 };
        current = current.resize(next, next);
        side = next;
        k += 1;
    }
    proof {
        lemma_some_level(size as int);
        assert forall|x: int, y: int|
            0 <= x < size && 0 <= y < size implies #[trigger] pixel_in(
            out@[0].bytes@,
            size as int,
            x,
            y,
        ) == pixels_of(*picture)[(x, y)] by {
            assert(has_pixel(*picture, x, y));
            assert(pixels_of(first)[(x, y)] == pixels_of(*picture)[(x, y)]);
        }
    }
    out
}

proof fn lemma_some_level(side: int)
    ensures
        halvings(side) >= 1,
    decreases side,
{
    if side > 1 {
        lemma_some_level(side / 2);
    }
}

proof fn lemma_resizable(side: int)
    requires
        0 < side <= 16 * STRIDE,
    ensures
        16 * side * side <= isize::MAX,
        side <= 0x4000,
{
    assert(16 * side * side <= 16 * 8448 * 8448) by (nonlinear_arith)
        requires
            0 < side <= 8448,
    ;
}

impl Atlas {
    /// Whether the atlas has a place for every texture.
    pub open spec fn wf(&self) -> bool {
        &&& name_views(self.tiles@) == textures_below(COUNT as nat)
        &&& is_side(self.tiles@.len() as int, self.cols as int)
        &&& 0 < self.cols <= 16
        &&& self.size == self.cols * STRIDE
        &&& size_of(self.image) == (self.size as int, self.size as int)
        &&& size_of(self.normal_image) == (self.size as int, self.size as int)
        &&& size_of(self.roughness_image) == (self.size as int, self.size as int)
    }

    /// The picture of a kind.
    pub open spec fn picture(&self, kind: MapKind) -> Picture {
        match kind {
            MapKind::Color => self.image,
            MapKind::Normal => self.normal_image,
            MapKind::Roughness => self.roughness_image,
        }
    }

    /// The corner of the slot of a tile.
    pub open spec fn slot(&self, index: int) -> (int, int) {
        ((index % self.cols as int) * STRIDE, (index / self.cols as int) * STRIDE)
    }

    /// An atlas of the right size without tiles.
    pub fn blank() -> (r: Atlas)
        ensures
            r.wf(),
            forall|kind: MapKind, x: int, y: int| #[trigger]
                has_pixel(r.picture(kind), x, y) ==> pixels_of(r.picture(kind))[(x, y)] == (
                    0u8,
                    0u8,
                    0u8,
                    0u8,
                ),
    {
        let tiles = Block::unique_textures();
        proof {
            lemma_textures_few(COUNT as nat);
            textures_cover_faces(Block::Dirt, Face::Top);
            assert(name_views(tiles@).len() == tiles@.len());
        }
        let n: u32 = tiles.len() as u32;
        let mut cols: u32 = 1;
        let mut square: u32 = 1;
        while square < n
            invariant
                1 <= cols <= 16,
                0 < n <= 78,
                square == cols * cols,
                (cols - 1) * (cols - 1) < n,
            decreases 16 - cols,
        {
            proof {
                assert(cols < 9) by (nonlinear_arith)
                    requires
                        cols * cols < 78,
                ;
                let next = cols + 1;
                assert(next * next <= 81) by (nonlinear_arith)
                    requires
                        1 <= next <= 9,
                ;
            }
            cols = cols + 1;
            square = cols * cols;
        }
        proof {
            assert(cols * STRIDE * cols * STRIDE <= 16 * 528 * 16 * 528) by (nonlinear_arith)
                requires
                    0 <= cols <= 16,
            ;
        }
        let size: u32 = cols * STRIDE;
        assert(4 * size * size <= isize::MAX) by (nonlinear_arith)
            requires
                0 <= size <= 16 * 528,
        ;
        Atlas {
            size,
            cols,
            image: Picture::new(size, size),
            normal_image: Picture::new(size, size),
            roughness_image: Picture::new(size, size),
            tiles,
        }
    }

    proof fn lemma_slot_fits(&self, index: int)
        requires
            self.wf(),
            0 <= index < self.tiles@.len(),
        ensures
            0 <= self.slot(index).0,
            0 <= self.slot(index).1,
            self.slot(index).0 + STRIDE <= self.size,
            self.slot(index).1 + STRIDE <= self.size,
            0 <= index % (self.cols as int) < self.cols,
            0 <= index / (self.cols as int),
            (index / (self.cols as int)) * STRIDE <= u32::MAX,
    {
        let cols = self.cols as int;
        lemma_fundamental_div_mod(index, cols);
        let q = index / cols;
        assert(0 <= q < cols) by (nonlinear_arith)
            requires
                index == cols * q + index % cols,
                0 <= index % cols < cols,
                0 <= index < cols * cols,
                cols > 0,
        ;
    }

    /// Puts a picture of a texture at its place, with its edges repeated around it.
    pub fn place(&mut self, index: usize, kind: MapKind, tile: &Picture) -> (r: Result<
        (),
        AtlasError,
    >)
        requires
            old(self).wf(),
            index < old(self).tiles@.len(),
            is_tile(*tile),
        ensures
            r is Ok,
            final(self).wf(),
            final(self).tiles@ == old(self).tiles@,
            holds_tile(
                final(self).picture(kind),
                old(self).picture(kind),
                *tile,
                old(self).slot(index as int).0,
                old(self).slot(index as int).1,
            ),
            forall|other: MapKind|
                other != kind ==> #[trigger] final(self).picture(other) == old(self).picture(other),
    {
        proof {
            self.lemma_slot_fits(index as int);
            lemma_textures_few(COUNT as nat);
            assert(name_views(self.tiles@).len() == self.tiles@.len());
        }
        let x: u32 = (index as u32 % self.cols) * STRIDE;
        let y: u32 = (index as u32 / self.cols) * STRIDE;
        match kind {
            MapKind::Color => copy_with_gutter(&mut self.image, tile, x, y),
            MapKind::Normal => copy_with_gutter(&mut self.normal_image, tile, x, y),
            MapKind::Roughness => copy_with_gutter(&mut self.roughness_image, tile, x, y),
        }
    }

    /// The place of a texture file.
    pub fn tile_index(&self, name: &str) -> (r: Option<usize>)
        requires
            self.wf(),
        ensures
            r is Some <==> textures_below(COUNT as nat).contains(name@),
            r is Some ==> r->0 == tile_place(name@),
    {
        let r = position_of(&self.tiles, name);
        proof {
            if r is Some {
                lemma_tile_place(self.tiles@, r->0 as int);
            }
        }
        r
    }

    /// The place of a texture file of a block.
    pub fn tile_id(&self, block: Block, tile: &str) -> (r: usize)
        requires
            self.wf(),
            textures_below(COUNT as nat).contains(tile@),
        ensures
            r == tile_place(tile@),
    {
        match self.tile_index(tile) {
            Some(index) => index,
            None => 0,
        }
    }

    /// The corners, in pixels, of a part of a tile that is cut into columns and rows.
    pub open spec fn spec_region(
        &self,
        index: int,
        region_x: int,
        region_y: int,
        columns: int,
        rows: int,
    ) -> (int, int, int, int) {
        let slot = self.slot(index);
        let width = TILE as int / columns;
        let height = TILE as int / rows;
        let x = slot.0 + GUTTER + (region_x % columns) * width;
        let y = slot.1 + GUTTER + (region_y % rows) * height;
        (x, y, x + width, y + height)
    }

    /// The corners, in pixels, of a part of a tile that is cut into columns and rows.
    pub fn uv_region(
        &self,
        index: usize,
        region_x: u32,
        region_y: u32,
        columns: u32,
        rows: u32,
    ) -> (r: (u32, u32, u32, u32))
        requires
            self.wf(),
            index < self.tiles@.len(),
            columns > 0,
            rows > 0,
        ensures
            (r.0 as int, r.1 as int, r.2 as int, r.3 as int) == self.spec_region(
                index as int,
                region_x as int,
                region_y as int,
                columns as int,
                rows as int,
            ),
    {
        proof {
            self.lemma_slot_fits(index as int);
            lemma_part_fits(region_x as int, columns as int);
            lemma_part_fits(region_y as int, rows as int);
            lemma_textures_few(COUNT as nat);
            assert(name_views(self.tiles@).len() == self.tiles@.len());
        }
        let tile_x: u32 = (index as u32 % self.cols) * STRIDE + GUTTER;
        let tile_y: u32 = (index as u32 / self.cols) * STRIDE + GUTTER;
        let region_width: u32 = TILE / columns;
        let region_height: u32 = TILE / rows;
        let x: u32 = tile_x + (region_x % columns) * region_width;
        let y: u32 = tile_y + (region_y % rows) * region_height;
        (x, y, x + region_width, y + region_height)
    }

    /// The corners of a tile, in pixels.
    pub fn uv(&self, index: usize) -> (r: (u32, u32, u32, u32))
        requires
            self.wf(),
            index < self.tiles@.len(),
        ensures
            (r.0 as int, r.1 as int, r.2 as int, r.3 as int) == self.spec_region(
                index as int,
                0,
                0,
                1,
                1,
            ),
    {
        self.uv_region(index, 0, 0, 1, 1)
    }

    /// A picture at all its sizes, the largest first: the picture itself, then copies of
    /// half the edge, down to a single pixel. Each copy is made from the one before.
    pub fn mips(&self, kind: MapKind) -> (r: Vec<Mip>)
        requires
            self.wf(),
        ensures
            r@.len() == halvings(self.size as int),
            forall|k: int|
                0 <= k < r@.len() ==> {
                    &&& (#[trigger] r@[k]).side == halved(self.size as int, k as nat)
                    &&& r@[k].bytes@.len() >= 4 * r@[k].side * r@[k].side
                },
            forall|x: int, y: int|
                0 <= x < self.size && 0 <= y < self.size ==> #[trigger] pixel_in(
                    r@[0].bytes@,
                    self.size as int,
                    x,
                    y,
                ) == pixels_of(self.picture(kind))[(x, y)],
    {
        proof {
            lemma_resizable(self.size as int);
        }
        match kind {
            MapKind::Color => mip_chain(&self.image, self.size),
            MapKind::Normal => mip_chain(&self.normal_image, self.size),
            MapKind::Roughness => mip_chain(&self.roughness_image, self.size),
        }
    }

    /// The bytes of a picture, row by row and four to a pixel.
    pub fn bytes(&self, kind: MapKind) -> (r: Vec<u8>)
        requires
            self.wf(),
        ensures
            r@.len() >= 4 * self.size * self.size,
            forall|x: int, y: int|
                0 <= x < self.size && 0 <= y < self.size ==> #[trigger] pixel_in(
                    r@,
                    self.size as int,
                    x,
                    y,
                ) == pixels_of(self.picture(kind))[(x, y)],
    {
        let r = match kind {
            MapKind::Color => self.image.to_raw(),
            MapKind::Normal => self.normal_image.to_raw(),
            MapKind::Roughness => self.roughness_image.to_raw(),
        };
        proof {
            assert forall|x: int, y: int|
                0 <= x < self.size && 0 <= y < self.size implies #[trigger] pixel_in(
                r@,
                self.size as int,
                x,
                y,
            ) == pixels_of(self.picture(kind))[(x, y)] by {
                assert(has_pixel(self.picture(kind), x, y));
            }
        }
        r
    }
}

/// A part of a tile lies within it.
proof fn lemma_part_fits(region: int, count: int)
    requires
        count > 0,
        region >= 0,
    ensures
        0 <= region % count < count,
        0 <= TILE as int / count <= TILE,
        0 <= (region % count) * (TILE as int / count),
        (region % count) * (TILE as int / count) + TILE as int / count <= TILE,
{
    let width = TILE as int / count;
    let place = region % count;
    lemma_fundamental_div_mod(TILE as int, count);
    lemma_mod_bound(region, count);
    lemma_mod_bound(TILE as int, count);
    assert(width >= 0) by (nonlinear_arith)
        requires
            TILE == count * width + TILE as int % count,
            0 <= (TILE as int) % count < count,
            count > 0,
    ;
    assert(place * width + width <= count * width) by (nonlinear_arith)
        requires
            place + 1 <= count,
            width >= 0,
    ;
    assert(0 <= place * width) by (nonlinear_arith)
        requires
            place >= 0,
            width >= 0,
    ;
    assert(width <= count * width) by (nonlinear_arith)
        requires
            count >= 1,
            width >= 0,
    ;
}

/// Every part of a tile lies within the tile, clear of the gutter, and the tiles of
/// different textures do not meet.
pub proof fn tiles_keep_apart(
    atlas: &Atlas,
    index: int,
    other: int,
    region_x: int,
    region_y: int,
    columns: int,
    rows: int,
)
    requires
        atlas.wf(),
        0 <= index < atlas.tiles@.len(),
        0 <= other < atlas.tiles@.len(),
        columns > 0,
        rows > 0,
        region_x >= 0,
        region_y >= 0,
    ensures
        ({
            let r = atlas.spec_region(index, region_x, region_y, columns, rows);
            let slot = atlas.slot(index);
            &&& slot.0 + GUTTER <= r.0 <= r.2 <= slot.0 + GUTTER + TILE
            &&& slot.1 + GUTTER <= r.1 <= r.3 <= slot.1 + GUTTER + TILE
            &&& slot.0 + STRIDE <= atlas.size && slot.1 + STRIDE <= atlas.size
        }),
        index != other ==> {
            let a = atlas.slot(index);
            let b = atlas.slot(other);
            a.0 + STRIDE <= b.0 || b.0 + STRIDE <= a.0 || a.1 + STRIDE <= b.1 || b.1 + STRIDE
                <= a.1
        },
{
    atlas.lemma_slot_fits(index);
    lemma_part_fits(region_x, columns);
    lemma_part_fits(region_y, rows);
    let cols = atlas.cols as int;
    lemma_fundamental_div_mod(index, cols);
    lemma_fundamental_div_mod(other, cols);
}

/// A pixel without its transparency.
pub open spec fn opaque_pixel(p: (u8, u8, u8, u8)) -> (u8, u8, u8, u8) {
    (p.0, p.1, p.2, 255u8)
}

/// Whether a picture is one laid over another, without transparency.
pub open spec fn is_cover(
    r: Picture,
    under: Picture,
    over: Picture,
    rows: int,
    columns: int,
) -> bool {
    &&& size_of(r) == size_of(under)
    &&& forall|x: int, y: int|
        has_pixel(under, x, y) ==> #[trigger] pixels_of(r)[(x, y)] == {
            let p = blended(pixels_of(under)[(x, y)], pixels_of(over)[(x, y)]);
            if y < rows || (y == rows && x < columns) {
                opaque_pixel(p)
            } else {
                p
            }
        }
}

/// Lays turf over soil. A block of it is solid: nothing shows through the turf.
pub fn cover(under: Picture, over: &Picture) -> (r: Picture)
    requires
        is_tile(under),
        is_tile(*over),
    ensures
        is_tile(r),
        is_cover(r, under, *over, TILE as int, 0),
{
    let mut r = under;
    r.overlay(over);
    let mut y: u32 = 0;
    while y < TILE
        invariant
            y <= TILE,
            is_tile(under),
            is_cover(r, under, *over, y as int, 0),
        decreases TILE - y,
    {
        let mut x: u32 = 0;
        while x < TILE
            invariant
                x <= TILE,
                y < TILE,
                is_tile(under),
                is_cover(r, under, *over, y as int, x as int),
            decreases TILE - x,
        {
            let p = r.get(x, y);
            r.put(x, y, (p.0, p.1, p.2, 255));
            x += 1;
        }
        y += 1;
    }
    r
}

/// Takes the bytes of a texture as a tile.
pub fn load_tile(width: u32, height: u32, data: Vec<u8>) -> (r: Result<Picture, AtlasError>)
    ensures
        (width != TILE || height != TILE) ==> r == Err::<Picture, AtlasError>(
            AtlasError::WrongSize { width, height },
        ),
        width == TILE && height == TILE && data@.len() < 4 * TILE * TILE ==> r == Err::<
            Picture,
            AtlasError,
        >(AtlasError::TooShort),
        width == TILE && height == TILE && data@.len() >= 4 * TILE * TILE ==> r is Ok,
        r is Ok ==> is_tile(r->Ok_0) && forall|x: int, y: int|
            0 <= x < TILE && 0 <= y < TILE ==> #[trigger] pixels_of(r->Ok_0)[(x, y)] == pixel_in(
                data@,
                TILE as int,
                x,
                y,
            ),
{
    if width != TILE || height != TILE {
        return Err(AtlasError::WrongSize { width, height });
    }
    match Picture::from_raw(width, height, data) {
        Some(picture) => {
            proof {
                assert forall|x: int, y: int|
                    0 <= x < TILE && 0 <= y < TILE implies #[trigger] pixels_of(picture)[(x, y)]
                    == pixel_in(data@, TILE as int, x, y) by {
                    assert(has_pixel(picture, x, y));
                }
            }
            Ok(picture)
        },
        None => Err(AtlasError::TooShort),
    }
}

/// A file name without its ending.
pub open spec fn stem(name: Seq<char>) -> Seq<char> {
    let ending = ".png"@;
    if name.len() >= ending.len() && name.skip(name.len() - ending.len()) == ending {
        name.take(name.len() - ending.len())
    } else {
        name
    }
}

/// The file of a picture of a texture.
pub open spec fn map_file(name: Seq<char>, kind: MapKind) -> Seq<char> {
    match kind {
        MapKind::Color => name,
        MapKind::Normal => stem(name) + "_normal.png"@,
        MapKind::Roughness => stem(name) + "_roughness.png"@,
    }
}

/// Adds the characters of a text.
fn push_text(out: &mut Vec<char>, text: &str)
    ensures
        final(out)@ == old(out)@ + text@,
{
    let ghost had = out@;
    assert(had + text@.take(0) =~= had);
    for c in it: text.chars()
        invariant
            it.seq() == text@,
            out@ == had + text@.take(it.index() as int),
    {
        out.push(c);
        assert(out@ =~= had + text@.take(it.index() + 1));
    }
    assert(text@.take(text@.len() as int) =~= text@);
}

/// The file of a picture of a texture: that of its colours, or one beside it for its
/// normals or its roughness.
pub fn map_name(name: &str, kind: MapKind) -> (r: String)
    ensures
        r@ == map_file(name@, kind),
{
    let mut out: Vec<char> = Vec::new();
    push_text(&mut out, name);
    assert(out@ =~= name@);
    if kind == MapKind::Color {
        return text_from_chars(out);
    }
    proof {
        reveal_strlit(".png");
    }
    let n: usize = out.len();
    if n >= 4 && out[n - 4] == '.' && out[n - 3] == 'p' && out[n - 2] == 'n' && out[n - 1] == 'g' {
        out.truncate(n - 4);
        assert(name@.skip(n - 4) =~= ".png"@);
        assert(out@ =~= name@.take(n - 4));
    } else {
        assert(n >= 4 ==> name@.skip(n - 4) != ".png"@) by {
            if n >= 4 && name@.skip(n - 4) == ".png"@ {
                let end = name@.skip(n - 4);
                assert(end[0] == name@[n - 4] && end[1] == name@[n - 3] && end[2] == name@[n - 2]
                    && end[3] == name@[n - 1]);
            }
        }
    }
    match kind {
        MapKind::Color => {},
        MapKind::Normal => push_text(&mut out, "_normal.png"),
        MapKind::Roughness => push_text(&mut out, "_roughness.png"),
    }
    text_from_chars(out)
}

/// Whether a texture is turf that has to be laid over soil.
pub fn is_turf(name: &str) -> (r: bool)
    ensures
        r == (name@ == Block::GrassBlock.spec_tile(Face::Side)@),
{
    name.to_owned() == Block::GrassBlock.tile(Face::Side).to_owned()
}

/// The number of a face's tile is the place of its texture among all textures, so two faces
/// have one number exactly if they have one texture.
pub proof fn tiles_are_numbered_by_texture(
    block: Block,
    face: Face,
    other: Block,
    other_face: Face,
)
    requires
        block != Block::Air,
        other != Block::Air,
    ensures
        ({
            let names = textures_below(COUNT as nat);
            let n = tile_number(block, face) as int;
            &&& 0 <= n < names.len()
            &&& names[n] == block.spec_tile(face)@
        }),
        tile_number(block, face) == tile_number(other, other_face) <==> block.spec_tile(face)@
            == other.spec_tile(other_face)@,
{
    textures_cover_faces(block, face);
    textures_cover_faces(other, other_face);
    textures_are_distinct(COUNT as nat);
    lemma_textures_few(COUNT as nat);
    let names = textures_below(COUNT as nat);
    lemma_index_of(names, block.spec_tile(face)@);
    lemma_index_of(names, other.spec_tile(other_face)@);
}

proof fn lemma_index_of(names: Seq<Seq<char>>, name: Seq<char>)
    requires
        names.contains(name),
    ensures
        0 <= names.index_of(name) < names.len(),
        names[names.index_of(name)] == name,
{
}

/// Tiles lie in rows from left to right and from top to bottom: the next tile is one to the
/// right, or the first of the next row.
pub proof fn tiles_lie_in_rows(atlas: &Atlas, index: int)
    requires
        atlas.cols > 0,
        0 <= index,
    ensures
        ({
            let here = atlas.slot(index);
            let next = atlas.slot(index + 1);
            let width = atlas.cols * STRIDE;
            &&& here.0 + STRIDE < width ==> next == (here.0 + STRIDE, here.1)
            &&& here.0 + STRIDE == width ==> next == (0int, here.1 + STRIDE)
            &&& 0 <= here.0 && here.0 + STRIDE <= width && here.1 >= 0
        }),
        atlas.slot(0) == (0int, 0int),
{
    let cols = atlas.cols as int;
    lemma_fundamental_div_mod(index, cols);
    let (q, r) = (index / cols, index % cols);
    if r + 1 < cols {
        lemma_fundamental_div_mod_converse(index + 1, cols, q, r + 1);
    } else {
        assert(cols * q + cols == (q + 1) * cols) by (nonlinear_arith);
        lemma_fundamental_div_mod_converse(index + 1, cols, q + 1, 0);
    }
    lemma_fundamental_div_mod_converse(0, cols, 0, 0);
    assert(q >= 0) by (nonlinear_arith)
        requires
            index == cols * q + r,
            0 <= r < cols,
            index >= 0,
    ;
}

/// The parts of a tile lie side by side: the next begins where one ends, the first at the
/// edge of the tile inside its gutter, and a whole tile is one part.
pub proof fn parts_lie_side_by_side(atlas: &Atlas, index: int, x: int, y: int)
    ensures
        ({
            let whole = atlas.spec_region(index, 0, 0, 1, 1);
            let slot = atlas.slot(index);
            &&& whole.0 == slot.0 + GUTTER && whole.1 == slot.1 + GUTTER
            &&& whole.2 == whole.0 + TILE && whole.3 == whole.1 + TILE
        }),
        ({
            let whole = atlas.spec_region(index, 0, 0, 1, 1);
            let a = atlas.spec_region(index, 0, 0, 2, 2);
            let b = atlas.spec_region(index, 1, 0, 2, 2);
            let c = atlas.spec_region(index, 0, 1, 2, 2);
            &&& a.0 == whole.0 && a.1 == whole.1
            &&& b.0 == a.2 && b.1 == a.1 && b.2 == whole.2
            &&& c.1 == a.3 && c.0 == a.0 && c.3 == whole.3
            &&& a.2 - a.0 == b.2 - b.0 && a.3 - a.1 == c.3 - c.1
        }),
{
    assert(0int % 1 == 0 && 0int % 2 == 0 && 1int % 2 == 1);
}

/// A tile is copied into its slot as it is, and around it its edges are repeated: each pixel
/// of the gutter is that of the nearest pixel of the tile.
pub proof fn gutters_repeat_the_nearest_pixel(
    now: Picture,
    was: Picture,
    tile: Picture,
    x: int,
    y: int,
    a: int,
    b: int,
)
    requires
        holds_tile(now, was, tile, x, y),
        has_pixel(was, a, b),
        x <= a < x + STRIDE,
        y <= b < y + STRIDE,
    ensures
        ({
            let i = a - x - GUTTER;
            let j = b - y - GUTTER;
            let near_i = if i < 0 {
                0
            } else if i > TILE - 1 {
                TILE - 1
            } else {
                i
            };
            let near_j = if j < 0 {
                0
            } else if j > TILE - 1 {
                TILE - 1
            } else {
                j
            };
            pixels_of(now)[(a, b)] == pixels_of(tile)[(near_i, near_j)]
        }),
        STRIDE == TILE + 2 * GUTTER,
        GUTTER > 0,
{
}

/// What lies outside a slot stays when a tile is copied into it.
pub proof fn other_slots_stay(
    now: Picture,
    was: Picture,
    tile: Picture,
    x: int,
    y: int,
    a: int,
    b: int,
)
    requires
        holds_tile(now, was, tile, x, y),
        has_pixel(was, a, b),
        a < x || a >= x + STRIDE || b < y || b >= y + STRIDE,
    ensures
        pixels_of(now)[(a, b)] == pixels_of(was)[(a, b)],
{
}

/// Each smaller copy has half the edge of the one before, but never less than a pixel.
pub proof fn copies_halve(side: int, k: nat)
    requires
        side >= 1,
    ensures
        halved(side, 0) == side,
        halved(side, k) >= 1,
        halved(side, k) > 1 ==> halved(side, k + 1) == halved(side, k) / 2,
        halved(side, k) == 1 ==> halved(side, k + 1) == 1,
    decreases k,
{
    if k > 0 {
        copies_halve(side, (k - 1) as nat);
    }
}

/// A texture that is laid over another leaves nothing to see through once all of its pixels
/// have been covered.
pub proof fn covers_are_opaque(
    r: Picture,
    under: Picture,
    over: Picture,
    rows: int,
    x: int,
    y: int,
)
    requires
        is_cover(r, under, over, rows, 0),
        has_pixel(under, x, y),
        y < rows,
    ensures
        pixels_of(r)[(x, y)].3 == 255,
        pixels_of(r)[(x, y)].0 == blended(pixels_of(under)[(x, y)], pixels_of(over)[(x, y)]).0,
        pixels_of(r)[(x, y)].1 == blended(pixels_of(under)[(x, y)], pixels_of(over)[(x, y)]).1,
        pixels_of(r)[(x, y)].2 == blended(pixels_of(under)[(x, y)], pixels_of(over)[(x, y)]).2,
{
}

/// The maps of a texture lie beside it, under its name and what they are maps of.
pub proof fn maps_lie_beside_their_texture(base: Seq<char>)
    ensures
        map_file(base + ".png"@, MapKind::Color) == base + ".png"@,
        map_file(base + ".png"@, MapKind::Normal) == base + "_normal.png"@,
        map_file(base + ".png"@, MapKind::Roughness) == base + "_roughness.png"@,
{
    reveal_strlit(".png");
    let name = base + ".png"@;
    assert(name.skip(name.len() - 4) =~= ".png"@);
    assert(name.take(name.len() - 4) =~= base);
}

} // verus!
