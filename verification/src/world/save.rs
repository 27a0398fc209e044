//! World saves: what is kept of a world, and its bytes.
//!
//! A save is `MCS1`, the format version, the number of registered blocks, the
//! world's name, seed and spawn point, the player's last state if there is one, and
//! all edits of blocks, in little-endian fields. Reading checks every field: a save
//! with any field out of range is no save. Of several edits of one position the
//! last one counts.

use crate::double::{lemma_magnitude_order, magnitude, one, Double};
use crate::player::inventory::INVENTORY_SIZE;
use crate::player::mode::GameMode;
use crate::world::block::{Block, COUNT};
use crate::world::codec::{
    bytes_give_number_back, field, get, get_signed, le_bytes, le_value, lemma_spans, put, put_bytes,
    put_signed, signed_field, signed_numbers_survive, unsigned,
};
use crate::world::column::{Y_MAX, Y_MIN};
use std::collections::HashSet;
use vstd::arithmetic::power2::{lemma2_to64, lemma2_to64_rest, lemma_pow2_adds, pow2};
use vstd::prelude::*;
use vstd::slice::{slice_subrange, slice_to_vec};
use vstd::std_specs::hash::group_hash_axioms;
use vstd::string::StringSliceAdditionalSpecFns;
use vstd::utf8::{
    decode_utf8, encode_utf8, encode_utf8_decode_utf8, encode_utf8_valid_utf8, valid_utf8,
};

verus! {

broadcast use group_hash_axioms;

/// The version of the format.
pub const FORMAT_VERSION: u16 = 1;

/// The longest name of a world, in bytes.
pub const MAX_NAME_LEN: usize = 128;

/// The most edits of one world.
pub const MAX_EDITS: usize = 1_000_000;

/// How far from the origin positions may lie.
pub const MAX_POSITION: i64 = 1_000_000_000;

/// The same limit, 1e9, as the bits of a double.
pub const MAX_POSITION_BITS: u64 = 0x41cd_cd65_0000_0000;

/// A full turn, as the bits of a double.
pub const TURN_BITS: u64 = 0x4019_21fb_5444_2d18;

/// The steepest view, 1.55, as the bits of a double.
pub const PITCH_BITS: u64 = 0x3ff8_cccc_cccc_cccd;

/// The steepest view downwards, -1.55, as the bits of a double.
pub const NEGATIVE_PITCH_BITS: u64 = 0xbff8_cccc_cccc_cccd;

/// The lowest height of a saved body, -8, as the bits of a double.
pub const LOWEST_BITS: u64 = 0xc020_0000_0000_0000;

/// The highest height of a saved body, 135, as the bits of a double.
pub const HIGHEST_BITS: u64 = 0x4060_e000_0000_0000;

/// How far above and below the world saved layers may lie.
pub const LAYER_SLACK: i64 = 8;

/// The most items of one saved stack.
pub const MAX_STACK_COUNT: u16 = 64;

/// One stack of a saved inventory.
#[derive(Clone, Copy, Debug, PartialEq, Eq, Structural)]
pub struct SavedStack {
    pub slot: usize,
    pub block: Block,
    pub count: u16,
}

/// A point in the world.
#[derive(Clone, Copy, Debug, PartialEq, Eq, Structural)]
pub struct Point {
    pub x: Double,
    pub y: Double,
    pub z: Double,
}

/// The player's state when the world was left.
#[derive(Clone, Debug, PartialEq)]
pub struct SavedPlayer {
    /// The middle of the feet.
    pub position: Point,
    pub yaw: Double,
    pub pitch: Double,
    pub mode: GameMode,
    pub selected: usize,
    /// The stacks of the slots that are not empty.
    pub stacks: Vec<SavedStack>,
}

/// One edit: what a position holds, air included.
#[derive(Clone, Copy, Debug, PartialEq, Eq, Structural)]
pub struct BlockEdit {
    pub x: i64,
    pub y: i64,
    pub z: i64,
    pub block: Block,
}

/// All that is kept of a world.
#[derive(Clone, Debug, PartialEq)]
pub struct WorldSave {
    pub name: String,
    pub seed: u64,
    pub spawn_x: i64,
    pub spawn_z: i64,
    pub spawn_height: i64,
    /// The player; `None` for a world that nobody has entered.
    pub player: Option<SavedPlayer>,
    pub edits: Vec<BlockEdit>,
}

/// The contents of a saved player.
#[verifier::ext_equal]
pub struct PlayerView {
    pub position: Point,
    pub yaw: Double,
    pub pitch: Double,
    pub mode: GameMode,
    pub selected: usize,
    pub stacks: Seq<SavedStack>,
}

/// The contents of a save.
#[verifier::ext_equal]
pub struct SaveView {
    pub name: Seq<char>,
    pub seed: u64,
    pub spawn_x: i64,
    pub spawn_z: i64,
    pub spawn_height: i64,
    pub player: Option<PlayerView>,
    pub edits: Seq<BlockEdit>,
}

impl View for SavedPlayer {
    type V = PlayerView;

    open spec fn view(&self) -> PlayerView {
        PlayerView {
            position: self.position,
            yaw: self.yaw,
            pitch: self.pitch,
            mode: self.mode,
            selected: self.selected,
            stacks: self.stacks@,
        }
    }
}

impl View for WorldSave {
    type V = SaveView;

    open spec fn view(&self) -> SaveView {
        SaveView {
            name: self.name@,
            seed: self.seed,
            spawn_x: self.spawn_x,
            spawn_z: self.spawn_z,
            spawn_height: self.spawn_height,
            player: match self.player {
                None => None,
                Some(player) => Some(player@),
            },
            edits: self.edits@,
        }
    }
}

/// The first four bytes of every save.
pub open spec fn magic() -> Seq<u8> {
    seq![0x4d, 0x43, 0x53, 0x31]
}

/// Whether two edits are of one position.
pub open spec fn same_place(a: BlockEdit, b: BlockEdit) -> bool {
    a.x == b.x && a.y == b.y && a.z == b.z
}

/// The edits that count, in the order in which they were made last.
pub open spec fn last_edits(edits: Seq<BlockEdit>) -> Seq<BlockEdit>
    decreases edits.len(),
{
    if edits.len() == 0 {
        edits
    } else {
        last_edits(edits.drop_last()).filter(
            |e: BlockEdit| !same_place(e, edits.last()),
        ).push(edits.last())
    }
}

/// Whether a coordinate is one that saves may hold.
pub open spec fn near(v: int) -> bool {
    -MAX_POSITION <= v <= MAX_POSITION
}

/// Whether a layer is one that saves may hold.
pub open spec fn layer_ok(y: int) -> bool {
    Y_MIN - LAYER_SLACK <= y <= Y_MAX + LAYER_SLACK
}

/// Whether a double is a number no further from zero than a limit.
pub open spec fn within(d: Double, limit: u64) -> bool {
    d.spec_finite() && magnitude(d.low()) <= (Double { bits: limit }).units()
}

/// A view pitch, kept between straight down and straight up as far as cameras go.
pub open spec fn kept_pitch(d: Double) -> Double {
    if d.spec_less(Double { bits: NEGATIVE_PITCH_BITS }) {
        Double { bits: NEGATIVE_PITCH_BITS }
    } else if (Double { bits: PITCH_BITS }).spec_less(d) {
        Double { bits: PITCH_BITS }
    } else {
        d
    }
}

/// The field of eight bytes at an offset, as a double.
pub open spec fn double_field(data: Seq<u8>, at: int) -> Double {
    Double { bits: field(data, at, 8) as u64 }
}

/// The bytes of an edit: three coordinates and the block's id.
pub open spec fn edit_bytes(edit: BlockEdit) -> Seq<u8> {
    le_bytes(unsigned(edit.x), 8) + le_bytes(unsigned(edit.y), 8) + le_bytes(
        unsigned(edit.z),
        8,
    ) + seq![edit.block.spec_id() as u8]
}

/// The bytes of all edits.
pub open spec fn edits_bytes(edits: Seq<BlockEdit>) -> Seq<u8>
    decreases edits.len(),
{
    if edits.len() == 0 {
        Seq::empty()
    } else {
        edits_bytes(edits.drop_last()) + edit_bytes(edits.last())
    }
}

/// The bytes of a stack: its slot, the block's id and the count.
pub open spec fn stack_bytes(stack: SavedStack) -> Seq<u8> {
    seq![capped_byte(stack.slot), stack.block.spec_id() as u8] + le_bytes(stack.count as nat, 2)
}

/// The bytes of all stacks.
pub open spec fn stacks_bytes(stacks: Seq<SavedStack>) -> Seq<u8>
    decreases stacks.len(),
{
    if stacks.len() == 0 {
        Seq::empty()
    } else {
        stacks_bytes(stacks.drop_last()) + stack_bytes(stacks.last())
    }
}

/// A number as one byte, 255 where it does not fit.
pub open spec fn capped_byte(n: usize) -> u8 {
    if n > 255 {
        255
    } else {
        n as u8
    }
}

/// A length as a field, the largest that fits where it does not.
pub open spec fn capped(n: nat, most: nat) -> nat {
    if n > most {
        most
    } else {
        n
    }
}

/// The fixed part of a player's bytes.
pub open spec fn player_head(player: PlayerView) -> Seq<u8> {
    le_bytes(player.position.x.bits as nat, 8) + le_bytes(player.position.y.bits as nat, 8)
        + le_bytes(player.position.z.bits as nat, 8) + le_bytes(player.yaw.bits as nat, 8)
        + le_bytes(player.pitch.bits as nat, 8) + seq![
        player.mode.spec_code(),
        capped_byte(player.selected),
    ] + le_bytes(capped(player.stacks.len(), 0xffff), 2)
}

/// The bytes of the player, or of there being none.
pub open spec fn player_bytes(player: Option<PlayerView>) -> Seq<u8> {
    match player {
        None => seq![0u8],
        Some(player) => seq![1u8] + player_head(player) + stacks_bytes(player.stacks),
    }
}

/// The part of the name that is stored: its first 128 bytes.
pub open spec fn stored_name(name: Seq<char>) -> Seq<u8> {
    let bytes = encode_utf8(name);
    bytes.take(capped(bytes.len(), MAX_NAME_LEN as nat) as int)
}

/// What comes before the name: the magic, the version, the number of blocks and the
/// length of the name.
pub open spec fn head_bytes(name_len: nat) -> Seq<u8> {
    magic() + le_bytes(FORMAT_VERSION as nat, 2) + le_bytes(COUNT as nat, 2) + le_bytes(
        name_len,
        2,
    )
}

/// The seed and the spawn point.
pub open spec fn place_bytes(save: SaveView) -> Seq<u8> {
    le_bytes(save.seed as nat, 8) + le_bytes(unsigned(save.spawn_x), 8) + le_bytes(
        unsigned(save.spawn_z),
        8,
    ) + le_bytes(unsigned(save.spawn_height), 8)
}

/// The bytes of a save.
pub open spec fn save_bytes(save: SaveView) -> Seq<u8> {
    let name = stored_name(save.name);
    head_bytes(name.len()) + name + place_bytes(save) + player_bytes(save.player) + le_bytes(
        capped(save.edits.len(), 0xffff_ffff),
        4,
    ) + edits_bytes(save.edits)
}

/// Whether the bytes at an offset are a stack that can be restored.
pub open spec fn stack_ok(data: Seq<u8>, at: int) -> bool {
    &&& data[at] < INVENTORY_SIZE
    &&& data[at + 1] < COUNT
    &&& 1 <= field(data, at + 2, 2) <= MAX_STACK_COUNT
}

/// The block with an id.
pub open spec fn block_of(id: u8) -> Block {
    choose|b: Block| b.spec_id() == id
}

/// The stack at an offset.
pub open spec fn stack_at(data: Seq<u8>, at: int) -> SavedStack {
    SavedStack {
        slot: data[at] as usize,
        block: block_of(data[at + 1]),
        count: field(data, at + 2, 2) as u16,
    }
}

/// Whether the bytes from an offset on start with a player that can be restored.
pub open spec fn player_ok(data: Seq<u8>, at: int) -> bool {
    let stacks = field(data, at + 42, 2);
    &&& data.len() >= at + 44
    &&& within(double_field(data, at), MAX_POSITION_BITS)
    &&& (Double { bits: LOWEST_BITS }).spec_at_most(double_field(data, at + 8))
    &&& double_field(data, at + 8).spec_at_most(Double { bits: HIGHEST_BITS })
    &&& within(double_field(data, at + 16), MAX_POSITION_BITS)
    &&& within(double_field(data, at + 24), TURN_BITS)
    &&& !double_field(data, at + 32).spec_nan()
    &&& data[at + 40] <= 1
    &&& data[at + 41] < INVENTORY_SIZE
    &&& stacks <= INVENTORY_SIZE
    &&& data.len() >= at + 44 + 4 * stacks
    &&& forall|k: int| 0 <= k < stacks ==> #[trigger] stack_ok(data, stack_offset(at, k))
    &&& forall|j: int, k: int|
        0 <= j < k < stacks ==> data[#[trigger] stack_offset(at, j)]
            != data[#[trigger] stack_offset(at, k)]
}

/// Where the stacks of a player lie.
pub open spec fn stack_offset(at: int, k: int) -> int {
    at + 44 + 4 * k
}

/// The player at an offset.
pub open spec fn player_at(data: Seq<u8>, at: int) -> PlayerView {
    PlayerView {
        position: Point {
            x: double_field(data, at),
            y: double_field(data, at + 8),
            z: double_field(data, at + 16),
        },
        yaw: double_field(data, at + 24),
        pitch: kept_pitch(double_field(data, at + 32)),
        mode: if data[at + 40] == 0 {
            GameMode::Survival
        } else {
            GameMode::Creative
        },
        selected: data[at + 41] as usize,
        stacks: Seq::new(
            field(data, at + 42, 2),
            |k: int| stack_at(data, stack_offset(at, k)),
        ),
    }
}

/// Whether the bytes at an offset are an edit that can be restored.
pub open spec fn edit_ok(data: Seq<u8>, at: int) -> bool {
    &&& near(signed_field(data, at))
    &&& layer_ok(signed_field(data, at + 8))
    &&& near(signed_field(data, at + 16))
    &&& data[at + 24] < COUNT
}

/// The edit at an offset.
pub open spec fn edit_at(data: Seq<u8>, at: int) -> BlockEdit {
    BlockEdit {
        x: signed_field(data, at) as i64,
        y: signed_field(data, at + 8) as i64,
        z: signed_field(data, at + 16) as i64,
        block: block_of(data[at + 24]),
    }
}

/// Where the edits lie, from the first on.
pub open spec fn edit_offset(at: int, k: int) -> int {
    at + 25 * k
}

/// Where the name ends.
pub open spec fn name_end(data: Seq<u8>) -> int {
    10 + field(data, 8, 2) as int
}

/// Where the number of edits lies.
pub open spec fn edits_start(data: Seq<u8>) -> int {
    let flag = name_end(data) + 32;
    if data[flag] == 0 {
        flag + 1
    } else {
        flag + 1 + 44 + 4 * field(data, flag + 1 + 42, 2)
    }
}

/// All edits from an offset on.
pub open spec fn raw_edits(data: Seq<u8>, at: int, count: nat) -> Seq<BlockEdit> {
    Seq::new(count, |k: int| edit_at(data, edit_offset(at, k)))
}

/// Whether bytes are a save: every field is there, within its range, and nothing
/// follows the last edit.
pub open spec fn is_save(data: Seq<u8>) -> bool {
    let name_len = field(data, 8, 2);
    let a = name_end(data);
    let b = edits_start(data);
    let count = field(data, b, 4);
    &&& data.len() >= 10
    &&& data.take(4) == magic()
    &&& field(data, 4, 2) == FORMAT_VERSION
    &&& field(data, 6, 2) == COUNT
    &&& 1 <= name_len <= MAX_NAME_LEN
    &&& data.len() >= a + 33
    &&& valid_utf8(data.subrange(10, a))
    &&& near(signed_field(data, a + 8))
    &&& near(signed_field(data, a + 16))
    &&& layer_ok(signed_field(data, a + 24))
    &&& data[a + 32] == 0 || (data[a + 32] == 1 && player_ok(data, a + 33))
    &&& data.len() >= b + 4
    &&& count <= MAX_EDITS
    &&& data.len() == b + 4 + 25 * count
    &&& forall|k: int| 0 <= k < count ==> #[trigger] edit_ok(data, edit_offset(b + 4, k))
}

/// What a save holds.
pub open spec fn read_save(data: Seq<u8>) -> SaveView {
    let a = name_end(data);
    let b = edits_start(data);
    SaveView {
        name: decode_utf8(data.subrange(10, a)),
        seed: field(data, a, 8) as u64,
        spawn_x: signed_field(data, a + 8) as i64,
        spawn_z: signed_field(data, a + 16) as i64,
        spawn_height: signed_field(data, a + 24) as i64,
        player: if data[a + 32] == 0 {
            None
        } else {
            Some(player_at(data, a + 33))
        },
        edits: last_edits(raw_edits(data, b + 4, field(data, b, 4))),
    }
}

/// `String::from_utf8`: the text whose UTF-8 bytes are given, and `None` exactly
/// where the bytes are not UTF-8.
#[verifier::external_body]
fn text_from_utf8(bytes: Vec<u8>) -> (r: Option<String>)
    ensures
        r is Some <==> valid_utf8(bytes@),
        r is Some ==> encode_utf8((r->0)@) == bytes@,
{
    String::from_utf8(bytes).ok()
}

fn is_near(v: i64) -> (r: bool)
    ensures
        r == near(v as int),
{
    -MAX_POSITION <= v && v <= MAX_POSITION
}

fn is_layer_ok(y: i64) -> (r: bool)
    ensures
        r == layer_ok(y as int),
{
    Y_MIN - LAYER_SLACK <= y && y <= Y_MAX + LAYER_SLACK
}

fn is_within(d: Double, limit: u64) -> (r: bool)
    requires
        !(Double { bits: limit }).spec_nan(),
    ensures
        r == within(d, limit),
{
    d.is_finite() && d.abs().at_most(Double { bits: limit })
}

fn get_double(data: &[u8], at: usize) -> (r: Double)
    requires
        at + 8 <= data.len(),
    ensures
        r == double_field(data@, at as int),
{
    proof {
        lemma_spans();
    }
    Double { bits: get(data, at, 8) }
}

fn get_block(id: u8) -> (r: Option<Block>)
    ensures
        r is Some <==> id < COUNT,
        r is Some ==> r->0 == block_of(id),
{
    let r = Block::from_id(id as u16);
    proof {
        if r is Some {
            assert((r->0).spec_id() == id);
            assert(block_of(id).spec_id() == id);
        }
    }
    r
}

/// A view pitch, kept between straight down and straight up as far as cameras go.
fn keep_pitch(d: Double) -> (r: Double)
    ensures
        r == kept_pitch(d),
{
    if d.less(Double { bits: NEGATIVE_PITCH_BITS }) {
        Double { bits: NEGATIVE_PITCH_BITS }
    } else if (Double { bits: PITCH_BITS }).less(d) {
        Double { bits: PITCH_BITS }
    } else {
        d
    }
}

/// The stacks of a player, or `None` where one of them cannot be restored.
fn parse_stacks(data: &[u8], at: usize, count: usize) -> (r: Option<Vec<SavedStack>>)
    requires
        count <= INVENTORY_SIZE,
        at + 44 + 4 * count <= data.len(),
    ensures
        r is Some <==> {
            &&& forall|k: int|
                0 <= k < count ==> #[trigger] stack_ok(data@, stack_offset(at as int, k))
            &&& forall|j: int, k: int|
                0 <= j < k < count ==> data@[#[trigger] stack_offset(at as int, j)]
                    != data@[#[trigger] stack_offset(at as int, k)]
        },
        r is Some ==> (r->0)@ == Seq::new(
            count as nat,
            |k: int| stack_at(data@, stack_offset(at as int, k)),
        ),
{
    let mut stacks: Vec<SavedStack> = Vec::new();
    let mut used: Vec<bool> = vec![false; INVENTORY_SIZE];
    let mut i: usize = 0;
    while i < count
        invariant
            i <= count <= INVENTORY_SIZE,
            at + 44 + 4 * count <= data.len(),
            used@.len() == INVENTORY_SIZE,
            stacks@ == Seq::new(
                i as nat,
                |k: int| stack_at(data@, stack_offset(at as int, k)),
            ),
            forall|k: int| 0 <= k < i ==> #[trigger] stack_ok(data@, stack_offset(at as int, k)),
            forall|j: int, k: int|
                0 <= j < k < i ==> data@[#[trigger] stack_offset(at as int, j)]
                    != data@[#[trigger] stack_offset(at as int, k)],
            forall|s: int|
                0 <= s < INVENTORY_SIZE ==> (#[trigger] used@[s] <==> exists|k: int|
                    0 <= k < i && data@[#[trigger] stack_offset(at as int, k)] == s),
        decreases count - i,
    {
        let p: usize = at + 44 + 4 * i;
        assert(p == stack_offset(at as int, i as int));
        let slot: usize = data[p] as usize;
        if slot >= INVENTORY_SIZE {
            assert(!stack_ok(data@, stack_offset(at as int, i as int)));
            return None;
        }
        if used[slot] {
            return None;
        }
        let block = match get_block(data[p + 1]) {
            Some(block) => block,
            None => {
                assert(!stack_ok(data@, stack_offset(at as int, i as int)));
                return None;
            },
        };
        proof {
            lemma_spans();
        }
        let n: u64 = get(data, p + 2, 2);
        if n < 1 || n > MAX_STACK_COUNT as u64 {
            assert(!stack_ok(data@, stack_offset(at as int, i as int)));
            return None;
        }
        let ghost had = used@;
        used.set(slot, true);
        stacks.push(SavedStack { slot, block, count: n as u16 });
        proof {
            assert(stacks@ =~= Seq::new(
                (i + 1) as nat,
                |k: int| stack_at(data@, stack_offset(at as int, k)),
            ));
            assert(stack_ok(data@, stack_offset(at as int, i as int)));
            assert forall|s: int| 0 <= s < INVENTORY_SIZE implies (#[trigger] used@[s]
                <==> exists|k: int|
                0 <= k < i + 1 && data@[#[trigger] stack_offset(at as int, k)] == s) by {
                if s == slot {
                    assert(data@[stack_offset(at as int, i as int)] == s);
                } else {
                    assert(used@[s] == had[s]);
                }
            }
            assert forall|j: int, k: int| 0 <= j < k < i + 1 implies data@[#[trigger] stack_offset(
                at as int,
                j,
            )] != data@[#[trigger] stack_offset(at as int, k)] by {
                if k == i && data@[stack_offset(at as int, j)] == slot {
                    assert(had[slot as int]);
                }
            }
        }
        i += 1;
    }
    Some(stacks)
}

/// The player at an offset, or `None` where it cannot be restored.
fn parse_player(data: &[u8], at: usize) -> (r: Option<SavedPlayer>)
    requires
        at <= data.len(),
    ensures
        r is Some <==> player_ok(data@, at as int),
        r is Some ==> (r->0)@ == player_at(data@, at as int),
{
    if data.len() - at < 44 {
        return None;
    }
    let x = get_double(data, at);
    let y = get_double(data, at + 8);
    let z = get_double(data, at + 16);
    let yaw = get_double(data, at + 24);
    let raw_pitch = get_double(data, at + 32);
    if !is_within(x, MAX_POSITION_BITS) || !is_within(z, MAX_POSITION_BITS) || !is_within(
        yaw,
        TURN_BITS,
    ) {
        return None;
    }
    if raw_pitch.is_nan() {
        return None;
    }
    if !(Double { bits: LOWEST_BITS }).at_most(y) || !y.at_most(Double { bits: HIGHEST_BITS }) {
        return None;
    }
    let mode = match GameMode::from_u8(data[at + 40]) {
        Some(mode) => mode,
        None => {
            return None;
        },
    };
    let selected: usize = data[at + 41] as usize;
    if selected >= INVENTORY_SIZE {
        return None;
    }
    proof {
        lemma_spans();
    }
    let count: usize = get(data, at + 42, 2) as usize;
    if count > INVENTORY_SIZE {
        return None;
    }
    if data.len() - at - 44 < 4 * count {
        return None;
    }
    match parse_stacks(data, at, count) {
        None => None,
        Some(stacks) => Some(
            SavedPlayer {
                position: Point { x, y, z },
                yaw,
                pitch: keep_pitch(raw_pitch),
                mode,
                selected,
                stacks,
            },
        ),
    }
}

/// The position of an edit as one number.
spec fn place_key(edit: BlockEdit) -> int {
    edit.x * 0x100_0000_0000_0000 + edit.z * 0x1_0000 + edit.y
}

fn place_of(edit: &BlockEdit) -> (r: i128)
    requires
        near(edit.x as int),
        near(edit.z as int),
        layer_ok(edit.y as int),
    ensures
        r == place_key(*edit),
{
    edit.x as i128 * 0x100_0000_0000_0000 + edit.z as i128 * 0x1_0000 + edit.y as i128
}

/// Whether the coordinates of an edit are ones that saves may hold.
pub open spec fn edit_near(edit: BlockEdit) -> bool {
    near(edit.x as int) && near(edit.z as int) && layer_ok(edit.y as int)
}

proof fn lemma_place_keys(a: BlockEdit, b: BlockEdit)
    requires
        edit_near(a),
        edit_near(b),
    ensures
        place_key(a) == place_key(b) <==> same_place(a, b),
{
}

/// The edits that are of other positions than a given one.
fn without_place(edits: &Vec<BlockEdit>, edit: BlockEdit) -> (r: Vec<BlockEdit>)
    ensures
        r@ == edits@.filter(|e: BlockEdit| !same_place(e, edit)),
{
    let ghost keep = |e: BlockEdit| !same_place(e, edit);
    let mut out: Vec<BlockEdit> = Vec::new();
    let mut i: usize = 0;
    proof {
        reveal(Seq::filter);
        assert(edits@.take(0).filter(keep) =~= Seq::<BlockEdit>::empty());
    }
    while i < edits.len()
        invariant
            i <= edits.len(),
            keep == |e: BlockEdit| !same_place(e, edit),
            out@ == edits@.take(i as int).filter(keep),
        decreases edits.len() - i,
    {
        let e = edits[i];
        proof {
            reveal(Seq::filter);
            assert(edits@.take(i + 1).drop_last() =~= edits@.take(i as int));
        }
        if !(e.x == edit.x && e.y == edit.y && e.z == edit.z) {
            out.push(e);
        }
        i += 1;
    }
    assert(edits@.take(i as int) =~= edits@);
    out
}

/// Where no edit is of a position, leaving the position out changes nothing.
proof fn lemma_filter_keeps_all(edits: Seq<BlockEdit>, keep: spec_fn(BlockEdit) -> bool)
    requires
        forall|k: int| 0 <= k < edits.len() ==> keep(#[trigger] edits[k]),
    ensures
        edits.filter(keep) == edits,
    decreases edits.len(),
{
    reveal(Seq::filter);
    if edits.len() > 0 {
        lemma_filter_keeps_all(edits.drop_last(), keep);
        assert(edits.drop_last().push(edits.last()) =~= edits);
    }
}

/// Members of a filtered sequence are members that pass, and no others.
proof fn lemma_filter_members(
    edits: Seq<BlockEdit>,
    keep: spec_fn(BlockEdit) -> bool,
    e: BlockEdit,
)
    ensures
        edits.filter(keep).contains(e) <==> edits.contains(e) && keep(e),
    decreases edits.len(),
{
    reveal(Seq::filter);
    if edits.len() > 0 {
        let rest = edits.drop_last();
        lemma_filter_members(rest, keep, e);
        let last = edits.last();
        let kept = rest.filter(keep);
        assert(edits =~= rest.push(last));
        if edits.contains(e) {
            let k = choose|k: int| 0 <= k < edits.len() && edits[k] == e;
            if k < rest.len() {
                assert(rest[k] == e);
            }
        }
        if rest.contains(e) {
            let k = choose|k: int| 0 <= k < rest.len() && rest[k] == e;
            assert(edits[k] == e);
        }
        if keep(last) {
            let all = kept.push(last);
            if all.contains(e) {
                let k = choose|k: int| 0 <= k < all.len() && all[k] == e;
                if k < kept.len() {
                    assert(kept[k] == e);
                }
            }
            if kept.contains(e) {
                let k = choose|k: int| 0 <= k < kept.len() && kept[k] == e;
                assert(all[k] == e);
            }
            assert(all[kept.len() as int] == last);
            assert(edits[rest.len() as int] == last);
        }
    }
}

/// The edits from an offset on, or `None` where one of them cannot be restored.
fn parse_edits(data: &[u8], at: usize, count: usize) -> (r: Option<Vec<BlockEdit>>)
    requires
        count <= MAX_EDITS,
        at + 25 * count <= data.len(),
    ensures
        r is Some <==> forall|k: int|
            0 <= k < count ==> #[trigger] edit_ok(data@, edit_offset(at as int, k)),
        r is Some ==> (r->0)@ == last_edits(raw_edits(data@, at as int, count as nat)),
{
    let mut edits: Vec<BlockEdit> = Vec::new();
    let mut seen: HashSet<i128> = HashSet::new();
    let mut i: usize = 0;
    assert(edits@ =~= last_edits(raw_edits(data@, at as int, 0)));
    while i < count
        invariant
            i <= count <= MAX_EDITS,
            at + 25 * count <= data.len(),
            edits@ == last_edits(raw_edits(data@, at as int, i as nat)),
            forall|k: int| 0 <= k < i ==> #[trigger] edit_ok(data@, edit_offset(at as int, k)),
            forall|k: int| 0 <= k < edits@.len() ==> edit_near(#[trigger] edits@[k]),
            forall|k: int|
                0 <= k < edits@.len() ==> seen@.contains(
                    place_key(#[trigger] edits@[k]) as i128,
                ),
        decreases count - i,
    {
        let p: usize = at + 25 * i;
        assert(p == edit_offset(at as int, i as int));
        let x: i64 = get_signed(data, p);
        let y: i64 = get_signed(data, p + 8);
        let z: i64 = get_signed(data, p + 16);
        if !is_near(x) || !is_layer_ok(y) || !is_near(z) {
            assert(!edit_ok(data@, edit_offset(at as int, i as int)));
            return None;
        }
        let block = match get_block(data[p + 24]) {
            Some(block) => block,
            None => {
                assert(!edit_ok(data@, edit_offset(at as int, i as int)));
                return None;
            },
        };
        let edit = BlockEdit { x, y, z, block };
        let ghost raw = raw_edits(data@, at as int, i as nat);
        let ghost next = raw_edits(data@, at as int, (i + 1) as nat);
        let ghost had = edits@;
        let ghost keep = |e: BlockEdit| !same_place(e, edit);
        proof {
            assert(edit == edit_at(data@, edit_offset(at as int, i as int)));
            assert(next.drop_last() =~= raw);
            assert(next.last() == edit);
        }
        let key: i128 = place_of(&edit);
        if seen.contains(&key) {
            edits = without_place(&edits, edit);
        } else {
            proof {
                assert forall|k: int| 0 <= k < had.len() implies keep(#[trigger] had[k]) by {
                    lemma_place_keys(had[k], edit);
                }
                lemma_filter_keeps_all(had, keep);
            }
        }
        assert(edits@ == had.filter(keep));
        proof {
            assert forall|k: int| 0 <= k < edits@.len() implies edit_near(#[trigger] edits@[k])
                && seen@.contains(place_key(edits@[k]) as i128) by {
                lemma_filter_members(had, keep, edits@[k]);
                assert(edits@.contains(edits@[k]));
                let j = choose|j: int| 0 <= j < had.len() && had[j] == edits@[k];
                assert(edit_near(had[j]));
            }
        }
        seen.insert(key);
        edits.push(edit);
        i += 1;
    }
    Some(edits)
}

/// The save that bytes hold; `None` where they are no save.
pub fn parse_world_save(data: &[u8]) -> (r: Option<WorldSave>)
    ensures
        r is Some <==> is_save(data@),
        r is Some ==> (r->0)@ == read_save(data@),
{
    if data.len() < 10 {
        return None;
    }
    if !(data[0] == 0x4d && data[1] == 0x43 && data[2] == 0x53 && data[3] == 0x31) {
        assert(data@.take(4)[0] == data@[0] && data@.take(4)[1] == data@[1] && data@.take(4)[2]
            == data@[2] && data@.take(4)[3] == data@[3]);
        return None;
    }
    assert(data@.take(4) =~= magic());
    proof {
        lemma_spans();
    }
    if get(data, 4, 2) != FORMAT_VERSION as u64 || get(data, 6, 2) != COUNT as u64 {
        return None;
    }
    let name_len: usize = get(data, 8, 2) as usize;
    if name_len == 0 || name_len > MAX_NAME_LEN {
        return None;
    }
    let a: usize = 10 + name_len;
    if data.len() < a + 33 {
        return None;
    }
    let name = match text_from_utf8(slice_to_vec(slice_subrange(data, 10, a))) {
        Some(name) => name,
        None => {
            return None;
        },
    };
    proof {
        encode_utf8_decode_utf8(name@);
    }
    let seed: u64 = get(data, a, 8);
    let spawn_x: i64 = get_signed(data, a + 8);
    let spawn_z: i64 = get_signed(data, a + 16);
    let spawn_height: i64 = get_signed(data, a + 24);
    if !is_near(spawn_x) || !is_near(spawn_z) || !is_layer_ok(spawn_height) {
        return None;
    }
    let flag: u8 = data[a + 32];
    let mut player: Option<SavedPlayer> = None;
    let mut b: usize = a + 33;
    if flag == 1 {
        match parse_player(data, a + 33) {
            None => {
                return None;
            },
            Some(saved) => {
                b = b + 44 + 4 * saved.stacks.len();
                player = Some(saved);
            },
        }
    } else if flag != 0 {
        return None;
    }
    assert(b == edits_start(data@));
    if data.len() - b < 4 {
        return None;
    }
    let count: u64 = get(data, b, 4);
    if count > MAX_EDITS as u64 {
        return None;
    }
    if (data.len() - b - 4) as u64 != 25 * count {
        return None;
    }
    match parse_edits(data, b + 4, count as usize) {
        None => None,
        Some(edits) => Some(
            WorldSave { name, seed, spawn_x, spawn_z, spawn_height, player, edits },
        ),
    }
}

fn cap_byte(n: usize) -> (r: u8)
    ensures
        r == capped_byte(n),
{
    if n > 255 {
        255
    } else {
        n as u8
    }
}

impl SavedPlayer {
    fn encode(&self, out: &mut Vec<u8>)
        ensures
            final(out)@ == old(out)@ + player_bytes(Some(self@)),
    {
        out.push(1);
        put(out, self.position.x.bits, 8);
        put(out, self.position.y.bits, 8);
        put(out, self.position.z.bits, 8);
        put(out, self.yaw.bits, 8);
        put(out, self.pitch.bits, 8);
        out.push(self.mode.as_u8());
        out.push(cap_byte(self.selected));
        let count: u64 = if self.stacks.len() > 0xffff {
            0xffff
        } else {
            self.stacks.len() as u64
        };
        put(out, count, 2);
        assert(out@ =~= old(out)@ + (seq![1u8] + player_head(self@)));
        let ghost head = out@;
        assert(out@ =~= head + stacks_bytes(self.stacks@.take(0)));
        let mut i: usize = 0;
        while i < self.stacks.len()
            invariant
                i <= self.stacks.len(),
                out@ == head + stacks_bytes(self.stacks@.take(i as int)),
            decreases self.stacks.len() - i,
        {
            let stack = self.stacks[i];
            let ghost had = out@;
            out.push(cap_byte(stack.slot));
            out.push(stack.block.id() as u8);
            put(out, stack.count as u64, 2);
            proof {
                let done = self.stacks@.take(i + 1);
                assert(done.drop_last() =~= self.stacks@.take(i as int));
                assert(out@ =~= had + stack_bytes(stack));
                assert(out@ =~= head + stacks_bytes(done));
            }
            i += 1;
        }
        assert(self.stacks@.take(i as int) =~= self.stacks@);
        assert(out@ =~= old(out)@ + player_bytes(Some(self@)));
    }
}

impl WorldSave {
    /// The bytes of the save.
    pub fn encode(&self) -> (r: Vec<u8>)
        ensures
            r@ == save_bytes(self@),
    {
        let mut out: Vec<u8> = Vec::new();
        out.push(0x4d);
        out.push(0x43);
        out.push(0x53);
        out.push(0x31);
        put(&mut out, FORMAT_VERSION as u64, 2);
        put(&mut out, COUNT as u64, 2);
        let name = self.name.as_str().as_bytes();
        let name_len: usize = if name.len() > MAX_NAME_LEN {
            MAX_NAME_LEN
        } else {
            name.len()
        };
        put(&mut out, name_len as u64, 2);
        assert(out@ =~= head_bytes(name_len as nat));
        let kept = slice_subrange(name, 0, name_len);
        put_bytes(&mut out, kept);
        assert(kept@ =~= stored_name(self.name@));
        let ghost named = out@;
        put(&mut out, self.seed, 8);
        put_signed(&mut out, self.spawn_x);
        put_signed(&mut out, self.spawn_z);
        put_signed(&mut out, self.spawn_height);
        assert(out@ =~= named + place_bytes(self@));
        match &self.player {
            None => {
                let ghost had = out@;
                out.push(0);
                assert(out@ =~= had + player_bytes(None));
            },
            Some(player) => {
                player.encode(&mut out);
            },
        }
        let count: u64 = if self.edits.len() as u64 > 0xffff_ffff {
            0xffff_ffff
        } else {
            self.edits.len() as u64
        };
        put(&mut out, count, 4);
        let ghost head = out@;
        assert(out@ =~= head + edits_bytes(self.edits@.take(0)));
        let mut i: usize = 0;
        while i < self.edits.len()
            invariant
                i <= self.edits.len(),
                out@ == head + edits_bytes(self.edits@.take(i as int)),
            decreases self.edits.len() - i,
        {
            let edit = self.edits[i];
            let ghost had = out@;
            put_signed(&mut out, edit.x);
            put_signed(&mut out, edit.y);
            put_signed(&mut out, edit.z);
            out.push(edit.block.id() as u8);
            proof {
                let done = self.edits@.take(i + 1);
                assert(done.drop_last() =~= self.edits@.take(i as int));
                assert(out@ =~= had + edit_bytes(edit));
                assert(out@ =~= head + edits_bytes(done));
            }
            i += 1;
        }
        assert(self.edits@.take(i as int) =~= self.edits@);
        out
    }
}

/// Whether a player is one that reading accepts.
pub open spec fn player_storable(player: PlayerView) -> bool {
    &&& within(player.position.x, MAX_POSITION_BITS)
    &&& (Double { bits: LOWEST_BITS }).spec_at_most(player.position.y)
    &&& player.position.y.spec_at_most(Double { bits: HIGHEST_BITS })
    &&& within(player.position.z, MAX_POSITION_BITS)
    &&& within(player.yaw, TURN_BITS)
    &&& !player.pitch.spec_nan()
    &&& player.selected < INVENTORY_SIZE
    &&& player.stacks.len() <= INVENTORY_SIZE
    &&& forall|k: int|
        0 <= k < player.stacks.len() ==> {
            &&& (#[trigger] player.stacks[k]).slot < INVENTORY_SIZE
            &&& 1 <= player.stacks[k].count <= MAX_STACK_COUNT
        }
    &&& forall|j: int, k: int|
        0 <= j < k < player.stacks.len() ==> (#[trigger] player.stacks[j]).slot
            != (#[trigger] player.stacks[k]).slot
}

/// Whether no two edits are of one position.
pub open spec fn places_differ(edits: Seq<BlockEdit>) -> bool {
    forall|j: int, k: int|
        0 <= j < k < edits.len() ==> !same_place(#[trigger] edits[j], #[trigger] edits[k])
}

/// Whether a save is one that reading accepts: all its parts are within the ranges
/// that it checks.
pub open spec fn storable(save: SaveView) -> bool {
    &&& 1 <= encode_utf8(save.name).len() <= MAX_NAME_LEN
    &&& near(save.spawn_x as int)
    &&& near(save.spawn_z as int)
    &&& layer_ok(save.spawn_height as int)
    &&& save.player is Some ==> player_storable(save.player->0)
    &&& save.edits.len() <= MAX_EDITS
    &&& forall|k: int| 0 <= k < save.edits.len() ==> edit_near(#[trigger] save.edits[k])
}

/// What is left of a save once it has been read: the edits that count, and a view
/// pitch that cameras can have.
pub open spec fn settled(save: SaveView) -> SaveView {
    SaveView {
        player: match save.player {
            None => None,
            Some(player) => Some(
                PlayerView { pitch: kept_pitch(player.pitch), ..player },
            ),
        },
        edits: last_edits(save.edits),
        ..save
    }
}

/// Whether reading has nothing to settle: no position is edited twice, and the view
/// pitch is one that cameras can have.
pub open spec fn is_settled(save: SaveView) -> bool {
    &&& places_differ(save.edits)
    &&& save.player is Some ==> kept_pitch((save.player->0).pitch) == (save.player->0).pitch
}

/// A field of a part of the bytes is a field of the bytes.
proof fn lemma_field_within(data: Seq<u8>, at: int, part: Seq<u8>, k: int, n: nat)
    requires
        0 <= at,
        at + part.len() <= data.len(),
        data.subrange(at, at + part.len()) == part,
        0 <= k,
        k + n <= part.len(),
    ensures
        data.subrange(at + k, at + k + n) == part.subrange(k, k + n),
        field(data, at + k, n) == field(part, k, n),
{
    assert(data.subrange(at + k, at + k + n) =~= part.subrange(k, k + n)) by {
        assert forall|i: int| 0 <= i < n implies #[trigger] data.subrange(at + k, at + k + n)[i]
            == part.subrange(k, k + n)[i] by {
            assert(part[k + i] == data.subrange(at, at + part.len())[k + i]);
        }
    }
}

proof fn lemma_byte_within(data: Seq<u8>, at: int, part: Seq<u8>, k: int)
    requires
        0 <= at,
        at + part.len() <= data.len(),
        data.subrange(at, at + part.len()) == part,
        0 <= k < part.len(),
    ensures
        data[at + k] == part[k],
{
    assert(part[k] == data.subrange(at, at + part.len())[k]);
}

/// The lengths of the bytes of numbers.
proof fn lemma_lens(value: nat)
    ensures
        le_bytes(value, 2).len() == 2,
        le_bytes(value, 4).len() == 4,
        le_bytes(value, 8).len() == 8,
        value < 0x1_0000 ==> le_value(le_bytes(value, 2)) == value,
        value < 0x1_0000_0000 ==> le_value(le_bytes(value, 4)) == value,
        value < 0x1_0000_0000_0000_0000 ==> le_value(le_bytes(value, 8)) == value,
{
    lemma_spans();
    bytes_give_number_back(value, 2);
    bytes_give_number_back(value, 4);
    bytes_give_number_back(value, 8);
}

proof fn lemma_block_of(block: Block)
    ensures
        block_of(block.spec_id() as u8) == block,
        block.spec_id() < COUNT,
{
    let id = block.spec_id() as u8;
    assert(block.spec_id() == id);
    assert(block_of(id).spec_id() == id);
}

/// The bytes of an edit give the edit back.
proof fn lemma_edit_back(data: Seq<u8>, at: int, edit: BlockEdit)
    requires
        0 <= at,
        at + 25 <= data.len(),
        data.subrange(at, at + 25) == edit_bytes(edit),
        edit_near(edit),
    ensures
        edit_bytes(edit).len() == 25,
        edit_ok(data, at),
        edit_at(data, at) == edit,
{
    let part = edit_bytes(edit);
    lemma_lens(unsigned(edit.x));
    lemma_lens(unsigned(edit.y));
    lemma_lens(unsigned(edit.z));
    signed_numbers_survive(edit.x);
    signed_numbers_survive(edit.y);
    signed_numbers_survive(edit.z);
    lemma_block_of(edit.block);
    assert(part.len() == 25);
    lemma_field_within(data, at, part, 0, 8);
    lemma_field_within(data, at, part, 8, 8);
    lemma_field_within(data, at, part, 16, 8);
    lemma_byte_within(data, at, part, 24);
    assert(part.subrange(0, 8) =~= le_bytes(unsigned(edit.x), 8));
    assert(part.subrange(8, 16) =~= le_bytes(unsigned(edit.y), 8));
    assert(part.subrange(16, 24) =~= le_bytes(unsigned(edit.z), 8));
}

/// Where the bytes of each edit lie among those of all edits.
proof fn lemma_edits_layout(edits: Seq<BlockEdit>, k: int)
    requires
        0 <= k <= edits.len(),
    ensures
        edits_bytes(edits).len() == 25 * edits.len(),
        k < edits.len() ==> edits_bytes(edits).subrange(25 * k, 25 * k + 25) == edit_bytes(
            edits[k],
        ),
    decreases edits.len(),
{
    if edits.len() > 0 {
        let rest = edits.drop_last();
        let last = edits.last();
        lemma_lens(unsigned(last.x));
        lemma_lens(unsigned(last.y));
        lemma_lens(unsigned(last.z));
        assert(edit_bytes(last).len() == 25);
        if k < rest.len() {
            lemma_edits_layout(rest, k);
            assert(edits_bytes(edits).subrange(25 * k, 25 * k + 25) =~= edits_bytes(
                rest,
            ).subrange(25 * k, 25 * k + 25));
        } else {
            lemma_edits_layout(rest, rest.len() as int);
            if k < edits.len() {
                assert(edits_bytes(edits).subrange(25 * k, 25 * k + 25) =~= edit_bytes(last));
            }
        }
    }
}

/// Where the bytes of each stack lie among those of all stacks.
proof fn lemma_stacks_layout(stacks: Seq<SavedStack>, k: int)
    requires
        0 <= k <= stacks.len(),
    ensures
        stacks_bytes(stacks).len() == 4 * stacks.len(),
        k < stacks.len() ==> stacks_bytes(stacks).subrange(4 * k, 4 * k + 4) == stack_bytes(
            stacks[k],
        ),
    decreases stacks.len(),
{
    if stacks.len() > 0 {
        let rest = stacks.drop_last();
        let last = stacks.last();
        lemma_lens(last.count as nat);
        assert(stack_bytes(last).len() == 4);
        if k < rest.len() {
            lemma_stacks_layout(rest, k);
            assert(stacks_bytes(stacks).subrange(4 * k, 4 * k + 4) =~= stacks_bytes(
                rest,
            ).subrange(4 * k, 4 * k + 4));
        } else {
            lemma_stacks_layout(rest, rest.len() as int);
            if k < stacks.len() {
                assert(stacks_bytes(stacks).subrange(4 * k, 4 * k + 4) =~= stack_bytes(last));
            }
        }
    }
}

/// Edits of different positions all count.
proof fn lemma_all_count(edits: Seq<BlockEdit>)
    requires
        places_differ(edits),
    ensures
        last_edits(edits) == edits,
    decreases edits.len(),
{
    if edits.len() > 0 {
        let rest = edits.drop_last();
        let last = edits.last();
        assert forall|j: int, k: int| 0 <= j < k < rest.len() implies !same_place(
            #[trigger] rest[j],
            #[trigger] rest[k],
        ) by {
            assert(rest[j] == edits[j] && rest[k] == edits[k]);
        }
        lemma_all_count(rest);
        let keep = |e: BlockEdit| !same_place(e, last);
        assert forall|k: int| 0 <= k < rest.len() implies keep(#[trigger] rest[k]) by {
            assert(!same_place(edits[k], edits[edits.len() - 1]));
        }
        lemma_filter_keeps_all(rest, keep);
        assert(rest.push(last) =~= edits);
    }
}

/// The bytes of a stack give the stack back.
proof fn lemma_stack_back(data: Seq<u8>, at: int, stack: SavedStack)
    requires
        0 <= at,
        at + 4 <= data.len(),
        data.subrange(at, at + 4) == stack_bytes(stack),
        stack.slot < INVENTORY_SIZE,
        1 <= stack.count <= MAX_STACK_COUNT,
    ensures
        stack_ok(data, at),
        stack_at(data, at) == stack,
{
    let part = stack_bytes(stack);
    lemma_lens(stack.count as nat);
    lemma_block_of(stack.block);
    assert(part.len() == 4);
    lemma_byte_within(data, at, part, 0);
    lemma_byte_within(data, at, part, 1);
    lemma_field_within(data, at, part, 2, 2);
    assert(part.subrange(2, 4) =~= le_bytes(stack.count as nat, 2));
}

proof fn lemma_player_head(player: PlayerView)
    requires
        player_storable(player),
    ensures
        ({
            let head = player_head(player);
            &&& head.len() == 44
            &&& field(head, 0, 8) == player.position.x.bits
            &&& field(head, 8, 8) == player.position.y.bits
            &&& field(head, 16, 8) == player.position.z.bits
            &&& field(head, 24, 8) == player.yaw.bits
            &&& field(head, 32, 8) == player.pitch.bits
            &&& head[40] == player.mode.spec_code()
            &&& head[41] == player.selected
            &&& field(head, 42, 2) == player.stacks.len()
        }),
{
    let head = player_head(player);
    let x = player.position.x.bits as nat;
    let y = player.position.y.bits as nat;
    let z = player.position.z.bits as nat;
    let yaw = player.yaw.bits as nat;
    let pitch = player.pitch.bits as nat;
    lemma_lens(x);
    lemma_lens(y);
    lemma_lens(z);
    lemma_lens(yaw);
    lemma_lens(pitch);
    lemma_lens(player.stacks.len());
    assert(head.subrange(0, 8) =~= le_bytes(x, 8));
    assert(head.subrange(8, 16) =~= le_bytes(y, 8));
    assert(head.subrange(16, 24) =~= le_bytes(z, 8));
    assert(head.subrange(24, 32) =~= le_bytes(yaw, 8));
    assert(head.subrange(32, 40) =~= le_bytes(pitch, 8));
    assert(head.subrange(42, 44) =~= le_bytes(player.stacks.len(), 2));
}

/// The bytes of a player give the player back.
proof fn lemma_player_back(data: Seq<u8>, at: int, player: PlayerView)
    requires
        0 <= at,
        player_storable(player),
        at + 44 + 4 * player.stacks.len() <= data.len(),
        data.subrange(at, at + 44) == player_head(player),
        data.subrange(at + 44, at + 44 + 4 * player.stacks.len()) == stacks_bytes(player.stacks),
    ensures
        player_ok(data, at),
        player_at(data, at) == (PlayerView { pitch: kept_pitch(player.pitch), ..player }),
        field(data, at + 42, 2) == player.stacks.len(),
{
    let head = player_head(player);
    lemma_player_head(player);
    lemma_field_within(data, at, head, 0, 8);
    lemma_field_within(data, at, head, 8, 8);
    lemma_field_within(data, at, head, 16, 8);
    lemma_field_within(data, at, head, 24, 8);
    lemma_field_within(data, at, head, 32, 8);
    lemma_byte_within(data, at, head, 40);
    lemma_byte_within(data, at, head, 41);
    lemma_field_within(data, at, head, 42, 2);
    let stacks = player.stacks;
    assert forall|k: int| 0 <= k < stacks.len() implies #[trigger] stack_ok(
        data,
        stack_offset(at, k),
    ) && stack_at(data, stack_offset(at, k)) == stacks[k] by {
        lemma_stacks_layout(stacks, k);
        let part = stacks_bytes(stacks);
        lemma_field_within(data, at + 44, part, 4 * k, 4);
        lemma_stack_back(data, stack_offset(at, k), stacks[k]);
    }
    assert forall|j: int, k: int| 0 <= j < k < stacks.len() implies data[#[trigger] stack_offset(
        at,
        j,
    )] != data[#[trigger] stack_offset(at, k)] by {
        assert(stack_ok(data, stack_offset(at, j)) && stack_ok(data, stack_offset(at, k)));
        assert(stacks[j].slot != stacks[k].slot);
        assert(stack_at(data, stack_offset(at, j)) == stacks[j]);
        assert(stack_at(data, stack_offset(at, k)) == stacks[k]);
    }
    assert(player_at(data, at).stacks =~= stacks) by {
        assert forall|k: int| 0 <= k < stacks.len() implies player_at(data, at).stacks[k]
            == stacks[k] by {
            assert(stack_ok(data, stack_offset(at, k)));
        }
    }
}

/// The length of the bytes of a player.
proof fn lemma_player_len(player: Option<PlayerView>)
    requires
        player is Some ==> player_storable(player->0),
    ensures
        player_bytes(player).len() == (match player {
            None => 1nat,
            Some(p) => 45 + 4 * p.stacks.len(),
        }),
{
    if let Some(p) = player {
        lemma_player_head(p);
        lemma_stacks_layout(p.stacks, p.stacks.len() as int);
    }
}

proof fn lemma_head_fields(n: nat)
    requires
        n <= MAX_NAME_LEN,
    ensures
        ({
            let head = head_bytes(n);
            &&& head.len() == 10
            &&& head.take(4) == magic()
            &&& field(head, 4, 2) == FORMAT_VERSION
            &&& field(head, 6, 2) == COUNT
            &&& field(head, 8, 2) == n
        }),
{
    let head = head_bytes(n);
    lemma_lens(FORMAT_VERSION as nat);
    lemma_lens(COUNT as nat);
    lemma_lens(n);
    assert(head.take(4) =~= magic());
    assert(head.subrange(4, 6) =~= le_bytes(FORMAT_VERSION as nat, 2));
    assert(head.subrange(6, 8) =~= le_bytes(COUNT as nat, 2));
    assert(head.subrange(8, 10) =~= le_bytes(n, 2));
}

proof fn lemma_place_fields(save: SaveView)
    ensures
        ({
            let part = place_bytes(save);
            &&& part.len() == 32
            &&& field(part, 0, 8) == save.seed
            &&& signed_field(part, 8) == save.spawn_x
            &&& signed_field(part, 16) == save.spawn_z
            &&& signed_field(part, 24) == save.spawn_height
        }),
{
    let part = place_bytes(save);
    lemma_lens(save.seed as nat);
    lemma_lens(unsigned(save.spawn_x));
    lemma_lens(unsigned(save.spawn_z));
    lemma_lens(unsigned(save.spawn_height));
    signed_numbers_survive(save.spawn_x);
    signed_numbers_survive(save.spawn_z);
    signed_numbers_survive(save.spawn_height);
    assert(part.subrange(0, 8) =~= le_bytes(save.seed as nat, 8));
    assert(part.subrange(8, 16) =~= le_bytes(unsigned(save.spawn_x), 8));
    assert(part.subrange(16, 24) =~= le_bytes(unsigned(save.spawn_z), 8));
    assert(part.subrange(24, 32) =~= le_bytes(unsigned(save.spawn_height), 8));
}

/// A part in the middle of bytes is found at its offset.
proof fn lemma_middle(a: Seq<u8>, b: Seq<u8>, c: Seq<u8>)
    ensures
        (a + b + c).subrange(a.len() as int, (a.len() + b.len()) as int) == b,
{
    assert((a + b + c).subrange(a.len() as int, (a.len() + b.len()) as int) =~= b);
}

/// The bytes of edits give the edits back.
proof fn lemma_edits_back(data: Seq<u8>, at: int, edits: Seq<BlockEdit>)
    requires
        0 <= at,
        at + 25 * edits.len() <= data.len(),
        data.subrange(at, at + 25 * edits.len()) == edits_bytes(edits),
        forall|k: int| 0 <= k < edits.len() ==> edit_near(#[trigger] edits[k]),
    ensures
        forall|k: int| 0 <= k < edits.len() ==> #[trigger] edit_ok(data, edit_offset(at, k)),
        raw_edits(data, at, edits.len()) == edits,
{
    let part = edits_bytes(edits);
    lemma_edits_layout(edits, edits.len() as int);
    assert forall|k: int| 0 <= k < edits.len() implies #[trigger] edit_ok(
        data,
        edit_offset(at, k),
    ) && edit_at(data, edit_offset(at, k)) == edits[k] by {
        lemma_edits_layout(edits, k);
        lemma_field_within(data, at, part, 25 * k, 25);
        lemma_edit_back(data, edit_offset(at, k), edits[k]);
    }
    assert(raw_edits(data, at, edits.len()) =~= edits) by {
        assert forall|k: int| 0 <= k < edits.len() implies raw_edits(data, at, edits.len())[k]
            == edits[k] by {
            assert(edit_ok(data, edit_offset(at, k)));
        }
    }
}

/// Where the parts of a save's bytes lie.
proof fn lemma_save_layout(save: SaveView)
    requires
        storable(save),
    ensures
        ({
            let data = save_bytes(save);
            let name = encode_utf8(save.name);
            let a = 10 + name.len() as int;
            let b = a + 32 + player_bytes(save.player).len();
            &&& data.subrange(0, 10) == head_bytes(name.len())
            &&& data.subrange(10, a) == name
            &&& data.subrange(a, a + 32) == place_bytes(save)
            &&& data.subrange(a + 32, b) == player_bytes(save.player)
            &&& data.subrange(b, b + 4) == le_bytes(save.edits.len(), 4)
            &&& data.subrange(b + 4, b + 4 + 25 * save.edits.len()) == edits_bytes(save.edits)
            &&& data.len() == b + 4 + 25 * save.edits.len()
        }),
{
    let name = stored_name(save.name);
    assert(name =~= encode_utf8(save.name));
    let head = head_bytes(name.len());
    let place = place_bytes(save);
    let player = player_bytes(save.player);
    let number = le_bytes(save.edits.len(), 4);
    let edits = edits_bytes(save.edits);
    let data = save_bytes(save);
    lemma_head_fields(name.len());
    lemma_place_fields(save);
    lemma_player_len(save.player);
    lemma_lens(save.edits.len());
    lemma_edits_layout(save.edits, save.edits.len() as int);
    let empty = Seq::<u8>::empty();
    assert(data =~= empty + head + (name + place + player + number + edits));
    assert(data =~= head + name + (place + player + number + edits));
    assert(data =~= (head + name) + place + (player + number + edits));
    assert(data =~= (head + name + place) + player + (number + edits));
    assert(data =~= (head + name + place + player) + number + edits);
    assert(data =~= (head + name + place + player + number) + edits + empty);
    lemma_middle(empty, head, name + place + player + number + edits);
    lemma_middle(head, name, place + player + number + edits);
    lemma_middle(head + name, place, player + number + edits);
    lemma_middle(head + name + place, player, number + edits);
    lemma_middle(head + name + place + player, number, edits);
    lemma_middle(head + name + place + player + number, edits, empty);
}

/// The bytes of a save whose parts are within range are a save, and it holds the
/// same world, with the edits that count and the pitch that cameras can have.
pub proof fn reading_settles_a_save(save: SaveView)
    requires
        storable(save),
    ensures
        is_save(save_bytes(save)),
        read_save(save_bytes(save)) == settled(save),
{
    let name = encode_utf8(save.name);
    encode_utf8_valid_utf8(save.name);
    encode_utf8_decode_utf8(save.name);
    let head = head_bytes(name.len());
    let place = place_bytes(save);
    let player = player_bytes(save.player);
    let data = save_bytes(save);
    lemma_save_layout(save);
    lemma_head_fields(name.len());
    lemma_place_fields(save);
    lemma_player_len(save.player);
    lemma_lens(save.edits.len());
    assert(data.take(4) =~= head.take(4)) by {
        assert forall|i: int| 0 <= i < 4 implies data[i] == head[i] by {
            lemma_byte_within(data, 0, head, i);
        }
    }
    lemma_field_within(data, 0, head, 4, 2);
    lemma_field_within(data, 0, head, 6, 2);
    lemma_field_within(data, 0, head, 8, 2);
    let a = (10 + name.len()) as int;
    lemma_field_within(data, a, place, 0, 8);
    lemma_field_within(data, a, place, 8, 8);
    lemma_field_within(data, a, place, 16, 8);
    lemma_field_within(data, a, place, 24, 8);
    lemma_byte_within(data, a + 32, player, 0);
    let b = a + 32 + player.len();
    if let Some(p) = save.player {
        lemma_player_head(p);
        lemma_stacks_layout(p.stacks, p.stacks.len() as int);
        lemma_field_within(data, a + 32, player, 1, 44);
        lemma_field_within(data, a + 32, player, 45, (4 * p.stacks.len()) as nat);
        assert(player.subrange(1, 45) =~= player_head(p));
        assert(player.subrange(45, (45 + 4 * p.stacks.len()) as int) =~= stacks_bytes(p.stacks));
        lemma_player_back(data, a + 33, p);
    }
    assert(edits_start(data) == b);
    lemma_edits_back(data, b + 4, save.edits);
    assert(read_save(data) =~= settled(save));
}

/// Reading gives back what writing wrote.
pub proof fn saves_survive(save: SaveView)
    requires
        storable(save),
        is_settled(save),
    ensures
        is_save(save_bytes(save)),
        read_save(save_bytes(save)) == save,
{
    reading_settles_a_save(save);
    lemma_all_count(save.edits);
    assert(settled(save) =~= save);
}

/// What has been read is within range and settled, so it can be written and read
/// again without a change.
pub proof fn what_is_read_can_be_stored(data: Seq<u8>)
    requires
        is_save(data),
    ensures
        storable(read_save(data)),
        is_settled(read_save(data)),
{
    let save = read_save(data);
    let a = name_end(data);
    let b = edits_start(data);
    vstd::utf8::decode_utf8_encode_utf8(data.subrange(10, a));
    let raw = raw_edits(data, b + 4, field(data, b, 4));
    lemma_last_edits(raw);
    assert forall|k: int| 0 <= k < save.edits.len() implies edit_near(
        #[trigger] save.edits[k],
    ) by {
        assert(raw.contains(save.edits[k])) by {
            assert(save.edits.contains(save.edits[k]));
        }
        let j = choose|j: int| 0 <= j < raw.len() && raw[j] == save.edits[k];
        assert(edit_ok(data, edit_offset(b + 4, j)));
    }
    if data[a + 32] == 1 {
        let p = player_at(data, a + 33);
        lemma_kept_pitch(double_field(data, a + 33 + 32));
        assert forall|k: int| 0 <= k < p.stacks.len() implies {
            &&& (#[trigger] p.stacks[k]).slot < INVENTORY_SIZE
            &&& 1 <= p.stacks[k].count <= MAX_STACK_COUNT
        } by {
            assert(stack_ok(data, stack_offset(a + 33, k)));
        }
        assert forall|j: int, k: int| 0 <= j < k < p.stacks.len() implies (#[trigger] p.stacks[j]).slot
            != (#[trigger] p.stacks[k]).slot by {
            assert(data[stack_offset(a + 33, j)] != data[stack_offset(a + 33, k)]);
        }
    }
}

proof fn lemma_kept_pitch(d: Double)
    requires
        !d.spec_nan(),
    ensures
        !kept_pitch(d).spec_nan(),
        kept_pitch(kept_pitch(d)) == kept_pitch(d),
{
    let low = Double { bits: NEGATIVE_PITCH_BITS };
    let high = Double { bits: PITCH_BITS };
    assert(low.low() == high.low());
    assert(magnitude(low.low()) >= 0);
}

/// The edits that count are among the edits made, one of each position, and of each
/// position the one made last.
proof fn lemma_last_edits(edits: Seq<BlockEdit>)
    ensures
        last_edits(edits).len() <= edits.len(),
        places_differ(last_edits(edits)),
        forall|e: BlockEdit| #[trigger] last_edits(edits).contains(e) ==> edits.contains(e),
    decreases edits.len(),
{
    if edits.len() > 0 {
        let rest = edits.drop_last();
        let last = edits.last();
        lemma_last_edits(rest);
        let keep = |e: BlockEdit| !same_place(e, last);
        let before = last_edits(rest);
        let kept = before.filter(keep);
        let all = last_edits(edits);
        lemma_filter_shape(before, keep);
        assert(all == kept.push(last));
        assert forall|j: int, k: int| 0 <= j < k < all.len() implies !same_place(
            #[trigger] all[j],
            #[trigger] all[k],
        ) by {
            if k < kept.len() {
                assert(!same_place(kept[j], kept[k]));
            } else {
                assert(keep(kept[j]));
            }
        }
        assert forall|e: BlockEdit| #[trigger] all.contains(e) implies edits.contains(e) by {
            let k = choose|k: int| 0 <= k < all.len() && all[k] == e;
            if k < kept.len() {
                assert(kept.contains(e)) by {
                    assert(kept[k] == e);
                }
                lemma_filter_members(before, keep, e);
                assert(rest.contains(e));
                let j = choose|j: int| 0 <= j < rest.len() && rest[j] == e;
                assert(edits[j] == e);
            } else {
                assert(edits[edits.len() - 1] == e);
            }
        }
    }
}

/// Filtering keeps what passes, in order and without repeats.
proof fn lemma_filter_shape(edits: Seq<BlockEdit>, keep: spec_fn(BlockEdit) -> bool)
    requires
        places_differ(edits),
    ensures
        edits.filter(keep).len() <= edits.len(),
        places_differ(edits.filter(keep)),
        forall|k: int|
            0 <= k < edits.filter(keep).len() ==> keep(#[trigger] edits.filter(keep)[k])
                && edits.contains(edits.filter(keep)[k]),
    decreases edits.len(),
{
    reveal(Seq::filter);
    if edits.len() > 0 {
        let rest = edits.drop_last();
        let last = edits.last();
        assert forall|j: int, k: int| 0 <= j < k < rest.len() implies !same_place(
            #[trigger] rest[j],
            #[trigger] rest[k],
        ) by {
            assert(!same_place(edits[j], edits[k]));
        }
        lemma_filter_shape(rest, keep);
        let kept = rest.filter(keep);
        let all = edits.filter(keep);
        assert forall|k: int| 0 <= k < all.len() implies keep(#[trigger] all[k])
            && edits.contains(all[k]) by {
            if k < kept.len() {
                assert(keep(kept[k]) && rest.contains(kept[k]));
                let j = choose|j: int| 0 <= j < rest.len() && rest[j] == kept[k];
                assert(edits[j] == all[k]);
            } else {
                assert(edits[edits.len() - 1] == all[k]);
            }
        }
        assert forall|j: int, k: int| 0 <= j < k < all.len() implies !same_place(
            #[trigger] all[j],
            #[trigger] all[k],
        ) by {
            if k < kept.len() {
                assert(!same_place(kept[j], kept[k]));
            } else {
                assert(rest.contains(kept[j]));
                let i = choose|i: int| 0 <= i < rest.len() && rest[i] == kept[j];
                assert(!same_place(edits[i], edits[edits.len() - 1]));
            }
        }
    }
}

/// Of several edits of one position the last one counts: an edit counts exactly if
/// it was made and no later one is of its position.
pub proof fn last_edit_counts(edits: Seq<BlockEdit>, k: int)
    requires
        0 <= k < edits.len(),
    ensures
        places_differ(last_edits(edits)),
        (forall|j: int| k < j < edits.len() ==> !same_place(edits[k], #[trigger] edits[j]))
            ==> last_edits(edits).contains(edits[k]),
        (exists|j: int|
            k < j < edits.len() && same_place(edits[k], #[trigger] edits[j]) && edits[j]
                != edits[k] && forall|i: int|
                j < i < edits.len() ==> !same_place(edits[k], #[trigger] edits[i]))
            ==> !last_edits(edits).contains(edits[k]),
    decreases edits.len(),
{
    lemma_last_edits(edits);
    let all = last_edits(edits);
    if forall|j: int| k < j < edits.len() ==> !same_place(edits[k], #[trigger] edits[j]) {
        lemma_last_stays(edits, k);
    }
    if exists|j: int|
        k < j < edits.len() && same_place(edits[k], #[trigger] edits[j]) && edits[j] != edits[k]
            && forall|i: int|
            j < i < edits.len() ==> !same_place(edits[k], #[trigger] edits[i]) {
        let j = choose|j: int|
            k < j < edits.len() && same_place(edits[k], #[trigger] edits[j]) && edits[j]
                != edits[k] && forall|i: int|
                j < i < edits.len() ==> !same_place(edits[k], #[trigger] edits[i]);
        lemma_last_stays(edits, j);
        if all.contains(edits[k]) {
            let p = choose|p: int| 0 <= p < all.len() && all[p] == edits[k];
            let q = choose|q: int| 0 <= q < all.len() && all[q] == edits[j];
            if p < q {
                assert(!same_place(all[p], all[q]));
            } else {
                assert(!same_place(all[q], all[p]));
            }
        }
    }
}

proof fn lemma_last_stays(edits: Seq<BlockEdit>, k: int)
    requires
        0 <= k < edits.len(),
        forall|j: int| k < j < edits.len() ==> !same_place(edits[k], #[trigger] edits[j]),
    ensures
        last_edits(edits).contains(edits[k]),
    decreases edits.len(),
{
    let rest = edits.drop_last();
    let last = edits.last();
    let keep = |e: BlockEdit| !same_place(e, last);
    let kept = last_edits(rest).filter(keep);
    let all = last_edits(edits);
    assert(all == kept.push(last));
    if k == edits.len() - 1 {
        assert(all[kept.len() as int] == edits[k]);
    } else {
        assert forall|j: int| k < j < rest.len() implies !same_place(
            rest[k],
            #[trigger] rest[j],
        ) by {
            assert(!same_place(edits[k], edits[j]));
        }
        lemma_last_stays(rest, k);
        assert(!same_place(edits[k], edits[edits.len() - 1]));
        lemma_filter_members(last_edits(rest), keep, edits[k]);
        let p = choose|p: int| 0 <= p < kept.len() && kept[p] == edits[k];
        assert(all[p] == edits[k]);
    }
}

/// A save begins with its mark, the version of its format and the number of blocks that
/// were known when it was written.
pub proof fn saves_are_marked(data: Seq<u8>)
    requires
        is_save(data),
    ensures
        data.len() >= 10 + 1 + 33 + 4,
        data[0] == 0x4d && data[1] == 0x43 && data[2] == 0x53 && data[3] == 0x31,
        data[4] == 1 && data[5] == 0,
        data[6] == 26 && data[7] == 0,
{
    assert(data.take(4)[0] == 0x4d && data.take(4)[1] == 0x43);
    assert(data.take(4)[2] == 0x53 && data.take(4)[3] == 0x31);
    lemma_short_field(data, 4);
    lemma_short_field(data, 6);
}

proof fn lemma_short_field(data: Seq<u8>, at: int)
    requires
        0 <= at,
        at + 2 <= data.len(),
    ensures
        field(data, at, 2) == data[at] + 256 * data[at + 1],
{
    reveal_with_fuel(le_value, 3);
    let s = data.subrange(at, at + 2);
    assert(s[0] == data[at]);
    assert(s.drop_first()[0] == data[at + 1]);
}

/// A save that is cut off is no save, and neither is one with anything after its end.
pub proof fn saves_have_one_end(data: Seq<u8>, more: Seq<u8>)
    requires
        is_save(data),
        is_save(more),
        data.is_prefix_of(more),
    ensures
        data == more,
{
    lemma_same_field(data, more, 8, 2);
    let a = name_end(data);
    assert(more[a + 32] == data[a + 32]);
    if data[a + 32] != 0 {
        lemma_same_field(data, more, a + 33 + 42, 2);
    }
    let b = edits_start(data);
    assert(edits_start(more) == b);
    lemma_same_field(data, more, b, 4);
    assert(data =~= more);
}

proof fn lemma_same_field(data: Seq<u8>, more: Seq<u8>, at: int, n: nat)
    requires
        data.is_prefix_of(more),
        0 <= at,
        at + n <= data.len(),
    ensures
        field(more, at, n) == field(data, at, n),
{
    assert(more.subrange(at, at + n) =~= data.subrange(at, at + n));
}

/// What a save may hold: names of up to 128 bytes, a place to begin and edits within a
/// thousand million blocks of the origin and eight layers of the world, a million edits,
/// and of a player a place that is as near, and up to one stack for each of 36 slots, of 1
/// to 64 items.
pub proof fn saves_have_limits(save: SaveView)
    ensures
        storable(save) ==> {
            &&& 1 <= encode_utf8(save.name).len() <= 128
            &&& -1_000_000_000 <= save.spawn_x <= 1_000_000_000
            &&& -1_000_000_000 <= save.spawn_z <= 1_000_000_000
            &&& -8 <= save.spawn_height <= 135
            &&& save.edits.len() <= 1_000_000
            &&& forall|k: int|
                0 <= k < save.edits.len() ==> {
                    let edit = #[trigger] save.edits[k];
                    &&& -1_000_000_000 <= edit.x <= 1_000_000_000
                    &&& -1_000_000_000 <= edit.z <= 1_000_000_000
                    &&& -8 <= edit.y <= 135
                }
            &&& save.player is Some ==> {
                let player = save.player->0;
                &&& player.selected < 36
                &&& player.stacks.len() <= 36
                &&& forall|k: int|
                    0 <= k < player.stacks.len() ==> (#[trigger] player.stacks[k]).slot < 36 && 1
                        <= player.stacks[k].count <= 64
                &&& -1_000_000_000 * one() <= player.position.x.units() <= 1_000_000_000 * one()
                &&& -8 * one() <= player.position.y.units() <= 135 * one()
                &&& -1_000_000_000 * one() <= player.position.z.units() <= 1_000_000_000 * one()
            }
        },
        save.player is None && 1 <= encode_utf8(save.name).len() <= 128 && -1_000_000_000
            <= save.spawn_x <= 1_000_000_000 && -1_000_000_000 <= save.spawn_z <= 1_000_000_000
            && -8 <= save.spawn_height <= 135 && save.edits.len() <= 1_000_000 && (forall|k: int|
            0 <= k < save.edits.len() ==> {
                let edit = #[trigger] save.edits[k];
                &&& -1_000_000_000 <= edit.x <= 1_000_000_000
                &&& -1_000_000_000 <= edit.z <= 1_000_000_000
                &&& -8 <= edit.y <= 135
            }) ==> storable(save),
{
    lemma_limits();
    if storable(save) {
        assert forall|k: int| 0 <= k < save.edits.len() implies {
            let edit = #[trigger] save.edits[k];
            &&& -1_000_000_000 <= edit.x <= 1_000_000_000
            &&& -1_000_000_000 <= edit.z <= 1_000_000_000
            &&& -8 <= edit.y <= 135
        } by {
            assert(edit_near(save.edits[k]));
        }
    }
}

/// The bits of the limits are those of 1e9, -8 and 135.
proof fn lemma_limits()
    ensures
        (Double { bits: MAX_POSITION_BITS }).units() == 1_000_000_000 * one(),
        (Double { bits: LOWEST_BITS }).units() == -8 * one(),
        (Double { bits: HIGHEST_BITS }).units() == 135 * one(),
{
    lemma2_to64();
    lemma2_to64_rest();
    lemma_pow2_adds(1051, 23);
    let p = pow2(1051) as int;
    assert(0x1d_cd65_0000_0000 * p == 1_000_000_000 * (p * 0x80_0000)) by (nonlinear_arith);
    lemma_pow2_adds(1025, 49);
    let q = pow2(1025) as int;
    assert(0x10_0000_0000_0000 * q == 8 * (q * 0x2_0000_0000_0000)) by (nonlinear_arith);
    lemma_pow2_adds(1029, 45);
    let r = pow2(1029) as int;
    assert(0x10_e000_0000_0000 * r == 135 * (r * 0x2000_0000_0000)) by (nonlinear_arith);
}

/// Views that are steeper than can be are brought back to the steepest, and others stay.
pub proof fn steep_views_are_brought_back(pitch: Double)
    requires
        !pitch.spec_nan(),
    ensures
        ({
            let kept = kept_pitch(pitch);
            let up = (Double { bits: PITCH_BITS }).units();
            let down = (Double { bits: NEGATIVE_PITCH_BITS }).units();
            &&& down == -up
            &&& down <= kept.units() <= up
            &&& down <= pitch.units() <= up ==> kept == pitch
            &&& pitch.units() > up ==> kept.units() == up
            &&& pitch.units() < down ==> kept.units() == down
        }),
{
    lemma_magnitude_order(0, (Double { bits: PITCH_BITS }).low());
    assert(magnitude(0) == 0);
}

/// Blocks and modes of a save are known ones.
pub proof fn saved_blocks_are_known(data: Seq<u8>, k: int)
    requires
        is_save(data),
    ensures
        ({
            let a = 10 + field(data, 8, 2);
            let b = edits_start(data);
            &&& data[a as int + 32] <= 1
            &&& data[a as int + 32] == 1 ==> data[a as int + 33 + 40] <= 1 && data[a as int + 33 + 41]
                < 36
            &&& 0 <= k < field(data, b, 4) ==> data[b + 4 + 25 * k + 24] < 26
            &&& data[a as int + 32] == 1 && 0 <= k < field(data, a as int + 33 + 42, 2) ==> {
                let at = a as int + 33 + 44 + 4 * k;
                data[at] < 36 && data[at + 1] < 26 && 1 <= field(data, at + 2, 2) <= 64
            }
            &&& data.len() == b + 4 + 25 * field(data, b, 4)
        }),
{
    let a = name_end(data);
    let b = edits_start(data);
    if 0 <= k < field(data, b, 4) {
        assert(edit_ok(data, edit_offset(b + 4, k)));
    }
    if data[a + 32] == 1 && 0 <= k < field(data, a + 33 + 42, 2) {
        assert(stack_ok(data, stack_offset(a + 33, k)));
    }
}

} // verus!
