//! Wire protocol codec and snapshot persistence format.
//!
//! Every value travels as a self-describing byte string: little-endian
//! 32-bit integers, length-prefixed byte strings, one tag byte per
//! tagged-union variant. A frame on the wire is a 32-bit little-endian
//! length followed by exactly that many payload bytes. Decoding an
//! unknown tag or a truncated payload is a hard failure; decoding what
//! encoding produced gives the original value back, and that round trip
//! is proved below.

use vstd::prelude::*;
use vstd::bytes::{
    lemma_auto_spec_u32_to_from_le_bytes, spec_u32_from_le_bytes, spec_u32_to_le_bytes,
    u32_from_le_bytes, u32_to_le_bytes,
};
use vstd::slice::{slice_subrange, slice_to_vec};
use crate::protocol::{ClientMessage, ClientMessageV, ServerMessage, ServerMessageV};
use crate::world::{
    Crop, CropType, GameState, GrowthStage, MAX_PLAYERS, Player, PlayerV, StateV, Tile, TileType,
    WORLD_HEIGHT, WORLD_WIDTH, spec_ids_distinct, spec_state_wf,
};

verus! {

/// A byte string that does not decode: truncated, an unknown tag, or a
/// malformed field.
#[derive(Clone, Copy, PartialEq, Eq, Structural, Debug)]
pub struct DecodeError;

// ---------------------------------------------------------------------
// primitives
// ---------------------------------------------------------------------

/// One byte read at a position.
pub open spec fn spec_dec_u8(b: Seq<u8>, pos: int) -> Option<(u8, int)> {
    if 0 <= pos && pos + 1 <= b.len() {
        Some((b[pos], pos + 1))
    } else {
        None
    }
}

/// A little-endian 32-bit integer read at a position.
pub open spec fn spec_dec_u32(b: Seq<u8>, pos: int) -> Option<(u32, int)> {
    if 0 <= pos && pos + 4 <= b.len() {
        Some((spec_u32_from_le_bytes(b.subrange(pos, pos + 4)), pos + 4))
    } else {
        None
    }
}

fn dec_u8(b: &Vec<u8>, pos: usize) -> (r: Option<(u8, usize)>)
    ensures
        match r {
            Some((v, p)) => spec_dec_u8(b@, pos as int) == Some((v, p as int)),
            None => spec_dec_u8(b@, pos as int) is None,
        },
{
    if pos < b.len() {
        Some((b[pos], pos + 1))
    } else {
        None
    }
}

fn dec_u32(b: &Vec<u8>, pos: usize) -> (r: Option<(u32, usize)>)
    ensures
        match r {
            Some((v, p)) => spec_dec_u32(b@, pos as int) == Some((v, p as int)),
            None => spec_dec_u32(b@, pos as int) is None,
        },
{
    if pos <= b.len() && b.len() - pos >= 4 {
        let sl = slice_subrange(b.as_slice(), pos, pos + 4);
        let x = u32_from_le_bytes(sl);
        Some((x, pos + 4))
    } else {
        None
    }
}

/// Append a little-endian 32-bit integer.
fn enc_u32(out: &mut Vec<u8>, x: u32)
    ensures
        final(out)@ == old(out)@ + spec_u32_to_le_bytes(x),
{
    let mut s = u32_to_le_bytes(x);
    out.append(&mut s);
}

/// Reading four bytes back gives the integer they were written from.
proof fn lemma_dec_enc_u32(b: Seq<u8>, pos: int, x: u32)
    requires
        0 <= pos,
        pos + 4 <= b.len(),
        b.subrange(pos, pos + 4) == spec_u32_to_le_bytes(x),
    ensures
        spec_dec_u32(b, pos) == Some((x, pos + 4)),
{
    lemma_auto_spec_u32_to_from_le_bytes();
    assert(spec_u32_to_le_bytes(x).len() == 4);
    assert(spec_u32_from_le_bytes(spec_u32_to_le_bytes(x)) == x);
}

/// A window of a window of a byte string is a window of the whole.
proof fn lemma_nested_subrange(b: Seq<u8>, pos: int, len: int, e: Seq<u8>, off: int, end: int)
    requires
        0 <= pos,
        pos + len <= b.len(),
        e.len() == len,
        b.subrange(pos, pos + len) == e,
        0 <= off <= end <= len,
    ensures
        b.subrange(pos + off, pos + end) == e.subrange(off, end),
{
    assert(b.subrange(pos + off, pos + end) =~= e.subrange(off, end)) by {
        assert forall|k: int| 0 <= k < end - off implies b.subrange(pos + off, pos + end)[k]
            == e.subrange(off, end)[k] by {
            assert(b.subrange(pos, pos + len)[off + k] == b[pos + off + k]);
        }
    }
}

/// One byte of a window is the byte of the whole.
proof fn lemma_subrange_byte(b: Seq<u8>, pos: int, len: int, e: Seq<u8>, off: int)
    requires
        0 <= pos,
        pos + len <= b.len(),
        e.len() == len,
        b.subrange(pos, pos + len) == e,
        0 <= off < len,
    ensures
        b[pos + off] == e[off],
{
    assert(b.subrange(pos, pos + len)[off] == b[pos + off]);
}

// ---------------------------------------------------------------------
// enumerations
// ---------------------------------------------------------------------

/// The wire code of a species.
pub open spec fn spec_crop_type_code(c: CropType) -> u8 {
    match c {
        CropType::Wheat => 0,
        CropType::Carrot => 1,
        CropType::Tomato => 2,
    }
}

/// The species a wire code names, if any.
pub open spec fn spec_crop_type_of(v: u8) -> Option<CropType> {
    if v == 0 {
        Some(CropType::Wheat)
    } else if v == 1 {
        Some(CropType::Carrot)
    } else if v == 2 {
        Some(CropType::Tomato)
    } else {
        None
    }
}

/// The wire code of a growth stage.
pub open spec fn spec_stage_code(s: GrowthStage) -> u8 {
    match s {
        GrowthStage::Seed => 0,
        GrowthStage::Sprout => 1,
        GrowthStage::Growing => 2,
        GrowthStage::Mature => 3,
    }
}

/// The growth stage a wire code names, if any.
pub open spec fn spec_stage_of(v: u8) -> Option<GrowthStage> {
    if v == 0 {
        Some(GrowthStage::Seed)
    } else if v == 1 {
        Some(GrowthStage::Sprout)
    } else if v == 2 {
        Some(GrowthStage::Growing)
    } else if v == 3 {
        Some(GrowthStage::Mature)
    } else {
        None
    }
}

/// The wire code of a surface.
pub open spec fn spec_surface_code(t: TileType) -> u8 {
    match t {
        TileType::Grass => 0,
        TileType::Soil => 1,
        TileType::WateredSoil => 2,
    }
}

/// The surface a wire code names, if any.
pub open spec fn spec_surface_of(v: u8) -> Option<TileType> {
    if v == 0 {
        Some(TileType::Grass)
    } else if v == 1 {
        Some(TileType::Soil)
    } else if v == 2 {
        Some(TileType::WateredSoil)
    } else {
        None
    }
}

fn crop_type_code(c: CropType) -> (r: u8)
    ensures
        r == spec_crop_type_code(c),
{
    match c {
        CropType::Wheat => 0,
        CropType::Carrot => 1,
        CropType::Tomato => 2,
    }
}

fn crop_type_of(v: u8) -> (r: Option<CropType>)
    ensures
        r == spec_crop_type_of(v),
{
    if v == 0 {
        Some(CropType::Wheat)
    } else if v == 1 {
        Some(CropType::Carrot)
    } else if v == 2 {
        Some(CropType::Tomato)
    } else {
        None
    }
}

fn stage_code(s: GrowthStage) -> (r: u8)
    ensures
        r == spec_stage_code(s),
{
    match s {
        GrowthStage::Seed => 0,
        GrowthStage::Sprout => 1,
        GrowthStage::Growing => 2,
        GrowthStage::Mature => 3,
    }
}

fn stage_of(v: u8) -> (r: Option<GrowthStage>)
    ensures
        r == spec_stage_of(v),
{
    if v == 0 {
        Some(GrowthStage::Seed)
    } else if v == 1 {
        Some(GrowthStage::Sprout)
    } else if v == 2 {
        Some(GrowthStage::Growing)
    } else if v == 3 {
        Some(GrowthStage::Mature)
    } else {
        None
    }
}

fn surface_code(t: TileType) -> (r: u8)
    ensures
        r == spec_surface_code(t),
{
    match t {
        TileType::Grass => 0,
        TileType::Soil => 1,
        TileType::WateredSoil => 2,
    }
}

fn surface_of(v: u8) -> (r: Option<TileType>)
    ensures
        r == spec_surface_of(v),
{
    if v == 0 {
        Some(TileType::Grass)
    } else if v == 1 {
        Some(TileType::Soil)
    } else if v == 2 {
        Some(TileType::WateredSoil)
    } else {
        None
    }
}

// ---------------------------------------------------------------------
// crops and tiles
// ---------------------------------------------------------------------

/// A crop on the wire: species, stage, stage counter.
pub open spec fn spec_enc_crop(c: Crop) -> Seq<u8> {
    seq![spec_crop_type_code(c.crop_type), spec_stage_code(c.growth_stage)]
        + spec_u32_to_le_bytes(c.ticks_in_stage)
}

/// A crop read at a position.
pub open spec fn spec_dec_crop(b: Seq<u8>, pos: int) -> Option<(Crop, int)> {
    match spec_dec_u8(b, pos) {
        None => None,
        Some((tv, p1)) => match spec_crop_type_of(tv) {
            None => None,
            Some(crop_type) => match spec_dec_u8(b, p1) {
                None => None,
                Some((gv, p2)) => match spec_stage_of(gv) {
                    None => None,
                    Some(growth_stage) => match spec_dec_u32(b, p2) {
                        None => None,
                        Some((ticks_in_stage, p3)) => Some(
                            (Crop { crop_type, growth_stage, ticks_in_stage }, p3),
                        ),
                    },
                },
            },
        },
    }
}

fn enc_crop(out: &mut Vec<u8>, c: &Crop)
    ensures
        final(out)@ == old(out)@ + spec_enc_crop(*c),
{
    out.push(crop_type_code(c.crop_type));
    out.push(stage_code(c.growth_stage));
    enc_u32(out, c.ticks_in_stage);
    proof {
        assert(out@ =~= old(out)@ + spec_enc_crop(*c));
    }
}

fn dec_crop(b: &Vec<u8>, pos: usize) -> (r: Option<(Crop, usize)>)
    ensures
        match r {
            Some((v, p)) => spec_dec_crop(b@, pos as int) == Some((v, p as int)),
            None => spec_dec_crop(b@, pos as int) is None,
        },
{
    match dec_u8(b, pos) {
        None => None,
        Some((tv, p1)) => match crop_type_of(tv) {
            None => None,
            Some(crop_type) => match dec_u8(b, p1) {
                None => None,
                Some((gv, p2)) => match stage_of(gv) {
                    None => None,
                    Some(growth_stage) => match dec_u32(b, p2) {
                        None => None,
                        Some((ticks_in_stage, p3)) => Some(
                            (Crop { crop_type, growth_stage, ticks_in_stage }, p3),
                        ),
                    },
                },
            },
        },
    }
}

/// Reading a crop back from its own bytes gives the crop.
proof fn lemma_dec_enc_crop(b: Seq<u8>, pos: int, c: Crop)
    requires
        0 <= pos,
        pos + 6 <= b.len(),
        b.subrange(pos, pos + 6) == spec_enc_crop(c),
    ensures
        spec_dec_crop(b, pos) == Some((c, pos + 6)),
{
    let e = spec_enc_crop(c);
    lemma_auto_spec_u32_to_from_le_bytes();
    assert(spec_u32_to_le_bytes(c.ticks_in_stage).len() == 4);
    assert(e.len() == 6);
    lemma_subrange_byte(b, pos, 6, e, 0);
    lemma_subrange_byte(b, pos, 6, e, 1);
    assert(e[0] == spec_crop_type_code(c.crop_type));
    assert(e[1] == spec_stage_code(c.growth_stage));
    lemma_nested_subrange(b, pos, 6, e, 2, 6);
    assert(e.subrange(2, 6) =~= spec_u32_to_le_bytes(c.ticks_in_stage)) by {
        lemma_auto_spec_u32_to_from_le_bytes();
    }
    lemma_dec_enc_u32(b, pos + 2, c.ticks_in_stage);
}

/// A tile on the wire: the surface code, then a presence byte and, when a
/// crop is there, the crop.
pub open spec fn spec_enc_tile(t: Tile) -> Seq<u8> {
    seq![spec_surface_code(t.tile_type)] + (match t.crop {
        None => seq![0u8],
        Some(c) => seq![1u8] + spec_enc_crop(c),
    })
}

/// A tile read at a position.
pub open spec fn spec_dec_tile(b: Seq<u8>, pos: int) -> Option<(Tile, int)> {
    match spec_dec_u8(b, pos) {
        None => None,
        Some((sv, p1)) => match spec_surface_of(sv) {
            None => None,
            Some(tile_type) => match spec_dec_u8(b, p1) {
                None => None,
                Some((cv, p2)) => if cv == 0 {
                    Some((Tile { tile_type, crop: None }, p2))
                } else if cv == 1 {
                    match spec_dec_crop(b, p2) {
                        None => None,
                        Some((c, p3)) => Some((Tile { tile_type, crop: Some(c) }, p3)),
                    }
                } else {
                    None
                },
            },
        },
    }
}

fn enc_tile(out: &mut Vec<u8>, t: &Tile)
    ensures
        final(out)@ == old(out)@ + spec_enc_tile(*t),
{
    out.push(surface_code(t.tile_type));
    match t.crop {
        None => {
            out.push(0);
        },
        Some(c) => {
            out.push(1);
            enc_crop(out, &c);
        },
    }
    proof {
        assert(out@ =~= old(out)@ + spec_enc_tile(*t));
    }
}

fn dec_tile(b: &Vec<u8>, pos: usize) -> (r: Option<(Tile, usize)>)
    ensures
        match r {
            Some((v, p)) => spec_dec_tile(b@, pos as int) == Some((v, p as int)),
            None => spec_dec_tile(b@, pos as int) is None,
        },
{
    match dec_u8(b, pos) {
        None => None,
        Some((sv, p1)) => match surface_of(sv) {
            None => None,
            Some(tile_type) => match dec_u8(b, p1) {
                None => None,
                Some((cv, p2)) => if cv == 0 {
                    Some((Tile { tile_type, crop: None }, p2))
                } else if cv == 1 {
                    match dec_crop(b, p2) {
                        None => None,
                        Some((c, p3)) => Some((Tile { tile_type, crop: Some(c) }, p3)),
                    }
                } else {
                    None
                },
            },
        },
    }
}

/// The two possible widths of a tile on the wire.
proof fn proof_enc_tile_len(t: Tile)
    ensures
        spec_enc_tile(t).len() == (if t.crop is Some {
            8int
        } else {
            2int
        }),
{
    lemma_auto_spec_u32_to_from_le_bytes();
    match t.crop {
        Some(c) => {
            assert(spec_u32_to_le_bytes(c.ticks_in_stage).len() == 4);
        },
        None => {},
    }
}

/// Reading a tile back from its own bytes gives the tile.
proof fn lemma_dec_enc_tile(b: Seq<u8>, pos: int, t: Tile)
    requires
        0 <= pos,
        pos + spec_enc_tile(t).len() <= b.len(),
        b.subrange(pos, pos + spec_enc_tile(t).len()) == spec_enc_tile(t),
    ensures
        spec_dec_tile(b, pos) == Some((t, pos + spec_enc_tile(t).len())),
{
    let e = spec_enc_tile(t);
    proof_enc_tile_len(t);
    let n = e.len() as int;
    lemma_subrange_byte(b, pos, n, e, 0);
    assert(e[0] == spec_surface_code(t.tile_type));
    lemma_subrange_byte(b, pos, n, e, 1);
    match t.crop {
        None => {
            assert(e.len() == 2);
            assert(e[1] == 0u8);
        },
        Some(c) => {
            assert(e.len() == 8);
            assert(e[1] == 1u8);
            lemma_nested_subrange(b, pos, 8, e, 2, 8);
            assert(e.subrange(2, 8) =~= spec_enc_crop(c));
            lemma_dec_enc_crop(b, pos + 2, c);
        },
    }
}

// ---------------------------------------------------------------------
// byte strings
// ---------------------------------------------------------------------

/// A byte string on the wire: its length, then its bytes.
pub open spec fn spec_enc_bytes(s: Seq<u8>) -> Seq<u8>
    recommends
        s.len() <= u32::MAX,
{
    spec_u32_to_le_bytes(s.len() as u32) + s
}

/// A byte string read at a position.
pub open spec fn spec_dec_bytes(b: Seq<u8>, pos: int) -> Option<(Seq<u8>, int)> {
    match spec_dec_u32(b, pos) {
        None => None,
        Some((n, p1)) => if p1 + n <= b.len() {
            Some((b.subrange(p1, p1 + n), p1 + n))
        } else {
            None
        },
    }
}

fn enc_bytes(out: &mut Vec<u8>, s: &Vec<u8>)
    requires
        s@.len() <= u32::MAX,
    ensures
        final(out)@ == old(out)@ + spec_enc_bytes(s@),
{
    enc_u32(out, s.len() as u32);
    let mut c = s.clone();
    proof {
        assert(c@ =~= s@);
    }
    out.append(&mut c);
    proof {
        assert(out@ =~= old(out)@ + spec_enc_bytes(s@));
    }
}

fn dec_bytes(b: &Vec<u8>, pos: usize) -> (r: Option<(Vec<u8>, usize)>)
    ensures
        match r {
            Some((v, p)) => spec_dec_bytes(b@, pos as int) == Some((v@, p as int)),
            None => spec_dec_bytes(b@, pos as int) is None,
        },
{
    match dec_u32(b, pos) {
        None => None,
        Some((n, p1)) => {
            let n_us = n as usize;
            if p1 <= b.len() && n_us <= b.len() - p1 {
                let sl = slice_subrange(b.as_slice(), p1, p1 + n_us);
                let v = slice_to_vec(sl);
                Some((v, p1 + n_us))
            } else {
                None
            }
        },
    }
}

/// Reading a byte string back from its own bytes gives the byte string.
proof fn lemma_dec_enc_bytes(b: Seq<u8>, pos: int, s: Seq<u8>)
    requires
        s.len() <= u32::MAX,
        0 <= pos,
        pos + 4 + s.len() <= b.len(),
        b.subrange(pos, pos + 4 + s.len()) == spec_enc_bytes(s),
    ensures
        spec_dec_bytes(b, pos) == Some((s, pos + 4 + s.len())),
{
    let e = spec_enc_bytes(s);
    let n = e.len() as int;
    lemma_auto_spec_u32_to_from_le_bytes();
    assert(spec_u32_to_le_bytes(s.len() as u32).len() == 4);
    lemma_nested_subrange(b, pos, n, e, 0, 4);
    assert(e.subrange(0, 4) =~= spec_u32_to_le_bytes(s.len() as u32));
    lemma_dec_enc_u32(b, pos, s.len() as u32);
    lemma_nested_subrange(b, pos, n, e, 4, n);
    assert(e.subrange(4, n) =~= s);
}

// ---------------------------------------------------------------------
// tile rows
// ---------------------------------------------------------------------

/// Consecutive tiles on the wire, in grid order, without a count: the grid
/// never changes size.
pub open spec fn spec_enc_tiles(ts: Seq<Tile>) -> Seq<u8>
    decreases ts.len(),
{
    if ts.len() == 0 {
        Seq::empty()
    } else {
        spec_enc_tile(ts[0]) + spec_enc_tiles(ts.subrange(1, ts.len() as int))
    }
}

/// A fixed number of consecutive tiles read at a position.
pub open spec fn spec_dec_tiles(b: Seq<u8>, pos: int, n: nat, acc: Seq<Tile>) -> Option<
    (Seq<Tile>, int),
>
    decreases n,
{
    if n == 0 {
        Some((acc, pos))
    } else {
        match spec_dec_tile(b, pos) {
            None => None,
            Some((t, p1)) => spec_dec_tiles(b, p1, (n - 1) as nat, acc.push(t)),
        }
    }
}

/// Appending one tile appends its bytes.
proof fn lemma_enc_tiles_push(ts: Seq<Tile>, t: Tile)
    ensures
        spec_enc_tiles(ts.push(t)) == spec_enc_tiles(ts) + spec_enc_tile(t),
    decreases ts.len(),
{
    if ts.len() == 0 {
        assert(spec_enc_tiles(Seq::<Tile>::empty()) == Seq::<u8>::empty());
        assert(ts =~= Seq::<Tile>::empty());
        assert(ts.push(t)[0] == t);
        assert(ts.push(t).subrange(1, 1) =~= Seq::<Tile>::empty());
        assert(spec_enc_tiles(ts.push(t)) == spec_enc_tile(t) + spec_enc_tiles(
            ts.push(t).subrange(1, 1),
        ));
        assert(spec_enc_tiles(ts.push(t)) =~= spec_enc_tiles(ts) + spec_enc_tile(t));
    } else {
        let rest = ts.subrange(1, ts.len() as int);
        let u = ts.push(t);
        assert(u.len() == ts.len() + 1);
        assert(u[0] == ts[0]);
        assert(u.subrange(1, u.len() as int) =~= rest.push(t));
        lemma_enc_tiles_push(rest, t);
        assert(spec_enc_tiles(u) == spec_enc_tile(ts[0]) + (spec_enc_tiles(rest)
            + spec_enc_tile(t)));
        assert(spec_enc_tile(ts[0]) + (spec_enc_tiles(rest) + spec_enc_tile(t)) =~= (spec_enc_tile(
            ts[0],
        ) + spec_enc_tiles(rest)) + spec_enc_tile(t));
        assert(spec_enc_tiles(ts) == spec_enc_tile(ts[0]) + spec_enc_tiles(rest));
    }
}

fn enc_tiles(out: &mut Vec<u8>, ts: &Vec<Tile>)
    ensures
        final(out)@ == old(out)@ + spec_enc_tiles(ts@),
{
    let n: usize = ts.len();
    let mut i: usize = 0;
    while i < n
        invariant
            i <= n,
            n == ts@.len(),
            out@ == old(out)@ + spec_enc_tiles(ts@.subrange(0, i as int)),
        decreases n - i,
    {
        enc_tile(out, &ts[i]);
        proof {
            assert(ts@.subrange(0, i as int + 1) =~= ts@.subrange(0, i as int).push(ts@[i as int]));
            lemma_enc_tiles_push(ts@.subrange(0, i as int), ts@[i as int]);
        }
        i = i + 1;
    }
    proof {
        assert(ts@.subrange(0, n as int) =~= ts@);
    }
}

fn dec_tiles(b: &Vec<u8>, pos: usize, count: usize) -> (r: Option<(Vec<Tile>, usize)>)
    ensures
        match r {
            Some((v, p)) => spec_dec_tiles(b@, pos as int, count as nat, Seq::empty()) == Some(
                (v@, p as int),
            ),
            None => spec_dec_tiles(b@, pos as int, count as nat, Seq::empty()) is None,
        },
{
    let mut acc: Vec<Tile> = Vec::new();
    let mut cur: usize = pos;
    let mut i: usize = 0;
    while i < count
        invariant
            i <= count,
            spec_dec_tiles(b@, pos as int, count as nat, Seq::empty()) == spec_dec_tiles(
                b@,
                cur as int,
                (count - i) as nat,
                acc@,
            ),
        decreases count - i,
    {
        match dec_tile(b, cur) {
            None => {
                return None;
            },
            Some((t, p1)) => {
                acc.push(t);
                cur = p1;
            },
        }
        i = i + 1;
    }
    Some((acc, cur))
}

/// Reading tiles back from their own bytes gives the tiles, after whatever
/// was read before them.
proof fn lemma_dec_enc_tiles(b: Seq<u8>, pos: int, ts: Seq<Tile>, acc: Seq<Tile>)
    requires
        0 <= pos,
        pos + spec_enc_tiles(ts).len() <= b.len(),
        b.subrange(pos, pos + spec_enc_tiles(ts).len()) == spec_enc_tiles(ts),
    ensures
        spec_dec_tiles(b, pos, ts.len(), acc) == Some((acc + ts, pos + spec_enc_tiles(ts).len())),
    decreases ts.len(),
{
    let e = spec_enc_tiles(ts);
    if ts.len() == 0 {
        assert(acc + ts =~= acc);
    } else {
        let rest = ts.subrange(1, ts.len() as int);
        let e0 = spec_enc_tile(ts[0]);
        let l0 = e0.len() as int;
        proof_enc_tile_len(ts[0]);
        assert(e == e0 + spec_enc_tiles(rest));
        lemma_nested_subrange(b, pos, e.len() as int, e, 0, l0);
        assert(e.subrange(0, l0) =~= e0);
        lemma_dec_enc_tile(b, pos, ts[0]);
        lemma_nested_subrange(b, pos, e.len() as int, e, l0, e.len() as int);
        assert(e.subrange(l0, e.len() as int) =~= spec_enc_tiles(rest));
        lemma_dec_enc_tiles(b, pos + l0, rest, acc.push(ts[0]));
        assert(acc.push(ts[0]) + rest =~= acc + ts);
    }
}

// ---------------------------------------------------------------------
// players
// ---------------------------------------------------------------------

/// The mathematical values of a roster vector.
pub open spec fn spec_pviews(ps: Seq<Player>) -> Seq<PlayerV> {
    ps.map_values(|p: Player| p@)
}

/// A player on the wire: identity, name, the two position codes, selected
/// species.
pub open spec fn spec_enc_player(p: PlayerV) -> Seq<u8>
    recommends
        p.name.len() <= u32::MAX,
{
    seq![p.id] + spec_enc_bytes(p.name) + spec_u32_to_le_bytes(p.x) + spec_u32_to_le_bytes(p.y)
        + seq![spec_crop_type_code(p.selected_crop)]
}

/// A player read at a position.
pub open spec fn spec_dec_player(b: Seq<u8>, pos: int) -> Option<(PlayerV, int)> {
    match spec_dec_u8(b, pos) {
        None => None,
        Some((id, p1)) => match spec_dec_bytes(b, p1) {
            None => None,
            Some((name, p2)) => match spec_dec_u32(b, p2) {
                None => None,
                Some((x, p3)) => match spec_dec_u32(b, p3) {
                    None => None,
                    Some((y, p4)) => match spec_dec_u8(b, p4) {
                        None => None,
                        Some((cv, p5)) => match spec_crop_type_of(cv) {
                            None => None,
                            Some(selected_crop) => Some(
                                (PlayerV { id, name, x, y, selected_crop }, p5),
                            ),
                        },
                    },
                },
            },
        },
    }
}

fn enc_player(out: &mut Vec<u8>, p: &Player)
    requires
        p@.name.len() <= u32::MAX,
    ensures
        final(out)@ == old(out)@ + spec_enc_player(p@),
{
    out.push(p.id);
    enc_bytes(out, &p.name);
    enc_u32(out, p.x);
    enc_u32(out, p.y);
    out.push(crop_type_code(p.selected_crop));
    proof {
        assert(out@ =~= old(out)@ + spec_enc_player(p@));
    }
}

fn dec_player(b: &Vec<u8>, pos: usize) -> (r: Option<(Player, usize)>)
    ensures
        match r {
            Some((v, p)) => spec_dec_player(b@, pos as int) == Some((v@, p as int)),
            None => spec_dec_player(b@, pos as int) is None,
        },
{
    match dec_u8(b, pos) {
        None => None,
        Some((id, p1)) => match dec_bytes(b, p1) {
            None => None,
            Some((name, p2)) => match dec_u32(b, p2) {
                None => None,
                Some((x, p3)) => match dec_u32(b, p3) {
                    None => None,
                    Some((y, p4)) => match dec_u8(b, p4) {
                        None => None,
                        Some((cv, p5)) => match crop_type_of(cv) {
                            None => None,
                            Some(selected_crop) => Some(
                                (Player { id, name, x, y, selected_crop }, p5),
                            ),
                        },
                    },
                },
            },
        },
    }
}

/// The width of a player on the wire.
proof fn proof_enc_player_len(p: PlayerV)
    requires
        p.name.len() <= u32::MAX,
    ensures
        spec_enc_player(p).len() == 14 + p.name.len(),
{
    lemma_auto_spec_u32_to_from_le_bytes();
    assert(spec_u32_to_le_bytes(p.name.len() as u32).len() == 4);
    assert(spec_u32_to_le_bytes(p.x).len() == 4);
    assert(spec_u32_to_le_bytes(p.y).len() == 4);
}

/// Reading a player back from its own bytes gives the player.
proof fn lemma_dec_enc_player(b: Seq<u8>, pos: int, p: PlayerV)
    requires
        p.name.len() <= u32::MAX,
        0 <= pos,
        pos + spec_enc_player(p).len() <= b.len(),
        b.subrange(pos, pos + spec_enc_player(p).len()) == spec_enc_player(p),
    ensures
        spec_dec_player(b, pos) == Some((p, pos + spec_enc_player(p).len())),
{
    let e = spec_enc_player(p);
    proof_enc_player_len(p);
    let n = e.len() as int;
    let nl = p.name.len() as int;
    lemma_auto_spec_u32_to_from_le_bytes();
    assert(spec_u32_to_le_bytes(p.name.len() as u32).len() == 4);
    assert(spec_u32_to_le_bytes(p.x).len() == 4);
    assert(spec_u32_to_le_bytes(p.y).len() == 4);
    lemma_subrange_byte(b, pos, n, e, 0);
    assert(e[0] == p.id);
    lemma_nested_subrange(b, pos, n, e, 1, 5 + nl);
    assert(e.subrange(1, 5 + nl) =~= spec_enc_bytes(p.name));
    lemma_dec_enc_bytes(b, pos + 1, p.name);
    lemma_nested_subrange(b, pos, n, e, 5 + nl, 9 + nl);
    assert(e.subrange(5 + nl, 9 + nl) =~= spec_u32_to_le_bytes(p.x));
    lemma_dec_enc_u32(b, pos + 5 + nl, p.x);
    lemma_nested_subrange(b, pos, n, e, 9 + nl, 13 + nl);
    assert(e.subrange(9 + nl, 13 + nl) =~= spec_u32_to_le_bytes(p.y));
    lemma_dec_enc_u32(b, pos + 9 + nl, p.y);
    lemma_subrange_byte(b, pos, n, e, 13 + nl);
    assert(e[13 + nl] == spec_crop_type_code(p.selected_crop));
}

/// Consecutive players on the wire, without a count.
pub open spec fn spec_enc_players(ps: Seq<PlayerV>) -> Seq<u8>
    decreases ps.len(),
{
    if ps.len() == 0 {
        Seq::empty()
    } else {
        spec_enc_player(ps[0]) + spec_enc_players(ps.subrange(1, ps.len() as int))
    }
}

/// A fixed number of consecutive players read at a position.
pub open spec fn spec_dec_players(b: Seq<u8>, pos: int, n: nat, acc: Seq<PlayerV>) -> Option<
    (Seq<PlayerV>, int),
>
    decreases n,
{
    if n == 0 {
        Some((acc, pos))
    } else {
        match spec_dec_player(b, pos) {
            None => None,
            Some((p, p1)) => spec_dec_players(b, p1, (n - 1) as nat, acc.push(p)),
        }
    }
}

/// Appending one player appends its bytes.
proof fn lemma_enc_players_push(ps: Seq<PlayerV>, p: PlayerV)
    ensures
        spec_enc_players(ps.push(p)) == spec_enc_players(ps) + spec_enc_player(p),
    decreases ps.len(),
{
    if ps.len() == 0 {
        assert(spec_enc_players(Seq::<PlayerV>::empty()) == Seq::<u8>::empty());
        assert(ps =~= Seq::<PlayerV>::empty());
        assert(ps.push(p)[0] == p);
        assert(ps.push(p).subrange(1, 1) =~= Seq::<PlayerV>::empty());
        assert(spec_enc_players(ps.push(p)) == spec_enc_player(p) + spec_enc_players(
            ps.push(p).subrange(1, 1),
        ));
        assert(spec_enc_players(ps.push(p)) =~= spec_enc_players(ps) + spec_enc_player(p));
    } else {
        let rest = ps.subrange(1, ps.len() as int);
        let u = ps.push(p);
        assert(u.len() == ps.len() + 1);
        assert(u[0] == ps[0]);
        assert(u.subrange(1, u.len() as int) =~= rest.push(p));
        lemma_enc_players_push(rest, p);
        assert(spec_enc_players(u) == spec_enc_player(ps[0]) + (spec_enc_players(rest)
            + spec_enc_player(p)));
        assert(spec_enc_player(ps[0]) + (spec_enc_players(rest) + spec_enc_player(p))
            =~= (spec_enc_player(ps[0]) + spec_enc_players(rest)) + spec_enc_player(p));
        assert(spec_enc_players(ps) == spec_enc_player(ps[0]) + spec_enc_players(rest));
    }
}

fn enc_players(out: &mut Vec<u8>, ps: &Vec<Player>)
    requires
        forall|i: int| 0 <= i < ps@.len() ==> (#[trigger] ps@[i])@.name.len() <= u32::MAX,
    ensures
        final(out)@ == old(out)@ + spec_enc_players(spec_pviews(ps@)),
{
    let n: usize = ps.len();
    let mut i: usize = 0;
    while i < n
        invariant
            i <= n,
            n == ps@.len(),
            forall|k: int| 0 <= k < ps@.len() ==> (#[trigger] ps@[k])@.name.len() <= u32::MAX,
            out@ == old(out)@ + spec_enc_players(spec_pviews(ps@).subrange(0, i as int)),
        decreases n - i,
    {
        enc_player(out, &ps[i]);
        proof {
            assert(spec_pviews(ps@).subrange(0, i as int + 1) =~= spec_pviews(ps@).subrange(
                0,
                i as int,
            ).push(ps@[i as int]@));
            lemma_enc_players_push(spec_pviews(ps@).subrange(0, i as int), ps@[i as int]@);
        }
        i = i + 1;
    }
    proof {
        assert(spec_pviews(ps@).subrange(0, n as int) =~= spec_pviews(ps@));
    }
}

fn dec_players(b: &Vec<u8>, pos: usize, count: usize) -> (r: Option<(Vec<Player>, usize)>)
    ensures
        match r {
            Some((v, p)) => spec_dec_players(b@, pos as int, count as nat, Seq::empty()) == Some(
                (spec_pviews(v@), p as int),
            ),
            None => spec_dec_players(b@, pos as int, count as nat, Seq::empty()) is None,
        },
{
    let mut acc: Vec<Player> = Vec::new();
    let mut cur: usize = pos;
    let mut i: usize = 0;
    proof {
        assert(spec_pviews(acc@) =~= Seq::<PlayerV>::empty());
    }
    while i < count
        invariant
            i <= count,
            spec_dec_players(b@, pos as int, count as nat, Seq::empty()) == spec_dec_players(
                b@,
                cur as int,
                (count - i) as nat,
                spec_pviews(acc@),
            ),
        decreases count - i,
    {
        match dec_player(b, cur) {
            None => {
                return None;
            },
            Some((p, p1)) => {
                proof {
                    assert(spec_pviews(acc@.push(p)) =~= spec_pviews(acc@).push(p@));
                }
                acc.push(p);
                cur = p1;
            },
        }
        i = i + 1;
    }
    Some((acc, cur))
}

/// Reading players back from their own bytes gives the players, after
/// whatever was read before them.
proof fn lemma_dec_enc_players(b: Seq<u8>, pos: int, ps: Seq<PlayerV>, acc: Seq<PlayerV>)
    requires
        forall|i: int| 0 <= i < ps.len() ==> (#[trigger] ps[i]).name.len() <= u32::MAX,
        0 <= pos,
        pos + spec_enc_players(ps).len() <= b.len(),
        b.subrange(pos, pos + spec_enc_players(ps).len()) == spec_enc_players(ps),
    ensures
        spec_dec_players(b, pos, ps.len(), acc) == Some(
            (acc + ps, pos + spec_enc_players(ps).len()),
        ),
    decreases ps.len(),
{
    let e = spec_enc_players(ps);
    if ps.len() == 0 {
        assert(acc + ps =~= acc);
    } else {
        let rest = ps.subrange(1, ps.len() as int);
        let e0 = spec_enc_player(ps[0]);
        let l0 = e0.len() as int;
        proof_enc_player_len(ps[0]);
        assert(e == e0 + spec_enc_players(rest));
        lemma_nested_subrange(b, pos, e.len() as int, e, 0, l0);
        assert(e.subrange(0, l0) =~= e0);
        lemma_dec_enc_player(b, pos, ps[0]);
        lemma_nested_subrange(b, pos, e.len() as int, e, l0, e.len() as int);
        assert(e.subrange(l0, e.len() as int) =~= spec_enc_players(rest));
        lemma_dec_enc_players(b, pos + l0, rest, acc.push(ps[0]));
        assert(acc.push(ps[0]) + rest =~= acc + ps);
    }
}

// ---------------------------------------------------------------------
// snapshots
// ---------------------------------------------------------------------

/// A whole-world snapshot on the wire: the grid dimensions, every tile in
/// grid order, then the roster with its count. There is no version field;
/// format changes are breaking.
pub open spec fn spec_enc_state(s: StateV) -> Seq<u8>
    recommends
        spec_state_wf(s),
{
    spec_u32_to_le_bytes(WORLD_WIDTH as u32) + spec_u32_to_le_bytes(WORLD_HEIGHT as u32)
        + spec_enc_tiles(s.tiles) + spec_u32_to_le_bytes(s.players.len() as u32)
        + spec_enc_players(s.players)
}

/// A snapshot read at a position: wrong dimensions, an oversized roster, a
/// duplicated identity or any malformed field refuse the whole snapshot.
pub open spec fn spec_dec_state(b: Seq<u8>, pos: int) -> Option<(StateV, int)> {
    match spec_dec_u32(b, pos) {
        None => None,
        Some((w, p1)) => if w != WORLD_WIDTH as u32 {
            None
        } else {
            match spec_dec_u32(b, p1) {
                None => None,
                Some((h, p2)) => if h != WORLD_HEIGHT as u32 {
                    None
                } else {
                    match spec_dec_tiles(b, p2, (WORLD_WIDTH * WORLD_HEIGHT) as nat, Seq::empty()) {
                        None => None,
                        Some((tiles, p3)) => match spec_dec_u32(b, p3) {
                            None => None,
                            Some((cnt, p4)) => if cnt > MAX_PLAYERS as u32 {
                                None
                            } else {
                                match spec_dec_players(b, p4, cnt as nat, Seq::empty()) {
                                    None => None,
                                    Some((players, p5)) => if spec_ids_distinct(players) {
                                        Some((StateV { tiles, players }, p5))
                                    } else {
                                        None
                                    },
                                }
                            },
                        },
                    }
                },
            }
        },
    }
}

/// The whole byte string decodes as one snapshot, nothing left over.
pub open spec fn spec_load_state(b: Seq<u8>) -> Option<StateV> {
    match spec_dec_state(b, 0) {
        Some((s, p)) => if p == b.len() {
            Some(s)
        } else {
            None
        },
        None => None,
    }
}

/// Decoding a fixed number of tiles yields exactly that many more than it
/// started with.
proof fn lemma_dec_tiles_shape(b: Seq<u8>, pos: int, n: nat, acc: Seq<Tile>)
    ensures
        spec_dec_tiles(b, pos, n, acc) matches Some((v, p)) ==> v.len() == acc.len() + n,
    decreases n,
{
    if n > 0 {
        match spec_dec_tile(b, pos) {
            Some((t, p1)) => {
                lemma_dec_tiles_shape(b, p1, (n - 1) as nat, acc.push(t));
            },
            None => {},
        }
    }
}

/// Decoding a fixed number of players yields exactly that many more than
/// it started with, keeps what it started with, and every decoded name
/// fits the length prefix it was read from.
proof fn lemma_dec_players_shape(b: Seq<u8>, pos: int, n: nat, acc: Seq<PlayerV>)
    ensures
        spec_dec_players(b, pos, n, acc) matches Some((v, p)) ==> v.len() == acc.len() + n && (
        forall|i: int|
            acc.len() <= i < v.len() ==> (#[trigger] v[i]).name.len() <= u32::MAX) && (forall|
            i: int,
        |
            0 <= i < acc.len() ==> #[trigger] v[i] == acc[i]),
    decreases n,
{
    if n > 0 {
        match spec_dec_player(b, pos) {
            Some((p0, p1)) => {
                lemma_dec_players_shape(b, p1, (n - 1) as nat, acc.push(p0));
            },
            None => {},
        }
    }
}

/// Whether all roster identities are distinct.
fn roster_ids_distinct(ps: &Vec<Player>) -> (r: bool)
    ensures
        r == spec_ids_distinct(spec_pviews(ps@)),
{
    let n: usize = ps.len();
    let mut i: usize = 0;
    while i < n
        invariant
            i <= n,
            n == ps@.len(),
            forall|a: int, c: int|
                0 <= a < c < (n as int) && a < (i as int) ==> spec_pviews(ps@)[a].id != spec_pviews(
                    ps@,
                )[c].id,
        decreases n - i,
    {
        let mut j: usize = i + 1;
        while j < n
            invariant
                i < j <= n,
                i < n,
                n == ps@.len(),
                forall|c: int| (i as int) < c < (j as int) ==> spec_pviews(ps@)[i as int].id
                    != spec_pviews(ps@)[c].id,
            decreases n - j,
        {
            if ps[i].id == ps[j].id {
                proof {
                    assert(spec_pviews(ps@)[i as int].id == spec_pviews(ps@)[j as int].id);
                }
                return false;
            }
            j = j + 1;
        }
        i = i + 1;
    }
    true
}

fn enc_state(out: &mut Vec<u8>, s: &GameState)
    requires
        s.wf(),
    ensures
        final(out)@ == old(out)@ + spec_enc_state(s@),
{
    enc_u32(out, WORLD_WIDTH as u32);
    enc_u32(out, WORLD_HEIGHT as u32);
    enc_tiles(out, &s.tiles);
    proof {
        assert forall|i: int| 0 <= i < s.players@.len() implies (#[trigger] s.players@[i])@.name.len()
            <= u32::MAX by {
            assert(s@.players[i] == s.players@[i]@);
        }
    }
    enc_u32(out, s.players.len() as u32);
    enc_players(out, &s.players);
    proof {
        assert(spec_pviews(s.players@) =~= s@.players);
        assert(out@ =~= old(out)@ + spec_enc_state(s@));
    }
}

/// Serialize the whole world; see `spec_enc_state`.
pub fn save_snapshot(s: &GameState) -> (r: Vec<u8>)
    requires
        s.wf(),
    ensures
        r@ == spec_enc_state(s@),
{
    let mut out: Vec<u8> = Vec::new();
    enc_state(&mut out, s);
    proof {
        assert(out@ =~= spec_enc_state(s@));
    }
    out
}

fn dec_state(b: &Vec<u8>, pos: usize) -> (r: Option<(GameState, usize)>)
    ensures
        match r {
            Some((s, p)) => spec_dec_state(b@, pos as int) == Some((s@, p as int)) && s.wf(),
            None => spec_dec_state(b@, pos as int) is None,
        },
{
    let (w, p1) = match dec_u32(b, pos) {
        None => {
            return None;
        },
        Some(v) => v,
    };
    if w != WORLD_WIDTH as u32 {
        return None;
    }
    let (h, p2) = match dec_u32(b, p1) {
        None => {
            return None;
        },
        Some(v) => v,
    };
    if h != WORLD_HEIGHT as u32 {
        return None;
    }
    let (tiles, p3) = match dec_tiles(b, p2, WORLD_WIDTH * WORLD_HEIGHT) {
        None => {
            return None;
        },
        Some(v) => v,
    };
    let (cnt, p4) = match dec_u32(b, p3) {
        None => {
            return None;
        },
        Some(v) => v,
    };
    if cnt > MAX_PLAYERS as u32 {
        return None;
    }
    let (players, p5) = match dec_players(b, p4, cnt as usize) {
        None => {
            return None;
        },
        Some(v) => v,
    };
    if roster_ids_distinct(&players) {
        let s = GameState { tiles, players };
        proof {
            lemma_dec_tiles_shape(b@, p2 as int, (WORLD_WIDTH * WORLD_HEIGHT) as nat, Seq::empty());
            lemma_dec_players_shape(b@, p4 as int, cnt as nat, Seq::empty());
            assert(s@.tiles.len() == WORLD_WIDTH * WORLD_HEIGHT);
            assert(s@.players.len() == cnt as nat);
            assert(spec_state_wf(s@));
        }
        Some((s, p5))
    } else {
        None
    }
}

/// Deserialize a whole-world snapshot, or say that the bytes are
/// unreadable; the caller's fallback is world genesis, not an abort.
pub fn load_snapshot(b: &Vec<u8>) -> (r: Result<GameState, DecodeError>)
    ensures
        match r {
            Ok(s) => s.wf() && spec_load_state(b@) == Some(s@),
            Err(_) => spec_load_state(b@) is None,
        },
{
    match dec_state(b, 0) {
        None => Err(DecodeError),
        Some((s, p)) => if p == b.len() {
            Ok(s)
        } else {
            Err(DecodeError)
        },
    }
}

/// Two halves of a concatenation read back as themselves.
proof fn lemma_concat_split(x: Seq<u8>, y: Seq<u8>)
    ensures
        (x + y).subrange(0, x.len() as int) == x,
        (x + y).subrange(x.len() as int, (x + y).len() as int) == y,
{
    assert((x + y).subrange(0, x.len() as int) =~= x);
    assert((x + y).subrange(x.len() as int, (x + y).len() as int) =~= y);
}

/// Reading a snapshot back from its own bytes gives the snapshot.
proof fn lemma_dec_enc_state(b: Seq<u8>, pos: int, s: StateV)
    requires
        spec_state_wf(s),
        0 <= pos,
        pos + spec_enc_state(s).len() <= b.len(),
        b.subrange(pos, pos + spec_enc_state(s).len()) == spec_enc_state(s),
    ensures
        spec_dec_state(b, pos) == Some((s, pos + spec_enc_state(s).len())),
{
    let e = spec_enc_state(s);
    let n = e.len() as int;
    let ew = spec_u32_to_le_bytes(WORLD_WIDTH as u32);
    let eh = spec_u32_to_le_bytes(WORLD_HEIGHT as u32);
    let et = spec_enc_tiles(s.tiles);
    let ec = spec_u32_to_le_bytes(s.players.len() as u32);
    let ep = spec_enc_players(s.players);
    lemma_auto_spec_u32_to_from_le_bytes();
    assert(ew.len() == 4);
    assert(eh.len() == 4);
    assert(ec.len() == 4);
    let a1 = ew + eh;
    let a2 = a1 + et;
    let a3 = a2 + ec;
    assert(e == a3 + ep);
    let lt = et.len() as int;
    let lp = ep.len() as int;
    lemma_concat_split(a3, ep);
    lemma_concat_split(a2, ec);
    lemma_concat_split(a1, et);
    lemma_concat_split(ew, eh);
    // the window of each field inside the encoding alone
    lemma_nested_subrange(e, 0, a3.len() as int, a3, a2.len() as int, a3.len() as int);
    assert(e.subrange(8 + lt, 12 + lt) == ec);
    lemma_nested_subrange(e, 0, a3.len() as int, a3, 0, a2.len() as int);
    assert(e.subrange(0, 8 + lt) == a2);
    lemma_nested_subrange(e, 0, a2.len() as int, a2, a1.len() as int, a2.len() as int);
    assert(e.subrange(8, 8 + lt) == et);
    lemma_nested_subrange(e, 0, a2.len() as int, a2, 0, a1.len() as int);
    assert(e.subrange(0, 8) == a1);
    lemma_nested_subrange(e, 0, a1.len() as int, a1, 0, 4);
    assert(e.subrange(0, 4) == ew);
    lemma_nested_subrange(e, 0, a1.len() as int, a1, 4, 8);
    assert(e.subrange(4, 8) == eh);
    assert(e.subrange(12 + lt, 12 + lt + lp) == ep);
    // the same windows inside the whole byte string
    lemma_nested_subrange(b, pos, n, e, 0, 4);
    lemma_nested_subrange(b, pos, n, e, 4, 8);
    lemma_nested_subrange(b, pos, n, e, 8, 8 + lt);
    lemma_nested_subrange(b, pos, n, e, 8 + lt, 12 + lt);
    lemma_nested_subrange(b, pos, n, e, 12 + lt, 12 + lt + lp);
    // decode field by field
    lemma_dec_enc_u32(b, pos, WORLD_WIDTH as u32);
    lemma_dec_enc_u32(b, pos + 4, WORLD_HEIGHT as u32);
    lemma_dec_enc_tiles(b, pos + 8, s.tiles, Seq::empty());
    assert(Seq::empty() + s.tiles =~= s.tiles);
    assert(s.tiles.len() == (WORLD_WIDTH * WORLD_HEIGHT) as nat);
    lemma_dec_enc_u32(b, pos + 8 + lt, s.players.len() as u32);
    assert(!((s.players.len() as u32) > MAX_PLAYERS as u32));
    assert forall|i: int| 0 <= i < s.players.len() implies (#[trigger] s.players[i]).name.len()
        <= u32::MAX by {}
    lemma_dec_enc_players(b, pos + 12 + lt, s.players, Seq::empty());
    assert(Seq::empty() + s.players =~= s.players);
    assert((s.players.len() as u32) as nat == s.players.len());
    assert(spec_dec_state(b, pos) == Some(
        (StateV { tiles: s.tiles, players: s.players }, pos + 12 + lt + lp),
    ));
    assert(StateV { tiles: s.tiles, players: s.players } == s);
    assert(n == 12 + lt + lp);
}

/// Law: loading what saving produced reproduces the snapshot — the same
/// grid contents and the same roster — for every well-formed world.
pub proof fn lemma_snapshot_round_trip(s: StateV)
    requires
        spec_state_wf(s),
    ensures
        spec_load_state(spec_enc_state(s)) == Some(s),
{
    let b = spec_enc_state(s);
    assert(b.subrange(0, b.len() as int) =~= b);
    lemma_dec_enc_state(b, 0, s);
}

// ---------------------------------------------------------------------
// framing
// ---------------------------------------------------------------------

/// Wrap a payload in a frame: its length, little-endian, then its bytes.
pub fn frame_payload(payload: &Vec<u8>) -> (r: Vec<u8>)
    requires
        payload@.len() <= u32::MAX,
    ensures
        r@ == spec_enc_bytes(payload@),
{
    let mut out: Vec<u8> = Vec::new();
    enc_bytes(&mut out, payload);
    proof {
        assert(out@ =~= spec_enc_bytes(payload@));
    }
    out
}

/// Read one frame at a position: `None` when the length prefix or the
/// payload is truncated.
pub fn take_frame(b: &Vec<u8>, pos: usize) -> (r: Option<(Vec<u8>, usize)>)
    ensures
        match r {
            Some((v, p)) => spec_dec_bytes(b@, pos as int) == Some((v@, p as int)),
            None => spec_dec_bytes(b@, pos as int) is None,
        },
{
    dec_bytes(b, pos)
}

/// Law: taking a frame from what framing produced gives the payload back,
/// consuming the whole frame.
pub proof fn lemma_frame_round_trip(payload: Seq<u8>)
    requires
        payload.len() <= u32::MAX,
    ensures
        spec_dec_bytes(spec_enc_bytes(payload), 0) == Some(
            (payload, spec_enc_bytes(payload).len() as int),
        ),
{
    let b = spec_enc_bytes(payload);
    lemma_auto_spec_u32_to_from_le_bytes();
    assert(spec_u32_to_le_bytes(payload.len() as u32).len() == 4);
    assert(b.subrange(0, b.len() as int) =~= b);
    lemma_dec_enc_bytes(b, 0, payload);
}

// ---------------------------------------------------------------------
// client requests
// ---------------------------------------------------------------------

/// A client request is encodable when any name it carries fits the length
/// prefix.
pub open spec fn spec_cmsg_wf(m: ClientMessageV) -> bool {
    match m {
        ClientMessageV::Join { name } => name.len() <= u32::MAX,
        _ => true,
    }
}

/// A client request on the wire: a tag byte, then the variant's fields.
pub open spec fn spec_enc_cmsg(m: ClientMessageV) -> Seq<u8>
    recommends
        spec_cmsg_wf(m),
{
    match m {
        ClientMessageV::Join { name } => seq![0u8] + spec_enc_bytes(name),
        ClientMessageV::Move { x, y } => seq![1u8] + spec_u32_to_le_bytes(x)
            + spec_u32_to_le_bytes(y),
        ClientMessageV::Till { x, y } => seq![2u8] + spec_u32_to_le_bytes(x)
            + spec_u32_to_le_bytes(y),
        ClientMessageV::Water { x, y } => seq![3u8] + spec_u32_to_le_bytes(x)
            + spec_u32_to_le_bytes(y),
        ClientMessageV::Plant { x, y, crop_type } => seq![4u8] + spec_u32_to_le_bytes(x)
            + spec_u32_to_le_bytes(y) + seq![spec_crop_type_code(crop_type)],
        ClientMessageV::Harvest { x, y } => seq![5u8] + spec_u32_to_le_bytes(x)
            + spec_u32_to_le_bytes(y),
        ClientMessageV::SelectCrop { crop_type } => seq![6u8, spec_crop_type_code(crop_type)],
    }
}

/// A client request read at a position.
pub open spec fn spec_dec_cmsg(b: Seq<u8>, pos: int) -> Option<(ClientMessageV, int)> {
    match spec_dec_u8(b, pos) {
        None => None,
        Some((tag, p1)) => if tag == 0 {
            match spec_dec_bytes(b, p1) {
                None => None,
                Some((name, p2)) => Some((ClientMessageV::Join { name }, p2)),
            }
        } else if tag == 6 {
            match spec_dec_u8(b, p1) {
                None => None,
                Some((cv, p2)) => match spec_crop_type_of(cv) {
                    None => None,
                    Some(crop_type) => Some((ClientMessageV::SelectCrop { crop_type }, p2)),
                },
            }
        } else if tag <= 5 {
            match spec_dec_u32(b, p1) {
                None => None,
                Some((x, p2)) => match spec_dec_u32(b, p2) {
                    None => None,
                    Some((y, p3)) => if tag == 1 {
                        Some((ClientMessageV::Move { x, y }, p3))
                    } else if tag == 2 {
                        Some((ClientMessageV::Till { x, y }, p3))
                    } else if tag == 3 {
                        Some((ClientMessageV::Water { x, y }, p3))
                    } else if tag == 5 {
                        Some((ClientMessageV::Harvest { x, y }, p3))
                    } else {
                        match spec_dec_u8(b, p3) {
                            None => None,
                            Some((cv, p4)) => match spec_crop_type_of(cv) {
                                None => None,
                                Some(crop_type) => Some(
                                    (ClientMessageV::Plant { x, y, crop_type }, p4),
                                ),
                            },
                        }
                    },
                },
            }
        } else {
            None
        },
    }
}

/// The whole byte string decodes as one client request, nothing left over.
pub open spec fn spec_load_cmsg(b: Seq<u8>) -> Option<ClientMessageV> {
    match spec_dec_cmsg(b, 0) {
        Some((m, p)) => if p == b.len() {
            Some(m)
        } else {
            None
        },
        None => None,
    }
}

/// Serialize one client request; see `spec_enc_cmsg`.
pub fn encode_client_message(m: &ClientMessage) -> (r: Vec<u8>)
    requires
        m.wf(),
    ensures
        r@ == spec_enc_cmsg(m@),
{
    let mut out: Vec<u8> = Vec::new();
    match m {
        ClientMessage::Join { name } => {
            out.push(0);
            enc_bytes(&mut out, name);
        },
        ClientMessage::Move { x, y } => {
            out.push(1);
            enc_u32(&mut out, *x);
            enc_u32(&mut out, *y);
        },
        ClientMessage::Till { x, y } => {
            out.push(2);
            enc_u32(&mut out, *x);
            enc_u32(&mut out, *y);
        },
        ClientMessage::Water { x, y } => {
            out.push(3);
            enc_u32(&mut out, *x);
            enc_u32(&mut out, *y);
        },
        ClientMessage::Plant { x, y, crop_type } => {
            out.push(4);
            enc_u32(&mut out, *x);
            enc_u32(&mut out, *y);
            out.push(crop_type_code(*crop_type));
        },
        ClientMessage::Harvest { x, y } => {
            out.push(5);
            enc_u32(&mut out, *x);
            enc_u32(&mut out, *y);
        },
        ClientMessage::SelectCrop { crop_type } => {
            out.push(6);
            out.push(crop_type_code(*crop_type));
        },
    }
    proof {
        assert(out@ =~= spec_enc_cmsg(m@));
    }
    out
}

/// Deserialize one client request from a whole frame payload; a frame that
/// does not decode terminates the connection that sent it.
#[verifier::rlimit(50)]
#[verifier::spinoff_prover]
pub fn decode_client_message(b: &Vec<u8>) -> (r: Result<ClientMessage, DecodeError>)
    ensures
        match r {
            Ok(m) => m.wf() && spec_load_cmsg(b@) == Some(m@),
            Err(_) => spec_load_cmsg(b@) is None,
        },
{
    let parsed: Option<(ClientMessage, usize)> = match dec_u8(b, 0) {
        None => None,
        Some((tag, p1)) => {
            if tag == 0 {
                match dec_bytes(b, p1) {
                    None => None,
                    Some((name, p2)) => Some((ClientMessage::Join { name }, p2)),
                }
            } else if tag == 6 {
                match dec_u8(b, p1) {
                    None => None,
                    Some((cv, p2)) => match crop_type_of(cv) {
                        None => None,
                        Some(crop_type) => Some((ClientMessage::SelectCrop { crop_type }, p2)),
                    },
                }
            } else if tag <= 5 {
                match dec_u32(b, p1) {
                    None => None,
                    Some((x, p2)) => match dec_u32(b, p2) {
                        None => None,
                        Some((y, p3)) => if tag == 1 {
                            Some((ClientMessage::Move { x, y }, p3))
                        } else if tag == 2 {
                            Some((ClientMessage::Till { x, y }, p3))
                        } else if tag == 3 {
                            Some((ClientMessage::Water { x, y }, p3))
                        } else if tag == 5 {
                            Some((ClientMessage::Harvest { x, y }, p3))
                        } else {
                            match dec_u8(b, p3) {
                                None => None,
                                Some((cv, p4)) => match crop_type_of(cv) {
                                    None => None,
                                    Some(crop_type) => Some(
                                        (ClientMessage::Plant { x, y, crop_type }, p4),
                                    ),
                                },
                            }
                        },
                    },
                }
            } else {
                None
            }
        },
    };
    match parsed {
        None => Err(DecodeError),
        Some((m, p)) => if p == b.len() {
            Ok(m)
        } else {
            Err(DecodeError)
        },
    }
}

/// Law: decoding an encoded client request gives the request back,
/// consuming all of its bytes.
#[verifier::rlimit(50)]
#[verifier::spinoff_prover]
pub proof fn lemma_client_message_round_trip(m: ClientMessageV)
    requires
        spec_cmsg_wf(m),
    ensures
        spec_load_cmsg(spec_enc_cmsg(m)) == Some(m),
{
    let b = spec_enc_cmsg(m);
    let n = b.len() as int;
    lemma_auto_spec_u32_to_from_le_bytes();
    assert(b.subrange(0, n) =~= b);
    match m {
        ClientMessageV::Join { name } => {
            assert(spec_u32_to_le_bytes(name.len() as u32).len() == 4);
            assert(b[0] == 0u8);
            assert(b.subrange(1, n) =~= spec_enc_bytes(name));
            lemma_dec_enc_bytes(b, 1, name);
        },
        ClientMessageV::Move { x, y } => {
            assert(b[0] == 1u8);
            lemma_cmsg_coords(b, x, y);
        },
        ClientMessageV::Till { x, y } => {
            assert(b[0] == 2u8);
            lemma_cmsg_coords(b, x, y);
        },
        ClientMessageV::Water { x, y } => {
            assert(b[0] == 3u8);
            lemma_cmsg_coords(b, x, y);
        },
        ClientMessageV::Harvest { x, y } => {
            assert(b[0] == 5u8);
            lemma_cmsg_coords(b, x, y);
        },
        ClientMessageV::Plant { x, y, crop_type } => {
            assert(b[0] == 4u8);
            lemma_cmsg_coords(b, x, y);
            assert(b[9] == spec_crop_type_code(crop_type));
        },
        ClientMessageV::SelectCrop { crop_type } => {
            assert(b[0] == 6u8);
            assert(b[1] == spec_crop_type_code(crop_type));
        },
    }
}

// ---------------------------------------------------------------------
// server events
// ---------------------------------------------------------------------

/// A server event is encodable when every roster, name and text it carries
/// fits the wire format.
pub open spec fn spec_smsg_wf(m: ServerMessageV) -> bool {
    match m {
        ServerMessageV::GameState(s) => spec_state_wf(s),
        ServerMessageV::PlayerJoined { player } => player.name.len() <= u32::MAX,
        ServerMessageV::Error { message } => message.len() <= u32::MAX,
        _ => true,
    }
}

/// A server event on the wire: a tag byte, then the variant's fields.
pub open spec fn spec_enc_smsg(m: ServerMessageV) -> Seq<u8>
    recommends
        spec_smsg_wf(m),
{
    match m {
        ServerMessageV::Welcome { player_id } => seq![0u8, player_id],
        ServerMessageV::GameState(s) => seq![1u8] + spec_enc_state(s),
        ServerMessageV::PlayerJoined { player } => seq![2u8] + spec_enc_player(player),
        ServerMessageV::PlayerLeft { player_id } => seq![3u8, player_id],
        ServerMessageV::PlayerMoved { player_id, x, y } => seq![4u8, player_id]
            + spec_u32_to_le_bytes(x) + spec_u32_to_le_bytes(y),
        ServerMessageV::TileUpdated { x, y, tile } => seq![5u8] + spec_u32_to_le_bytes(x)
            + spec_u32_to_le_bytes(y) + spec_enc_tile(tile),
        ServerMessageV::Error { message } => seq![6u8] + spec_enc_bytes(message),
    }
}

/// A server event read at a position.
pub open spec fn spec_dec_smsg(b: Seq<u8>, pos: int) -> Option<(ServerMessageV, int)> {
    match spec_dec_u8(b, pos) {
        None => None,
        Some((tag, p1)) => if tag == 0 {
            match spec_dec_u8(b, p1) {
                None => None,
                Some((player_id, p2)) => Some((ServerMessageV::Welcome { player_id }, p2)),
            }
        } else if tag == 1 {
            match spec_dec_state(b, p1) {
                None => None,
                Some((s, p2)) => Some((ServerMessageV::GameState(s), p2)),
            }
        } else if tag == 2 {
            match spec_dec_player(b, p1) {
                None => None,
                Some((player, p2)) => Some((ServerMessageV::PlayerJoined { player }, p2)),
            }
        } else if tag == 3 {
            match spec_dec_u8(b, p1) {
                None => None,
                Some((player_id, p2)) => Some((ServerMessageV::PlayerLeft { player_id }, p2)),
            }
        } else if tag == 4 {
            match spec_dec_u8(b, p1) {
                None => None,
                Some((player_id, p2)) => match spec_dec_u32(b, p2) {
                    None => None,
                    Some((x, p3)) => match spec_dec_u32(b, p3) {
                        None => None,
                        Some((y, p4)) => Some(
                            (ServerMessageV::PlayerMoved { player_id, x, y }, p4),
                        ),
                    },
                },
            }
        } else if tag == 5 {
            match spec_dec_u32(b, p1) {
                None => None,
                Some((x, p2)) => match spec_dec_u32(b, p2) {
                    None => None,
                    Some((y, p3)) => match spec_dec_tile(b, p3) {
                        None => None,
                        Some((tile, p4)) => Some((ServerMessageV::TileUpdated { x, y, tile }, p4)),
                    },
                },
            }
        } else if tag == 6 {
            match spec_dec_bytes(b, p1) {
                None => None,
                Some((message, p2)) => Some((ServerMessageV::Error { message }, p2)),
            }
        } else {
            None
        },
    }
}

/// The whole byte string decodes as one server event, nothing left over.
pub open spec fn spec_load_smsg(b: Seq<u8>) -> Option<ServerMessageV> {
    match spec_dec_smsg(b, 0) {
        Some((m, p)) => if p == b.len() {
            Some(m)
        } else {
            None
        },
        None => None,
    }
}

/// Serialize one server event; see `spec_enc_smsg`.
pub fn encode_server_message(m: &ServerMessage) -> (r: Vec<u8>)
    requires
        m.wf(),
    ensures
        r@ == spec_enc_smsg(m@),
{
    let mut out: Vec<u8> = Vec::new();
    match m {
        ServerMessage::Welcome { player_id } => {
            out.push(0);
            out.push(*player_id);
        },
        ServerMessage::GameState(s) => {
            out.push(1);
            enc_state(&mut out, s);
        },
        ServerMessage::PlayerJoined { player } => {
            out.push(2);
            enc_player(&mut out, player);
        },
        ServerMessage::PlayerLeft { player_id } => {
            out.push(3);
            out.push(*player_id);
        },
        ServerMessage::PlayerMoved { player_id, x, y } => {
            out.push(4);
            out.push(*player_id);
            enc_u32(&mut out, *x);
            enc_u32(&mut out, *y);
        },
        ServerMessage::TileUpdated { x, y, tile } => {
            out.push(5);
            enc_u32(&mut out, *x);
            enc_u32(&mut out, *y);
            enc_tile(&mut out, tile);
        },
        ServerMessage::Error { message } => {
            out.push(6);
            enc_bytes(&mut out, message);
        },
    }
    proof {
        assert(out@ =~= spec_enc_smsg(m@));
    }
    out
}

/// Deserialize one server event from a whole frame payload.
#[verifier::rlimit(50)]
#[verifier::spinoff_prover]
pub fn decode_server_message(b: &Vec<u8>) -> (r: Result<ServerMessage, DecodeError>)
    ensures
        match r {
            Ok(m) => m.wf() && spec_load_smsg(b@) == Some(m@),
            Err(_) => spec_load_smsg(b@) is None,
        },
{
    let parsed: Option<(ServerMessage, usize)> = match dec_u8(b, 0) {
        None => None,
        Some((tag, p1)) => {
            if tag == 0 {
                match dec_u8(b, p1) {
                    None => None,
                    Some((player_id, p2)) => Some((ServerMessage::Welcome { player_id }, p2)),
                }
            } else if tag == 1 {
                match dec_state(b, p1) {
                    None => None,
                    Some((s, p2)) => Some((ServerMessage::GameState(s), p2)),
                }
            } else if tag == 2 {
                match dec_player(b, p1) {
                    None => None,
                    Some((player, p2)) => {
                        proof {
                            assert(player@.name.len() <= u32::MAX);
                        }
                        Some((ServerMessage::PlayerJoined { player }, p2))
                    },
                }
            } else if tag == 3 {
                match dec_u8(b, p1) {
                    None => None,
                    Some((player_id, p2)) => Some((ServerMessage::PlayerLeft { player_id }, p2)),
                }
            } else if tag == 4 {
                match dec_u8(b, p1) {
                    None => None,
                    Some((player_id, p2)) => match dec_u32(b, p2) {
                        None => None,
                        Some((x, p3)) => match dec_u32(b, p3) {
                            None => None,
                            Some((y, p4)) => Some(
                                (ServerMessage::PlayerMoved { player_id, x, y }, p4),
                            ),
                        },
                    },
                }
            } else if tag == 5 {
                match dec_u32(b, p1) {
                    None => None,
                    Some((x, p2)) => match dec_u32(b, p2) {
                        None => None,
                        Some((y, p3)) => match dec_tile(b, p3) {
                            None => None,
                            Some((tile, p4)) => Some(
                                (ServerMessage::TileUpdated { x, y, tile }, p4),
                            ),
                        },
                    },
                }
            } else if tag == 6 {
                match dec_bytes(b, p1) {
                    None => None,
                    Some((message, p2)) => Some((ServerMessage::Error { message }, p2)),
                }
            } else {
                None
            }
        },
    };
    match parsed {
        None => Err(DecodeError),
        Some((m, p)) => if p == b.len() {
            Ok(m)
        } else {
            Err(DecodeError)
        },
    }
}

/// Law: decoding an encoded server event gives the event back, consuming
/// all of its bytes.
#[verifier::rlimit(50)]
#[verifier::spinoff_prover]
pub proof fn lemma_server_message_round_trip(m: ServerMessageV)
    requires
        spec_smsg_wf(m),
    ensures
        spec_load_smsg(spec_enc_smsg(m)) == Some(m),
{
    let b = spec_enc_smsg(m);
    let n = b.len() as int;
    lemma_auto_spec_u32_to_from_le_bytes();
    assert(b.subrange(0, n) =~= b);
    match m {
        ServerMessageV::Welcome { player_id } => {
            assert(b[0] == 0u8);
            assert(b[1] == player_id);
        },
        ServerMessageV::GameState(s) => {
            assert(b[0] == 1u8);
            assert(b.subrange(1, n) =~= spec_enc_state(s));
            lemma_dec_enc_state(b, 1, s);
        },
        ServerMessageV::PlayerJoined { player } => {
            assert(b[0] == 2u8);
            proof_enc_player_len(player);
            assert(b.subrange(1, n) =~= spec_enc_player(player));
            lemma_dec_enc_player(b, 1, player);
        },
        ServerMessageV::PlayerLeft { player_id } => {
            assert(b[0] == 3u8);
            assert(b[1] == player_id);
        },
        ServerMessageV::PlayerMoved { player_id, x, y } => {
            assert(spec_u32_to_le_bytes(x).len() == 4);
            assert(spec_u32_to_le_bytes(y).len() == 4);
            assert(b[0] == 4u8);
            assert(b[1] == player_id);
            assert(b.subrange(2, 6) =~= spec_u32_to_le_bytes(x));
            assert(b.subrange(6, 10) =~= spec_u32_to_le_bytes(y));
            lemma_dec_enc_u32(b, 2, x);
            lemma_dec_enc_u32(b, 6, y);
        },
        ServerMessageV::TileUpdated { x, y, tile } => {
            assert(spec_u32_to_le_bytes(x).len() == 4);
            assert(spec_u32_to_le_bytes(y).len() == 4);
            proof_enc_tile_len(tile);
            assert(b[0] == 5u8);
            assert(b.subrange(1, 5) =~= spec_u32_to_le_bytes(x));
            assert(b.subrange(5, 9) =~= spec_u32_to_le_bytes(y));
            lemma_dec_enc_u32(b, 1, x);
            lemma_dec_enc_u32(b, 5, y);
            assert(b.subrange(9, n) =~= spec_enc_tile(tile));
            lemma_dec_enc_tile(b, 9, tile);
        },
        ServerMessageV::Error { message } => {
            assert(spec_u32_to_le_bytes(message.len() as u32).len() == 4);
            assert(b[0] == 6u8);
            assert(b.subrange(1, n) =~= spec_enc_bytes(message));
            lemma_dec_enc_bytes(b, 1, message);
        },
    }
}

/// The two coordinate fields of a tile or move request decode in place.
proof fn lemma_cmsg_coords(b: Seq<u8>, x: u32, y: u32)
    requires
        b.len() >= 9,
        forall|k: int| 0 <= k < 4 ==> b[1 + k] == spec_u32_to_le_bytes(x)[k],
        forall|k: int| 0 <= k < 4 ==> b[5 + k] == spec_u32_to_le_bytes(y)[k],
    ensures
        spec_dec_u32(b, 1) == Some((x, 5int)),
        spec_dec_u32(b, 5) == Some((y, 9int)),
{
    lemma_auto_spec_u32_to_from_le_bytes();
    assert(spec_u32_to_le_bytes(x).len() == 4);
    assert(spec_u32_to_le_bytes(y).len() == 4);
    assert(b.subrange(1, 5) =~= spec_u32_to_le_bytes(x));
    assert(b.subrange(5, 9) =~= spec_u32_to_le_bytes(y));
    lemma_dec_enc_u32(b, 1, x);
    lemma_dec_enc_u32(b, 5, y);
}

} // verus!
