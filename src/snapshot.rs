//! The persisted form of a grid: its dimensions and its alive flags packed
//! eight to a byte, least significant bit first, armored in base64. Heat is
//! not persisted.

use vstd::prelude::*;
use base64::prelude::BASE64_STANDARD;
use base64::Engine;
use crate::board::{Board, BoardView};
use crate::tile::Tile;

verus! {

/// The standard padded base64 encoding of `b`.
pub uninterp spec fn base64_encoded(b: Seq<u8>) -> Seq<char>;

/// The bytes that `s` encodes in standard padded base64, if it is such an encoding.
pub uninterp spec fn base64_decoded(s: Seq<char>) -> Option<Seq<u8>>;

#[verifier::external_type_specification]
#[verifier::external_body]
pub struct ExDecodeError(base64::DecodeError);

/// Relies on base64's STANDARD engine `Engine::encode`: the padded standard
/// encoding of `b`, which the same engine's `decode` turns back into `b`.
/// It panics only when the encoded length overflows usize.
#[verifier::external_body]
fn encode_base64(b: &Vec<u8>) -> (r: String)
    requires
        b.len() <= usize::MAX / 2,
    ensures
        r@ == base64_encoded(b@),
        base64_decoded(r@) == Some(b@),
{
    BASE64_STANDARD.encode(b)
}

/// Relies on base64's STANDARD engine `Engine::decode`: the bytes that `s`
/// encodes, or an error when `s` is no valid padded standard encoding.
#[verifier::external_body]
fn decode_base64(s: &str) -> (r: Result<Vec<u8>, base64::DecodeError>)
    ensures
        match r {
            Ok(v) => base64_decoded(s@) == Some(v@),
            Err(_) => base64_decoded(s@) is None,
        },
{
    BASE64_STANDARD.decode(s)
}

/// Bit `k` (0 is the least significant) of `b`.
pub open spec fn bit(b: u8, k: int) -> bool {
    b & (1u8 << (k as u8)) != 0
}

/// Byte `j` of the packing of `bits`, built from its first `k` bits: flag
/// `8j + t` becomes bit `t`; flags beyond the end are 0.
pub open spec fn pack_bits(bits: Seq<bool>, j: int, k: nat) -> u8
    decreases k,
{
    if k == 0 {
        0
    } else {
        let prev = pack_bits(bits, j, (k - 1) as nat);
        let i = 8 * j + k - 1;
        if i < bits.len() && bits[i] {
            prev | (1u8 << ((k - 1) as u8))
        } else {
            prev
        }
    }
}

/// The flags packed eight to a byte, least significant bit first, the last
/// byte padded with zeros.
pub open spec fn packed(bits: Seq<bool>) -> Seq<u8> {
    Seq::new((bits.len() + 7) / 8, |j: int| pack_bits(bits, j, 8))
}

/// The first `n` flags held in `bytes`.
pub open spec fn unpacked(bytes: Seq<u8>, n: int) -> Seq<bool> {
    Seq::new(n as nat, |i: int| bit(bytes[i / 8], i % 8))
}

proof fn lemma_or_bit(cur: u8, s: u8, t: u8)
    requires
        s < 8,
        t < 8,
    ensures
        ((cur | (1u8 << s)) & (1u8 << t) != 0) == (t == s || cur & (1u8 << t) != 0),
{
    assert(((cur | (1u8 << s)) & (1u8 << t) != 0) == (t == s || cur & (1u8 << t) != 0)) by (bit_vector)
        requires s < 8u8, t < 8u8;
}

proof fn lemma_zero_bit(t: u8)
    requires
        t < 8,
    ensures
        0u8 & (1u8 << t) == 0,
{
    assert(0u8 & (1u8 << t) == 0) by (bit_vector);
}

/// Bit `t` of the partial byte holds flag `8j + t` for `t < k`, and is 0 above.
proof fn lemma_pack_bit(bits: Seq<bool>, j: int, k: nat, t: int)
    requires
        k <= 8,
        0 <= t < 8,
    ensures
        bit(pack_bits(bits, j, k), t) == (t < k && 8 * j + t < bits.len() && bits[8 * j + t]),
    decreases k,
{
    if k == 0 {
        lemma_zero_bit(t as u8);
    } else {
        lemma_pack_bit(bits, j, (k - 1) as nat, t);
        let prev = pack_bits(bits, j, (k - 1) as nat);
        let i = 8 * j + k - 1;
        if i < bits.len() && bits[i] {
            lemma_or_bit(prev, (k - 1) as u8, t as u8);
        }
    }
}

/// Unpacking the packing gives the flags back.
pub proof fn lemma_unpack_packed(bits: Seq<bool>)
    ensures
        unpacked(packed(bits), bits.len() as int) == bits,
{
    let p = packed(bits);
    assert forall|i: int| 0 <= i < bits.len() implies #[trigger] unpacked(p, bits.len() as int)[i] == bits[i] by {
        let j = i / 8;
        let t = i % 8;
        assert(8 * j + t == i);
        assert(j < (bits.len() + 7) / 8);
        lemma_pack_bit(bits, j, 8, t);
    }
    assert(unpacked(p, bits.len() as int) =~= bits);
}

/// Packs the flags eight to a byte, least significant bit first; the last
/// byte is padded with zeros.
pub fn bools_to_u8s(bits: Vec<bool>) -> (r: Vec<u8>)
    ensures
        r@ == packed(bits@),
{
    let n = bits.len();
    let mut result: Vec<u8> = Vec::new();
    let mut current: u8 = 0;
    let mut bits_set: usize = 0;
    let mut i: usize = 0;
    while i < n
        invariant
            i <= n,
            n == bits.len(),
            bits_set == i % 8,
            result.len() == i / 8,
            current == pack_bits(bits@, (i / 8) as int, bits_set as nat),
            forall|j: int| 0 <= j < result.len() ==> #[trigger] result@[j] == pack_bits(bits@, j, 8),
        decreases n - i,
    {
        if bits[i] {
            current = current | (1u8 << (bits_set as u8));
        }
        bits_set += 1;
        if bits_set == 8 {
            result.push(current);
            current = 0;
            bits_set = 0;
        }
        i += 1;
    }
    if bits_set > 0 {
        proof {
            lemma_pack_tail(bits@, (n / 8) as int, bits_set as nat);
        }
        result.push(current);
    }
    assert(result@ =~= packed(bits@));
    result
}

/// Flags past the end leave a partial byte unchanged.
proof fn lemma_pack_tail(bits: Seq<bool>, j: int, k: nat)
    requires
        k <= 8,
        8 * j + k >= bits.len(),
    ensures
        pack_bits(bits, j, 8) == pack_bits(bits, j, k),
    decreases 8 - k,
{
    if k < 8 {
        lemma_pack_tail(bits, j, k + 1);
    }
}

/// The first `n` flags held in `bytes`, bit 0 of each byte first.
pub fn u8s_to_bools(bytes: &Vec<u8>, n: usize) -> (r: Vec<bool>)
    requires
        n <= 8 * bytes.len(),
    ensures
        r@ == unpacked(bytes@, n as int),
{
    let mut r: Vec<bool> = Vec::new();
    let mut i: usize = 0;
    while i < n
        invariant
            i <= n,
            n <= 8 * bytes.len(),
            r@ == unpacked(bytes@, i as int),
        decreases n - i,
    {
        let b = bytes[i / 8];
        let k = (i % 8) as u8;
        r.push(b & (1u8 << k) != 0);
        proof {
            assert(r@ =~= unpacked(bytes@, i + 1));
        }
        i += 1;
    }
    r
}

/// A persisted grid: dimensions and the base64 text of the packed flags.
#[derive(Clone, Debug, PartialEq, Eq)]
pub struct Snapshot {
    pub width: usize,
    pub height: usize,
    pub cells: String,
}

/// Why a snapshot cannot be loaded.
#[derive(Clone, Copy, Debug, PartialEq, Eq, Structural)]
pub enum SnapshotError {
    /// A dimension is 0, or the cell count does not fit.
    InvalidDimensions,
    /// The cell text is no valid base64.
    InvalidBase64,
    /// The decoded bytes are not exactly the ones the cell count needs.
    CellCountMismatch,
}

impl SnapshotError {
    /// A short description for the user.
    pub fn message(&self) -> (r: &'static str) {
        match self {
            SnapshotError::InvalidDimensions => "invalid board dimensions",
            SnapshotError::InvalidBase64 => "cells are not valid base64",
            SnapshotError::CellCountMismatch => "cell data does not match the board size",
        }
    }
}

/// The grid that a snapshot with these fields loads into, or why it does not.
pub open spec fn load_result(w: int, h: int, cells: Seq<char>) -> Result<BoardView, SnapshotError> {
    if w <= 0 || h <= 0 || w * h > isize::MAX {
        Err(SnapshotError::InvalidDimensions)
    } else {
        match base64_decoded(cells) {
            None => Err(SnapshotError::InvalidBase64),
            Some(bytes) => if bytes.len() != (w * h + 7) / 8 {
                Err(SnapshotError::CellCountMismatch)
            } else {
                Ok(
                    BoardView {
                        width: w,
                        height: h,
                        cells: Seq::new(
                            (w * h) as nat,
                            |i: int| Tile { alive: unpacked(bytes, w * h)[i], heat: 0 },
                        ),
                    },
                )
            },
        }
    }
}

/// Loading what was saved: a grid's packed flags, decodable as base64, load
/// into a grid of the same shape with the same alive pattern and heat 0.
pub proof fn lemma_snapshot_round_trip(v: BoardView, cells: Seq<char>)
    requires
        v.valid(),
        base64_decoded(cells) == Some(packed(v.alive_bits())),
    ensures
        load_result(v.width, v.height, cells) matches Ok(b) && b.same_shape(v) && b.alive_bits()
            == v.alive_bits() && forall|i: int| 0 <= i < b.cells.len() ==> #[trigger] b.cells[i].heat == 0,
{
    lemma_unpack_packed(v.alive_bits());
    let b = load_result(v.width, v.height, cells)->Ok_0;
    assert(b.alive_bits() =~= v.alive_bits());
}

impl Board {
    /// The persisted form of the grid; loading it gives back the alive
    /// pattern.
    pub fn to_snapshot(&self) -> (r: Snapshot)
        requires
            self.wf(),
        ensures
            r.width == self@.width,
            r.height == self@.height,
            r.cells@ == base64_encoded(packed(self@.alive_bits())),
            load_result(r.width as int, r.height as int, r.cells@) matches Ok(b) && b.same_shape(self@)
                && b.alive_bits() == self@.alive_bits(),
    {
        let n = self.len();
        let mut bits: Vec<bool> = Vec::new();
        let mut i: usize = 0;
        while i < n
            invariant
                i <= n,
                self.wf(),
                n == self@.cells.len(),
                bits@ == self@.alive_bits().subrange(0, i as int),
            decreases n - i,
        {
            bits.push(self.tile_at(i).alive);
            proof {
                assert(bits@ =~= self@.alive_bits().subrange(0, i + 1));
            }
            i += 1;
        }
        assert(bits@ =~= self@.alive_bits());
        let bytes = bools_to_u8s(bits);
        proof {
            assert(bytes.len() <= usize::MAX / 2) by {
                assert(n <= isize::MAX);
            }
        }
        let cells = encode_base64(&bytes);
        proof {
            lemma_snapshot_round_trip(self@, cells@);
        }
        Snapshot { width: self.width(), height: self.height(), cells }
    }

    /// Loads a persisted grid. It fails when a dimension is 0 or the cell
    /// count does not fit, when the cell text is no valid base64, or when the
    /// decoded bytes are not exactly `ceil(width * height / 8)`.
    pub fn from_snapshot(s: &Snapshot) -> (r: Result<Board, SnapshotError>)
        ensures
            match r {
                Ok(b) => b.wf() && load_result(s.width as int, s.height as int, s.cells@) == Ok::<
                    BoardView,
                    SnapshotError,
                >(b@),
                Err(e) => load_result(s.width as int, s.height as int, s.cells@) == Err::<
                    BoardView,
                    SnapshotError,
                >(e),
            },
    {
        let (w, h) = (s.width, s.height);
        if w == 0 || h == 0 || w > isize::MAX as usize / h {
            proof {
                if w > 0 && h > 0 {
                    assert(w * h > isize::MAX) by (nonlinear_arith)
                        requires w > isize::MAX as usize / h, h > 0;
                }
            }
            return Err(SnapshotError::InvalidDimensions);
        }
        proof {
            assert(w * h <= isize::MAX) by (nonlinear_arith)
                requires w <= isize::MAX as usize / h, h > 0;
        }
        let n = w * h;
        let bytes = match decode_base64(s.cells.as_str()) {
            Ok(b) => b,
            Err(_) => {
                return Err(SnapshotError::InvalidBase64);
            },
        };
        Board::from_cell_bytes(w, h, &bytes)
    }

    /// A `width` by `height` grid whose alive flags are the first
    /// `width * height` bits of `bytes` (bit 0 of each byte first), heat 0.
    /// It fails when the byte count is not exactly `ceil(width * height / 8)`.
    pub fn from_cell_bytes(width: usize, height: usize, bytes: &Vec<u8>) -> (r: Result<Board, SnapshotError>)
        requires
            width > 0,
            height > 0,
            width * height <= isize::MAX,
        ensures
            match r {
                Ok(b) => b.wf() && bytes.len() == (width * height + 7) / 8 && b@ == (BoardView {
                    width: width as int,
                    height: height as int,
                    cells: Seq::new(
                        (width * height) as nat,
                        |i: int| Tile { alive: unpacked(bytes@, width * height)[i], heat: 0 },
                    ),
                }),
                Err(e) => e == SnapshotError::CellCountMismatch && bytes.len() != (width * height + 7) / 8,
            },
    {
        let n = width * height;
        if bytes.len() != n / 8 + if n % 8 > 0 { 1 } else { 0 } {
            return Err(SnapshotError::CellCountMismatch);
        }
        let bits = u8s_to_bools(bytes, n);
        let mut cells: Vec<Tile> = Vec::new();
        let mut i: usize = 0;
        while i < n
            invariant
                i <= n,
                bits@ == unpacked(bytes@, n as int),
                cells.len() == i,
                forall|j: int| 0 <= j < i ==> #[trigger] cells@[j] == (Tile { alive: bits@[j], heat: 0 }),
            decreases n - i,
        {
            cells.push(Tile { alive: bits[i], heat: 0 });
            i += 1;
        }
        let b = Board::from_cells(width, height, cells);
        proof {
            assert(b@.cells =~= Seq::new(
                (width * height) as nat,
                |i: int| Tile { alive: unpacked(bytes@, width * height)[i], heat: 0 },
            ));
        }
        Ok(b)
    }
}

} // verus!
