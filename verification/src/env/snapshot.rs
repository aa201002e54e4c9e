//! Position snapshots: the full searchable state of a position as a compact byte
//! string, for re-searching a position in another process or on another machine.
//!
//! Byte layout (little endian, fixed-width fields): version, variant index, one byte
//! per square, side to move, move counter (u32), step counter (u32), both healths
//! (i32), last action (i32), bag length and one byte per bagged piece, the lost-piece
//! counts per player and kind (2 x 7 bytes), and a flag followed, for seeded games, by
//! the fixed layout (one byte per square).

use vstd::prelude::*;

use super::board::{
    bit_set, count_sum, lemma_bit_or_single, lemma_bit_zero, slot_is_piece_of, slot_is_revealed_of, spec_ull, ull,
    DarkChessEnv,
};
use super::config::{
    config_wf, lemma_config_facts, same_rules, spec_config, type_active, variant_index, Variant,
    MAX_PIECES_PER_PLAYER, MAX_POSITIONS, NUM_PIECE_TYPES_MAX,
};
use super::error::EnvError;
use super::types::{
    player_idx, player_of_idx, type_index, type_of_index, lemma_type_index_roundtrip, Piece,
    PieceType, Player, Slot,
};

verus! {

/// Layout version: bumped on every layout change; decoding rejects other versions.
pub const SNAPSHOT_VERSION: u8 = 1;

/// The full state of a position, encodable as a byte string.
#[derive(Clone, Debug, PartialEq)]
pub struct PositionSnapshot {
    /// Variant (decoding takes the configuration from it).
    pub variant: Variant,
    /// Board squares, one per position of the variant.
    pub slots: Vec<Slot>,
    pub current_player: Player,
    /// Consecutive moves without a capture or flip (draw counter).
    pub move_counter: u32,
    /// Steps played (step limit).
    pub total_step_counter: u32,
    /// Health of Red and Black.
    pub scores: [i32; 2],
    /// Last action (`-1` for the start position).
    pub last_action: i32,
    /// Face-down pieces not yet revealed, in the environment's order.
    pub hidden_bag: Vec<Piece>,
    /// Lost pieces per `[player][kind]`.
    pub dead_counts: [[u8; 7]; 2],
    /// Fixed layout of a seeded game (one piece per position).
    pub true_board: Option<Vec<Piece>>,
}

/// The mathematical content of a snapshot.
pub struct SnapshotView {
    pub variant: Variant,
    pub slots: Seq<Slot>,
    pub current_player: Player,
    pub move_counter: u32,
    pub total_step_counter: u32,
    pub scores: [i32; 2],
    pub last_action: i32,
    pub hidden_bag: Seq<Piece>,
    pub dead_counts: [[u8; 7]; 2],
    pub true_board: Option<Seq<Piece>>,
}

impl View for PositionSnapshot {
    type V = SnapshotView;

    open spec fn view(&self) -> SnapshotView {
        SnapshotView {
            variant: self.variant,
            slots: self.slots@,
            current_player: self.current_player,
            move_counter: self.move_counter,
            total_step_counter: self.total_step_counter,
            scores: self.scores,
            last_action: self.last_action,
            hidden_bag: self.hidden_bag@,
            dead_counts: self.dead_counts,
            true_board: match self.true_board {
                Some(v) => Some(v@),
                None => None,
            },
        }
    }
}

// ---------------------------------------------------------------------------
// Encoding, as a mathematical function
// ---------------------------------------------------------------------------

/// Byte of a piece: `player_index * 7 + kind_index` (0..14).
pub open spec fn spec_encode_piece(p: Piece) -> u8 {
    (player_idx(p.player) * 7 + type_index(p.piece_type)) as u8
}

/// Byte of a square: 0 empty, 1 face down, `2 + piece byte` face up.
pub open spec fn spec_encode_slot(s: Slot) -> u8 {
    match s {
        Slot::Empty => 0,
        Slot::Hidden => 1,
        Slot::Revealed(p) => (2 + spec_encode_piece(p)) as u8,
    }
}

/// Little-endian bytes of a `u32`.
pub open spec fn le_u32(x: u32) -> Seq<u8> {
    seq![(x & 0xff) as u8, ((x >> 8u32) & 0xff) as u8, ((x >> 16u32) & 0xff) as u8, ((x >> 24u32) & 0xff) as u8]
}

/// Little-endian bytes of an `i32` (two's complement).
pub open spec fn le_i32(x: i32) -> Seq<u8> {
    le_u32(x as u32)
}

/// The `u32` whose little-endian bytes start at `b[o]`.
pub open spec fn from_le_u32(b: Seq<u8>, o: int) -> u32 {
    ((b[o] as u32) | ((b[o + 1] as u32) << 8u32) | ((b[o + 2] as u32) << 16u32) | ((b[o + 3] as u32) << 24u32)) as u32
}

/// The byte string of a snapshot.
pub open spec fn spec_encode(s: SnapshotView) -> Seq<u8> {
    seq![SNAPSHOT_VERSION, variant_index(s.variant) as u8]
        + s.slots.map_values(|x: Slot| spec_encode_slot(x))
        + seq![player_idx(s.current_player) as u8]
        + le_u32(s.move_counter)
        + le_u32(s.total_step_counter)
        + le_i32(s.scores[0])
        + le_i32(s.scores[1])
        + le_i32(s.last_action)
        + seq![s.hidden_bag.len() as u8]
        + s.hidden_bag.map_values(|p: Piece| spec_encode_piece(p))
        + s.dead_counts[0]@
        + s.dead_counts[1]@
        + match s.true_board {
            Some(tb) => seq![1u8] + tb.map_values(|p: Piece| spec_encode_piece(p)),
            None => seq![0u8],
        }
}

/// A snapshot that decoding can produce: one square per position of its variant, a bag
/// of at most `MAX_POSITIONS` pieces, and a full layout if any.
pub open spec fn snapshot_valid(s: SnapshotView) -> bool {
    let n = spec_config(s.variant).total_positions;
    &&& s.slots.len() == n
    &&& s.hidden_bag.len() <= MAX_POSITIONS
    &&& match s.true_board {
        Some(tb) => tb.len() == n,
        None => true,
    }
}

// ---------------------------------------------------------------------------
// Decoding, as a mathematical function
// ---------------------------------------------------------------------------

/// The piece of a byte (bytes 0..14).
pub open spec fn spec_decode_piece(c: u8) -> Option<Piece> {
    if c < 14 {
        Some(Piece { piece_type: type_of_index((c % 7) as nat), player: player_of_idx((c / 7) as nat) })
    } else {
        None
    }
}

/// The square of a byte (bytes 0..16).
pub open spec fn spec_decode_slot(c: u8) -> Option<Slot> {
    if c == 0 {
        Some(Slot::Empty)
    } else if c == 1 {
        Some(Slot::Hidden)
    } else {
        match spec_decode_piece((c - 2) as u8) {
            Some(p) => Some(Slot::Revealed(p)),
            None => None,
        }
    }
}

/// The variant of an index byte.
pub open spec fn variant_of_index(i: u8) -> Variant {
    if i == 0 {
        Variant::DarkChess4x8
    } else if i == 1 {
        Variant::DarkChess4x4
    } else {
        Variant::DarkChess4x2
    }
}

/// All `len` bytes from `b[o]` are square bytes.
pub open spec fn slots_ok(b: Seq<u8>, o: int, len: int) -> bool {
    forall|j: int| 0 <= j < len ==> #[trigger] b[o + j] < 16
}

/// The squares of the `len` bytes from `b[o]`.
pub open spec fn slots_at(b: Seq<u8>, o: int, len: int) -> Seq<Slot> {
    Seq::new(len as nat, |j: int| spec_decode_slot(b[o + j])->0)
}

/// All `len` bytes from `b[o]` are piece bytes.
pub open spec fn pieces_ok(b: Seq<u8>, o: int, len: int) -> bool {
    forall|j: int| 0 <= j < len ==> #[trigger] b[o + j] < 14
}

/// The pieces of the `len` bytes from `b[o]`.
pub open spec fn pieces_at(b: Seq<u8>, o: int, len: int) -> Seq<Piece> {
    Seq::new(len as nat, |j: int| spec_decode_piece(b[o + j])->0)
}

/// The seven bytes from `b[o]` as an array.
pub open spec fn counts_at(b: Seq<u8>, o: int) -> [u8; 7] {
    [b[o], b[o + 1], b[o + 2], b[o + 3], b[o + 4], b[o + 5], b[o + 6]]
}

/// What decoding makes of a byte string: the snapshot it starts with, read field by
/// field with bounds checks, or nothing when a field is missing or malformed. Bytes
/// after the snapshot are ignored.
pub open spec fn spec_decode(b: Seq<u8>) -> Option<SnapshotView> {
    if b.len() < 2 || b[0] != SNAPSHOT_VERSION || b[1] >= 3 {
        None
    } else {
        let v = variant_of_index(b[1]);
        let n = spec_config(v).total_positions as int;
        if b.len() < 2 + n || !slots_ok(b, 2, n) {
            None
        } else {
            let o = 2 + n;
            if b.len() < o + 22 || b[o] > 1 || b[o + 21] > MAX_POSITIONS {
                None
            } else {
                let len = b[o + 21] as int;
                let ob = o + 22;
                if b.len() < ob + len + 15 || !pieces_ok(b, ob, len) {
                    None
                } else {
                    let od = ob + len;
                    let flag = b[od + 14];
                    let tb: Option<Option<Seq<Piece>>> = if flag == 0 {
                        Some(None)
                    } else if flag == 1 && b.len() >= od + 15 + n && pieces_ok(b, od + 15, n) {
                        Some(Some(pieces_at(b, od + 15, n)))
                    } else {
                        None
                    };
                    match tb {
                        None => None,
                        Some(true_board) => Some(
                            SnapshotView {
                                variant: v,
                                slots: slots_at(b, 2, n),
                                current_player: player_of_idx(b[o] as nat),
                                move_counter: from_le_u32(b, o + 1),
                                total_step_counter: from_le_u32(b, o + 5),
                                scores: [from_le_u32(b, o + 9) as i32, from_le_u32(b, o + 13) as i32],
                                last_action: from_le_u32(b, o + 17) as i32,
                                hidden_bag: pieces_at(b, ob, len),
                                dead_counts: [counts_at(b, od), counts_at(b, od + 7)],
                                true_board,
                            },
                        ),
                    }
                }
            }
        }
    }
}

// ---------------------------------------------------------------------------
// Laws of the encoding
// ---------------------------------------------------------------------------

/// Where each field of a snapshot lies in its byte string.
pub open spec fn layout_holds(s: SnapshotView, e: Seq<u8>) -> bool {
    let n = s.slots.len() as int;
    let len = s.hidden_bag.len() as int;
    let o = 2 + n;
    let ob = o + 22;
    let od = ob + len;
    &&& e.len() == od + 15 + match s.true_board {
        Some(tb) => tb.len() as int,
        None => 0,
    }
    &&& e[0] == SNAPSHOT_VERSION
    &&& e[1] == variant_index(s.variant) as u8
    &&& forall|j: int| 0 <= j < n ==> #[trigger] e[2 + j] == spec_encode_slot(s.slots[j])
    &&& e[o] == player_idx(s.current_player) as u8
    &&& forall|k: int| 0 <= k < 4 ==> #[trigger] e[o + 1 + k] == le_u32(s.move_counter)[k]
    &&& forall|k: int| 0 <= k < 4 ==> #[trigger] e[o + 5 + k] == le_u32(s.total_step_counter)[k]
    &&& forall|k: int| 0 <= k < 4 ==> #[trigger] e[o + 9 + k] == le_i32(s.scores[0])[k]
    &&& forall|k: int| 0 <= k < 4 ==> #[trigger] e[o + 13 + k] == le_i32(s.scores[1])[k]
    &&& forall|k: int| 0 <= k < 4 ==> #[trigger] e[o + 17 + k] == le_i32(s.last_action)[k]
    &&& e[o + 21] == len as u8
    &&& forall|j: int| 0 <= j < len ==> #[trigger] e[ob + j] == spec_encode_piece(s.hidden_bag[j])
    &&& forall|k: int| 0 <= k < 7 ==> #[trigger] e[od + k] == s.dead_counts[0]@[k]
    &&& forall|k: int| 0 <= k < 7 ==> #[trigger] e[od + 7 + k] == s.dead_counts[1]@[k]
    &&& e[od + 14] == (if s.true_board is Some { 1u8 } else { 0u8 })
    &&& forall|j: int|
        0 <= j < n ==> match s.true_board {
            Some(tb) => j < tb.len() ==> #[trigger] e[od + 15 + j] == spec_encode_piece(tb[j]),
            None => true,
        }
}

/// The byte positions of every field of an encoded snapshot.
pub proof fn lemma_encode_layout(s: SnapshotView)
    ensures
        layout_holds(s, spec_encode(s)),
{
    let n = s.slots.len() as int;
    let len = s.hidden_bag.len() as int;
    let a0 = seq![SNAPSHOT_VERSION, variant_index(s.variant) as u8];
    let sb = s.slots.map_values(|x: Slot| spec_encode_slot(x));
    let a1 = a0 + sb;
    let a2 = a1 + seq![player_idx(s.current_player) as u8];
    let a3 = a2 + le_u32(s.move_counter);
    let a4 = a3 + le_u32(s.total_step_counter);
    let a5 = a4 + le_i32(s.scores[0]);
    let a6 = a5 + le_i32(s.scores[1]);
    let a7 = a6 + le_i32(s.last_action);
    let a8 = a7 + seq![s.hidden_bag.len() as u8];
    let bb = s.hidden_bag.map_values(|p: Piece| spec_encode_piece(p));
    let a9 = a8 + bb;
    let a10 = a9 + s.dead_counts[0]@;
    let a11 = a10 + s.dead_counts[1]@;
    let tail = match s.true_board {
        Some(tb) => seq![1u8] + tb.map_values(|p: Piece| spec_encode_piece(p)),
        None => seq![0u8],
    };
    let e = a11 + tail;
    assert(e == spec_encode(s));
    let o = 2 + n;
    let ob = o + 22;
    let od = ob + len;
    assert(a11.len() == od + 14);
    assert forall|j: int| 0 <= j < n implies #[trigger] e[2 + j] == spec_encode_slot(s.slots[j]) by {
        assert(a1[2 + j] == sb[j]);
        assert(a11[2 + j] == a1[2 + j]);
    }
    assert(e[o] == a2[o]);
    assert forall|k: int| 0 <= k < 4 implies #[trigger] e[o + 1 + k] == le_u32(s.move_counter)[k] by {
        assert(e[o + 1 + k] == a3[o + 1 + k]);
    }
    assert forall|k: int| 0 <= k < 4 implies #[trigger] e[o + 5 + k] == le_u32(s.total_step_counter)[k] by {
        assert(e[o + 5 + k] == a4[o + 5 + k]);
    }
    assert forall|k: int| 0 <= k < 4 implies #[trigger] e[o + 9 + k] == le_i32(s.scores[0])[k] by {
        assert(e[o + 9 + k] == a5[o + 9 + k]);
    }
    assert forall|k: int| 0 <= k < 4 implies #[trigger] e[o + 13 + k] == le_i32(s.scores[1])[k] by {
        assert(e[o + 13 + k] == a6[o + 13 + k]);
    }
    assert forall|k: int| 0 <= k < 4 implies #[trigger] e[o + 17 + k] == le_i32(s.last_action)[k] by {
        assert(e[o + 17 + k] == a7[o + 17 + k]);
    }
    assert(e[o + 21] == a8[o + 21]);
    assert forall|j: int| 0 <= j < len implies #[trigger] e[ob + j] == spec_encode_piece(s.hidden_bag[j]) by {
        assert(e[ob + j] == a9[ob + j]);
        assert(a9[ob + j] == bb[j]);
    }
    assert forall|k: int| 0 <= k < 7 implies #[trigger] e[od + k] == s.dead_counts[0]@[k] by {
        assert(e[od + k] == a10[od + k]);
    }
    assert forall|k: int| 0 <= k < 7 implies #[trigger] e[od + 7 + k] == s.dead_counts[1]@[k] by {
        assert(e[od + 7 + k] == a11[od + 7 + k]);
    }
    assert(e[od + 14] == tail[0]);
    assert forall|j: int|
        0 <= j < n implies match s.true_board {
            Some(tb) => j < tb.len() ==> #[trigger] e[od + 15 + j] == spec_encode_piece(tb[j]),
            None => true,
        } by {
        match s.true_board {
            Some(tb) => {
                if j < tb.len() {
                    assert(e[od + 15 + j] == tail[1 + j]);
                }
            },
            None => {},
        }
    }
}

/// Piece bytes decode back to their pieces, and decoded bytes encode back.
pub proof fn lemma_piece_roundtrip(p: Piece, c: u8)
    ensures
        spec_encode_piece(p) < 14,
        spec_decode_piece(spec_encode_piece(p)) == Some(p),
        c < 14 ==> spec_decode_piece(c) is Some && spec_encode_piece(spec_decode_piece(c)->0) == c,
{
    lemma_type_index_roundtrip(p.piece_type);
}

/// Square bytes decode back to their squares, and decoded bytes encode back.
pub proof fn lemma_slot_roundtrip(s: Slot, c: u8)
    ensures
        spec_encode_slot(s) < 16,
        spec_decode_slot(spec_encode_slot(s)) == Some(s),
        c < 16 ==> spec_decode_slot(c) is Some && spec_encode_slot(spec_decode_slot(c)->0) == c,
{
    match s {
        Slot::Revealed(p) => lemma_piece_roundtrip(p, 0),
        _ => {},
    }
    if c >= 2 && c < 16 {
        lemma_piece_roundtrip(Piece { piece_type: PieceType::Soldier, player: Player::Red }, (c - 2) as u8);
    }
}

/// Reading four little-endian bytes gives back the `u32` they encode, and encoding the
/// value read gives back the bytes.
pub proof fn lemma_le_u32(x: u32, b0: u8, b1: u8, b2: u8, b3: u8)
    ensures
        ((le_u32(x)[0] as u32) | ((le_u32(x)[1] as u32) << 8u32) | ((le_u32(x)[2] as u32) << 16u32) | ((le_u32(x)[3] as u32) << 24u32)) == x,
        ({
            let y = ((b0 as u32) | ((b1 as u32) << 8u32) | ((b2 as u32) << 16u32) | ((b3 as u32) << 24u32)) as u32;
            le_u32(y) == seq![b0, b1, b2, b3]
        }),
{
    let c0 = (x & 0xff) as u8;
    let c1 = ((x >> 8u32) & 0xff) as u8;
    let c2 = ((x >> 16u32) & 0xff) as u8;
    let c3 = ((x >> 24u32) & 0xff) as u8;
    assert(((c0 as u32) | ((c1 as u32) << 8u32) | ((c2 as u32) << 16u32) | ((c3 as u32) << 24u32)) == x) by (bit_vector)
        requires
            c0 == (x & 0xff) as u8,
            c1 == ((x >> 8u32) & 0xff) as u8,
            c2 == ((x >> 16u32) & 0xff) as u8,
            c3 == ((x >> 24u32) & 0xff) as u8,
    ;
    let y = ((b0 as u32) | ((b1 as u32) << 8u32) | ((b2 as u32) << 16u32) | ((b3 as u32) << 24u32)) as u32;
    assert((y & 0xff) as u8 == b0 && ((y >> 8u32) & 0xff) as u8 == b1 && ((y >> 16u32) & 0xff) as u8 == b2
        && ((y >> 24u32) & 0xff) as u8 == b3) by (bit_vector)
        requires
            y == ((b0 as u32) | ((b1 as u32) << 8u32) | ((b2 as u32) << 16u32) | ((b3 as u32) << 24u32)) as u32,
    ;
    assert(le_u32(y) =~= seq![b0, b1, b2, b3]);
}

/// Casting an `i32` to `u32` and back is the identity.
pub proof fn lemma_i32_u32(x: i32)
    ensures
        (x as u32) as i32 == x,
{
    assert((x as u32) as i32 == x) by (bit_vector);
}

/// `p` is a prefix of `b`.
pub open spec fn is_prefix(p: Seq<u8>, b: Seq<u8>) -> bool {
    p.len() <= b.len() && forall|i: int| 0 <= i < p.len() ==> #[trigger] b[i] == p[i]
}

/// Decoding a byte string that starts with the encoding of a valid snapshot gives
/// back that snapshot; in particular decoding inverts encoding.
#[verifier::spinoff_prover]
#[verifier::rlimit(40)]
pub proof fn law_decode_prefix(s: SnapshotView, b: Seq<u8>)
    requires
        snapshot_valid(s),
        is_prefix(spec_encode(s), b),
    ensures
        spec_decode(b) == Some(s),
{
    let e = spec_encode(s);
    lemma_encode_layout(s);
    let n = s.slots.len() as int;
    let len = s.hidden_bag.len() as int;
    let o = 2 + n;
    let ob = o + 22;
    let od = ob + len;
    assert(b[0] == e[0] && b[1] == e[1]);
    assert(variant_of_index(b[1]) == s.variant);
    assert(spec_config(s.variant).total_positions == n);
    assert forall|j: int| 0 <= j < n implies #[trigger] b[2 + j] < 16 by {
        assert(b[2 + j] == e[2 + j]);
        lemma_slot_roundtrip(s.slots[j], 0);
    }
    assert(b[o] == e[o]);
    assert(b[o + 21] == e[o + 21]);
    assert(pieces_ok(b, ob, len)) by {
        assert forall|j: int| 0 <= j < len implies #[trigger] b[ob + j] < 14 by {
            assert(b[ob + j] == e[ob + j]);
            lemma_piece_roundtrip(s.hidden_bag[j], 0);
        }
    }
    assert(b[od + 14] == e[od + 14]);
    let slots = slots_at(b, 2, n);
    assert(slots =~= s.slots) by {
        assert forall|j: int| 0 <= j < n implies slots[j] == s.slots[j] by {
            assert(b[2 + j] == e[2 + j]);
            lemma_slot_roundtrip(s.slots[j], 0);
        }
    }
    assert(pieces_at(b, ob, len) =~= s.hidden_bag) by {
        assert forall|j: int| 0 <= j < len implies pieces_at(b, ob, len)[j] == s.hidden_bag[j] by {
            assert(b[ob + j] == e[ob + j]);
            lemma_piece_roundtrip(s.hidden_bag[j], 0);
        }
    }
    assert forall|k: int| 0 <= k < 21 implies #[trigger] b[o + k] == e[o + k] by {}
    lemma_read_u32(s.move_counter, b, o + 1);
    lemma_read_u32(s.total_step_counter, b, o + 5);
    lemma_read_u32(s.scores[0] as u32, b, o + 9);
    lemma_read_u32(s.scores[1] as u32, b, o + 13);
    lemma_read_u32(s.last_action as u32, b, o + 17);
    lemma_i32_u32(s.scores[0]);
    lemma_i32_u32(s.scores[1]);
    lemma_i32_u32(s.last_action);
    assert([from_le_u32(b, o + 9) as i32, from_le_u32(b, o + 13) as i32] =~= s.scores);
    assert(counts_at(b, od) =~= s.dead_counts[0]) by {
        assert forall|k: int| 0 <= k < 7 implies #[trigger] b[od + k] == e[od + k] by {}
    }
    assert(counts_at(b, od + 7) =~= s.dead_counts[1]) by {
        assert forall|k: int| 0 <= k < 7 implies #[trigger] b[od + 7 + k] == e[od + 7 + k] by {}
    }
    assert([counts_at(b, od), counts_at(b, od + 7)] =~= s.dead_counts);
    match s.true_board {
        Some(tb) => {
            assert(pieces_ok(b, od + 15, n)) by {
                assert forall|j: int| 0 <= j < n implies #[trigger] b[od + 15 + j] < 14 by {
                    assert(b[od + 15 + j] == e[od + 15 + j]);
                    lemma_piece_roundtrip(tb[j], 0);
                }
            }
            assert(pieces_at(b, od + 15, n) =~= tb) by {
                assert forall|j: int| 0 <= j < n implies pieces_at(b, od + 15, n)[j] == tb[j] by {
                    assert(b[od + 15 + j] == e[od + 15 + j]);
                    lemma_piece_roundtrip(tb[j], 0);
                }
            }
        },
        None => {},
    }
}

/// Four bytes that spell `x` read back as `x`.
proof fn lemma_read_u32(x: u32, b: Seq<u8>, o: int)
    requires
        0 <= o,
        o + 4 <= b.len(),
        forall|k: int| 0 <= k < 4 ==> #[trigger] b[o + k] == le_u32(x)[k],
    ensures
        from_le_u32(b, o) == x,
{
    lemma_le_u32(x, 0, 0, 0, 0);
    assert(b[o + 0] == le_u32(x)[0]);
    assert(b[o + 1] == le_u32(x)[1]);
    assert(b[o + 2] == le_u32(x)[2]);
    assert(b[o + 3] == le_u32(x)[3]);
}

/// Whatever decoding returns is valid, and its encoding is how the input begins.
pub proof fn law_decode_sound(b: Seq<u8>)
    requires
        spec_decode(b) is Some,
    ensures
        snapshot_valid(spec_decode(b)->0),
        is_prefix(spec_encode(spec_decode(b)->0), b),
{
    let s = spec_decode(b)->0;
    let e = spec_encode(s);
    lemma_encode_layout(s);
    let v = variant_of_index(b[1]);
    let n = spec_config(v).total_positions as int;
    let o = 2 + n;
    let len = b[o + 21] as int;
    let ob = o + 22;
    let od = ob + len;
    assert(s.slots.len() == n);
    assert(s.hidden_bag.len() == len);
    assert(b[1] < 3);
    assert(e[1] == b[1]);
    assert forall|j: int| 0 <= j < n implies #[trigger] e[2 + j] == b[2 + j] by {
        assert(b[2 + j] < 16);
        lemma_slot_roundtrip(Slot::Empty, b[2 + j]);
    }
    assert(e[o] == b[o]);
    assert forall|k: int| 0 <= k < 4 implies #[trigger] e[o + 1 + k] == b[o + 1 + k] by {
        lemma_le_u32(0, b[o + 1], b[o + 2], b[o + 3], b[o + 4]);
    }
    assert forall|k: int| 0 <= k < 4 implies #[trigger] e[o + 5 + k] == b[o + 5 + k] by {
        lemma_le_u32(0, b[o + 5], b[o + 6], b[o + 7], b[o + 8]);
    }
    assert forall|k: int| 0 <= k < 4 implies #[trigger] e[o + 9 + k] == b[o + 9 + k] by {
        lemma_le_u32(0, b[o + 9], b[o + 10], b[o + 11], b[o + 12]);
        lemma_u32_i32(from_le_u32(b, o + 9));
    }
    assert forall|k: int| 0 <= k < 4 implies #[trigger] e[o + 13 + k] == b[o + 13 + k] by {
        lemma_le_u32(0, b[o + 13], b[o + 14], b[o + 15], b[o + 16]);
        lemma_u32_i32(from_le_u32(b, o + 13));
    }
    assert forall|k: int| 0 <= k < 4 implies #[trigger] e[o + 17 + k] == b[o + 17 + k] by {
        lemma_le_u32(0, b[o + 17], b[o + 18], b[o + 19], b[o + 20]);
        lemma_u32_i32(from_le_u32(b, o + 17));
    }
    assert(e[o + 21] == b[o + 21]);
    assert forall|j: int| 0 <= j < len implies #[trigger] e[ob + j] == b[ob + j] by {
        assert(b[ob + j] < 14);
        lemma_piece_roundtrip(Piece { piece_type: PieceType::Soldier, player: Player::Red }, b[ob + j]);
    }
    assert forall|k: int| 0 <= k < 7 implies #[trigger] e[od + k] == b[od + k] by {}
    assert forall|k: int| 0 <= k < 7 implies #[trigger] e[od + 7 + k] == b[od + 7 + k] by {}
    assert(e[od + 14] == b[od + 14]);
    match s.true_board {
        Some(tb) => {
            assert forall|j: int| 0 <= j < n implies #[trigger] e[od + 15 + j] == b[od + 15 + j] by {
                assert(b[od + 15 + j] < 14);
                lemma_piece_roundtrip(Piece { piece_type: PieceType::Soldier, player: Player::Red }, b[od + 15 + j]);
            }
        },
        None => {},
    }
    assert forall|i: int| 0 <= i < e.len() implies #[trigger] b[i] == e[i] by {
        if i < 2 {
        } else if i < o {
            assert(e[2 + (i - 2)] == b[2 + (i - 2)]);
        } else if i == o {
        } else if i < o + 5 {
            assert(e[o + 1 + (i - o - 1)] == b[o + 1 + (i - o - 1)]);
        } else if i < o + 9 {
            assert(e[o + 5 + (i - o - 5)] == b[o + 5 + (i - o - 5)]);
        } else if i < o + 13 {
            assert(e[o + 9 + (i - o - 9)] == b[o + 9 + (i - o - 9)]);
        } else if i < o + 17 {
            assert(e[o + 13 + (i - o - 13)] == b[o + 13 + (i - o - 13)]);
        } else if i < o + 21 {
            assert(e[o + 17 + (i - o - 17)] == b[o + 17 + (i - o - 17)]);
        } else if i == o + 21 {
        } else if i < od {
            assert(e[ob + (i - ob)] == b[ob + (i - ob)]);
        } else if i < od + 7 {
            assert(e[od + (i - od)] == b[od + (i - od)]);
        } else if i < od + 14 {
            assert(e[od + 7 + (i - od - 7)] == b[od + 7 + (i - od - 7)]);
        } else if i == od + 14 {
        } else {
            assert(e[od + 15 + (i - od - 15)] == b[od + 15 + (i - od - 15)]);
        }
    }
}

/// Casting a `u32` to `i32` and back is the identity.
proof fn lemma_u32_i32(x: u32)
    ensures
        (x as i32) as u32 == x,
{
    assert((x as i32) as u32 == x) by (bit_vector);
}

// ---------------------------------------------------------------------------
// Encoding and decoding
// ---------------------------------------------------------------------------

fn encode_piece(p: &Piece) -> (r: u8)
    ensures
        r == spec_encode_piece(*p),
{
    proof {
        lemma_type_index_roundtrip(p.piece_type);
    }
    let pi = p.player.idx() as u8;
    let ti = p.piece_type.index() as u8;
    assert(pi * 7 + ti < 14) by (nonlinear_arith)
        requires
            pi < 2,
            ti < 7,
    ;
    pi * (NUM_PIECE_TYPES_MAX as u8) + ti
}

fn decode_piece(code: u8) -> (r: Result<Piece, EnvError>)
    ensures
        match spec_decode_piece(code) {
            Some(p) => r matches Ok(q) && q == p,
            None => r matches Err(e) && e is InvalidSnapshot,
        },
{
    let player = match code / (NUM_PIECE_TYPES_MAX as u8) {
        0 => Player::Red,
        1 => Player::Black,
        _ => return Err(EnvError::InvalidSnapshot { context: "快照棋子编码非法" }),
    };
    Ok(Piece::new(PieceType::from_index((code % (NUM_PIECE_TYPES_MAX as u8)) as usize), player))
}

fn encode_slot(s: &Slot) -> (r: u8)
    ensures
        r == spec_encode_slot(*s),
{
    match s {
        Slot::Empty => 0,
        Slot::Hidden => 1,
        Slot::Revealed(p) => {
            proof {
                lemma_piece_roundtrip(*p, 0);
            }
            2 + encode_piece(p)
        },
    }
}

fn decode_slot(b: u8) -> (r: Result<Slot, EnvError>)
    ensures
        match spec_decode_slot(b) {
            Some(s) => r matches Ok(q) && q == s,
            None => r matches Err(e) && e is InvalidSnapshot,
        },
{
    match b {
        0 => Ok(Slot::Empty),
        1 => Ok(Slot::Hidden),
        _ => Ok(Slot::Revealed(decode_piece(b - 2)?)),
    }
}

/// Appends the little-endian bytes of `x`.
fn push_u32_le(out: &mut Vec<u8>, x: u32)
    ensures
        final(out)@ == old(out)@ + le_u32(x),
{
    out.push((x & 0xff) as u8);
    out.push(((x >> 8u32) & 0xff) as u8);
    out.push(((x >> 16u32) & 0xff) as u8);
    out.push(((x >> 24u32) & 0xff) as u8);
    proof {
        assert(final(out)@ =~= old(out)@ + le_u32(x));
    }
}

/// Appends the byte of each piece.
fn push_pieces(out: &mut Vec<u8>, pieces: &Vec<Piece>)
    ensures
        final(out)@ == old(out)@ + pieces@.map_values(|p: Piece| spec_encode_piece(p)),
{
    let mut i: usize = 0;
    while i < pieces.len()
        invariant
            i <= pieces@.len(),
            out@ == old(out)@ + pieces@.subrange(0, i as int).map_values(|p: Piece| spec_encode_piece(p)),
        decreases pieces@.len() - i,
    {
        out.push(encode_piece(&pieces[i]));
        i += 1;
        proof {
            assert(pieces@.subrange(0, i as int).map_values(|p: Piece| spec_encode_piece(p))
                =~= pieces@.subrange(0, i - 1).map_values(|p: Piece| spec_encode_piece(p)).push(spec_encode_piece(pieces@[i - 1])));
        }
    }
    proof {
        assert(pieces@.subrange(0, i as int) =~= pieces@);
    }
}

impl PositionSnapshot {
    /// Encodes the snapshot as bytes (see the module documentation for the layout).
    pub fn encode(&self) -> (r: Vec<u8>)
        ensures
            r@ == spec_encode(self@),
    {
        let mut out: Vec<u8> = Vec::with_capacity(160);
        out.push(SNAPSHOT_VERSION);
        out.push(self.variant.index() as u8);
        let ghost head = out@;
        let mut i: usize = 0;
        while i < self.slots.len()
            invariant
                i <= self.slots@.len(),
                out@ == head + self.slots@.subrange(0, i as int).map_values(|x: Slot| spec_encode_slot(x)),
            decreases self.slots@.len() - i,
        {
            out.push(encode_slot(&self.slots[i]));
            i += 1;
            proof {
                assert(self.slots@.subrange(0, i as int).map_values(|x: Slot| spec_encode_slot(x))
                    =~= self.slots@.subrange(0, i - 1).map_values(|x: Slot| spec_encode_slot(x)).push(spec_encode_slot(self.slots@[i - 1])));
            }
        }
        proof {
            assert(self.slots@.subrange(0, i as int) =~= self.slots@);
        }
        out.push(self.current_player.idx() as u8);
        push_u32_le(&mut out, self.move_counter);
        push_u32_le(&mut out, self.total_step_counter);
        push_u32_le(&mut out, self.scores[0] as u32);
        push_u32_le(&mut out, self.scores[1] as u32);
        push_u32_le(&mut out, self.last_action as u32);
        out.push(self.hidden_bag.len() as u8);
        push_pieces(&mut out, &self.hidden_bag);
        let mut pi: usize = 0;
        let ghost before_dead = out@;
        while pi < 2
            invariant
                pi <= 2,
                out@ == before_dead + (if pi == 0 { Seq::<u8>::empty() } else if pi == 1 {
                    self.dead_counts[0]@
                } else {
                    self.dead_counts[0]@ + self.dead_counts[1]@
                }),
            decreases 2 - pi,
        {
            let ghost before = out@;
            let mut k: usize = 0;
            while k < 7
                invariant
                    pi < 2,
                    k <= 7,
                    out@ == before + self.dead_counts[pi as int]@.subrange(0, k as int),
                decreases 7 - k,
            {
                out.push(self.dead_counts[pi][k]);
                k += 1;
                proof {
                    assert(self.dead_counts[pi as int]@.subrange(0, k as int) =~= self.dead_counts[pi as int]@.subrange(0, k - 1).push(self.dead_counts[pi as int]@[k - 1]));
                }
            }
            proof {
                assert(self.dead_counts[pi as int]@.subrange(0, 7) =~= self.dead_counts[pi as int]@);
                if pi == 1 {
                    assert(out@ =~= before_dead + (self.dead_counts[0]@ + self.dead_counts[1]@));
                }
            }
            pi += 1;
        }
        match &self.true_board {
            Some(tb) => {
                out.push(1);
                push_pieces(&mut out, tb);
            },
            None => out.push(0),
        }
        proof {
            assert(out@ =~= spec_encode(self@));
        }
        out
    }
}

/// A bounds-checked sequential reader: running out of bytes is an error, never a panic.
struct Reader<'a> {
    buf: &'a [u8],
    pos: usize,
}

impl<'a> Reader<'a> {
    /// The next `n` bytes.
    fn take(&mut self, n: usize) -> (r: Result<&'a [u8], EnvError>)
        requires
            old(self).pos <= old(self).buf@.len(),
        ensures
            final(self).buf@ == old(self).buf@,
            final(self).pos <= final(self).buf@.len(),
            match r {
                Ok(s) => {
                    &&& old(self).pos + n <= old(self).buf@.len()
                    &&& final(self).pos == old(self).pos + n
                    &&& s@ == old(self).buf@.subrange(old(self).pos as int, old(self).pos + n)
                },
                Err(e) => old(self).pos + n > old(self).buf@.len() && e is InvalidSnapshot,
            },
    {
        let len = self.buf.len();
        let end = match self.pos.checked_add(n) {
            Some(end) => end,
            None => return Err(EnvError::InvalidSnapshot { context: "快照长度溢出" }),
        };
        if end > len {
            return Err(EnvError::InvalidSnapshot { context: "快照长度不足" });
        }
        let slice = &self.buf[self.pos..end];
        self.pos = end;
        Ok(slice)
    }

    /// The next byte.
    fn u8(&mut self) -> (r: Result<u8, EnvError>)
        requires
            old(self).pos <= old(self).buf@.len(),
        ensures
            final(self).buf@ == old(self).buf@,
            final(self).pos <= final(self).buf@.len(),
            match r {
                Ok(v) => {
                    &&& old(self).pos + 1 <= old(self).buf@.len()
                    &&& final(self).pos == old(self).pos + 1
                    &&& v == old(self).buf@[old(self).pos as int]
                },
                Err(e) => old(self).pos + 1 > old(self).buf@.len() && e is InvalidSnapshot,
            },
    {
        let s = self.take(1)?;
        Ok(s[0])
    }

    /// The next four bytes as a little-endian `u32`.
    fn u32(&mut self) -> (r: Result<u32, EnvError>)
        requires
            old(self).pos <= old(self).buf@.len(),
        ensures
            final(self).buf@ == old(self).buf@,
            final(self).pos <= final(self).buf@.len(),
            match r {
                Ok(v) => {
                    &&& old(self).pos + 4 <= old(self).buf@.len()
                    &&& final(self).pos == old(self).pos + 4
                    &&& v == from_le_u32(old(self).buf@, old(self).pos as int)
                },
                Err(e) => old(self).pos + 4 > old(self).buf@.len() && e is InvalidSnapshot,
            },
    {
        let s = self.take(4)?;
        Ok((s[0] as u32) | ((s[1] as u32) << 8u32) | ((s[2] as u32) << 16u32) | ((s[3] as u32) << 24u32))
    }

    /// The next four bytes as a little-endian `i32`.
    fn i32(&mut self) -> (r: Result<i32, EnvError>)
        requires
            old(self).pos <= old(self).buf@.len(),
        ensures
            final(self).buf@ == old(self).buf@,
            final(self).pos <= final(self).buf@.len(),
            match r {
                Ok(v) => {
                    &&& old(self).pos + 4 <= old(self).buf@.len()
                    &&& final(self).pos == old(self).pos + 4
                    &&& v == from_le_u32(old(self).buf@, old(self).pos as int) as i32
                },
                Err(e) => old(self).pos + 4 > old(self).buf@.len() && e is InvalidSnapshot,
            },
    {
        let v = self.u32()?;
        Ok(v as i32)
    }

    /// The next seven bytes as an array of counts.
    fn counts(&mut self) -> (r: Result<[u8; 7], EnvError>)
        requires
            old(self).pos <= old(self).buf@.len(),
        ensures
            final(self).buf@ == old(self).buf@,
            final(self).pos <= final(self).buf@.len(),
            match r {
                Ok(c) => {
                    &&& old(self).pos + 7 <= old(self).buf@.len()
                    &&& final(self).pos == old(self).pos + 7
                    &&& c == counts_at(old(self).buf@, old(self).pos as int)
                },
                Err(e) => old(self).pos + 7 > old(self).buf@.len() && e is InvalidSnapshot,
            },
    {
        let s = self.take(7)?;
        let c = [s[0], s[1], s[2], s[3], s[4], s[5], s[6]];
        proof {
            assert(c =~= counts_at(old(self).buf@, old(self).pos as int));
        }
        Ok(c)
    }

    /// The next `n` bytes as squares.
    fn slots(&mut self, n: usize) -> (r: Result<Vec<Slot>, EnvError>)
        requires
            old(self).pos <= old(self).buf@.len(),
        ensures
            final(self).buf@ == old(self).buf@,
            final(self).pos <= final(self).buf@.len(),
            match r {
                Ok(v) => {
                    &&& old(self).pos + n <= old(self).buf@.len()
                    &&& final(self).pos == old(self).pos + n
                    &&& slots_ok(old(self).buf@, old(self).pos as int, n as int)
                    &&& v@ == slots_at(old(self).buf@, old(self).pos as int, n as int)
                },
                Err(e) => e is InvalidSnapshot && (old(self).pos + n > old(self).buf@.len()
                    || !slots_ok(old(self).buf@, old(self).pos as int, n as int)),
            },
    {
        let start = self.pos;
        let _ = self.take(n)?;
        let buf = self.buf;
        let mut out: Vec<Slot> = Vec::with_capacity(n);
        let mut i: usize = 0;
        while i < n
            invariant
                buf@ == old(self).buf@,
                self.buf@ == buf@,
                start == old(self).pos,
                self.pos == start + n,
                start + n <= buf@.len(),
                i <= n,
                slots_ok(buf@, start as int, i as int),
                out@ == slots_at(buf@, start as int, i as int),
            decreases n - i,
        {
            match decode_slot(buf[start + i]) {
                Ok(s) => out.push(s),
                Err(e) => {
                    proof {
                        lemma_slot_roundtrip(Slot::Empty, buf@[start + i]);
                        assert(!(buf@[start + i] < 16));
                    }
                    return Err(e);
                },
            }
            proof {
                lemma_slot_roundtrip(Slot::Empty, buf@[start + i]);
            }
            i += 1;
            proof {
                assert(out@ =~= slots_at(buf@, start as int, i as int));
            }
        }
        Ok(out)
    }

    /// The next `n` bytes as pieces.
    fn pieces(&mut self, n: usize) -> (r: Result<Vec<Piece>, EnvError>)
        requires
            old(self).pos <= old(self).buf@.len(),
        ensures
            final(self).buf@ == old(self).buf@,
            final(self).pos <= final(self).buf@.len(),
            match r {
                Ok(v) => {
                    &&& old(self).pos + n <= old(self).buf@.len()
                    &&& final(self).pos == old(self).pos + n
                    &&& pieces_ok(old(self).buf@, old(self).pos as int, n as int)
                    &&& v@ == pieces_at(old(self).buf@, old(self).pos as int, n as int)
                },
                Err(e) => e is InvalidSnapshot && (old(self).pos + n > old(self).buf@.len()
                    || !pieces_ok(old(self).buf@, old(self).pos as int, n as int)),
            },
    {
        let start = self.pos;
        let _ = self.take(n)?;
        let buf = self.buf;
        let mut out: Vec<Piece> = Vec::with_capacity(n);
        let mut i: usize = 0;
        while i < n
            invariant
                buf@ == old(self).buf@,
                self.buf@ == buf@,
                start == old(self).pos,
                self.pos == start + n,
                start + n <= buf@.len(),
                i <= n,
                pieces_ok(buf@, start as int, i as int),
                out@ == pieces_at(buf@, start as int, i as int),
            decreases n - i,
        {
            match decode_piece(buf[start + i]) {
                Ok(p) => out.push(p),
                Err(e) => {
                    proof {
                        assert(!(buf@[start + i] < 14));
                    }
                    return Err(e);
                },
            }
            i += 1;
            proof {
                assert(out@ =~= pieces_at(buf@, start as int, i as int));
            }
        }
        Ok(out)
    }
}

impl PositionSnapshot {
    /// Decodes a snapshot. A wrong version, an unknown variant, missing bytes or an
    /// out-of-range code is an `InvalidSnapshot` error (never a panic); bytes after the
    /// snapshot are ignored.
    pub fn decode(bytes: &[u8]) -> (r: Result<Self, EnvError>)
        ensures
            match r {
                Ok(s) => spec_decode(bytes@) == Some(s@),
                Err(e) => spec_decode(bytes@) is None && e is InvalidSnapshot,
            },
    {
        let ghost b = bytes@;
        let mut r = Reader { buf: bytes, pos: 0 };
        let version = r.u8()?;
        if version != SNAPSHOT_VERSION {
            return Err(EnvError::InvalidSnapshot { context: "快照版本不支持" });
        }
        let variant_idx = r.u8()?;
        let variant = match Variant::from_index(variant_idx as usize) {
            Some(v) => v,
            None => return Err(EnvError::InvalidSnapshot { context: "快照变体下标非法" }),
        };
        proof {
            assert(variant == variant_of_index(b[1]));
        }
        let n = variant.config().total_positions;
        let slots = r.slots(n)?;
        let ghost o = 2 + n;
        let current_player = match r.u8()? {
            0 => Player::Red,
            1 => Player::Black,
            _ => return Err(EnvError::InvalidSnapshot { context: "快照行棋方编码非法" }),
        };
        let move_counter = r.u32()?;
        let total_step_counter = r.u32()?;
        let score_red = r.i32()?;
        let score_black = r.i32()?;
        let last_action = r.i32()?;
        let bag_len = r.u8()? as usize;
        if bag_len > MAX_POSITIONS {
            return Err(EnvError::InvalidSnapshot { context: "快照暗子袋长度越界" });
        }
        let hidden_bag = r.pieces(bag_len)?;
        let dead_red = r.counts()?;
        let dead_black = r.counts()?;
        let true_board = match r.u8()? {
            0 => None,
            1 => Some(r.pieces(n)?),
            _ => return Err(EnvError::InvalidSnapshot { context: "快照 true_board 标记非法" }),
        };
        let s = PositionSnapshot {
            variant,
            slots,
            current_player,
            move_counter,
            total_step_counter,
            scores: [score_red, score_black],
            last_action,
            hidden_bag,
            dead_counts: [dead_red, dead_black],
            true_board,
        };
        Ok(s)
    }
}

// ---------------------------------------------------------------------------
// Environments and snapshots
// ---------------------------------------------------------------------------

/// Lost pieces in canonical order: kinds in rank order, `counts[k]` copies of kind `k`,
/// for the first `t` kinds.
pub open spec fn dead_kinds(counts: Seq<u8>, t: int) -> Seq<PieceType>
    decreases t,
{
    if t <= 0 {
        Seq::empty()
    } else {
        dead_kinds(counts, t - 1) + Seq::new(counts[t - 1] as nat, |i: int| type_of_index((t - 1) as nat))
    }
}

proof fn lemma_dead_kinds_mono(counts: Seq<u8>, a: int, b: int)
    requires
        0 <= a <= b,
    ensures
        dead_kinds(counts, a).len() <= dead_kinds(counts, b).len(),
    decreases b - a,
{
    if a < b {
        lemma_dead_kinds_mono(counts, a, b - 1);
    }
}

/// The canonical pool of lost pieces lists `counts[t]` pieces of each kind `t`, kinds in
/// ascending rank order, `count_sum(counts)` in all.
pub proof fn law_dead_pool_canonical(counts: [u8; 7])
    ensures
        dead_kinds(counts@, 7).len() == count_sum(counts),
        forall|i: int, j: int|
            0 <= i < j < dead_kinds(counts@, 7).len() ==> type_index(#[trigger] dead_kinds(counts@, 7)[i])
                <= type_index(#[trigger] dead_kinds(counts@, 7)[j]),
        forall|t: nat| t < 7 ==> #[trigger] dead_kinds(counts@, 7).to_multiset().count(type_of_index(t)) == counts@[t as int],
{
    lemma_dead_kinds_len(counts);
    lemma_dead_kinds_sorted(counts@, 7);
    assert forall|t: nat| t < 7 implies #[trigger] dead_kinds(counts@, 7).to_multiset().count(type_of_index(t)) == counts@[t as int] by {
        lemma_dead_kinds_count(counts@, 7, t);
    }
}

proof fn lemma_dead_kinds_sorted(counts: Seq<u8>, t: int)
    requires
        0 <= t <= 7,
    ensures
        forall|i: int| 0 <= i < dead_kinds(counts, t).len() ==> type_index(#[trigger] dead_kinds(counts, t)[i]) < t,
        forall|i: int, j: int|
            0 <= i < j < dead_kinds(counts, t).len() ==> type_index(#[trigger] dead_kinds(counts, t)[i])
                <= type_index(#[trigger] dead_kinds(counts, t)[j]),
    decreases t,
{
    if t > 0 {
        lemma_dead_kinds_sorted(counts, t - 1);
        let p = dead_kinds(counts, t - 1);
        let b = Seq::new(counts[t - 1] as nat, |i: int| type_of_index((t - 1) as nat));
        let d = dead_kinds(counts, t);
        assert(d == p + b);
        lemma_type_index_roundtrip(type_of_index((t - 1) as nat));
        assert(type_index(type_of_index((t - 1) as nat)) == t - 1);
        assert forall|i: int| 0 <= i < d.len() implies type_index(#[trigger] d[i]) < t by {
            if i < p.len() {
                assert(d[i] == p[i]);
            } else {
                assert(d[i] == b[i - p.len()]);
            }
        }
        assert forall|i: int, j: int| 0 <= i < j < d.len() implies type_index(#[trigger] d[i]) <= type_index(#[trigger] d[j]) by {
            if j < p.len() {
                assert(d[i] == p[i] && d[j] == p[j]);
            } else if i < p.len() {
                assert(d[i] == p[i] && d[j] == b[j - p.len()]);
            } else {
                assert(d[i] == b[i - p.len()] && d[j] == b[j - p.len()]);
            }
        }
    }
}

proof fn lemma_const_seq_count(n: nat, x: PieceType, y: PieceType)
    ensures
        Seq::new(n, |i: int| x).to_multiset().count(y) == (if x == y { n } else { 0 }),
    decreases n,
{
    broadcast use vstd::seq_lib::group_to_multiset_ensures;
    broadcast use vstd::multiset::group_multiset_axioms;

    if n > 0 {
        lemma_const_seq_count((n - 1) as nat, x, y);
        assert(Seq::new(n, |i: int| x) =~= Seq::new((n - 1) as nat, |i: int| x).push(x));
    } else {
        assert(Seq::new(n, |i: int| x) =~= Seq::<PieceType>::empty());
    }
}

proof fn lemma_dead_kinds_count(counts: Seq<u8>, t: int, k: nat)
    requires
        0 <= t <= 7,
        k < 7,
    ensures
        dead_kinds(counts, t).to_multiset().count(type_of_index(k)) == (if k < t { counts[k as int] as nat } else { 0 }),
    decreases t,
{
    broadcast use vstd::seq_lib::group_to_multiset_ensures;
    broadcast use vstd::multiset::group_multiset_axioms;
    broadcast use vstd::seq_lib::lemma_multiset_commutative;

    if t > 0 {
        lemma_dead_kinds_count(counts, t - 1, k);
        let p = dead_kinds(counts, t - 1);
        let b = Seq::new(counts[t - 1] as nat, |i: int| type_of_index((t - 1) as nat));
        assert(dead_kinds(counts, t) == p + b);
        lemma_const_seq_count(counts[t - 1] as nat, type_of_index((t - 1) as nat), type_of_index(k));
        lemma_type_index_roundtrip(type_of_index(k));
        lemma_type_index_roundtrip(type_of_index((t - 1) as nat));
        assert(type_of_index((t - 1) as nat) == type_of_index(k) <==> k == t - 1);
    } else {
        assert(dead_kinds(counts, t) =~= Seq::<PieceType>::empty());
    }
}

proof fn lemma_dead_kinds_len(counts: [u8; 7])
    ensures
        dead_kinds(counts@, 7).len() == count_sum(counts),
{
    reveal_with_fuel(dead_kinds, 8);
}

/// The snapshot of an environment: the squares in play, the bag, the counters and
/// the lost-piece counts.
pub open spec fn snapshot_of(e: DarkChessEnv) -> SnapshotView {
    SnapshotView {
        variant: e.config.variant,
        slots: e.board@.subrange(0, e.n()),
        current_player: e.current_player,
        move_counter: e.move_counter as u32,
        total_step_counter: e.total_step_counter as u32,
        scores: e.scores,
        last_action: e.last_action,
        hidden_bag: e.bag(),
        dead_counts: e.dead_piece_counts_by_type,
        true_board: match e.true_board {
            Some(tb) => Some(tb@.subrange(0, e.n())),
            None => None,
        },
    }
}

/// A snapshot that an environment can be rebuilt from: valid, counters within the
/// step limit of its variant, and at most `MAX_PIECES_PER_PLAYER` lost pieces per player.
pub open spec fn snapshot_rebuildable(s: SnapshotView) -> bool {
    let c = spec_config(s.variant);
    &&& snapshot_valid(s)
    &&& s.move_counter <= c.max_steps_per_episode
    &&& s.total_step_counter <= c.max_steps_per_episode
    &&& count_sum(s.dead_counts[0]) <= MAX_PIECES_PER_PLAYER
    &&& count_sum(s.dead_counts[1]) <= MAX_PIECES_PER_PLAYER
}

/// `e` is the environment rebuilt from `s`: well formed, with the variant's rules,
/// the snapshot's squares, counters, bag, lost-piece counts (the lost pieces listed in
/// canonical order) and layout, and no seed.
pub open spec fn rebuilt_from(e: DarkChessEnv, s: SnapshotView) -> bool {
    let n = spec_config(s.variant).total_positions as int;
    &&& e.wf()
    &&& e.config == spec_config(s.variant)
    &&& e.board@.subrange(0, n) == s.slots
    &&& e.current_player == s.current_player
    &&& e.move_counter == s.move_counter
    &&& e.total_step_counter == s.total_step_counter
    &&& e.scores == s.scores
    &&& e.last_action == s.last_action
    &&& e.bag() == s.hidden_bag
    &&& e.dead_piece_counts_by_type == s.dead_counts
    &&& forall|p: int|
        0 <= p < 2 ==> #[trigger] e.dead_pieces_pool@[p]@.subrange(0, e.dead_pieces_count@[p] as int)
            == dead_kinds(s.dead_counts@[p]@, 7)
    &&& match s.true_board {
        Some(tb) => e.true_board matches Some(a) && a@.subrange(0, n) == tb,
        None => e.true_board is None,
    }
    &&& e.seed is None
    &&& e.last_revealed_piece is None
}

/// The first `n` entries of an array.
fn prefix_vec<T: Copy>(a: &[T; 32], n: usize) -> (r: Vec<T>)
    requires
        n <= 32,
    ensures
        r@ == a@.subrange(0, n as int),
{
    let mut out: Vec<T> = Vec::with_capacity(n);
    let mut i: usize = 0;
    while i < n
        invariant
            n <= 32,
            i <= n,
            out@ == a@.subrange(0, i as int),
        decreases n - i,
    {
        out.push(a[i]);
        i += 1;
        proof {
            assert(out@ =~= a@.subrange(0, i as int));
        }
    }
    out
}

/// The canonical pool of lost pieces for per-kind counts, and its length; `None` when
/// the counts add up to more than `MAX_PIECES_PER_PLAYER`.
fn dead_pool_of(counts: [u8; 7]) -> (r: Option<([PieceType; 16], usize)>)
    ensures
        match r {
            Some((pool, k)) => {
                &&& count_sum(counts) <= MAX_PIECES_PER_PLAYER
                &&& k == count_sum(counts)
                &&& pool@.subrange(0, k as int) == dead_kinds(counts@, 7)
            },
            None => count_sum(counts) > MAX_PIECES_PER_PLAYER,
        },
{
    proof {
        lemma_dead_kinds_len(counts);
    }
    let mut pool = [PieceType::Soldier; 16];
    let mut idx: usize = 0;
    let mut pt: usize = 0;
    while pt < NUM_PIECE_TYPES_MAX
        invariant
            pt <= 7,
            idx <= 16,
            idx == dead_kinds(counts@, pt as int).len(),
            pool@.subrange(0, idx as int) == dead_kinds(counts@, pt as int),
            dead_kinds(counts@, 7).len() == count_sum(counts),
        decreases 7 - pt,
    {
        let c = counts[pt];
        let mut k: u8 = 0;
        let ghost before = dead_kinds(counts@, pt as int);
        proof {
            assert(dead_kinds(counts@, pt + 1) =~= before + Seq::new(c as nat, |i: int| type_of_index(pt as nat)));
        }
        while k < c
            invariant
                pt < 7,
                k <= c,
                c == counts@[pt as int],
                before == dead_kinds(counts@, pt as int),
                idx == before.len() + k,
                idx <= 16,
                pool@.subrange(0, idx as int) == before + Seq::new(k as nat, |i: int| type_of_index(pt as nat)),
                dead_kinds(counts@, pt + 1) == before + Seq::new(c as nat, |i: int| type_of_index(pt as nat)),
                dead_kinds(counts@, 7).len() == count_sum(counts),
            decreases c - k,
        {
            if idx >= MAX_PIECES_PER_PLAYER {
                proof {
                    lemma_dead_kinds_mono(counts@, pt + 1, 7);
                }
                return None;
            }
            let ghost prev = pool@;
            pool[idx] = PieceType::from_index(pt);
            proof {
                assert(pool@.subrange(0, idx + 1) =~= prev.subrange(0, idx as int).push(type_of_index(pt as nat)));
                assert(Seq::new((k + 1) as nat, |i: int| type_of_index(pt as nat)) =~= Seq::new(
                    k as nat,
                    |i: int| type_of_index(pt as nat),
                ).push(type_of_index(pt as nat)));
            }
            idx += 1;
            k += 1;
        }
        pt += 1;
    }
    Some((pool, idx))
}

/// The bitboards of the first `i` squares of `board`, as `bitboards_consistent` states
/// them for all squares in play.
pub open spec fn bitboards_upto(e: DarkChessEnv, i: int) -> bool {
    &&& forall|sq: int|
        0 <= sq < 64 ==> (#[trigger] bit_set(e.empty_bitboard, sq) <==> (sq < i && e.board@[sq] is Empty))
    &&& forall|sq: int|
        0 <= sq < 64 ==> (#[trigger] bit_set(e.hidden_bitboard, sq) <==> (sq < i && e.board@[sq] is Hidden))
    &&& forall|p: int, sq: int|
        0 <= p < 2 && 0 <= sq < 64 ==> (#[trigger] bit_set(e.revealed_bitboards@[p], sq) <==> (sq < i
            && slot_is_revealed_of(e.board@[sq], p as nat)))
    &&& forall|p: int, t: int, sq: int|
        0 <= p < 2 && 0 <= t < 7 && 0 <= sq < 64 ==> (#[trigger] bit_set(e.piece_bitboards@[p]@[t], sq)
            <==> (sq < i && slot_is_piece_of(e.board@[sq], p as nat, t as nat)))
}

/// Sets the bitboards from the board, starting from empty bitboards.
fn rebuild_bitboards(env: &mut DarkChessEnv)
    requires
        config_wf(old(env).config),
        bitboards_upto(*old(env), 0),
    ensures
        bitboards_upto(*final(env), final(env).n()),
        *final(env) == (DarkChessEnv {
            piece_bitboards: final(env).piece_bitboards,
            revealed_bitboards: final(env).revealed_bitboards,
            hidden_bitboard: final(env).hidden_bitboard,
            empty_bitboard: final(env).empty_bitboard,
            ..*old(env)
        }),
{
    proof {
        lemma_config_facts(env.config);
    }
    let n = env.config.total_positions;
    let mut sq: usize = 0;
    while sq < n
        invariant
            n == env.config.total_positions,
            n <= 32,
            sq <= n,
            bitboards_upto(*env, sq as int),
            *env == (DarkChessEnv {
                piece_bitboards: env.piece_bitboards,
                revealed_bitboards: env.revealed_bitboards,
                hidden_bitboard: env.hidden_bitboard,
                empty_bitboard: env.empty_bitboard,
                ..*old(env)
            }),
        decreases n - sq,
    {
        let mask = ull(sq);
        let ghost prev = *env;
        assert(mask == spec_ull(sq as int));
        match env.board[sq] {
            Slot::Empty => {
                env.empty_bitboard = env.empty_bitboard | mask;
                proof {
                    assert forall|q: int| 0 <= q < 64 implies (#[trigger] bit_set(env.empty_bitboard, q)
                        <==> (q < sq + 1 && env.board@[q] is Empty)) by {
                        lemma_bit_or_single(prev.empty_bitboard, sq as u64, q as u64);
                        assert(bit_set(prev.empty_bitboard, q) <==> (q < sq && prev.board@[q] is Empty));
                    }
                }
            },
            Slot::Hidden => {
                env.hidden_bitboard = env.hidden_bitboard | mask;
                proof {
                    assert forall|q: int| 0 <= q < 64 implies (#[trigger] bit_set(env.hidden_bitboard, q)
                        <==> (q < sq + 1 && env.board@[q] is Hidden)) by {
                        lemma_bit_or_single(prev.hidden_bitboard, sq as u64, q as u64);
                        assert(bit_set(prev.hidden_bitboard, q) <==> (q < sq && prev.board@[q] is Hidden));
                    }
                }
            },
            Slot::Revealed(p) => {
                let pi = p.player.idx();
                let t = p.piece_type.index();
                env.revealed_bitboards[pi] = env.revealed_bitboards[pi] | mask;
                let mut row = env.piece_bitboards[pi];
                row[t] = row[t] | mask;
                env.piece_bitboards[pi] = row;
                proof {
                    assert forall|pp: int, q: int| 0 <= pp < 2 && 0 <= q < 64 implies (#[trigger] bit_set(
                        env.revealed_bitboards@[pp],
                        q,
                    ) <==> (q < sq + 1 && slot_is_revealed_of(env.board@[q], pp as nat))) by {
                        lemma_bit_or_single(prev.revealed_bitboards@[pp], sq as u64, q as u64);
                        assert(bit_set(prev.revealed_bitboards@[pp], q) <==> (q < sq && slot_is_revealed_of(
                            prev.board@[q],
                            pp as nat,
                        )));
                    }
                    assert forall|pp: int, tt: int, q: int| 0 <= pp < 2 && 0 <= tt < 7 && 0 <= q < 64 implies (
                    #[trigger] bit_set(env.piece_bitboards@[pp]@[tt], q) <==> (q < sq + 1 && slot_is_piece_of(
                        env.board@[q],
                        pp as nat,
                        tt as nat,
                    ))) by {
                        lemma_bit_or_single(prev.piece_bitboards@[pp]@[tt], sq as u64, q as u64);
                        assert(bit_set(prev.piece_bitboards@[pp]@[tt], q) <==> (q < sq && slot_is_piece_of(
                            prev.board@[q],
                            pp as nat,
                            tt as nat,
                        )));
                    }
                }
            },
        }
        sq += 1;
    }
}

/// Environments that export and rebuild position snapshots. Generic code (such as a
/// re-search in another process) needs only this trait; the variant wrappers check that
/// a snapshot belongs to their variant.
pub trait SnapshotEnv: Sized {
    /// The environment is in a state that can be exported.
    spec fn snapshot_ready(&self) -> bool;

    /// The full snapshot of the current position.
    fn to_snapshot(&self) -> PositionSnapshot
        requires
            self.snapshot_ready(),
    ;

    /// Rebuilds an environment from a snapshot; a malformed snapshot (or one of another
    /// variant) is an error.
    fn from_snapshot(s: &PositionSnapshot) -> Result<Self, EnvError>;
}

impl SnapshotEnv for DarkChessEnv {
    /// The squares in play and the bag fit the state arrays.
    open spec fn snapshot_ready(&self) -> bool {
        self.config.total_positions <= MAX_POSITIONS && self.hidden_pieces_count <= MAX_POSITIONS
    }

    fn to_snapshot(&self) -> (r: PositionSnapshot)
        ensures
            r@ == snapshot_of(*self),
    {
        let n = self.config.total_positions;
        let true_board = match &self.true_board {
            Some(tb) => Some(prefix_vec(tb, n)),
            None => None,
        };
        PositionSnapshot {
            variant: self.config.variant,
            slots: prefix_vec(&self.board, n),
            current_player: self.current_player,
            move_counter: self.move_counter as u32,
            total_step_counter: self.total_step_counter as u32,
            scores: self.scores,
            last_action: self.last_action,
            hidden_bag: prefix_vec(&self.hidden_pieces_pool, self.hidden_pieces_count),
            dead_counts: self.dead_piece_counts_by_type,
            true_board,
        }
    }

    fn from_snapshot(s: &PositionSnapshot) -> (r: Result<Self, EnvError>)
        ensures
            match r {
                Ok(e) => snapshot_rebuildable(s@) && rebuilt_from(e, s@),
                Err(err) => !snapshot_rebuildable(s@) && err is InvalidSnapshot,
            },
    {
        let config = s.variant.config();
        proof {
            lemma_config_facts(config);
        }
        let n = config.total_positions;
        if s.slots.len() != n {
            return Err(EnvError::InvalidSnapshot { context: "快照槽位数与变体不符" });
        }
        if let Some(tb) = &s.true_board {
            if tb.len() != n {
                return Err(EnvError::InvalidSnapshot { context: "快照 true_board 长度与变体不符" });
            }
        }
        if s.hidden_bag.len() > MAX_POSITIONS {
            return Err(EnvError::InvalidSnapshot { context: "快照暗子袋长度越界" });
        }
        if s.move_counter as usize > config.max_steps_per_episode
            || s.total_step_counter as usize > config.max_steps_per_episode
        {
            return Err(EnvError::InvalidSnapshot { context: "快照步数超出对局上限" });
        }
        let mut board = [Slot::Empty; 32];
        let mut i: usize = 0;
        while i < 32
            invariant
                n <= 32,
                n == s.slots@.len(),
                i <= 32,
                forall|j: int| 0 <= j < i && j < n ==> board@[j] == s.slots@[j],
                forall|j: int| 0 <= j < i && n <= j ==> #[trigger] board@[j] is Empty,
            decreases 32 - i,
        {
            board[i] = if i < n { s.slots[i] } else { Slot::Empty };
            i += 1;
        }
        proof {
            assert(board@.subrange(0, n as int) =~= s.slots@);
        }
        let true_board = match &s.true_board {
            Some(tb) => {
                let mut arr = [Piece { piece_type: PieceType::Soldier, player: Player::Red }; 32];
                let mut i: usize = 0;
                while i < n
                    invariant
                        n <= 32,
                        n == tb@.len(),
                        i <= n,
                        forall|j: int| 0 <= j < i ==> arr@[j] == tb@[j],
                    decreases n - i,
                {
                    arr[i] = tb[i];
                    i += 1;
                }
                proof {
                    assert(arr@.subrange(0, n as int) =~= tb@);
                }
                Some(arr)
            },
            None => None,
        };
        let mut env = DarkChessEnv::fresh_with(config, board, None, true_board);
        proof {
            assert forall|q: int| 0 <= q < 64 implies !#[trigger] bit_set(0u64, q) by {
                lemma_bit_zero(q as u64);
            }
        }
        rebuild_bitboards(&mut env);
        let len = s.hidden_bag.len();
        let mut pool = [Piece { piece_type: PieceType::Soldier, player: Player::Red }; 32];
        let mut i: usize = 0;
        while i < len
            invariant
                len == s.hidden_bag@.len(),
                len <= 32,
                i <= len,
                pool@.subrange(0, i as int) == s.hidden_bag@.subrange(0, i as int),
            decreases len - i,
        {
            pool[i] = s.hidden_bag[i];
            i += 1;
            proof {
                assert(pool@.subrange(0, i as int) =~= s.hidden_bag@.subrange(0, i as int));
            }
        }
        proof {
            assert(s.hidden_bag@.subrange(0, len as int) =~= s.hidden_bag@);
        }
        env.hidden_pieces_pool = pool;
        env.hidden_pieces_count = len;
        env.dead_piece_counts_by_type = s.dead_counts;
        let (pool_red, count_red) = match dead_pool_of(s.dead_counts[0]) {
            Some(x) => x,
            None => return Err(EnvError::InvalidSnapshot { context: "快照阵亡计数超出池容量" }),
        };
        let (pool_black, count_black) = match dead_pool_of(s.dead_counts[1]) {
            Some(x) => x,
            None => return Err(EnvError::InvalidSnapshot { context: "快照阵亡计数超出池容量" }),
        };
        env.dead_pieces_pool = [pool_red, pool_black];
        env.dead_pieces_count = [count_red, count_black];
        env.current_player = s.current_player;
        env.move_counter = s.move_counter as usize;
        env.total_step_counter = s.total_step_counter as usize;
        env.scores = s.scores;
        env.last_action = s.last_action;
        Ok(env)
    }
}

/// Rebuilding a well-formed environment from its own snapshot succeeds and restores
/// its position: the rules, the board, the side to move, the counters, both healths,
/// the last action, the bag, the lost pieces and the layout of a seeded game.
pub proof fn law_snapshot_restores_position(e: DarkChessEnv, f: DarkChessEnv)
    requires
        e.wf(),
        rebuilt_from(f, snapshot_of(e)),
    ensures
        snapshot_rebuildable(snapshot_of(e)),
        same_rules(f.config, e.config),
        f.board == e.board,
        f.current_player == e.current_player,
        f.move_counter == e.move_counter,
        f.total_step_counter == e.total_step_counter,
        f.scores == e.scores,
        f.last_action == e.last_action,
        f.bag() == e.bag(),
        f.dead_piece_counts_by_type == e.dead_piece_counts_by_type,
        f.dead_pieces_count == e.dead_pieces_count,
        match e.true_board {
            Some(a) => f.true_board matches Some(b) && b@.subrange(0, e.n()) == a@.subrange(0, e.n()),
            None => f.true_board is None,
        },
        forall|p: Player, a: int| #[trigger] f.mask_value(p, a) == e.mask_value(p, a),
        forall|p: Player| #[trigger] f.has_legal_action(p) == e.has_legal_action(p),
        forall|moves_empty: bool| #[trigger] f.game_over(moves_empty) == e.game_over(moves_empty),
{
    lemma_config_facts(e.config);
    let n = e.n();
    assert(e.dead_pieces_count@[0] <= 16 && e.dead_pieces_count@[1] <= 16);
    assert(e.move_counter as u32 == e.move_counter);
    assert(e.total_step_counter as u32 == e.total_step_counter);
    assert(f.board@ =~= e.board@) by {
        assert forall|j: int| 0 <= j < 32 implies f.board@[j] == e.board@[j] by {
            if j < n {
                assert(f.board@.subrange(0, n)[j] == e.board@.subrange(0, n)[j]);
            }
        }
    }
    assert(f.dead_pieces_count@ =~= e.dead_pieces_count@);
    assert(f.config.active_types@ == e.config.active_types@);
    assert forall|t: nat| type_active(f.config, t) == type_active(e.config, t) by {}
    assert forall|p: Player, a: int| #[trigger] f.action_legal(p, a) == e.action_legal(p, a) by {}
    assert forall|p: Player| #[trigger] f.has_legal_action(p) == e.has_legal_action(p) by {
        if f.has_legal_action(p) {
            let a = choose|a: int| f.action_legal(p, a);
            assert(e.action_legal(p, a));
        }
        if e.has_legal_action(p) {
            let a = choose|a: int| e.action_legal(p, a);
            assert(f.action_legal(p, a));
        }
    }
}

/// The snapshot of an environment rebuilt from a snapshot is that snapshot.
pub proof fn law_rebuilt_snapshot_roundtrip(f: DarkChessEnv, s: SnapshotView)
    requires
        snapshot_rebuildable(s),
        rebuilt_from(f, s),
    ensures
        snapshot_of(f) == s,
{
    lemma_config_facts(f.config);
    assert(snapshot_of(f).true_board == s.true_board);
}

} // verus!
