//! The action space: every action as the list of squares it names, and the
//! reverse lookup from packed square lists to action indices.
//!
//! Actions come in three sections, in this order: flips (one per square),
//! one-step moves (each square to each in-board orthogonal neighbour, directions
//! up, down, left, right), and cannon shots (each square to every square of its
//! row, then of its column, at distance greater than one).

use std::collections::HashMap;
use vstd::prelude::*;

use super::config::{config_wf, lemma_config_facts, GameConfig, Variant};

verus! {

broadcast use vstd::std_specs::hash::group_hash_axioms;

/// Packs a square list into one key: the squares in 16-bit fields, the last one
/// lowest, under the length at bit 40. For one or two squares this is
/// `(1 << 40) | c0` and `(2 << 40) | (c0 << 16) | c1`.
pub open spec fn spec_pack(s: Seq<usize>) -> u64 {
    spec_pack_prefix(s, s.len() as int) | ((s.len() as u64) << 40u64)
}

/// The coordinate bits of the first `k` squares of a packed list.
pub open spec fn spec_pack_prefix(s: Seq<usize>, k: int) -> u64
    decreases k,
{
    if k <= 0 {
        0
    } else {
        (spec_pack_prefix(s, k - 1) << 16u64) | (s[k - 1] as u64)
    }
}

/// Encodes a square list as a `u64` key without allocating.
///
/// Layout: `(len << 40) | (c0 << 16) | c1`. Squares are below 2^16 and lists have one
/// or two entries, so flips and moves never collide.
pub fn pack_coords(coords: &[usize]) -> (key: u64)
    ensures
        key == spec_pack(coords@),
        coords@.len() == 1 && coords@[0] < 0x10000 ==> key == coords@[0] + 0x100_0000_0000,
        coords@.len() == 2 && coords@[0] < 0x10000 && coords@[1] < 0x10000 ==> key == coords@[0]
            * 0x10000 + coords@[1] + 0x200_0000_0000,
{
    let len = coords.len();
    let mut key: u64 = 0;
    let mut i: usize = 0;
    while i < len
        invariant
            len == coords@.len(),
            i <= len,
            key == spec_pack_prefix(coords@, i as int),
        decreases len - i,
    {
        key = (key << 16u64) | (coords[i] as u64);
        i += 1;
    }
    let r = key | ((len as u64) << 40u64);
    proof {
        lemma_pack_small(coords@);
    }
    r
}

/// Values of packed keys for lists of one or two squares below 2^16.
pub proof fn lemma_pack_small(s: Seq<usize>)
    ensures
        s.len() == 1 && s[0] < 0x10000 ==> spec_pack(s) == s[0] + 0x100_0000_0000,
        s.len() == 2 && s[0] < 0x10000 && s[1] < 0x10000 ==> spec_pack(s) == s[0] * 0x10000
            + s[1] + 0x200_0000_0000,
{
    if s.len() == 1 && s[0] < 0x10000 {
        let a = s[0] as u64;
        reveal_with_fuel(spec_pack_prefix, 2);
        assert(spec_pack_prefix(s, 1) == ((0u64 << 16u64) | a));
        assert(((0u64 << 16u64) | a) | (1u64 << 40u64) == a + 0x100_0000_0000) by (bit_vector)
            requires
                a < 0x10000,
        ;
    }
    if s.len() == 2 && s[0] < 0x10000 && s[1] < 0x10000 {
        let a = s[0] as u64;
        let b = s[1] as u64;
        reveal_with_fuel(spec_pack_prefix, 3);
        assert(spec_pack_prefix(s, 2) == ((((0u64 << 16u64) | a) << 16u64) | b));
        assert(((((0u64 << 16u64) | a) << 16u64) | b) | (2u64 << 40u64) == a * 0x10000 + b
            + 0x200_0000_0000) by (bit_vector)
            requires
                a < 0x10000,
                b < 0x10000,
        ;
    }
}

/// Packing is injective on lists of one or two squares below 2^16: distinct
/// actions never share a key.
pub proof fn law_pack_injective(s: Seq<usize>, t: Seq<usize>)
    requires
        1 <= s.len() <= 2,
        1 <= t.len() <= 2,
        forall|i: int| 0 <= i < s.len() ==> s[i] < 0x10000,
        forall|i: int| 0 <= i < t.len() ==> t[i] < 0x10000,
        spec_pack(s) == spec_pack(t),
    ensures
        s == t,
{
    lemma_pack_small(s);
    lemma_pack_small(t);
    if s.len() == 2 && t.len() == 2 {
        assert(s[0] == t[0] && s[1] == t[1]) by (nonlinear_arith)
            requires
                s[0] * 0x10000 + s[1] == t[0] * 0x10000 + t[1],
                s[0] < 0x10000,
                t[0] < 0x10000,
                s[1] < 0x10000,
                t[1] < 0x10000,
        ;
    }
    assert(s =~= t);
}

// ---------------------------------------------------------------------------
// The action table as a sequence
// ---------------------------------------------------------------------------

/// Target of a one-step move from `sq` in direction `d` (0 up, 1 down, 2 left,
/// 3 right), if it stays on the board.
pub open spec fn step_target(rows: int, cols: int, sq: int, d: int) -> Option<int> {
    let r = sq / cols;
    let c = sq % cols;
    if d == 0 {
        if r >= 1 { Some(sq - cols) } else { None }
    } else if d == 1 {
        if r + 1 < rows { Some(sq + cols) } else { None }
    } else if d == 2 {
        if c >= 1 { Some(sq - 1) } else { None }
    } else {
        if c + 1 < cols { Some(sq + 1) } else { None }
    }
}

/// The move entry of direction `d` from `sq` (empty when it leaves the board).
pub open spec fn dir_entry(rows: int, cols: int, sq: int, d: int) -> Seq<Seq<usize>> {
    match step_target(rows, cols, sq, d) {
        Some(t) => seq![seq![sq as usize, t as usize]],
        None => Seq::empty(),
    }
}

/// Move entries from `sq` for the first `d` directions.
pub open spec fn moves_from_upto(rows: int, cols: int, sq: int, d: int) -> Seq<Seq<usize>>
    decreases d,
{
    if d <= 0 {
        Seq::empty()
    } else {
        moves_from_upto(rows, cols, sq, d - 1) + dir_entry(rows, cols, sq, d - 1)
    }
}

/// Move entries of the first `k` squares.
pub open spec fn move_section(rows: int, cols: int, k: int) -> Seq<Seq<usize>>
    decreases k,
{
    if k <= 0 {
        Seq::empty()
    } else {
        move_section(rows, cols, k - 1) + moves_from_upto(rows, cols, k - 1, 4)
    }
}

/// Row shot of `sq` at column `c2`, if it is at distance greater than one.
pub open spec fn row_entry(cols: int, sq: int, c2: int) -> Seq<Seq<usize>> {
    let c = sq % cols;
    if c - c2 > 1 || c2 - c > 1 {
        seq![seq![sq as usize, (sq - c + c2) as usize]]
    } else {
        Seq::empty()
    }
}

/// Column shot of `sq` at row `r2`, if it is at distance greater than one.
pub open spec fn col_entry(cols: int, sq: int, r2: int) -> Seq<Seq<usize>> {
    let r = sq / cols;
    let c = sq % cols;
    if r - r2 > 1 || r2 - r > 1 {
        seq![seq![sq as usize, (r2 * cols + c) as usize]]
    } else {
        Seq::empty()
    }
}

/// Row shots of `sq` at the first `k` columns.
pub open spec fn row_shots_upto(cols: int, sq: int, k: int) -> Seq<Seq<usize>>
    decreases k,
{
    if k <= 0 {
        Seq::empty()
    } else {
        row_shots_upto(cols, sq, k - 1) + row_entry(cols, sq, k - 1)
    }
}

/// Column shots of `sq` at the first `k` rows.
pub open spec fn col_shots_upto(cols: int, sq: int, k: int) -> Seq<Seq<usize>>
    decreases k,
{
    if k <= 0 {
        Seq::empty()
    } else {
        col_shots_upto(cols, sq, k - 1) + col_entry(cols, sq, k - 1)
    }
}

/// All cannon shots from `sq`: its row first, then its column.
pub open spec fn shots_from(rows: int, cols: int, sq: int) -> Seq<Seq<usize>> {
    row_shots_upto(cols, sq, cols) + col_shots_upto(cols, sq, rows)
}

/// Cannon entries of the first `k` squares.
pub open spec fn cannon_section(rows: int, cols: int, k: int) -> Seq<Seq<usize>>
    decreases k,
{
    if k <= 0 {
        Seq::empty()
    } else {
        cannon_section(rows, cols, k - 1) + shots_from(rows, cols, k - 1)
    }
}

/// Flip entries of the first `k` squares.
pub open spec fn reveal_section(k: int) -> Seq<Seq<usize>> {
    Seq::new(k as nat, |i: int| seq![i as usize])
}

/// The whole action table of a `rows` x `cols` board.
pub open spec fn action_table(rows: int, cols: int) -> Seq<Seq<usize>> {
    let n = rows * cols;
    reveal_section(n) + move_section(rows, cols, n) + cannon_section(rows, cols, n)
}

/// The section sizes that each variant's configuration records are those of its table.
pub proof fn lemma_table_sizes(c: GameConfig)
    requires
        config_wf(c),
    ensures
        move_section(c.rows as int, c.cols as int, c.total_positions as int).len()
            == c.regular_move_actions_count,
        cannon_section(c.rows as int, c.cols as int, c.total_positions as int).len()
            == c.cannon_actions_count,
        action_table(c.rows as int, c.cols as int).len() == c.action_space_size,
{
    lemma_config_facts(c);
    match c.variant {
        Variant::DarkChess4x8 => lemma_sizes_4x8(),
        Variant::DarkChess4x4 => lemma_sizes_4x4(),
        Variant::DarkChess4x2 => lemma_sizes_4x2(),
    }
}

/// Section sizes of the 4x8 board, counted square by square.
#[verifier::rlimit(50)]
proof fn lemma_sizes_4x8()
    ensures
        move_section(4, 8, 32).len() == 104,
        cannon_section(4, 8, 32).len() == 216,
{
    assert(move_section(4, 8, 0).len() == 0);
    assert(cannon_section(4, 8, 0).len() == 0);
    assert(moves_from_upto(4, 8, 0, 4).len() == 2) by { reveal_with_fuel(moves_from_upto, 5); }
    assert(move_section(4, 8, 1).len() == 2);
    assert(shots_from(4, 8, 0).len() == 8) by { reveal_with_fuel(row_shots_upto, 9); reveal_with_fuel(col_shots_upto, 5); }
    assert(cannon_section(4, 8, 1).len() == 8);
    assert(moves_from_upto(4, 8, 1, 4).len() == 3) by { reveal_with_fuel(moves_from_upto, 5); }
    assert(move_section(4, 8, 2).len() == 5);
    assert(shots_from(4, 8, 1).len() == 7) by { reveal_with_fuel(row_shots_upto, 9); reveal_with_fuel(col_shots_upto, 5); }
    assert(cannon_section(4, 8, 2).len() == 15);
    assert(moves_from_upto(4, 8, 2, 4).len() == 3) by { reveal_with_fuel(moves_from_upto, 5); }
    assert(move_section(4, 8, 3).len() == 8);
    assert(shots_from(4, 8, 2).len() == 7) by { reveal_with_fuel(row_shots_upto, 9); reveal_with_fuel(col_shots_upto, 5); }
    assert(cannon_section(4, 8, 3).len() == 22);
    assert(moves_from_upto(4, 8, 3, 4).len() == 3) by { reveal_with_fuel(moves_from_upto, 5); }
    assert(move_section(4, 8, 4).len() == 11);
    assert(shots_from(4, 8, 3).len() == 7) by { reveal_with_fuel(row_shots_upto, 9); reveal_with_fuel(col_shots_upto, 5); }
    assert(cannon_section(4, 8, 4).len() == 29);
    assert(moves_from_upto(4, 8, 4, 4).len() == 3) by { reveal_with_fuel(moves_from_upto, 5); }
    assert(move_section(4, 8, 5).len() == 14);
    assert(shots_from(4, 8, 4).len() == 7) by { reveal_with_fuel(row_shots_upto, 9); reveal_with_fuel(col_shots_upto, 5); }
    assert(cannon_section(4, 8, 5).len() == 36);
    assert(moves_from_upto(4, 8, 5, 4).len() == 3) by { reveal_with_fuel(moves_from_upto, 5); }
    assert(move_section(4, 8, 6).len() == 17);
    assert(shots_from(4, 8, 5).len() == 7) by { reveal_with_fuel(row_shots_upto, 9); reveal_with_fuel(col_shots_upto, 5); }
    assert(cannon_section(4, 8, 6).len() == 43);
    assert(moves_from_upto(4, 8, 6, 4).len() == 3) by { reveal_with_fuel(moves_from_upto, 5); }
    assert(move_section(4, 8, 7).len() == 20);
    assert(shots_from(4, 8, 6).len() == 7) by { reveal_with_fuel(row_shots_upto, 9); reveal_with_fuel(col_shots_upto, 5); }
    assert(cannon_section(4, 8, 7).len() == 50);
    assert(moves_from_upto(4, 8, 7, 4).len() == 2) by { reveal_with_fuel(moves_from_upto, 5); }
    assert(move_section(4, 8, 8).len() == 22);
    assert(shots_from(4, 8, 7).len() == 8) by { reveal_with_fuel(row_shots_upto, 9); reveal_with_fuel(col_shots_upto, 5); }
    assert(cannon_section(4, 8, 8).len() == 58);
    assert(moves_from_upto(4, 8, 8, 4).len() == 3) by { reveal_with_fuel(moves_from_upto, 5); }
    assert(move_section(4, 8, 9).len() == 25);
    assert(shots_from(4, 8, 8).len() == 7) by { reveal_with_fuel(row_shots_upto, 9); reveal_with_fuel(col_shots_upto, 5); }
    assert(cannon_section(4, 8, 9).len() == 65);
    assert(moves_from_upto(4, 8, 9, 4).len() == 4) by { reveal_with_fuel(moves_from_upto, 5); }
    assert(move_section(4, 8, 10).len() == 29);
    assert(shots_from(4, 8, 9).len() == 6) by { reveal_with_fuel(row_shots_upto, 9); reveal_with_fuel(col_shots_upto, 5); }
    assert(cannon_section(4, 8, 10).len() == 71);
    assert(moves_from_upto(4, 8, 10, 4).len() == 4) by { reveal_with_fuel(moves_from_upto, 5); }
    assert(move_section(4, 8, 11).len() == 33);
    assert(shots_from(4, 8, 10).len() == 6) by { reveal_with_fuel(row_shots_upto, 9); reveal_with_fuel(col_shots_upto, 5); }
    assert(cannon_section(4, 8, 11).len() == 77);
    assert(moves_from_upto(4, 8, 11, 4).len() == 4) by { reveal_with_fuel(moves_from_upto, 5); }
    assert(move_section(4, 8, 12).len() == 37);
    assert(shots_from(4, 8, 11).len() == 6) by { reveal_with_fuel(row_shots_upto, 9); reveal_with_fuel(col_shots_upto, 5); }
    assert(cannon_section(4, 8, 12).len() == 83);
    assert(moves_from_upto(4, 8, 12, 4).len() == 4) by { reveal_with_fuel(moves_from_upto, 5); }
    assert(move_section(4, 8, 13).len() == 41);
    assert(shots_from(4, 8, 12).len() == 6) by { reveal_with_fuel(row_shots_upto, 9); reveal_with_fuel(col_shots_upto, 5); }
    assert(cannon_section(4, 8, 13).len() == 89);
    assert(moves_from_upto(4, 8, 13, 4).len() == 4) by { reveal_with_fuel(moves_from_upto, 5); }
    assert(move_section(4, 8, 14).len() == 45);
    assert(shots_from(4, 8, 13).len() == 6) by { reveal_with_fuel(row_shots_upto, 9); reveal_with_fuel(col_shots_upto, 5); }
    assert(cannon_section(4, 8, 14).len() == 95);
    assert(moves_from_upto(4, 8, 14, 4).len() == 4) by { reveal_with_fuel(moves_from_upto, 5); }
    assert(move_section(4, 8, 15).len() == 49);
    assert(shots_from(4, 8, 14).len() == 6) by { reveal_with_fuel(row_shots_upto, 9); reveal_with_fuel(col_shots_upto, 5); }
    assert(cannon_section(4, 8, 15).len() == 101);
    assert(moves_from_upto(4, 8, 15, 4).len() == 3) by { reveal_with_fuel(moves_from_upto, 5); }
    assert(move_section(4, 8, 16).len() == 52);
    assert(shots_from(4, 8, 15).len() == 7) by { reveal_with_fuel(row_shots_upto, 9); reveal_with_fuel(col_shots_upto, 5); }
    assert(cannon_section(4, 8, 16).len() == 108);
    assert(moves_from_upto(4, 8, 16, 4).len() == 3) by { reveal_with_fuel(moves_from_upto, 5); }
    assert(move_section(4, 8, 17).len() == 55);
    assert(shots_from(4, 8, 16).len() == 7) by { reveal_with_fuel(row_shots_upto, 9); reveal_with_fuel(col_shots_upto, 5); }
    assert(cannon_section(4, 8, 17).len() == 115);
    assert(moves_from_upto(4, 8, 17, 4).len() == 4) by { reveal_with_fuel(moves_from_upto, 5); }
    assert(move_section(4, 8, 18).len() == 59);
    assert(shots_from(4, 8, 17).len() == 6) by { reveal_with_fuel(row_shots_upto, 9); reveal_with_fuel(col_shots_upto, 5); }
    assert(cannon_section(4, 8, 18).len() == 121);
    assert(moves_from_upto(4, 8, 18, 4).len() == 4) by { reveal_with_fuel(moves_from_upto, 5); }
    assert(move_section(4, 8, 19).len() == 63);
    assert(shots_from(4, 8, 18).len() == 6) by { reveal_with_fuel(row_shots_upto, 9); reveal_with_fuel(col_shots_upto, 5); }
    assert(cannon_section(4, 8, 19).len() == 127);
    assert(moves_from_upto(4, 8, 19, 4).len() == 4) by { reveal_with_fuel(moves_from_upto, 5); }
    assert(move_section(4, 8, 20).len() == 67);
    assert(shots_from(4, 8, 19).len() == 6) by { reveal_with_fuel(row_shots_upto, 9); reveal_with_fuel(col_shots_upto, 5); }
    assert(cannon_section(4, 8, 20).len() == 133);
    assert(moves_from_upto(4, 8, 20, 4).len() == 4) by { reveal_with_fuel(moves_from_upto, 5); }
    assert(move_section(4, 8, 21).len() == 71);
    assert(shots_from(4, 8, 20).len() == 6) by { reveal_with_fuel(row_shots_upto, 9); reveal_with_fuel(col_shots_upto, 5); }
    assert(cannon_section(4, 8, 21).len() == 139);
    assert(moves_from_upto(4, 8, 21, 4).len() == 4) by { reveal_with_fuel(moves_from_upto, 5); }
    assert(move_section(4, 8, 22).len() == 75);
    assert(shots_from(4, 8, 21).len() == 6) by { reveal_with_fuel(row_shots_upto, 9); reveal_with_fuel(col_shots_upto, 5); }
    assert(cannon_section(4, 8, 22).len() == 145);
    assert(moves_from_upto(4, 8, 22, 4).len() == 4) by { reveal_with_fuel(moves_from_upto, 5); }
    assert(move_section(4, 8, 23).len() == 79);
    assert(shots_from(4, 8, 22).len() == 6) by { reveal_with_fuel(row_shots_upto, 9); reveal_with_fuel(col_shots_upto, 5); }
    assert(cannon_section(4, 8, 23).len() == 151);
    assert(moves_from_upto(4, 8, 23, 4).len() == 3) by { reveal_with_fuel(moves_from_upto, 5); }
    assert(move_section(4, 8, 24).len() == 82);
    assert(shots_from(4, 8, 23).len() == 7) by { reveal_with_fuel(row_shots_upto, 9); reveal_with_fuel(col_shots_upto, 5); }
    assert(cannon_section(4, 8, 24).len() == 158);
    assert(moves_from_upto(4, 8, 24, 4).len() == 2) by { reveal_with_fuel(moves_from_upto, 5); }
    assert(move_section(4, 8, 25).len() == 84);
    assert(shots_from(4, 8, 24).len() == 8) by { reveal_with_fuel(row_shots_upto, 9); reveal_with_fuel(col_shots_upto, 5); }
    assert(cannon_section(4, 8, 25).len() == 166);
    assert(moves_from_upto(4, 8, 25, 4).len() == 3) by { reveal_with_fuel(moves_from_upto, 5); }
    assert(move_section(4, 8, 26).len() == 87);
    assert(shots_from(4, 8, 25).len() == 7) by { reveal_with_fuel(row_shots_upto, 9); reveal_with_fuel(col_shots_upto, 5); }
    assert(cannon_section(4, 8, 26).len() == 173);
    assert(moves_from_upto(4, 8, 26, 4).len() == 3) by { reveal_with_fuel(moves_from_upto, 5); }
    assert(move_section(4, 8, 27).len() == 90);
    assert(shots_from(4, 8, 26).len() == 7) by { reveal_with_fuel(row_shots_upto, 9); reveal_with_fuel(col_shots_upto, 5); }
    assert(cannon_section(4, 8, 27).len() == 180);
    assert(moves_from_upto(4, 8, 27, 4).len() == 3) by { reveal_with_fuel(moves_from_upto, 5); }
    assert(move_section(4, 8, 28).len() == 93);
    assert(shots_from(4, 8, 27).len() == 7) by { reveal_with_fuel(row_shots_upto, 9); reveal_with_fuel(col_shots_upto, 5); }
    assert(cannon_section(4, 8, 28).len() == 187);
    assert(moves_from_upto(4, 8, 28, 4).len() == 3) by { reveal_with_fuel(moves_from_upto, 5); }
    assert(move_section(4, 8, 29).len() == 96);
    assert(shots_from(4, 8, 28).len() == 7) by { reveal_with_fuel(row_shots_upto, 9); reveal_with_fuel(col_shots_upto, 5); }
    assert(cannon_section(4, 8, 29).len() == 194);
    assert(moves_from_upto(4, 8, 29, 4).len() == 3) by { reveal_with_fuel(moves_from_upto, 5); }
    assert(move_section(4, 8, 30).len() == 99);
    assert(shots_from(4, 8, 29).len() == 7) by { reveal_with_fuel(row_shots_upto, 9); reveal_with_fuel(col_shots_upto, 5); }
    assert(cannon_section(4, 8, 30).len() == 201);
    assert(moves_from_upto(4, 8, 30, 4).len() == 3) by { reveal_with_fuel(moves_from_upto, 5); }
    assert(move_section(4, 8, 31).len() == 102);
    assert(shots_from(4, 8, 30).len() == 7) by { reveal_with_fuel(row_shots_upto, 9); reveal_with_fuel(col_shots_upto, 5); }
    assert(cannon_section(4, 8, 31).len() == 208);
    assert(moves_from_upto(4, 8, 31, 4).len() == 2) by { reveal_with_fuel(moves_from_upto, 5); }
    assert(move_section(4, 8, 32).len() == 104);
    assert(shots_from(4, 8, 31).len() == 8) by { reveal_with_fuel(row_shots_upto, 9); reveal_with_fuel(col_shots_upto, 5); }
    assert(cannon_section(4, 8, 32).len() == 216);
}

/// Section sizes of the 4x4 board, counted square by square.
#[verifier::rlimit(50)]
proof fn lemma_sizes_4x4()
    ensures
        move_section(4, 4, 16).len() == 48,
        cannon_section(4, 4, 16).len() == 48,
{
    assert(move_section(4, 4, 0).len() == 0);
    assert(cannon_section(4, 4, 0).len() == 0);
    assert(moves_from_upto(4, 4, 0, 4).len() == 2) by { reveal_with_fuel(moves_from_upto, 5); }
    assert(move_section(4, 4, 1).len() == 2);
    assert(shots_from(4, 4, 0).len() == 4) by { reveal_with_fuel(row_shots_upto, 5); reveal_with_fuel(col_shots_upto, 5); }
    assert(cannon_section(4, 4, 1).len() == 4);
    assert(moves_from_upto(4, 4, 1, 4).len() == 3) by { reveal_with_fuel(moves_from_upto, 5); }
    assert(move_section(4, 4, 2).len() == 5);
    assert(shots_from(4, 4, 1).len() == 3) by { reveal_with_fuel(row_shots_upto, 5); reveal_with_fuel(col_shots_upto, 5); }
    assert(cannon_section(4, 4, 2).len() == 7);
    assert(moves_from_upto(4, 4, 2, 4).len() == 3) by { reveal_with_fuel(moves_from_upto, 5); }
    assert(move_section(4, 4, 3).len() == 8);
    assert(shots_from(4, 4, 2).len() == 3) by { reveal_with_fuel(row_shots_upto, 5); reveal_with_fuel(col_shots_upto, 5); }
    assert(cannon_section(4, 4, 3).len() == 10);
    assert(moves_from_upto(4, 4, 3, 4).len() == 2) by { reveal_with_fuel(moves_from_upto, 5); }
    assert(move_section(4, 4, 4).len() == 10);
    assert(shots_from(4, 4, 3).len() == 4) by { reveal_with_fuel(row_shots_upto, 5); reveal_with_fuel(col_shots_upto, 5); }
    assert(cannon_section(4, 4, 4).len() == 14);
    assert(moves_from_upto(4, 4, 4, 4).len() == 3) by { reveal_with_fuel(moves_from_upto, 5); }
    assert(move_section(4, 4, 5).len() == 13);
    assert(shots_from(4, 4, 4).len() == 3) by { reveal_with_fuel(row_shots_upto, 5); reveal_with_fuel(col_shots_upto, 5); }
    assert(cannon_section(4, 4, 5).len() == 17);
    assert(moves_from_upto(4, 4, 5, 4).len() == 4) by { reveal_with_fuel(moves_from_upto, 5); }
    assert(move_section(4, 4, 6).len() == 17);
    assert(shots_from(4, 4, 5).len() == 2) by { reveal_with_fuel(row_shots_upto, 5); reveal_with_fuel(col_shots_upto, 5); }
    assert(cannon_section(4, 4, 6).len() == 19);
    assert(moves_from_upto(4, 4, 6, 4).len() == 4) by { reveal_with_fuel(moves_from_upto, 5); }
    assert(move_section(4, 4, 7).len() == 21);
    assert(shots_from(4, 4, 6).len() == 2) by { reveal_with_fuel(row_shots_upto, 5); reveal_with_fuel(col_shots_upto, 5); }
    assert(cannon_section(4, 4, 7).len() == 21);
    assert(moves_from_upto(4, 4, 7, 4).len() == 3) by { reveal_with_fuel(moves_from_upto, 5); }
    assert(move_section(4, 4, 8).len() == 24);
    assert(shots_from(4, 4, 7).len() == 3) by { reveal_with_fuel(row_shots_upto, 5); reveal_with_fuel(col_shots_upto, 5); }
    assert(cannon_section(4, 4, 8).len() == 24);
    assert(moves_from_upto(4, 4, 8, 4).len() == 3) by { reveal_with_fuel(moves_from_upto, 5); }
    assert(move_section(4, 4, 9).len() == 27);
    assert(shots_from(4, 4, 8).len() == 3) by { reveal_with_fuel(row_shots_upto, 5); reveal_with_fuel(col_shots_upto, 5); }
    assert(cannon_section(4, 4, 9).len() == 27);
    assert(moves_from_upto(4, 4, 9, 4).len() == 4) by { reveal_with_fuel(moves_from_upto, 5); }
    assert(move_section(4, 4, 10).len() == 31);
    assert(shots_from(4, 4, 9).len() == 2) by { reveal_with_fuel(row_shots_upto, 5); reveal_with_fuel(col_shots_upto, 5); }
    assert(cannon_section(4, 4, 10).len() == 29);
    assert(moves_from_upto(4, 4, 10, 4).len() == 4) by { reveal_with_fuel(moves_from_upto, 5); }
    assert(move_section(4, 4, 11).len() == 35);
    assert(shots_from(4, 4, 10).len() == 2) by { reveal_with_fuel(row_shots_upto, 5); reveal_with_fuel(col_shots_upto, 5); }
    assert(cannon_section(4, 4, 11).len() == 31);
    assert(moves_from_upto(4, 4, 11, 4).len() == 3) by { reveal_with_fuel(moves_from_upto, 5); }
    assert(move_section(4, 4, 12).len() == 38);
    assert(shots_from(4, 4, 11).len() == 3) by { reveal_with_fuel(row_shots_upto, 5); reveal_with_fuel(col_shots_upto, 5); }
    assert(cannon_section(4, 4, 12).len() == 34);
    assert(moves_from_upto(4, 4, 12, 4).len() == 2) by { reveal_with_fuel(moves_from_upto, 5); }
    assert(move_section(4, 4, 13).len() == 40);
    assert(shots_from(4, 4, 12).len() == 4) by { reveal_with_fuel(row_shots_upto, 5); reveal_with_fuel(col_shots_upto, 5); }
    assert(cannon_section(4, 4, 13).len() == 38);
    assert(moves_from_upto(4, 4, 13, 4).len() == 3) by { reveal_with_fuel(moves_from_upto, 5); }
    assert(move_section(4, 4, 14).len() == 43);
    assert(shots_from(4, 4, 13).len() == 3) by { reveal_with_fuel(row_shots_upto, 5); reveal_with_fuel(col_shots_upto, 5); }
    assert(cannon_section(4, 4, 14).len() == 41);
    assert(moves_from_upto(4, 4, 14, 4).len() == 3) by { reveal_with_fuel(moves_from_upto, 5); }
    assert(move_section(4, 4, 15).len() == 46);
    assert(shots_from(4, 4, 14).len() == 3) by { reveal_with_fuel(row_shots_upto, 5); reveal_with_fuel(col_shots_upto, 5); }
    assert(cannon_section(4, 4, 15).len() == 44);
    assert(moves_from_upto(4, 4, 15, 4).len() == 2) by { reveal_with_fuel(moves_from_upto, 5); }
    assert(move_section(4, 4, 16).len() == 48);
    assert(shots_from(4, 4, 15).len() == 4) by { reveal_with_fuel(row_shots_upto, 5); reveal_with_fuel(col_shots_upto, 5); }
    assert(cannon_section(4, 4, 16).len() == 48);
}

/// Section sizes of the 4x2 board, counted square by square.
#[verifier::rlimit(50)]
proof fn lemma_sizes_4x2()
    ensures
        move_section(4, 2, 8).len() == 20,
        cannon_section(4, 2, 8).len() == 12,
{
    assert(move_section(4, 2, 0).len() == 0);
    assert(cannon_section(4, 2, 0).len() == 0);
    assert(moves_from_upto(4, 2, 0, 4).len() == 2) by { reveal_with_fuel(moves_from_upto, 5); }
    assert(move_section(4, 2, 1).len() == 2);
    assert(shots_from(4, 2, 0).len() == 2) by { reveal_with_fuel(row_shots_upto, 3); reveal_with_fuel(col_shots_upto, 5); }
    assert(cannon_section(4, 2, 1).len() == 2);
    assert(moves_from_upto(4, 2, 1, 4).len() == 2) by { reveal_with_fuel(moves_from_upto, 5); }
    assert(move_section(4, 2, 2).len() == 4);
    assert(shots_from(4, 2, 1).len() == 2) by { reveal_with_fuel(row_shots_upto, 3); reveal_with_fuel(col_shots_upto, 5); }
    assert(cannon_section(4, 2, 2).len() == 4);
    assert(moves_from_upto(4, 2, 2, 4).len() == 3) by { reveal_with_fuel(moves_from_upto, 5); }
    assert(move_section(4, 2, 3).len() == 7);
    assert(shots_from(4, 2, 2).len() == 1) by { reveal_with_fuel(row_shots_upto, 3); reveal_with_fuel(col_shots_upto, 5); }
    assert(cannon_section(4, 2, 3).len() == 5);
    assert(moves_from_upto(4, 2, 3, 4).len() == 3) by { reveal_with_fuel(moves_from_upto, 5); }
    assert(move_section(4, 2, 4).len() == 10);
    assert(shots_from(4, 2, 3).len() == 1) by { reveal_with_fuel(row_shots_upto, 3); reveal_with_fuel(col_shots_upto, 5); }
    assert(cannon_section(4, 2, 4).len() == 6);
    assert(moves_from_upto(4, 2, 4, 4).len() == 3) by { reveal_with_fuel(moves_from_upto, 5); }
    assert(move_section(4, 2, 5).len() == 13);
    assert(shots_from(4, 2, 4).len() == 1) by { reveal_with_fuel(row_shots_upto, 3); reveal_with_fuel(col_shots_upto, 5); }
    assert(cannon_section(4, 2, 5).len() == 7);
    assert(moves_from_upto(4, 2, 5, 4).len() == 3) by { reveal_with_fuel(moves_from_upto, 5); }
    assert(move_section(4, 2, 6).len() == 16);
    assert(shots_from(4, 2, 5).len() == 1) by { reveal_with_fuel(row_shots_upto, 3); reveal_with_fuel(col_shots_upto, 5); }
    assert(cannon_section(4, 2, 6).len() == 8);
    assert(moves_from_upto(4, 2, 6, 4).len() == 2) by { reveal_with_fuel(moves_from_upto, 5); }
    assert(move_section(4, 2, 7).len() == 18);
    assert(shots_from(4, 2, 6).len() == 2) by { reveal_with_fuel(row_shots_upto, 3); reveal_with_fuel(col_shots_upto, 5); }
    assert(cannon_section(4, 2, 7).len() == 10);
    assert(moves_from_upto(4, 2, 7, 4).len() == 2) by { reveal_with_fuel(moves_from_upto, 5); }
    assert(move_section(4, 2, 8).len() == 20);
    assert(shots_from(4, 2, 7).len() == 2) by { reveal_with_fuel(row_shots_upto, 3); reveal_with_fuel(col_shots_upto, 5); }
    assert(cannon_section(4, 2, 8).len() == 12);
}

// ---------------------------------------------------------------------------
// Lookup tables
// ---------------------------------------------------------------------------

/// The action table of a board, materialized: squares of each action, and the
/// action of each packed square list.
pub struct ActionLookupTables {
    pub action_to_coords: Vec<Vec<usize>>,
    pub coords_to_action: HashMap<u64, usize>,
}

/// The vectors hold exactly the square lists of `p`, in order.
pub open spec fn coords_match(v: Seq<Vec<usize>>, p: Seq<Seq<usize>>) -> bool {
    &&& v.len() == p.len()
    &&& forall|i: int| 0 <= i < p.len() ==> #[trigger] v[i]@ == p[i]
}

/// Every key of `m` is the packed square list of the action it maps to, and every
/// action's packed square list is a key.
pub open spec fn lookup_matches(m: Map<u64, usize>, p: Seq<Seq<usize>>) -> bool {
    &&& forall|k: u64| #[trigger]
        m.contains_key(k) ==> m[k] < p.len() && spec_pack(p[m[k] as int]) == k
    &&& forall|i: int| 0 <= i < p.len() ==> #[trigger] m.contains_key(spec_pack(p[i]))
}

impl ActionLookupTables {
    /// The tables describe the action space of a `rows` x `cols` board.
    pub open spec fn describes(&self, rows: int, cols: int) -> bool {
        &&& coords_match(self.action_to_coords@, action_table(rows, cols))
        &&& lookup_matches(self.coords_to_action@, action_table(rows, cols))
    }
}

/// Exec form of `step_target`.
pub(crate) fn step_target_exec(rows: usize, cols: usize, sq: usize, d: usize) -> (r: Option<usize>)
    requires
        1 <= rows <= 8,
        1 <= cols <= 8,
        sq < rows * cols,
    ensures
        match step_target(rows as int, cols as int, sq as int, d as int) {
            Some(t) => r == Some(t as usize) && 0 <= t < rows * cols,
            None => r is None,
        },
{
    let r = sq / cols;
    let c = sq % cols;
    proof {
        assert(sq == cols * r + c && c < cols) by (nonlinear_arith)
            requires
                r == sq / cols,
                c == sq % cols,
                cols >= 1,
        ;
        assert(r < rows) by (nonlinear_arith)
            requires
                sq == cols * r + c,
                sq < rows * cols,
                c >= 0,
                cols >= 1,
        ;
        assert(r + 1 < rows ==> sq + cols < rows * cols) by (nonlinear_arith)
            requires
                sq == cols * r + c,
                c < cols,
        ;
        assert(r >= 1 ==> sq >= cols) by (nonlinear_arith)
            requires
                sq == cols * r + c,
                c >= 0,
        ;
        assert(c + 1 < cols ==> sq + 1 < rows * cols) by (nonlinear_arith)
            requires
                sq == cols * r + c,
                r < rows,
        ;
        assert(rows * cols <= 64) by (nonlinear_arith)
            requires
                rows <= 8,
                cols <= 8,
        ;
    }
    if d == 0 {
        if r >= 1 { Some(sq - cols) } else { None }
    } else if d == 1 {
        if r + 1 < rows { Some(sq + cols) } else { None }
    } else if d == 2 {
        if c >= 1 { Some(sq - 1) } else { None }
    } else {
        if c + 1 < cols { Some(sq + 1) } else { None }
    }
}

/// Builds the action tables of a variant's board (flips, moves, cannon shots).
pub fn action_lookup_tables(cfg: &GameConfig) -> (t: ActionLookupTables)
    requires
        config_wf(*cfg),
    ensures
        t.describes(cfg.rows as int, cfg.cols as int),
        t.action_to_coords@.len() == cfg.action_space_size,
        t.coords_to_action@.len() == t.action_to_coords@.len(),
{
    proof {
        lemma_config_facts(*cfg);
        lemma_table_sizes(*cfg);
    }
    let t = build_action_lookup_tables(cfg.rows, cfg.cols, cfg.action_space_size);
    proof {
        lemma_lookup_size(t.coords_to_action@, cfg.rows as int, cfg.cols as int);
    }
    t
}

/// A lookup that matches the action table has one key per action.
proof fn lemma_lookup_size(m: Map<u64, usize>, rows: int, cols: int)
    requires
        1 <= rows <= 8,
        1 <= cols <= 8,
        lookup_matches(m, action_table(rows, cols)),
    ensures
        m.len() == action_table(rows, cols).len(),
{
    let p = action_table(rows, cols);
    law_action_table_order(rows, cols);
    lemma_table_entries(rows, cols);
    assert(rows * cols <= 64) by (nonlinear_arith)
        requires
            1 <= rows <= 8,
            1 <= cols <= 8,
    ;
    let q = p.map_values(|e: Seq<usize>| spec_pack(e));
    assert forall|i: int, j: int| 0 <= i < q.len() && 0 <= j < q.len() && i != j implies q[i] != q[j] by {
        if q[i] == q[j] {
            law_pack_injective(p[i], p[j]);
        }
    }
    q.unique_seq_to_set();
    assert(m.dom() =~= q.to_set()) by {
        assert forall|k: u64| m.dom().contains(k) implies q.to_set().contains(k) by {
            assert(q[m[k] as int] == k);
        }
        assert forall|k: u64| q.to_set().contains(k) implies m.dom().contains(k) by {
            let i = choose|i: int| 0 <= i < q.len() && q[i] == k;
            assert(m.contains_key(spec_pack(p[i])));
        }
    }
}

/// Builds the tables section by section, in action order.
fn build_action_lookup_tables(rows: usize, cols: usize, capacity: usize) -> (t: ActionLookupTables)
    requires
        1 <= rows <= 8,
        1 <= cols <= 8,
    ensures
        t.describes(rows as int, cols as int),
{
    proof {
        assert(rows * cols <= 64) by (nonlinear_arith)
            requires
                rows <= 8,
                cols <= 8,
        ;
    }
    let n = rows * cols;
    let ghost table = action_table(rows as int, cols as int);
    let mut action_to_coords: Vec<Vec<usize>> = Vec::with_capacity(capacity);
    let mut coords_to_action: HashMap<u64, usize> = HashMap::with_capacity(capacity);
    let mut idx: usize = 0;
    proof {
        assert(n <= 64) by (nonlinear_arith)
            requires
                n == rows * cols,
                rows <= 8,
                cols <= 8,
        ;
        lemma_move_section_len_bound(rows as int, cols as int, n as int);
        lemma_cannon_section_len_bound(rows as int, cols as int, n as int);
    }

    // 1. Flips.
    let mut sq: usize = 0;
    while sq < n
        invariant
            n == rows * cols,
            n <= 64,
            sq <= n,
            idx == sq,
            coords_match(action_to_coords@, reveal_section(sq as int)),
            lookup_matches(coords_to_action@, reveal_section(sq as int)),
        decreases n - sq,
    {
        let coords = vec![sq];
        let key = pack_coords(coords.as_slice());
        let ghost p = reveal_section(sq as int);
        let ghost e = coords@;
        assert(e == seq![sq]);
        action_to_coords.push(coords);
        coords_to_action.insert(key, idx);
        idx += 1;
        sq += 1;
        proof {
            assert(reveal_section(sq as int) =~= p.push(e));
            lemma_extend_tables(action_to_coords@, coords_to_action@, p, e);
        }
    }

    // 2. One-step moves.
    let mut sq: usize = 0;
    while sq < n
        invariant
            1 <= rows <= 8,
            1 <= cols <= 8,
            n == rows * cols,
            n <= 64,
            sq <= n,
            move_section(rows as int, cols as int, n as int).len() <= 4 * n,
            idx == n + move_section(rows as int, cols as int, sq as int).len(),
            coords_match(
                action_to_coords@,
                reveal_section(n as int) + move_section(rows as int, cols as int, sq as int),
            ),
            lookup_matches(
                coords_to_action@,
                reveal_section(n as int) + move_section(rows as int, cols as int, sq as int),
            ),
        decreases n - sq,
    {
        proof {
            lemma_move_section_len_bound(rows as int, cols as int, sq as int);
        }
        let mut d: usize = 0;
        while d < 4
            invariant
                1 <= rows <= 8,
                1 <= cols <= 8,
                n == rows * cols,
                n <= 64,
                sq < n,
                d <= 4,
                idx == n + move_section(rows as int, cols as int, sq as int).len()
                    + moves_from_upto(rows as int, cols as int, sq as int, d as int).len(),
                moves_from_upto(rows as int, cols as int, sq as int, d as int).len() <= d,
                move_section(rows as int, cols as int, sq as int).len() <= 4 * sq,
                coords_match(
                    action_to_coords@,
                    reveal_section(n as int) + move_section(rows as int, cols as int, sq as int)
                        + moves_from_upto(rows as int, cols as int, sq as int, d as int),
                ),
                lookup_matches(
                    coords_to_action@,
                    reveal_section(n as int) + move_section(rows as int, cols as int, sq as int)
                        + moves_from_upto(rows as int, cols as int, sq as int, d as int),
                ),
            decreases 4 - d,
        {
            let ghost p = reveal_section(n as int) + move_section(rows as int, cols as int, sq as int)
                + moves_from_upto(rows as int, cols as int, sq as int, d as int);
            match step_target_exec(rows, cols, sq, d) {
                Some(to_sq) => {
                    let coords = vec![sq, to_sq];
                    let key = pack_coords(coords.as_slice());
                    let ghost e = coords@;
                    assert(e == seq![sq, to_sq]);
                    action_to_coords.push(coords);
                    coords_to_action.insert(key, idx);
                    idx += 1;
                    proof {
                        lemma_extend_tables(action_to_coords@, coords_to_action@, p, e);
                        assert(reveal_section(n as int) + move_section(rows as int, cols as int, sq as int)
                            + moves_from_upto(rows as int, cols as int, sq as int, d + 1) =~= p.push(seq![sq, to_sq]));
                    }
                },
                None => {
                    proof {
                        assert(reveal_section(n as int) + move_section(rows as int, cols as int, sq as int)
                            + moves_from_upto(rows as int, cols as int, sq as int, d + 1) =~= p);
                    }
                },
            }
            d += 1;
        }
        proof {
            assert(reveal_section(n as int) + move_section(rows as int, cols as int, sq + 1)
                =~= reveal_section(n as int) + move_section(rows as int, cols as int, sq as int)
                + moves_from_upto(rows as int, cols as int, sq as int, 4));
        }
        sq += 1;
    }

    // 3. Cannon shots.
    let ghost head = reveal_section(n as int) + move_section(rows as int, cols as int, n as int);
    let mut sq: usize = 0;
    while sq < n
        invariant
            1 <= rows <= 8,
            1 <= cols <= 8,
            n == rows * cols,
            n <= 64,
            sq <= n,
            head == reveal_section(n as int) + move_section(rows as int, cols as int, n as int),
            head.len() <= 5 * n,
            cannon_section(rows as int, cols as int, sq as int).len() <= 16 * sq,
            idx == head.len() + cannon_section(rows as int, cols as int, sq as int).len(),
            coords_match(action_to_coords@, head + cannon_section(rows as int, cols as int, sq as int)),
            lookup_matches(coords_to_action@, head + cannon_section(rows as int, cols as int, sq as int)),
        decreases n - sq,
    {
        let r = sq / cols;
        let c = sq % cols;
        proof {
            assert(sq == cols * r + c && c < cols && r < rows) by (nonlinear_arith)
                requires
                    r == sq / cols,
                    c == sq % cols,
                    cols >= 1,
                    sq < rows * cols,
            ;
        }
        let ghost base = head + cannon_section(rows as int, cols as int, sq as int);
        // Along the row.
        let mut c2: usize = 0;
        while c2 < cols
            invariant
                1 <= rows <= 8,
                1 <= cols <= 8,
                n == rows * cols,
                n <= 64,
                sq < n,
                sq == cols * r + c,
                c < cols,
                r == sq / cols,
                c == sq % cols,
                c2 <= cols,
                base.len() <= 5 * n + 16 * sq,
                row_shots_upto(cols as int, sq as int, c2 as int).len() <= c2,
                idx == base.len() + row_shots_upto(cols as int, sq as int, c2 as int).len(),
                coords_match(action_to_coords@, base + row_shots_upto(cols as int, sq as int, c2 as int)),
                lookup_matches(coords_to_action@, base + row_shots_upto(cols as int, sq as int, c2 as int)),
            decreases cols - c2,
        {
            let ghost p = base + row_shots_upto(cols as int, sq as int, c2 as int);
            if c > c2 + 1 || c2 > c + 1 {
                let to_sq = sq - c + c2;
                let coords = vec![sq, to_sq];
                let key = pack_coords(coords.as_slice());
                let ghost e = coords@;
                assert(e == seq![sq, to_sq]);
                action_to_coords.push(coords);
                coords_to_action.insert(key, idx);
                idx += 1;
                proof {
                    lemma_extend_tables(action_to_coords@, coords_to_action@, p, e);
                    assert(base + row_shots_upto(cols as int, sq as int, c2 + 1) =~= p.push(seq![sq, to_sq]));
                }
            } else {
                proof {
                    assert(base + row_shots_upto(cols as int, sq as int, c2 + 1) =~= p);
                }
            }
            c2 += 1;
        }
        let ghost base2 = base + row_shots_upto(cols as int, sq as int, cols as int);
        // Along the column.
        let mut r2: usize = 0;
        while r2 < rows
            invariant
                1 <= rows <= 8,
                1 <= cols <= 8,
                n == rows * cols,
                n <= 64,
                sq < n,
                r == sq / cols,
                c == sq % cols,
                c < cols,
                r2 <= rows,
                base2.len() <= 5 * n + 16 * sq + 8,
                col_shots_upto(cols as int, sq as int, r2 as int).len() <= r2,
                idx == base2.len() + col_shots_upto(cols as int, sq as int, r2 as int).len(),
                coords_match(action_to_coords@, base2 + col_shots_upto(cols as int, sq as int, r2 as int)),
                lookup_matches(coords_to_action@, base2 + col_shots_upto(cols as int, sq as int, r2 as int)),
            decreases rows - r2,
        {
            let ghost p = base2 + col_shots_upto(cols as int, sq as int, r2 as int);
            if r > r2 + 1 || r2 > r + 1 {
                proof {
                    assert(r2 * cols + c < 64) by (nonlinear_arith)
                        requires
                            r2 < rows,
                            c < cols,
                            rows <= 8,
                            cols <= 8,
                    ;
                }
                let to_sq = r2 * cols + c;
                let coords = vec![sq, to_sq];
                let key = pack_coords(coords.as_slice());
                let ghost e = coords@;
                assert(e == seq![sq, to_sq]);
                action_to_coords.push(coords);
                coords_to_action.insert(key, idx);
                idx += 1;
                proof {
                    lemma_extend_tables(action_to_coords@, coords_to_action@, p, e);
                    assert(base2 + col_shots_upto(cols as int, sq as int, r2 + 1) =~= p.push(seq![sq, to_sq]));
                }
            } else {
                proof {
                    assert(base2 + col_shots_upto(cols as int, sq as int, r2 + 1) =~= p);
                }
            }
            r2 += 1;
        }
        proof {
            assert(head + cannon_section(rows as int, cols as int, sq + 1) =~= base2 + col_shots_upto(cols as int, sq as int, rows as int));
        }
        sq += 1;
    }
    proof {
        assert(head + cannon_section(rows as int, cols as int, n as int) =~= table);
    }
    ActionLookupTables { action_to_coords, coords_to_action }
}

/// Appending one action to tables that match `p` gives tables that match `p.push(e)`.
proof fn lemma_extend_tables(v: Seq<Vec<usize>>, m: Map<u64, usize>, p: Seq<Seq<usize>>, e: Seq<usize>)
    requires
        v.len() == p.len() + 1,
        forall|i: int| 0 <= i < p.len() ==> #[trigger] v[i]@ == p[i],
        v[p.len() as int]@ == e,
        forall|k: u64| #[trigger]
            m.contains_key(k) && k != spec_pack(e) ==> m[k] < p.len() && spec_pack(p[m[k] as int]) == k,
        forall|i: int| 0 <= i < p.len() ==> #[trigger] m.contains_key(spec_pack(p[i])),
        m.contains_key(spec_pack(e)),
        m[spec_pack(e)] == p.len(),
    ensures
        coords_match(v, p.push(e)),
        lookup_matches(m, p.push(e)),
{
    let q = p.push(e);
    assert forall|i: int| 0 <= i < q.len() implies #[trigger] v[i]@ == q[i] by {
        if i < p.len() {
            assert(q[i] == p[i]);
        }
    }
    assert forall|k: u64| #[trigger] m.contains_key(k) implies m[k] < q.len() && spec_pack(
        q[m[k] as int],
    ) == k by {
        if k != spec_pack(e) {
            assert(q[m[k] as int] == p[m[k] as int]);
        }
    }
    assert forall|i: int| 0 <= i < q.len() implies #[trigger] m.contains_key(spec_pack(q[i])) by {
        if i < p.len() {
            assert(q[i] == p[i]);
        }
    }
}

/// Every entry is a pair of squares on the board.
pub open spec fn pairs_on_board(s: Seq<Seq<usize>>, n: int) -> bool {
    forall|i: int| 0 <= i < s.len() ==> (#[trigger] s[i]).len() == 2 && s[i][0] < n && s[i][1] < n
}

proof fn lemma_pairs_concat(a: Seq<Seq<usize>>, b: Seq<Seq<usize>>, n: int)
    requires
        pairs_on_board(a, n),
        pairs_on_board(b, n),
    ensures
        pairs_on_board(a + b, n),
{
    assert forall|i: int| 0 <= i < (a + b).len() implies (#[trigger] (a + b)[i]).len() == 2 && (a
        + b)[i][0] < n && (a + b)[i][1] < n by {
        if i < a.len() {
            assert((a + b)[i] == a[i]);
        } else {
            assert((a + b)[i] == b[i - a.len()]);
        }
    }
}

proof fn lemma_moves_upto_pairs(rows: int, cols: int, sq: int, d: int)
    requires
        1 <= rows <= 8,
        1 <= cols <= 8,
        0 <= sq < rows * cols,
    ensures
        pairs_on_board(moves_from_upto(rows, cols, sq, d), rows * cols),
    decreases d,
{
    if d > 0 {
        lemma_moves_upto_pairs(rows, cols, sq, d - 1);
        let r = sq / cols;
        let c = sq % cols;
        assert(sq == cols * r + c && 0 <= c < cols && 0 <= r) by (nonlinear_arith)
            requires
                r == sq / cols,
                c == sq % cols,
                cols >= 1,
                sq >= 0,
        ;
        assert(r + 1 < rows ==> sq + cols < rows * cols) by (nonlinear_arith)
            requires
                sq == cols * r + c,
                c < cols,
                r >= 0,
                cols >= 1,
        ;
        assert(r >= 1 ==> sq >= cols) by (nonlinear_arith)
            requires
                sq == cols * r + c,
                c >= 0,
                cols >= 1,
        ;
        assert(r < rows) by (nonlinear_arith)
            requires
                sq == cols * r + c,
                sq < rows * cols,
                c >= 0,
                cols >= 1,
        ;
        assert(c + 1 < cols ==> sq + 1 < rows * cols) by (nonlinear_arith)
            requires
                sq == cols * r + c,
                r < rows,
                r >= 0,
                c >= 0,
                cols >= 1,
        ;
        assert(pairs_on_board(dir_entry(rows, cols, sq, d - 1), rows * cols));
        lemma_pairs_concat(moves_from_upto(rows, cols, sq, d - 1), dir_entry(rows, cols, sq, d - 1), rows * cols);
    }
}

proof fn lemma_move_section_pairs(rows: int, cols: int, k: int)
    requires
        1 <= rows <= 8,
        1 <= cols <= 8,
        k <= rows * cols,
    ensures
        pairs_on_board(move_section(rows, cols, k), rows * cols),
    decreases k,
{
    if k > 0 {
        lemma_move_section_pairs(rows, cols, k - 1);
        lemma_moves_upto_pairs(rows, cols, k - 1, 4);
        lemma_pairs_concat(move_section(rows, cols, k - 1), moves_from_upto(rows, cols, k - 1, 4), rows * cols);
    }
}

proof fn lemma_row_shots_pairs(rows: int, cols: int, sq: int, k: int)
    requires
        1 <= rows <= 8,
        1 <= cols <= 8,
        0 <= sq < rows * cols,
        k <= cols,
    ensures
        pairs_on_board(row_shots_upto(cols, sq, k), rows * cols),
    decreases k,
{
    if k > 0 {
        lemma_row_shots_pairs(rows, cols, sq, k - 1);
        let r = sq / cols;
        let c = sq % cols;
        assert(sq == cols * r + c && 0 <= c < cols && 0 <= r < rows) by (nonlinear_arith)
            requires
                r == sq / cols,
                c == sq % cols,
                cols >= 1,
                0 <= sq < rows * cols,
        ;
        assert(cols * (r + 1) <= cols * rows) by (nonlinear_arith)
            requires
                r + 1 <= rows,
                cols >= 1,
        ;
        assert(cols * (r + 1) == cols * r + cols) by (nonlinear_arith);
        assert(sq - c + (k - 1) < rows * cols);
        lemma_pairs_concat(row_shots_upto(cols, sq, k - 1), row_entry(cols, sq, k - 1), rows * cols);
    }
}

proof fn lemma_col_shots_pairs(rows: int, cols: int, sq: int, k: int)
    requires
        1 <= rows <= 8,
        1 <= cols <= 8,
        0 <= sq < rows * cols,
        k <= rows,
    ensures
        pairs_on_board(col_shots_upto(cols, sq, k), rows * cols),
    decreases k,
{
    if k > 0 {
        lemma_col_shots_pairs(rows, cols, sq, k - 1);
        let c = sq % cols;
        assert(0 <= c < cols) by (nonlinear_arith)
            requires
                c == sq % cols,
                cols >= 1,
                sq >= 0,
        ;
        assert(0 <= (k - 1) * cols + c < rows * cols) by (nonlinear_arith)
            requires
                0 <= k - 1 < rows,
                0 <= c < cols,
        ;
        lemma_pairs_concat(col_shots_upto(cols, sq, k - 1), col_entry(cols, sq, k - 1), rows * cols);
    }
}

proof fn lemma_cannon_section_pairs(rows: int, cols: int, k: int)
    requires
        1 <= rows <= 8,
        1 <= cols <= 8,
        k <= rows * cols,
    ensures
        pairs_on_board(cannon_section(rows, cols, k), rows * cols),
    decreases k,
{
    if k > 0 {
        lemma_cannon_section_pairs(rows, cols, k - 1);
        lemma_row_shots_pairs(rows, cols, k - 1, cols);
        lemma_col_shots_pairs(rows, cols, k - 1, rows);
        lemma_pairs_concat(row_shots_upto(cols, k - 1, cols), col_shots_upto(cols, k - 1, rows), rows * cols);
        lemma_pairs_concat(cannon_section(rows, cols, k - 1), shots_from(rows, cols, k - 1), rows * cols);
    }
}

/// Shape of the table: the first `rows * cols` actions are flips of one square each,
/// the others name two squares; all squares are on the board.
pub proof fn lemma_table_entries(rows: int, cols: int)
    requires
        1 <= rows <= 8,
        1 <= cols <= 8,
    ensures
        forall|a: int|
            0 <= a < action_table(rows, cols).len() ==> {
                let e = #[trigger] action_table(rows, cols)[a];
                &&& a < rows * cols ==> e.len() == 1 && e[0] == a
                &&& a >= rows * cols ==> e.len() == 2 && e[0] < rows * cols && e[1] < rows * cols
            },
{
    let n = rows * cols;
    assert(n >= 1 && n <= 64) by (nonlinear_arith)
        requires
            n == rows * cols,
            1 <= rows <= 8,
            1 <= cols <= 8,
    ;
    lemma_move_section_pairs(rows, cols, n);
    lemma_cannon_section_pairs(rows, cols, n);
    lemma_pairs_concat(move_section(rows, cols, n), cannon_section(rows, cols, n), n);
    let tail = move_section(rows, cols, n) + cannon_section(rows, cols, n);
    let table = action_table(rows, cols);
    assert(table =~= reveal_section(n) + tail);
    assert forall|a: int| 0 <= a < table.len() implies {
        let e = #[trigger] table[a];
        &&& a < n ==> e.len() == 1 && e[0] == a
        &&& a >= n ==> e.len() == 2 && e[0] < n && e[1] < n
    } by {
        if a < n {
            assert(table[a] == reveal_section(n)[a]);
            assert(reveal_section(n)[a] == seq![a as usize]);
        } else {
            assert(table[a] == tail[a - n]);
            assert(tail[a - n].len() == 2);
        }
    }
}

/// Move entries of the first `k` squares number at most four per square.
proof fn lemma_move_section_len_bound(rows: int, cols: int, k: int)
    ensures
        k >= 0 ==> move_section(rows, cols, k).len() <= 4 * k,
    decreases k,
{
    reveal_with_fuel(moves_from_upto, 5);
    if k > 0 {
        lemma_move_section_len_bound(rows, cols, k - 1);
    }
}

/// Cannon entries of the first `k` squares number at most sixteen per square.
proof fn lemma_cannon_section_len_bound(rows: int, cols: int, k: int)
    requires
        1 <= rows <= 8,
        1 <= cols <= 8,
    ensures
        k >= 0 ==> cannon_section(rows, cols, k).len() <= 16 * k,
    decreases k,
{
    if k > 0 {
        lemma_cannon_section_len_bound(rows, cols, k - 1);
        lemma_row_shots_len(cols, k - 1, cols);
        lemma_col_shots_len(cols, k - 1, rows);
    }
}

proof fn lemma_row_shots_len(cols: int, sq: int, k: int)
    ensures
        k >= 0 ==> row_shots_upto(cols, sq, k).len() <= k,
    decreases k,
{
    if k > 0 {
        lemma_row_shots_len(cols, sq, k - 1);
    }
}

proof fn lemma_col_shots_len(cols: int, sq: int, k: int)
    ensures
        k >= 0 ==> col_shots_upto(cols, sq, k).len() <= k,
    decreases k,
{
    if k > 0 {
        lemma_col_shots_len(cols, sq, k - 1);
    }
}

// ---------------------------------------------------------------------------
// Order of the action table
// ---------------------------------------------------------------------------

/// `a` and `b` are orthogonal neighbours on a `rows` x `cols` board.
pub open spec fn adjacent(rows: int, cols: int, a: int, b: int) -> bool {
    &&& 0 <= a < rows * cols
    &&& 0 <= b < rows * cols
    &&& ((a / cols == b / cols && (a % cols - b % cols == 1 || b % cols - a % cols == 1)) || (a
        % cols == b % cols && (a / cols - b / cols == 1 || b / cols - a / cols == 1)))
}

/// `a` and `b` lie in one row or one column of a `rows` x `cols` board, at distance
/// two or more.
pub open spec fn far_in_line(rows: int, cols: int, a: int, b: int) -> bool {
    &&& 0 <= a < rows * cols
    &&& 0 <= b < rows * cols
    &&& ((a / cols == b / cols && (a % cols - b % cols > 1 || b % cols - a % cols > 1)) || (a
        % cols == b % cols && (a / cols - b / cols > 1 || b / cols - a / cols > 1)))
}

/// The square at row `q`, column `r` has that row and column.
proof fn lemma_div_mod_of(cols: int, q: int, r: int)
    requires
        cols >= 1,
        0 <= r < cols,
    ensures
        (cols * q + r) / cols == q,
        (cols * q + r) % cols == r,
{
    assert(cols * q + r == q * cols + r) by (nonlinear_arith);
    vstd::arithmetic::div_mod::lemma_fundamental_div_mod_converse(cols * q + r, cols, q, r);
}

/// A square is its row times `cols` plus its column, and it is on the board exactly
/// when its row is.
proof fn lemma_split(rows: int, cols: int, x: int)
    requires
        1 <= cols,
        1 <= rows,
        0 <= x,
    ensures
        x == cols * (x / cols) + x % cols,
        0 <= x % cols < cols,
        0 <= x / cols,
        x < rows * cols <==> x / cols < rows,
{
    let q = x / cols;
    let r = x % cols;
    assert(x == cols * q + r && 0 <= r < cols && 0 <= q) by (nonlinear_arith)
        requires
            q == x / cols,
            r == x % cols,
            cols >= 1,
            x >= 0,
    ;
    assert(x < rows * cols <==> q < rows) by (nonlinear_arith)
        requires
            x == cols * q + r,
            0 <= r < cols,
            cols >= 1,
    ;
}

proof fn lemma_concat_contains<A>(a: Seq<A>, b: Seq<A>, x: A)
    ensures
        (a + b).contains(x) <==> a.contains(x) || b.contains(x),
{
    if a.contains(x) {
        let i = choose|i: int| 0 <= i < a.len() && a[i] == x;
        assert((a + b)[i] == x);
    }
    if b.contains(x) {
        let i = choose|i: int| 0 <= i < b.len() && b[i] == x;
        assert((a + b)[a.len() + i] == x);
    }
    if (a + b).contains(x) {
        let i = choose|i: int| 0 <= i < (a + b).len() && (a + b)[i] == x;
        if i < a.len() {
            assert(a[i] == x);
        } else {
            assert(b[i - a.len()] == x);
        }
    }
}

proof fn lemma_concat_no_dup<A>(a: Seq<A>, b: Seq<A>)
    requires
        a.no_duplicates(),
        b.no_duplicates(),
        forall|i: int, j: int| 0 <= i < a.len() && 0 <= j < b.len() ==> a[i] != b[j],
    ensures
        (a + b).no_duplicates(),
{
    let c = a + b;
    assert forall|i: int, j: int| 0 <= i < c.len() && 0 <= j < c.len() && i != j implies c[i] != c[j] by {
        if i < a.len() && j < a.len() {
        } else if i >= a.len() && j >= a.len() {
            assert(c[i] == b[i - a.len()] && c[j] == b[j - a.len()]);
        } else if i < a.len() {
            assert(c[j] == b[j - a.len()]);
        } else {
            assert(c[i] == b[i - a.len()]);
        }
    }
}

/// The four step targets of `sq` are its neighbours, each found in one direction only.
proof fn lemma_step_targets(rows: int, cols: int, sq: int, t: int)
    requires
        1 <= rows <= 8,
        1 <= cols <= 8,
        0 <= sq < rows * cols,
    ensures
        adjacent(rows, cols, sq, t) <==> (step_target(rows, cols, sq, 0) == Some(t) || step_target(
            rows,
            cols,
            sq,
            1,
        ) == Some(t) || step_target(rows, cols, sq, 2) == Some(t) || step_target(rows, cols, sq, 3)
            == Some(t)),
        forall|d1: int, d2: int|
            0 <= d1 < 4 && 0 <= d2 < 4 && d1 != d2 && step_target(rows, cols, sq, d1) is Some
                ==> #[trigger] step_target(rows, cols, sq, d1) != #[trigger] step_target(rows, cols, sq, d2),
{
    lemma_split(rows, cols, sq);
    let r = sq / cols;
    let c = sq % cols;
    if r >= 1 {
        lemma_div_mod_of(cols, r - 1, c);
        assert(sq - cols == cols * (r - 1) + c) by (nonlinear_arith)
            requires
                sq == cols * r + c,
        ;
        lemma_split(rows, cols, sq - cols);
    }
    if r + 1 < rows {
        lemma_div_mod_of(cols, r + 1, c);
        assert(sq + cols == cols * (r + 1) + c) by (nonlinear_arith)
            requires
                sq == cols * r + c,
        ;
        lemma_split(rows, cols, sq + cols);
    }
    if c >= 1 {
        lemma_div_mod_of(cols, r, c - 1);
        lemma_split(rows, cols, sq - 1);
    }
    if c + 1 < cols {
        lemma_div_mod_of(cols, r, c + 1);
        lemma_split(rows, cols, sq + 1);
    }
    if 0 <= t {
        lemma_split(rows, cols, t);
        let rt = t / cols;
        let ct = t % cols;
        if adjacent(rows, cols, sq, t) {
            if rt == r && ct == c - 1 {
                assert(t == sq - 1);
            } else if rt == r && ct == c + 1 {
                assert(t == sq + 1);
            } else if ct == c && rt == r - 1 {
                assert(t == sq - cols) by (nonlinear_arith)
                    requires
                        t == cols * rt + ct,
                        sq == cols * r + c,
                        ct == c,
                        rt == r - 1,
                ;
            } else {
                assert(ct == c && rt == r + 1);
                assert(t == sq + cols) by (nonlinear_arith)
                    requires
                        t == cols * rt + ct,
                        sq == cols * r + c,
                        ct == c,
                        rt == r + 1,
                ;
            }
        }
    }
}

/// The moves of `sq`: entries `[sq, t]` with `t` a neighbour, no entry twice, and
/// every neighbour present.
proof fn lemma_block_moves(rows: int, cols: int, sq: int)
    requires
        1 <= rows <= 8,
        1 <= cols <= 8,
        0 <= sq < rows * cols,
    ensures
        ({
            let b = moves_from_upto(rows, cols, sq, 4);
            &&& forall|i: int|
                0 <= i < b.len() ==> (#[trigger] b[i]).len() == 2 && b[i][0] == sq && adjacent(
                    rows,
                    cols,
                    sq,
                    b[i][1] as int,
                )
            &&& b.no_duplicates()
            &&& forall|t: int| #[trigger] adjacent(rows, cols, sq, t) ==> b.contains(seq![sq as usize, t as usize])
        }),
{
    reveal_with_fuel(moves_from_upto, 5);
    let e0 = dir_entry(rows, cols, sq, 0);
    let e1 = dir_entry(rows, cols, sq, 1);
    let e2 = dir_entry(rows, cols, sq, 2);
    let e3 = dir_entry(rows, cols, sq, 3);
    let b = moves_from_upto(rows, cols, sq, 4);
    assert(b =~= e0 + e1 + e2 + e3);
    assert(rows * cols <= 64) by (nonlinear_arith)
        requires
            1 <= rows <= 8,
            1 <= cols <= 8,
    ;
    assert forall|t: int| #![trigger adjacent(rows, cols, sq, t)] 0 <= t < 64 ==> (adjacent(rows, cols, sq, t) <==> (step_target(rows, cols, sq, 0) == Some(t) || step_target(
            rows,
            cols,
            sq,
            1,
        ) == Some(t) || step_target(rows, cols, sq, 2) == Some(t) || step_target(rows, cols, sq, 3)
            == Some(t))) by {
        lemma_step_targets(rows, cols, sq, t);
    }
    lemma_step_targets(rows, cols, sq, 0);
    // each direction's entry is a pair with sq and a neighbour
    assert forall|d: int| 0 <= d < 4 implies #[trigger] step_target(rows, cols, sq, d) matches Some(t) ==> (
        adjacent(rows, cols, sq, t) && 0 <= t < 64) by {
        match step_target(rows, cols, sq, d) {
            Some(t) => {
                lemma_step_targets(rows, cols, sq, t);
                lemma_split(rows, cols, sq);
            },
            None => {},
        }
    }
    let s01 = e0 + e1;
    let s012 = s01 + e2;
    assert forall|i: int| 0 <= i < b.len() implies (#[trigger] b[i]).len() == 2 && b[i][0] == sq
        && adjacent(rows, cols, sq, b[i][1] as int) by {
        let d = if i < e0.len() {
            0int
        } else if i < s01.len() {
            1int
        } else if i < s012.len() {
            2int
        } else {
            3int
        };
        assert(step_target(rows, cols, sq, d) matches Some(t) ==> (adjacent(rows, cols, sq, t) && 0 <= t < 64));
    }
    lemma_concat_no_dup(e0, e1);
    lemma_concat_no_dup(s01, e2);
    assert forall|i: int, j: int| 0 <= i < s012.len() && 0 <= j < e3.len() implies s012[i] != e3[j] by {
        let d = if i < e0.len() { 0int } else if i < s01.len() { 1int } else { 2int };
        assert(step_target(rows, cols, sq, d) != step_target(rows, cols, sq, 3));
    }
    lemma_concat_no_dup(s012, e3);
    assert forall|t: int| #[trigger] adjacent(rows, cols, sq, t) implies b.contains(seq![sq as usize, t as usize]) by {
        let x = seq![sq as usize, t as usize];
        lemma_concat_contains(e0, e1, x);
        lemma_concat_contains(s01, e2, x);
        lemma_concat_contains(s012, e3, x);
        if step_target(rows, cols, sq, 0) == Some(t) {
            assert(e0[0] == x);
        } else if step_target(rows, cols, sq, 1) == Some(t) {
            assert(e1[0] == x);
        } else if step_target(rows, cols, sq, 2) == Some(t) {
            assert(e2[0] == x);
        } else {
            assert(e3[0] == x);
        }
    }
}

/// The move section of the first `k` squares: pairs of neighbours starting below `k`,
/// no entry twice, every such pair present.
proof fn lemma_move_section_order(rows: int, cols: int, k: int)
    requires
        1 <= rows <= 8,
        1 <= cols <= 8,
        0 <= k <= rows * cols,
    ensures
        ({
            let s = move_section(rows, cols, k);
            &&& forall|i: int|
                0 <= i < s.len() ==> (#[trigger] s[i]).len() == 2 && s[i][0] < k && adjacent(
                    rows,
                    cols,
                    s[i][0] as int,
                    s[i][1] as int,
                )
            &&& s.no_duplicates()
            &&& forall|a: int, t: int|
                0 <= a < k && #[trigger] adjacent(rows, cols, a, t) ==> s.contains(seq![a as usize, t as usize])
        }),
    decreases k,
{
    if k > 0 {
        lemma_move_section_order(rows, cols, k - 1);
        lemma_block_moves(rows, cols, k - 1);
        let p = move_section(rows, cols, k - 1);
        let b = moves_from_upto(rows, cols, k - 1, 4);
        let s = move_section(rows, cols, k);
        assert(s == p + b);
        assert forall|i: int| 0 <= i < s.len() implies (#[trigger] s[i]).len() == 2 && s[i][0] < k
            && adjacent(rows, cols, s[i][0] as int, s[i][1] as int) by {
            if i < p.len() {
                assert(s[i] == p[i]);
            } else {
                assert(s[i] == b[i - p.len()]);
            }
        }
        assert forall|i: int, j: int| 0 <= i < p.len() && 0 <= j < b.len() implies p[i] != b[j] by {
            assert(p[i][0] < k - 1);
            assert(b[j][0] == k - 1);
        }
        lemma_concat_no_dup(p, b);
        assert forall|a: int, t: int| 0 <= a < k && #[trigger] adjacent(rows, cols, a, t) implies s.contains(
            seq![a as usize, t as usize],
        ) by {
            lemma_concat_contains(p, b, seq![a as usize, t as usize]);
        }
    }
}

/// Row shots of `sq` at the first `k` columns: pairs with squares of its row at
/// distance two or more, columns below `k`, no entry twice, every such pair present.
proof fn lemma_row_shots_order(rows: int, cols: int, sq: int, k: int)
    requires
        1 <= rows <= 8,
        1 <= cols <= 8,
        0 <= sq < rows * cols,
        0 <= k <= cols,
    ensures
        ({
            let s = row_shots_upto(cols, sq, k);
            &&& forall|i: int|
                0 <= i < s.len() ==> (#[trigger] s[i]).len() == 2 && s[i][0] == sq && far_in_line(
                    rows,
                    cols,
                    sq,
                    s[i][1] as int,
                ) && (s[i][1] as int) / cols == sq / cols && (s[i][1] as int) % cols < k
            &&& s.no_duplicates()
            &&& forall|t: int|
                #[trigger] far_in_line(rows, cols, sq, t) && t / cols == sq / cols && t % cols < k ==> s.contains(
                    seq![sq as usize, t as usize],
                )
        }),
    decreases k,
{
    if k > 0 {
        lemma_row_shots_order(rows, cols, sq, k - 1);
        lemma_split(rows, cols, sq);
        let r = sq / cols;
        let c = sq % cols;
        let x = sq - c + (k - 1);
        assert(x == cols * r + (k - 1));
        assert(cols * r >= 0) by (nonlinear_arith)
            requires
                cols >= 1,
                r >= 0,
        ;
        assert(rows * cols <= 64) by (nonlinear_arith)
            requires
                1 <= rows <= 8,
                1 <= cols <= 8,
        ;
        lemma_div_mod_of(cols, r, k - 1);
        lemma_split(rows, cols, x);
        assert(x < rows * cols);
        assert((x as usize) as int == x);
        let p = row_shots_upto(cols, sq, k - 1);
        let e = row_entry(cols, sq, k - 1);
        let s = row_shots_upto(cols, sq, k);
        assert(s == p + e);
        assert forall|i: int| 0 <= i < s.len() implies (#[trigger] s[i]).len() == 2 && s[i][0] == sq
            && far_in_line(rows, cols, sq, s[i][1] as int) && (s[i][1] as int) / cols == sq / cols
            && (s[i][1] as int) % cols < k by {
            if i < p.len() {
                assert(s[i] == p[i]);
            } else {
                assert(s[i] == e[i - p.len()]);
            }
        }
        assert forall|i: int, j: int| 0 <= i < p.len() && 0 <= j < e.len() implies p[i] != e[j] by {
            assert((p[i][1] as int) % cols < k - 1);
        }
        lemma_concat_no_dup(p, e);
        assert forall|t: int|
            #[trigger] far_in_line(rows, cols, sq, t) && t / cols == sq / cols && t % cols < k implies s.contains(
            seq![sq as usize, t as usize],
        ) by {
            lemma_concat_contains(p, e, seq![sq as usize, t as usize]);
            if t % cols == k - 1 {
                lemma_split(rows, cols, t);
                assert(t == x);
                assert(e[0] == seq![sq as usize, t as usize]);
            }
        }
    }
}

/// Column shots of `sq` at the first `k` rows: pairs with squares of its column at
/// distance two or more, rows below `k`, no entry twice, every such pair present.
proof fn lemma_col_shots_order(rows: int, cols: int, sq: int, k: int)
    requires
        1 <= rows <= 8,
        1 <= cols <= 8,
        0 <= sq < rows * cols,
        0 <= k <= rows,
    ensures
        ({
            let s = col_shots_upto(cols, sq, k);
            &&& forall|i: int|
                0 <= i < s.len() ==> (#[trigger] s[i]).len() == 2 && s[i][0] == sq && far_in_line(
                    rows,
                    cols,
                    sq,
                    s[i][1] as int,
                ) && (s[i][1] as int) % cols == sq % cols && (s[i][1] as int) / cols < k
            &&& s.no_duplicates()
            &&& forall|t: int|
                #[trigger] far_in_line(rows, cols, sq, t) && t % cols == sq % cols && 0 <= t / cols < k ==> s.contains(
                    seq![sq as usize, t as usize],
                )
        }),
    decreases k,
{
    if k > 0 {
        lemma_col_shots_order(rows, cols, sq, k - 1);
        lemma_split(rows, cols, sq);
        let r = sq / cols;
        let c = sq % cols;
        let x = (k - 1) * cols + c;
        assert(x == cols * (k - 1) + c) by (nonlinear_arith)
            requires
                x == (k - 1) * cols + c,
        ;
        assert(rows * cols <= 64) by (nonlinear_arith)
            requires
                1 <= rows <= 8,
                1 <= cols <= 8,
        ;
        lemma_div_mod_of(cols, k - 1, c);
        assert(0 <= x) by (nonlinear_arith)
            requires
                x == cols * (k - 1) + c,
                k >= 1,
                cols >= 1,
                c >= 0,
        ;
        lemma_split(rows, cols, x);
        assert(x < rows * cols);
        assert((x as usize) as int == x);
        let p = col_shots_upto(cols, sq, k - 1);
        let e = col_entry(cols, sq, k - 1);
        let s = col_shots_upto(cols, sq, k);
        assert(s == p + e);
        assert forall|i: int| 0 <= i < s.len() implies (#[trigger] s[i]).len() == 2 && s[i][0] == sq
            && far_in_line(rows, cols, sq, s[i][1] as int) && (s[i][1] as int) % cols == sq % cols
            && (s[i][1] as int) / cols < k by {
            if i < p.len() {
                assert(s[i] == p[i]);
            } else {
                assert(s[i] == e[i - p.len()]);
            }
        }
        assert forall|i: int, j: int| 0 <= i < p.len() && 0 <= j < e.len() implies p[i] != e[j] by {
            assert((p[i][1] as int) / cols < k - 1);
        }
        lemma_concat_no_dup(p, e);
        assert forall|t: int|
            #[trigger] far_in_line(rows, cols, sq, t) && t % cols == sq % cols && 0 <= t / cols < k implies s.contains(
            seq![sq as usize, t as usize],
        ) by {
            lemma_concat_contains(p, e, seq![sq as usize, t as usize]);
            if t / cols == k - 1 {
                lemma_split(rows, cols, t);
                assert(t == x);
                assert(e[0] == seq![sq as usize, t as usize]);
            }
        }
    }
}

/// The cannon shots of `sq`: pairs with the squares of its row and column at distance
/// two or more, no entry twice, every such pair present.
proof fn lemma_block_shots(rows: int, cols: int, sq: int)
    requires
        1 <= rows <= 8,
        1 <= cols <= 8,
        0 <= sq < rows * cols,
    ensures
        ({
            let b = shots_from(rows, cols, sq);
            &&& forall|i: int|
                0 <= i < b.len() ==> (#[trigger] b[i]).len() == 2 && b[i][0] == sq && far_in_line(
                    rows,
                    cols,
                    sq,
                    b[i][1] as int,
                )
            &&& b.no_duplicates()
            &&& forall|t: int| #[trigger] far_in_line(rows, cols, sq, t) ==> b.contains(seq![sq as usize, t as usize])
        }),
{
    lemma_row_shots_order(rows, cols, sq, cols);
    lemma_col_shots_order(rows, cols, sq, rows);
    lemma_split(rows, cols, sq);
    let a = row_shots_upto(cols, sq, cols);
    let c = col_shots_upto(cols, sq, rows);
    let b = shots_from(rows, cols, sq);
    assert(b == a + c);
    assert forall|i: int| 0 <= i < b.len() implies (#[trigger] b[i]).len() == 2 && b[i][0] == sq
        && far_in_line(rows, cols, sq, b[i][1] as int) by {
        if i < a.len() {
            assert(b[i] == a[i]);
        } else {
            assert(b[i] == c[i - a.len()]);
        }
    }
    assert forall|i: int, j: int| 0 <= i < a.len() && 0 <= j < c.len() implies a[i] != c[j] by {
        assert((a[i][1] as int) / cols == sq / cols);
        assert((c[j][1] as int) % cols == sq % cols);
        if a[i] == c[j] {
            assert(far_in_line(rows, cols, sq, a[i][1] as int));
        }
    }
    lemma_concat_no_dup(a, c);
    assert forall|t: int| #[trigger] far_in_line(rows, cols, sq, t) implies b.contains(seq![sq as usize, t as usize]) by {
        lemma_split(rows, cols, t);
        lemma_concat_contains(a, c, seq![sq as usize, t as usize]);
    }
}

/// The cannon section of the first `k` squares: same-line pairs at distance two or
/// more starting below `k`, no entry twice, every such pair present.
proof fn lemma_cannon_section_order(rows: int, cols: int, k: int)
    requires
        1 <= rows <= 8,
        1 <= cols <= 8,
        0 <= k <= rows * cols,
    ensures
        ({
            let s = cannon_section(rows, cols, k);
            &&& forall|i: int|
                0 <= i < s.len() ==> (#[trigger] s[i]).len() == 2 && s[i][0] < k && far_in_line(
                    rows,
                    cols,
                    s[i][0] as int,
                    s[i][1] as int,
                )
            &&& s.no_duplicates()
            &&& forall|a: int, t: int|
                0 <= a < k && #[trigger] far_in_line(rows, cols, a, t) ==> s.contains(seq![a as usize, t as usize])
        }),
    decreases k,
{
    if k > 0 {
        lemma_cannon_section_order(rows, cols, k - 1);
        lemma_block_shots(rows, cols, k - 1);
        let p = cannon_section(rows, cols, k - 1);
        let b = shots_from(rows, cols, k - 1);
        let s = cannon_section(rows, cols, k);
        assert(s == p + b);
        assert forall|i: int| 0 <= i < s.len() implies (#[trigger] s[i]).len() == 2 && s[i][0] < k
            && far_in_line(rows, cols, s[i][0] as int, s[i][1] as int) by {
            if i < p.len() {
                assert(s[i] == p[i]);
            } else {
                assert(s[i] == b[i - p.len()]);
            }
        }
        assert forall|i: int, j: int| 0 <= i < p.len() && 0 <= j < b.len() implies p[i] != b[j] by {
            assert(p[i][0] < k - 1);
            assert(b[j][0] == k - 1);
        }
        lemma_concat_no_dup(p, b);
        assert forall|a: int, t: int| 0 <= a < k && #[trigger] far_in_line(rows, cols, a, t) implies s.contains(
            seq![a as usize, t as usize],
        ) by {
            lemma_concat_contains(p, b, seq![a as usize, t as usize]);
        }
    }
}

/// Order of the action space: first one flip per square, in square order; then the
/// one-step moves, exactly the ordered pairs of orthogonal neighbours; then the cannon
/// shots, exactly the ordered pairs in one row or column at distance two or more. No
/// action appears twice.
pub proof fn law_action_table_order(rows: int, cols: int)
    requires
        1 <= rows <= 8,
        1 <= cols <= 8,
    ensures
        ({
            let t = action_table(rows, cols);
            let n = rows * cols;
            let m = move_section(rows, cols, n).len() as int;
            &&& n + m <= t.len()
            &&& forall|i: int| 0 <= i < n ==> #[trigger] t[i] == seq![i as usize]
            &&& forall|i: int|
                n <= i < n + m ==> (#[trigger] t[i]).len() == 2 && adjacent(
                    rows,
                    cols,
                    t[i][0] as int,
                    t[i][1] as int,
                )
            &&& forall|i: int|
                n + m <= i < t.len() ==> (#[trigger] t[i]).len() == 2 && far_in_line(
                    rows,
                    cols,
                    t[i][0] as int,
                    t[i][1] as int,
                )
            &&& forall|a: int, b: int|
                #[trigger] adjacent(rows, cols, a, b) ==> exists|i: int|
                    n <= i < n + m && #[trigger] t[i] == seq![a as usize, b as usize]
            &&& forall|a: int, b: int|
                #[trigger] far_in_line(rows, cols, a, b) ==> exists|i: int|
                    n + m <= i < t.len() && #[trigger] t[i] == seq![a as usize, b as usize]
            &&& t.no_duplicates()
        }),
{
    let n = rows * cols;
    assert(1 <= n <= 64) by (nonlinear_arith)
        requires
            n == rows * cols,
            1 <= rows <= 8,
            1 <= cols <= 8,
    ;
    lemma_move_section_order(rows, cols, n);
    lemma_cannon_section_order(rows, cols, n);
    let f = reveal_section(n);
    let ms = move_section(rows, cols, n);
    let cs = cannon_section(rows, cols, n);
    let t = action_table(rows, cols);
    let m = ms.len() as int;
    assert(t =~= f + ms + cs);
    let fm = f + ms;
    assert forall|i: int| n <= i < n + m implies (#[trigger] t[i]).len() == 2 && adjacent(
        rows,
        cols,
        t[i][0] as int,
        t[i][1] as int,
    ) by {
        assert(t[i] == ms[i - n]);
    }
    assert forall|i: int| n + m <= i < t.len() implies (#[trigger] t[i]).len() == 2 && far_in_line(
        rows,
        cols,
        t[i][0] as int,
        t[i][1] as int,
    ) by {
        assert(t[i] == cs[i - n - m]);
    }
    assert forall|a: int, b: int| #[trigger] adjacent(rows, cols, a, b) implies exists|i: int|
        n <= i < n + m && #[trigger] t[i] == seq![a as usize, b as usize] by {
        assert(ms.contains(seq![a as usize, b as usize]));
        let j = choose|j: int| 0 <= j < ms.len() && ms[j] == seq![a as usize, b as usize];
        assert(t[n + j] == ms[j]);
    }
    assert forall|a: int, b: int| #[trigger] far_in_line(rows, cols, a, b) implies exists|i: int|
        n + m <= i < t.len() && #[trigger] t[i] == seq![a as usize, b as usize] by {
        assert(cs.contains(seq![a as usize, b as usize]));
        let j = choose|j: int| 0 <= j < cs.len() && cs[j] == seq![a as usize, b as usize];
        assert(t[n + m + j] == cs[j]);
    }
    assert forall|i: int, j: int| 0 <= i < f.len() && 0 <= j < f.len() && i != j implies f[i] != f[j] by {
        assert(f[i][0] == i && f[j][0] == j);
    }
    assert forall|i: int, j: int| 0 <= i < f.len() && 0 <= j < ms.len() implies f[i] != ms[j] by {
        assert(f[i].len() == 1);
    }
    lemma_concat_no_dup(f, ms);
    assert forall|i: int, j: int| 0 <= i < fm.len() && 0 <= j < cs.len() implies fm[i] != cs[j] by {
        if i < n {
            assert(fm[i] == f[i]);
            assert(f[i].len() == 1);
        } else {
            assert(fm[i] == ms[i - n]);
            let e = ms[i - n];
            if e == cs[j] {
                assert(adjacent(rows, cols, e[0] as int, e[1] as int));
                assert(far_in_line(rows, cols, e[0] as int, e[1] as int));
            }
        }
    }
    lemma_concat_no_dup(fm, cs);
}

} // verus!
