//! Laws of the rules, stated over the board: which one-step moves and cannon shots the
//! legal action mask allows, the flags of the structured moves, and the outcome of a
//! finished game.

use vstd::prelude::*;

use super::actions::{
    action_table, adjacent, far_in_line, lemma_table_entries, law_action_table_order,
    move_section,
};
use super::board::DarkChessEnv;
use super::config::{config_wf, lemma_config_facts, type_active};
use super::rules::{count_line, pieces_between};
use super::types::{type_index, Piece, PieceType, Player, Slot};

verus! {

/// Index of square `i` of a line starting at `pos`, `step` apart.
pub open spec fn line_pos(pos: int, step: int, i: int) -> int {
    pos + step * i
}

/// Square `i` of a line of squares starting at `pos`, `step` apart.
pub open spec fn line_cell(board: Seq<Slot>, pos: int, step: int, i: int) -> Slot {
    board[pos + step * i]
}

proof fn lemma_line_shift(pos: int, step: int, i: int)
    ensures
        pos + step * (i + 1) == (pos + step) + step * i,
{
    assert(step * (i + 1) == step * i + step) by (nonlinear_arith);
}

/// A line of empty squares holds no piece.
proof fn lemma_count_line_zero(board: Seq<Slot>, pos: int, step: int, len: int)
    requires
        forall|i: int| 0 <= i < len ==> #[trigger] line_cell(board, pos, step, i) is Empty,
    ensures
        count_line(board, pos, step, len) == 0,
    decreases len,
{
    if len > 0 {
        assert(line_cell(board, pos, step, 0) is Empty);
        assert(pos + step * 0 == pos);
        assert forall|i: int| 0 <= i < len - 1 implies #[trigger] line_cell(board, pos + step, step, i) is Empty by {
            lemma_line_shift(pos, step, i);
            assert(line_cell(board, pos, step, i + 1) is Empty);
        }
        lemma_count_line_zero(board, pos + step, step, len - 1);
    }
}

/// A line with exactly one occupied square holds one piece.
proof fn lemma_count_line_one(board: Seq<Slot>, pos: int, step: int, len: int, i0: int)
    requires
        0 <= i0 < len,
        !(line_cell(board, pos, step, i0) is Empty),
        forall|i: int| 0 <= i < len && i != i0 ==> #[trigger] line_cell(board, pos, step, i) is Empty,
    ensures
        count_line(board, pos, step, len) == 1,
    decreases len,
{
    assert(pos + step * 0 == pos);
    assert forall|i: int| 0 <= i < len - 1 && i != i0 - 1 implies #[trigger] line_cell(board, pos + step, step, i) is Empty by {
        lemma_line_shift(pos, step, i);
        assert(line_cell(board, pos, step, i + 1) is Empty);
    }
    if i0 == 0 {
        assert(!(line_cell(board, pos, step, 0) is Empty));
        lemma_count_line_zero(board, pos + step, step, len - 1);
    } else {
        assert(line_cell(board, pos, step, 0) is Empty);
        lemma_line_shift(pos, step, i0 - 1);
        assert(line_cell(board, pos + step, step, i0 - 1) == line_cell(board, pos, step, i0));
        lemma_count_line_one(board, pos + step, step, len - 1, i0 - 1);
    }
}

/// Square `s` lies strictly between `from` and `to` on the row or column they share.
pub open spec fn strictly_between(cols: int, from: int, to: int, s: int) -> bool {
    let lo = if from < to { from } else { to };
    let hi = if from < to { to } else { from };
    &&& lo < s < hi
    &&& (from / cols == to / cols || s % cols == from % cols)
}

/// Where an action names the squares `[from, to]` of two neighbours, its place in the
/// table is the move section.
proof fn lemma_adjacent_action(rows: int, cols: int, a: int, from: int, to: int)
    requires
        1 <= rows <= 8,
        1 <= cols <= 8,
        0 <= a < action_table(rows, cols).len(),
        action_table(rows, cols)[a] == seq![from as usize, to as usize],
        adjacent(rows, cols, from, to),
    ensures
        rows * cols <= a < rows * cols + move_section(rows, cols, rows * cols).len(),
{
    law_action_table_order(rows, cols);
    let t = action_table(rows, cols);
    let n = rows * cols;
    let m = move_section(rows, cols, n).len() as int;
    if a < n {
        assert(t[a] == seq![a as usize]);
    }
    if a >= n + m {
        assert(far_in_line(rows, cols, t[a][0] as int, t[a][1] as int));
    }
}

/// Where an action names two squares of one line at distance two or more, its place
/// in the table is the cannon section.
proof fn lemma_far_action(rows: int, cols: int, a: int, from: int, to: int)
    requires
        1 <= rows <= 8,
        1 <= cols <= 8,
        0 <= a < action_table(rows, cols).len(),
        action_table(rows, cols)[a] == seq![from as usize, to as usize],
        far_in_line(rows, cols, from, to),
    ensures
        rows * cols + move_section(rows, cols, rows * cols).len() <= a,
{
    law_action_table_order(rows, cols);
    let t = action_table(rows, cols);
    let n = rows * cols;
    let m = move_section(rows, cols, n).len() as int;
    if a < n {
        assert(t[a] == seq![a as usize]);
    }
    if n <= a < n + m {
        assert(adjacent(rows, cols, t[a][0] as int, t[a][1] as int));
    }
}

/// One-step moves: a revealed piece of the side to move, of a kind in play, may step
/// onto a neighbouring square when that square is empty, or when it holds an enemy
/// piece that the mover outranks or equals in rank (kinds in play only) -- except that
/// a soldier takes only soldiers and the general, a general takes anything but a
/// soldier, and a cannon never steps. Face-down squares and own pieces are never
/// stepped on.
pub proof fn law_step_moves(env: DarkChessEnv, player: Player, a: int, from: int, to: int, k: PieceType)
    requires
        env.wf(),
        0 <= a < action_table(env.config.rows as int, env.config.cols as int).len(),
        action_table(env.config.rows as int, env.config.cols as int)[a] == seq![from as usize, to as usize],
        adjacent(env.config.rows as int, env.config.cols as int, from, to),
        env.board@[from] == Slot::Revealed(Piece { piece_type: k, player }),
        type_active(env.config, type_index(k)),
    ensures
        k == PieceType::Cannon ==> env.mask_value(player, a) == 0,
        k != PieceType::Cannon ==> env.mask_value(player, a) == match env.board@[to] {
            Slot::Empty => 1i32,
            Slot::Hidden => 0i32,
            Slot::Revealed(q) => if q.player == player {
                0i32
            } else if k == PieceType::Soldier {
                if q.piece_type == PieceType::Soldier || q.piece_type == PieceType::General { 1i32 } else { 0i32 }
            } else if k == PieceType::General {
                if type_active(env.config, type_index(q.piece_type)) && q.piece_type != PieceType::Soldier { 1i32 } else { 0i32 }
            } else {
                if type_active(env.config, type_index(q.piece_type)) && type_index(q.piece_type) <= type_index(k) { 1i32 } else { 0i32 }
            },
        },
{
    lemma_config_facts(env.config);
    let rows = env.config.rows as int;
    let cols = env.config.cols as int;
    lemma_adjacent_action(rows, cols, a, from, to);
    let e = action_table(rows, cols)[a];
    assert(e[0] as int == from && e[1] as int == to);
}

/// Cannon shots: an own revealed cannon with exactly one occupied square strictly
/// between it and a square of its row or column two or more away may shoot that square
/// exactly when it is occupied and not by an own revealed piece -- a face-down piece is
/// a valid target.
pub proof fn law_cannon_shots(env: DarkChessEnv, player: Player, a: int, from: int, to: int, screen: int)
    requires
        env.wf(),
        0 <= a < action_table(env.config.rows as int, env.config.cols as int).len(),
        action_table(env.config.rows as int, env.config.cols as int)[a] == seq![from as usize, to as usize],
        far_in_line(env.config.rows as int, env.config.cols as int, from, to),
        env.board@[from] == Slot::Revealed(Piece { piece_type: PieceType::Cannon, player }),
        strictly_between(env.config.cols as int, from, to, screen),
        !(env.board@[screen] is Empty),
        forall|s: int|
            #[trigger] strictly_between(env.config.cols as int, from, to, s) && s != screen ==> env.board@[s] is Empty,
    ensures
        env.mask_value(player, a) == match env.board@[to] {
            Slot::Empty => 0i32,
            Slot::Hidden => 1i32,
            Slot::Revealed(q) => if q.player == player { 0i32 } else { 1i32 },
        },
{
    lemma_config_facts(env.config);
    let rows = env.config.rows as int;
    let cols = env.config.cols as int;
    lemma_far_action(rows, cols, a, from, to);
    let e = action_table(rows, cols)[a];
    assert(e[0] as int == from && e[1] as int == to);
    lemma_one_screen(env.board@, rows, cols, from, to, screen);
}

/// The squares strictly between two squares of one line at distance two or more form
/// a line `pos, pos + step, ...` of `len` squares, which `pieces_between` counts.
proof fn lemma_between_line(rows: int, cols: int, from: int, to: int) -> (r: (int, int, int))
    requires
        1 <= rows <= 8,
        1 <= cols <= 8,
        far_in_line(rows, cols, from, to),
    ensures
        r.1 >= 1,
        r.2 >= 0,
        forall|board: Seq<Slot>| #[trigger] pieces_between(board, cols, from, to) == count_line(board, r.0, r.1, r.2),
        forall|i: int| 0 <= i < r.2 ==> #[trigger] strictly_between(cols, from, to, r.0 + r.1 * i),
        forall|s: int| #[trigger] strictly_between(cols, from, to, s) ==> exists|i: int|
            0 <= i < r.2 && #[trigger] line_pos(r.0, r.1, i) == s,
{
    reveal(pieces_between);
    let lo = if from < to { from } else { to };
    let hi = if from < to { to } else { from };
    if from / cols == to / cols {
        assert forall|i: int| 0 <= i < hi - lo - 1 implies #[trigger] strictly_between(cols, from, to, lo + 1 + 1 * i) by {}
        assert forall|s: int| #[trigger] strictly_between(cols, from, to, s) implies exists|i: int|
            0 <= i < hi - lo - 1 && #[trigger] line_pos(lo + 1, 1, i) == s by {
            assert(line_pos(lo + 1, 1, s - lo - 1) == s);
        }
        (lo + 1, 1, hi - lo - 1)
    } else {
        let c = from % cols;
        assert(to % cols == c);
        let rlo = lo / cols;
        let rhi = hi / cols;
        assert(lo == cols * rlo + c && hi == cols * rhi + c && 0 <= c < cols && 0 <= rlo) by {
            assert(lo == cols * (lo / cols) + lo % cols && 0 <= lo % cols < cols && 0 <= lo / cols) by (nonlinear_arith)
                requires
                    cols >= 1,
                    lo >= 0,
            ;
            assert(hi == cols * (hi / cols) + hi % cols) by (nonlinear_arith)
                requires
                    cols >= 1,
                    hi >= 0,
            ;
        }
        assert(rlo < rhi) by (nonlinear_arith)
            requires
                lo == cols * rlo + c,
                hi == cols * rhi + c,
                lo < hi,
                cols >= 1,
        ;
        assert(hi - lo == cols * (rhi - rlo)) by (nonlinear_arith)
            requires
                lo == cols * rlo + c,
                hi == cols * rhi + c,
        ;
        assert((hi - lo) / cols == rhi - rlo) by {
            assert(hi - lo == (rhi - rlo) * cols + 0) by (nonlinear_arith)
                requires
                    hi - lo == cols * (rhi - rlo),
            ;
            vstd::arithmetic::div_mod::lemma_fundamental_div_mod_converse(hi - lo, cols, rhi - rlo, 0);
        }
        let len = rhi - rlo - 1;
        assert forall|i: int| 0 <= i < len implies #[trigger] strictly_between(cols, from, to, lo + cols + cols * i) by {
            let q = lo + cols + cols * i;
            assert(q == cols * (rlo + 1 + i) + c) by (nonlinear_arith)
                requires
                    lo == cols * rlo + c,
                    q == lo + cols + cols * i,
            ;
            assert(q == (rlo + 1 + i) * cols + c) by (nonlinear_arith)
                requires
                    q == cols * (rlo + 1 + i) + c,
            ;
            vstd::arithmetic::div_mod::lemma_fundamental_div_mod_converse(q, cols, rlo + 1 + i, c);
            assert(lo < q < hi) by (nonlinear_arith)
                requires
                    lo == cols * rlo + c,
                    hi == cols * rhi + c,
                    q == cols * (rlo + 1 + i) + c,
                    0 <= i < rhi - rlo - 1,
                    cols >= 1,
            ;
        }
        assert forall|s: int| #[trigger] strictly_between(cols, from, to, s) implies exists|i: int|
            0 <= i < len && #[trigger] line_pos(lo + cols, cols, i) == s by {
            let rs = s / cols;
            assert(s == cols * rs + c) by {
                assert(s == cols * (s / cols) + s % cols) by (nonlinear_arith)
                    requires
                        cols >= 1,
                        s >= 0,
                ;
            }
            assert(rlo < rs < rhi) by (nonlinear_arith)
                requires
                    lo == cols * rlo + c,
                    hi == cols * rhi + c,
                    s == cols * rs + c,
                    lo < s < hi,
                    cols >= 1,
            ;
            assert(lo + cols + cols * (rs - rlo - 1) == s) by (nonlinear_arith)
                requires
                    lo == cols * rlo + c,
                    s == cols * rs + c,
            ;
            assert(line_pos(lo + cols, cols, rs - rlo - 1) == s);
        }
        (lo + cols, cols, len)
    }
}

/// A line with two occupied squares holds at least two pieces.
proof fn lemma_count_line_two(board: Seq<Slot>, pos: int, step: int, len: int, i0: int, i1: int)
    requires
        0 <= i0 < i1 < len,
        !(line_cell(board, pos, step, i0) is Empty),
        !(line_cell(board, pos, step, i1) is Empty),
    ensures
        count_line(board, pos, step, len) >= 2,
    decreases len,
{
    assert(pos + step * 0 == pos);
    lemma_line_shift(pos, step, i1 - 1);
    assert(line_cell(board, pos + step, step, i1 - 1) == line_cell(board, pos, step, i1));
    if i0 == 0 {
        lemma_count_line_at_least_one(board, pos + step, step, len - 1, i1 - 1);
    } else {
        lemma_line_shift(pos, step, i0 - 1);
        assert(line_cell(board, pos + step, step, i0 - 1) == line_cell(board, pos, step, i0));
        lemma_count_line_two(board, pos + step, step, len - 1, i0 - 1, i1 - 1);
    }
}

/// A line with an occupied square holds at least one piece.
proof fn lemma_count_line_at_least_one(board: Seq<Slot>, pos: int, step: int, len: int, i0: int)
    requires
        0 <= i0 < len,
        !(line_cell(board, pos, step, i0) is Empty),
    ensures
        count_line(board, pos, step, len) >= 1,
    decreases len,
{
    assert(pos + step * 0 == pos);
    if i0 > 0 {
        lemma_line_shift(pos, step, i0 - 1);
        assert(line_cell(board, pos + step, step, i0 - 1) == line_cell(board, pos, step, i0));
        lemma_count_line_at_least_one(board, pos + step, step, len - 1, i0 - 1);
    }
}

/// Exactly one occupied square strictly between two squares of one line at distance
/// two or more means one piece between them.
proof fn lemma_one_screen(board: Seq<Slot>, rows: int, cols: int, from: int, to: int, screen: int)
    requires
        1 <= rows <= 8,
        1 <= cols <= 8,
        far_in_line(rows, cols, from, to),
        strictly_between(cols, from, to, screen),
        !(board[screen] is Empty),
        forall|s: int| #[trigger] strictly_between(cols, from, to, s) && s != screen ==> board[s] is Empty,
    ensures
        pieces_between(board, cols, from, to) == 1,
{
    let (pos, step, len) = lemma_between_line(rows, cols, from, to);
    let i0 = choose|i: int| 0 <= i < len && #[trigger] line_pos(pos, step, i) == screen;
    assert(pieces_between(board, cols, from, to) == count_line(board, pos, step, len));
    assert forall|i: int| 0 <= i < len && i != i0 implies #[trigger] line_cell(board, pos, step, i) is Empty by {
        assert(strictly_between(cols, from, to, pos + step * i));
        assert(pos + step * i != screen) by (nonlinear_arith)
            requires
                pos + step * i0 == screen,
                i != i0,
                step >= 1,
        ;
    }
    lemma_count_line_one(board, pos, step, len, i0);
}

/// Cannon shots need exactly one screen: with no occupied square strictly between the
/// cannon and the target, or with two or more, the shot is illegal.
pub proof fn law_cannon_screens(env: DarkChessEnv, player: Player, a: int, from: int, to: int)
    requires
        env.wf(),
        0 <= a < action_table(env.config.rows as int, env.config.cols as int).len(),
        action_table(env.config.rows as int, env.config.cols as int)[a] == seq![from as usize, to as usize],
        far_in_line(env.config.rows as int, env.config.cols as int, from, to),
    ensures
        (forall|s: int| #[trigger] strictly_between(env.config.cols as int, from, to, s) ==> env.board@[s] is Empty)
            ==> env.mask_value(player, a) == 0,
        (exists|s1: int, s2: int|
            s1 != s2 && #[trigger] strictly_between(env.config.cols as int, from, to, s1)
                && #[trigger] strictly_between(env.config.cols as int, from, to, s2) && !(env.board@[s1] is Empty)
                && !(env.board@[s2] is Empty)) ==> env.mask_value(player, a) == 0,
{
    lemma_config_facts(env.config);
    let rows = env.config.rows as int;
    let cols = env.config.cols as int;
    lemma_far_action(rows, cols, a, from, to);
    let e = action_table(rows, cols)[a];
    assert(e[0] as int == from && e[1] as int == to);
    let (pos, step, len) = lemma_between_line(rows, cols, from, to);
    let board = env.board@;
    assert(pieces_between(board, cols, from, to) == count_line(board, pos, step, len));
    if forall|s: int| #[trigger] strictly_between(cols, from, to, s) ==> board[s] is Empty {
        assert forall|i: int| 0 <= i < len implies #[trigger] line_cell(board, pos, step, i) is Empty by {
            assert(strictly_between(cols, from, to, pos + step * i));
        }
        lemma_count_line_zero(board, pos, step, len);
    }
    if exists|s1: int, s2: int|
        s1 != s2 && #[trigger] strictly_between(cols, from, to, s1) && #[trigger] strictly_between(cols, from, to, s2)
            && !(board[s1] is Empty) && !(board[s2] is Empty) {
        let (s1, s2) = choose|s1: int, s2: int|
            s1 != s2 && #[trigger] strictly_between(cols, from, to, s1) && #[trigger] strictly_between(cols, from, to, s2)
                && !(board[s1] is Empty) && !(board[s2] is Empty);
        let i1 = choose|i: int| 0 <= i < len && #[trigger] line_pos(pos, step, i) == s1;
        let i2 = choose|i: int| 0 <= i < len && #[trigger] line_pos(pos, step, i) == s2;
        assert(i1 != i2);
        if i1 < i2 {
            lemma_count_line_two(board, pos, step, len, i1, i2);
        } else {
            lemma_count_line_two(board, pos, step, len, i2, i1);
        }
    }
}

/// Flips: the flip of a square is legal exactly when the square is face down.
pub proof fn law_flips(env: DarkChessEnv, player: Player, a: int)
    requires
        env.wf(),
        0 <= a < env.config.total_positions,
    ensures
        env.mask_value(player, a) == (if env.board@[a] is Hidden { 1i32 } else { 0i32 }),
{
    lemma_config_facts(env.config);
    law_action_table_order(env.config.rows as int, env.config.cols as int);
    let t = action_table(env.config.rows as int, env.config.cols as int);
    assert(t[a] == seq![a as usize]);
}

/// The flags of the structured moves agree with the board: a move is a flip exactly
/// when its action is in the flip section; it is a chance move exactly when its target
/// square is face down; it is a capture exactly when its target holds a revealed enemy
/// piece; and it runs between the two squares its action names.
pub proof fn law_move_flags(env: DarkChessEnv, player: Player, k: int)
    requires
        config_wf(env.config),
        0 <= k <= usize::MAX,
    ensures
        forall|i: int| 0 <= i < env.legal_moves_upto(player, k).len() ==> {
            let m = #[trigger] env.legal_moves_upto(player, k)[i];
            let e = action_table(env.config.rows as int, env.config.cols as int)[m.action as int];
            &&& m.is_flip == (m.action < env.config.total_positions)
            &&& m.is_chance == (env.board@[m.to as int] is Hidden)
            &&& m.is_capture == (env.board@[m.to as int] matches Slot::Revealed(q) && q.player != player)
            &&& m.from == e[0]
            &&& m.to == e[e.len() - 1]
        },
    decreases k,
{
    lemma_config_facts(env.config);
    lemma_table_entries(env.config.rows as int, env.config.cols as int);
    if k > 0 {
        law_move_flags(env, player, k - 1);
        let prev = env.legal_moves_upto(player, k - 1);
        let cur = env.legal_moves_upto(player, k);
        if env.action_legal(player, k - 1) {
            let m = env.move_of(player, k - 1);
            assert(cur == prev + seq![m]);
            assert forall|i: int| 0 <= i < cur.len() implies {
                let mm = #[trigger] cur[i];
                let e = action_table(env.config.rows as int, env.config.cols as int)[mm.action as int];
                &&& mm.is_flip == (mm.action < env.config.total_positions)
                &&& mm.is_chance == (env.board@[mm.to as int] is Hidden)
                &&& mm.is_capture == (env.board@[mm.to as int] matches Slot::Revealed(q) && q.player != player)
                &&& mm.from == e[0]
                &&& mm.to == e[e.len() - 1]
            } by {
                if i < prev.len() {
                    assert(cur[i] == prev[i]);
                } else {
                    assert(cur[i] == m);
                    assert(m.action == (k - 1) as usize);
                }
            }
        } else {
            assert(cur =~= prev);
        }
    }
}

/// Outcome of a position: a side out of health loses (Red is checked first), then a
/// side with every piece lost loses, then a side to move without a legal action loses
/// to its opponent (`1` is a Red win, `-1` a Black win), then the no-capture draw limit
/// ends the game drawn, then the step limit truncates it as a draw; otherwise play goes
/// on.
pub proof fn law_game_over_outcomes(env: DarkChessEnv, moves_empty: bool)
    ensures
        env.scores@[0] <= 0 ==> env.game_over(moves_empty) == (true, false, Some(-1i32)),
        env.scores@[0] > 0 && env.scores@[1] <= 0 ==> env.game_over(moves_empty) == (true, false, Some(1i32)),
        ({
            let healthy = env.scores@[0] > 0 && env.scores@[1] > 0;
            let red_wiped = env.dead_pieces_count@[0] == env.config.total_pieces_per_player;
            let black_wiped = env.dead_pieces_count@[1] == env.config.total_pieces_per_player;
            let alive = healthy && !red_wiped && !black_wiped;
            &&& healthy && red_wiped ==> env.game_over(moves_empty) == (true, false, Some(-1i32))
            &&& healthy && !red_wiped && black_wiped ==> env.game_over(moves_empty) == (true, false, Some(1i32))
            &&& alive && moves_empty && env.current_player == Player::Black ==> env.game_over(moves_empty)
                == (true, false, Some(1i32))
            &&& alive && moves_empty && env.current_player == Player::Red ==> env.game_over(moves_empty)
                == (true, false, Some(-1i32))
            &&& alive && !moves_empty && env.move_counter >= env.config.max_consecutive_moves_for_draw
                ==> env.game_over(moves_empty) == (true, false, Some(0i32))
            &&& alive && !moves_empty && env.move_counter < env.config.max_consecutive_moves_for_draw
                && env.total_step_counter >= env.config.max_steps_per_episode ==> env.game_over(moves_empty)
                == (false, true, Some(0i32))
            &&& alive && !moves_empty && env.move_counter < env.config.max_consecutive_moves_for_draw
                && env.total_step_counter < env.config.max_steps_per_episode ==> env.game_over(moves_empty)
                == (false, false, None::<i32>)
        }),
{
}

/// The legal action indices below `k` are exactly the actions below `k` whose mask
/// entry is set, in ascending order.
pub proof fn law_legal_indices(env: DarkChessEnv, player: Player, k: int)
    requires
        0 <= k <= usize::MAX,
    ensures
        forall|j: int|
            0 <= j < k ==> (env.legal_indices_upto(player, k).contains(j as usize) <==> #[trigger] env.mask_value(
                player,
                j,
            ) == 1),
        forall|i: int| 0 <= i < env.legal_indices_upto(player, k).len() ==> #[trigger] env.legal_indices_upto(player, k)[i] < k,
        forall|i: int, j: int|
            0 <= i < j < env.legal_indices_upto(player, k).len() ==> #[trigger] env.legal_indices_upto(player, k)[i]
                < #[trigger] env.legal_indices_upto(player, k)[j],
    decreases k,
{
    if k > 0 {
        law_legal_indices(env, player, k - 1);
        let prev = env.legal_indices_upto(player, k - 1);
        let cur = env.legal_indices_upto(player, k);
        if env.action_legal(player, k - 1) {
            assert(cur == prev.push((k - 1) as usize));
            assert forall|j: int| 0 <= j < k implies (cur.contains(j as usize) <==> #[trigger] env.mask_value(player, j) == 1) by {
                if j < k - 1 {
                    if cur.contains(j as usize) {
                        let i = choose|i: int| 0 <= i < cur.len() && cur[i] == j as usize;
                        if i < prev.len() {
                            assert(prev[i] == j as usize);
                        }
                    }
                    if prev.contains(j as usize) {
                        let i = choose|i: int| 0 <= i < prev.len() && prev[i] == j as usize;
                        assert(cur[i] == j as usize);
                    }
                } else {
                    assert(cur[prev.len() as int] == j as usize);
                }
            }
        } else {
            assert(cur =~= prev);
            assert forall|j: int| 0 <= j < k implies (cur.contains(j as usize) <==> #[trigger] env.mask_value(player, j) == 1) by {
                if j == k - 1 && cur.contains(j as usize) {
                    let i = choose|i: int| 0 <= i < cur.len() && cur[i] == j as usize;
                    assert(prev[i] < k - 1);
                }
            }
        }
    }
}

} // verus!
