//! Game rules: legal action masks, structured move generation and game-over detection.

use vstd::prelude::*;

use super::actions::{
    action_lookup_tables, action_table, cannon_section, col_entry, col_shots_upto, dir_entry,
    move_section, moves_from_upto, reveal_section, row_entry, row_shots_upto, shots_from,
    step_target, lemma_table_sizes, step_target_exec, lemma_table_entries,
};
use super::board::{bit_set, slot_is_revealed_of, ull, DarkChessEnv};
use super::config::{config_wf, lemma_config_facts, type_active, GameConfig};
use super::types::{
    player_idx, player_opposite, player_val, type_index, Move, PieceType, Player, Slot,
};

verus! {

/// Number of occupied squares among `len` squares starting at `pos`, `step` apart.
pub open spec fn count_line(board: Seq<Slot>, pos: int, step: int, len: int) -> nat
    decreases len,
{
    if len <= 0 {
        0
    } else {
        (if board[pos] is Empty { 0nat } else { 1nat }) + count_line(board, pos + step, step, len - 1)
    }
}

/// Number of occupied squares strictly between two squares of one row or column.
#[verifier::opaque]
pub open spec fn pieces_between(board: Seq<Slot>, cols: int, from: int, to: int) -> nat {
    let lo = if from < to { from } else { to };
    let hi = if from < to { to } else { from };
    if from / cols == to / cols {
        count_line(board, lo + 1, 1, hi - lo - 1)
    } else {
        count_line(board, lo + cols, cols, (hi - lo) / cols - 1)
    }
}

impl DarkChessEnv {
    /// Whether a piece of kind `mover` may take a revealed enemy piece of kind `victim`
    /// by a one-step move: kinds in play of equal or lower rank, except that the
    /// soldier takes only soldiers and the general, and the general never takes a soldier.
    pub open spec fn captures(&self, mover: PieceType, victim: PieceType) -> bool {
        if mover == PieceType::Soldier {
            victim == PieceType::Soldier || victim == PieceType::General
        } else if mover == PieceType::General {
            type_active(self.config, type_index(victim)) && victim != PieceType::Soldier
        } else {
            type_active(self.config, type_index(victim)) && type_index(victim) <= type_index(mover)
        }
    }

    /// A one-step move of `player` from `from` to `to` is legal: a revealed own piece
    /// of a kind in play, not a cannon, onto an empty square or onto an enemy piece it
    /// captures. Face-down squares are never move targets.
    pub open spec fn move_legal(&self, player: Player, from: int, to: int) -> bool {
        match self.board@[from] {
            Slot::Revealed(p) => {
                &&& p.player == player
                &&& p.piece_type != PieceType::Cannon
                &&& type_active(self.config, type_index(p.piece_type))
                &&& match self.board@[to] {
                    Slot::Empty => true,
                    Slot::Hidden => false,
                    Slot::Revealed(q) => q.player != player && self.captures(p.piece_type, q.piece_type),
                }
            },
            _ => false,
        }
    }

    /// A cannon shot of `player` from `from` to `to` is legal: an own revealed cannon,
    /// exactly one piece (the screen) strictly between, and a target that is face down
    /// or an enemy piece.
    pub open spec fn cannon_legal(&self, player: Player, from: int, to: int) -> bool {
        match self.board@[from] {
            Slot::Revealed(p) => {
                &&& p.player == player
                &&& p.piece_type == PieceType::Cannon
                &&& !(self.board@[to] is Empty)
                &&& !slot_is_revealed_of(self.board@[to], player_idx(player))
                &&& pieces_between(self.board@, self.config.cols as int, from, to) == 1
            },
            _ => false,
        }
    }

    /// Legality of the action at index `a` whose square list is `e`, where the table has
    /// `n` flips followed by `m` moves and then the cannon shots.
    pub open spec fn entry_legal(&self, player: Player, a: int, e: Seq<usize>, n: int, m: int) -> bool {
        if a < n {
            self.board@[e[0] as int] is Hidden
        } else if a < n + m {
            self.move_legal(player, e[0] as int, e[1] as int)
        } else {
            self.cannon_legal(player, e[0] as int, e[1] as int)
        }
    }

    /// The action at index `a` is legal for `player`.
    pub open spec fn action_legal(&self, player: Player, a: int) -> bool {
        let rows = self.config.rows as int;
        let cols = self.config.cols as int;
        let n = self.config.total_positions as int;
        let table = action_table(rows, cols);
        &&& 0 <= a < table.len()
        &&& self.entry_legal(player, a, table[a], n, move_section(rows, cols, n).len() as int)
    }

    /// The value of a legal action mask entry.
    pub open spec fn mask_value(&self, player: Player, a: int) -> i32 {
        if self.action_legal(player, a) { 1 } else { 0 }
    }

    /// `player` has at least one legal action.
    pub open spec fn has_legal_action(&self, player: Player) -> bool {
        exists|a: int| self.action_legal(player, a)
    }

    /// Indices of the legal actions among the first `k`, ascending.
    pub open spec fn legal_indices_upto(&self, player: Player, k: int) -> Seq<usize>
        decreases k,
    {
        if k <= 0 {
            Seq::empty()
        } else {
            self.legal_indices_upto(player, k - 1) + if self.action_legal(player, k - 1) {
                seq![(k - 1) as usize]
            } else {
                Seq::empty()
            }
        }
    }

    /// The structured move of action `a`.
    pub open spec fn move_of(&self, player: Player, a: int) -> Move {
        let e = action_table(self.config.rows as int, self.config.cols as int)[a];
        if e.len() == 1 {
            Move { action: a as usize, from: e[0], to: e[0], is_chance: true, is_capture: false, is_flip: true }
        } else {
            let chance = self.board@[e[1] as int] is Hidden;
            Move {
                action: a as usize,
                from: e[0],
                to: e[1],
                is_chance: chance,
                is_capture: !chance && slot_is_revealed_of(
                    self.board@[e[1] as int],
                    player_idx(player_opposite(player)),
                ),
                is_flip: false,
            }
        }
    }

    /// Structured moves of the legal actions among the first `k`, ascending.
    pub open spec fn legal_moves_upto(&self, player: Player, k: int) -> Seq<Move>
        decreases k,
    {
        if k <= 0 {
            Seq::empty()
        } else {
            self.legal_moves_upto(player, k - 1) + if self.action_legal(player, k - 1) {
                seq![self.move_of(player, k - 1)]
            } else {
                Seq::empty()
            }
        }
    }

    /// Outcome `(terminated, truncated, winner)` of the position, given whether the
    /// side to move has no legal action. Checked in order: a side out of health, a
    /// side with every piece lost, no legal move (the opponent wins), the no-capture
    /// draw limit, and the step limit (truncation, scored as a draw).
    pub open spec fn game_over(&self, moves_empty: bool) -> (bool, bool, Option<i32>) {
        let c = self.config;
        if self.scores@[0] <= 0 {
            (true, false, Some(-1i32))
        } else if self.scores@[1] <= 0 {
            (true, false, Some(1i32))
        } else if self.dead_pieces_count@[0] == c.total_pieces_per_player {
            (true, false, Some(-1i32))
        } else if self.dead_pieces_count@[1] == c.total_pieces_per_player {
            (true, false, Some(1i32))
        } else if moves_empty {
            (true, false, Some(player_val(player_opposite(self.current_player)) as i32))
        } else if self.move_counter >= c.max_consecutive_moves_for_draw {
            (true, false, Some(0i32))
        } else if self.total_step_counter >= c.max_steps_per_episode {
            (false, true, Some(0i32))
        } else {
            (false, false, None)
        }
    }
}

/// The mask holds the legality of each action of the prefix `p` and zero elsewhere.
#[verifier::opaque]
pub open spec fn mask_matches(
    ms: Seq<i32>,
    env: DarkChessEnv,
    player: Player,
    p: Seq<Seq<usize>>,
    n: int,
    m: int,
) -> bool {
    forall|j: int|
        0 <= j < ms.len() ==> #[trigger] ms[j] == (if j < p.len() && env.entry_legal(
            player,
            j,
            p[j],
            n,
            m,
        ) {
            1i32
        } else {
            0i32
        })
}

/// Recording the legality of one more action keeps the mask matching.
proof fn lemma_mask_extend(
    old_ms: Seq<i32>,
    new_ms: Seq<i32>,
    env: DarkChessEnv,
    player: Player,
    p: Seq<Seq<usize>>,
    e: Seq<usize>,
    n: int,
    m: int,
    legal: bool,
)
    requires
        mask_matches(old_ms, env, player, p, n, m),
        p.len() < old_ms.len(),
        legal == env.entry_legal(player, p.len() as int, e, n, m),
        new_ms == (if legal { old_ms.update(p.len() as int, 1i32) } else { old_ms }),
    ensures
        mask_matches(new_ms, env, player, p.push(e), n, m),
{
    reveal(mask_matches);
    let q = p.push(e);
    assert(old_ms[p.len() as int] == 0i32);
    assert forall|j: int| 0 <= j < new_ms.len() implies #[trigger] new_ms[j] == (if j < q.len()
        && env.entry_legal(player, j, q[j], n, m) {
        1i32
    } else {
        0i32
    }) by {
        if j < p.len() {
            assert(q[j] == p[j]);
            assert(old_ms[j] == (if j < p.len() && env.entry_legal(player, j, p[j], n, m) { 1i32 } else { 0i32 }));
        } else if j > p.len() {
            assert(old_ms[j] == (if j < p.len() && env.entry_legal(player, j, p[j], n, m) { 1i32 } else { 0i32 }));
        }
    }
}

/// A cleared mask matches the empty prefix.
proof fn lemma_mask_empty(ms: Seq<i32>, env: DarkChessEnv, player: Player, n: int, m: int)
    requires
        forall|j: int| 0 <= j < ms.len() ==> ms[j] == 0,
    ensures
        mask_matches(ms, env, player, Seq::empty(), n, m),
{
    reveal(mask_matches);
}

/// A mask that matches the whole table holds each action's legality.
proof fn lemma_mask_full(ms: Seq<i32>, env: DarkChessEnv, player: Player)
    requires
        mask_matches(
            ms,
            env,
            player,
            action_table(env.config.rows as int, env.config.cols as int),
            env.config.total_positions as int,
            move_section(env.config.rows as int, env.config.cols as int, env.config.total_positions as int).len() as int,
        ),
    ensures
        forall|i: int| 0 <= i < ms.len() ==> #[trigger] ms[i] == env.mask_value(player, i),
{
    reveal(mask_matches);
}

proof fn lemma_move_section_mono(rows: int, cols: int, a: int, b: int)
    requires
        0 <= a <= b,
    ensures
        move_section(rows, cols, a).len() <= move_section(rows, cols, b).len(),
    decreases b - a,
{
    if a < b {
        lemma_move_section_mono(rows, cols, a, b - 1);
    }
}

proof fn lemma_cannon_section_mono(rows: int, cols: int, a: int, b: int)
    requires
        0 <= a <= b,
    ensures
        cannon_section(rows, cols, a).len() <= cannon_section(rows, cols, b).len(),
    decreases b - a,
{
    if a < b {
        lemma_cannon_section_mono(rows, cols, a, b - 1);
    }
}

proof fn lemma_moves_upto_mono(rows: int, cols: int, sq: int, a: int, b: int)
    requires
        0 <= a <= b,
    ensures
        moves_from_upto(rows, cols, sq, a).len() <= moves_from_upto(rows, cols, sq, b).len(),
    decreases b - a,
{
    if a < b {
        lemma_moves_upto_mono(rows, cols, sq, a, b - 1);
    }
}

proof fn lemma_row_shots_mono(cols: int, sq: int, a: int, b: int)
    requires
        0 <= a <= b,
    ensures
        row_shots_upto(cols, sq, a).len() <= row_shots_upto(cols, sq, b).len(),
    decreases b - a,
{
    if a < b {
        lemma_row_shots_mono(cols, sq, a, b - 1);
    }
}

proof fn lemma_col_shots_mono(cols: int, sq: int, a: int, b: int)
    requires
        0 <= a <= b,
    ensures
        col_shots_upto(cols, sq, a).len() <= col_shots_upto(cols, sq, b).len(),
    decreases b - a,
{
    if a < b {
        lemma_col_shots_mono(cols, sq, a, b - 1);
    }
}

impl DarkChessEnv {
    /// Exec form of `captures`.
    fn captures_exec(&self, mover: PieceType, victim: PieceType) -> (r: bool)
        requires
            config_wf(self.config),
        ensures
            r == self.captures(mover, victim),
    {
        proof {
            lemma_config_facts(self.config);
        }
        match mover {
            PieceType::Soldier => victim == PieceType::Soldier || victim == PieceType::General,
            PieceType::General => self.config.is_active_type(victim.index()) && victim
                != PieceType::Soldier,
            _ => self.config.is_active_type(victim.index()) && victim.index() <= mover.index(),
        }
    }

    /// Exec form of `move_legal`.
    fn move_legal_exec(&self, player: Player, from: usize, to: usize) -> (r: bool)
        requires
            config_wf(self.config),
            from < 32,
            to < 32,
        ensures
            r == self.move_legal(player, from as int, to as int),
    {
        proof {
            lemma_config_facts(self.config);
        }
        match self.board[from] {
            Slot::Revealed(p) => {
                if p.player != player || p.piece_type == PieceType::Cannon
                    || !self.config.is_active_type(p.piece_type.index()) {
                    return false;
                }
                match self.board[to] {
                    Slot::Empty => true,
                    Slot::Hidden => false,
                    Slot::Revealed(q) => q.player != player && self.captures_exec(p.piece_type, q.piece_type),
                }
            },
            _ => false,
        }
    }

    /// Counts the occupied squares among `len` squares from `start`, `step` apart.
    fn count_line_exec(&self, start: usize, step: usize, len: usize) -> (r: usize)
        requires
            step >= 1,
            start + len * step <= 32,
        ensures
            r == count_line(self.board@, start as int, step as int, len as int),
    {
        let mut cnt: usize = 0;
        let mut pos = start;
        let mut i: usize = 0;
        while i < len
            invariant
                step >= 1,
                i <= len,
                pos == start + i * step,
                start + len * step <= 32,
                cnt <= i,
                cnt + count_line(self.board@, pos as int, step as int, (len - i) as int)
                    == count_line(self.board@, start as int, step as int, len as int),
            decreases len - i,
        {
            proof {
                assert(pos + step <= start + len * step) by (nonlinear_arith)
                    requires
                        pos == start + i * step,
                        i < len,
                ;
            }
            match self.board[pos] {
                Slot::Empty => {},
                _ => {
                    cnt += 1;
                },
            }
            proof {
                assert(pos + step == start + (i + 1) * step) by (nonlinear_arith)
                    requires
                        pos == start + i * step,
                ;
            }
            pos += step;
            i += 1;
        }
        cnt
    }

    /// Exec form of `cannon_legal`, given the line of squares between the two ends.
    fn cannon_legal_exec(
        &self,
        player: Player,
        from: usize,
        to: usize,
        start: usize,
        step: usize,
        len: usize,
    ) -> (r: bool)
        requires
            from < 32,
            to < 32,
            step >= 1,
            start + len * step <= 32,
            pieces_between(self.board@, self.config.cols as int, from as int, to as int)
                == count_line(self.board@, start as int, step as int, len as int),
        ensures
            r == self.cannon_legal(player, from as int, to as int),
    {
        match self.board[from] {
            Slot::Revealed(p) => {
                if p.player != player || p.piece_type != PieceType::Cannon {
                    return false;
                }
                let target_ok = match self.board[to] {
                    Slot::Empty => false,
                    Slot::Hidden => true,
                    Slot::Revealed(q) => q.player != player,
                };
                target_ok && self.count_line_exec(start, step, len) == 1
            },
            _ => false,
        }
    }

    /// Writes the legal action mask of `player` into `mask` (1 for a legal action, 0
    /// otherwise; entries past the action space are cleared too).
    pub fn get_action_masks_for_player_into(&self, player: Player, mask: &mut [i32])
        requires
            self.wf(),
            old(mask)@.len() >= self.config.action_space_size,
        ensures
            final(mask)@.len() == old(mask)@.len(),
            forall|i: int| 0 <= i < final(mask)@.len() ==> #[trigger] final(mask)@[i] == self.mask_value(player, i),
    {
        proof {
            lemma_config_facts(self.config);
            lemma_table_sizes(self.config);
        }
        let rows = self.config.rows;
        let cols = self.config.cols;
        let n = self.config.total_positions;
        let ghost ri = rows as int;
        let ghost ci = cols as int;
        let ghost m = move_section(ri, ci, n as int).len() as int;
        let len = mask.len();
        let mut i: usize = 0;
        while i < len
            invariant
                len == mask@.len(),
                i <= len,
                forall|j: int| 0 <= j < i ==> mask@[j] == 0,
            decreases len - i,
        {
            mask[i] = 0;
            i += 1;
        }
        proof {
            lemma_move_section_mono(ri, ci, 0, n as int);
            lemma_mask_empty(mask@, *self, player, n as int, m);
            assert(reveal_section(0) =~= Seq::<Seq<usize>>::empty());
        }
        let mut idx: usize = 0;

        // 1. Flips: every face-down square.
        let mut sq: usize = 0;
        while sq < n
            invariant
                self.wf(),
                len == mask@.len(),
                len >= self.config.action_space_size,
                self.config.action_space_size == n + m + cannon_section(ri, ci, n as int).len(),
                n == self.config.total_positions,
                n <= 32,
                sq <= n,
                idx == sq,
                mask_matches(mask@, *self, player, reveal_section(sq as int), n as int, m),
            decreases n - sq,
        {
            let ghost old_ms = mask@;
            let ghost p = reveal_section(sq as int);
            let hidden = match self.board[sq] {
                Slot::Hidden => true,
                _ => false,
            };
            if hidden {
                mask[idx] = 1;
            }
            proof {
                lemma_mask_extend(old_ms, mask@, *self, player, p, seq![sq], n as int, m, hidden);
                assert(reveal_section(sq + 1) =~= p.push(seq![sq]));
            }
            idx += 1;
            sq += 1;
        }

        // 2. One-step moves.
        let mut sq: usize = 0;
        while sq < n
            invariant
                self.wf(),
                1 <= rows <= 8,
                1 <= cols <= 8,
                rows == self.config.rows,
                cols == self.config.cols,
                n == rows * cols,
                n == self.config.total_positions,
                n <= 32,
                sq <= n,
                len == mask@.len(),
                len >= self.config.action_space_size,
                self.config.action_space_size == n + m + cannon_section(ri, ci, n as int).len(),
                m == move_section(ri, ci, n as int).len(),
                ri == rows,
                ci == cols,
                idx == n + move_section(ri, ci, sq as int).len(),
                mask_matches(mask@, *self, player, reveal_section(n as int) + move_section(ri, ci, sq as int), n as int, m),
            decreases n - sq,
        {
            proof {
                lemma_move_section_mono(ri, ci, sq as int + 1, n as int);
            }
            let mut d: usize = 0;
            while d < 4
                invariant
                    self.wf(),
                    1 <= rows <= 8,
                    1 <= cols <= 8,
                    rows == self.config.rows,
                    cols == self.config.cols,
                    n == rows * cols,
                    n == self.config.total_positions,
                    n <= 32,
                    sq < n,
                    d <= 4,
                    len == mask@.len(),
                    len >= self.config.action_space_size,
                    self.config.action_space_size == n + m + cannon_section(ri, ci, n as int).len(),
                    m == move_section(ri, ci, n as int).len(),
                    move_section(ri, ci, sq as int + 1).len() <= m,
                    ri == rows,
                    ci == cols,
                    idx == n + move_section(ri, ci, sq as int).len() + moves_from_upto(ri, ci, sq as int, d as int).len(),
                    mask_matches(
                        mask@,
                        *self,
                        player,
                        reveal_section(n as int) + move_section(ri, ci, sq as int) + moves_from_upto(ri, ci, sq as int, d as int),
                        n as int,
                        m,
                    ),
                decreases 4 - d,
            {
                let ghost old_ms = mask@;
                let ghost p = reveal_section(n as int) + move_section(ri, ci, sq as int)
                    + moves_from_upto(ri, ci, sq as int, d as int);
                proof {
                    lemma_moves_upto_mono(ri, ci, sq as int, d as int + 1, 4);
                }
                match step_target_exec(rows, cols, sq, d) {
                    Some(to_sq) => {
                        let legal = self.move_legal_exec(player, sq, to_sq);
                        if legal {
                            mask[idx] = 1;
                        }
                        proof {
                            lemma_mask_extend(old_ms, mask@, *self, player, p, seq![sq, to_sq], n as int, m, legal);
                            assert(reveal_section(n as int) + move_section(ri, ci, sq as int)
                                + moves_from_upto(ri, ci, sq as int, d + 1) =~= p.push(seq![sq, to_sq]));
                        }
                        idx += 1;
                    },
                    None => {
                        proof {
                            assert(reveal_section(n as int) + move_section(ri, ci, sq as int)
                                + moves_from_upto(ri, ci, sq as int, d + 1) =~= p);
                        }
                    },
                }
                d += 1;
            }
            proof {
                assert(reveal_section(n as int) + move_section(ri, ci, sq + 1)
                    =~= reveal_section(n as int) + move_section(ri, ci, sq as int)
                    + moves_from_upto(ri, ci, sq as int, 4));
            }
            sq += 1;
        }

        // 3. Cannon shots.
        let ghost head = reveal_section(n as int) + move_section(ri, ci, n as int);
        proof {
            lemma_cannon_section_mono(ri, ci, 0, n as int);
        }
        let mut sq: usize = 0;
        while sq < n
            invariant
                self.wf(),
                1 <= rows <= 8,
                1 <= cols <= 8,
                rows == self.config.rows,
                cols == self.config.cols,
                n == rows * cols,
                n == self.config.total_positions,
                n <= 32,
                sq <= n,
                len == mask@.len(),
                len >= self.config.action_space_size,
                self.config.action_space_size == n + m + cannon_section(ri, ci, n as int).len(),
                m == move_section(ri, ci, n as int).len(),
                head == reveal_section(n as int) + move_section(ri, ci, n as int),
                ri == rows,
                ci == cols,
                idx == head.len() + cannon_section(ri, ci, sq as int).len(),
                mask_matches(mask@, *self, player, head + cannon_section(ri, ci, sq as int), n as int, m),
            decreases n - sq,
        {
            let r = sq / cols;
            let c = sq % cols;
            proof {
                assert(sq == cols * r + c && c < cols && r < rows) by (nonlinear_arith)
                    requires
                        r == sq / cols,
                        c == sq % cols,
                        cols >= 1,
                        sq < rows * cols,
                ;
                lemma_cannon_section_mono(ri, ci, sq as int + 1, n as int);
                vstd::arithmetic::div_mod::lemma_fundamental_div_mod_converse(sq as int, cols as int, r as int, c as int);
            }
            let ghost base = head + cannon_section(ri, ci, sq as int);
            idx = self.mark_shots_from(player, mask, sq, r, c, idx, Ghost(base), Ghost(m));
            proof {
                assert(head + cannon_section(ri, ci, sq + 1) =~= base + shots_from(ri, ci, sq as int));
            }
            sq += 1;
        }
        proof {
            let table = action_table(ri, ci);
            assert(head + cannon_section(ri, ci, n as int) =~= table);
            lemma_mask_full(mask@, *self, player);
        }
    }
}

impl DarkChessEnv {
    /// Marks the cannon shots of square `sq` (row, then column), which occupy the
    /// action indices from `idx` on.
    fn mark_shots_from(
        &self,
        player: Player,
        mask: &mut [i32],
        sq: usize,
        r: usize,
        c: usize,
        idx: usize,
        Ghost(base): Ghost<Seq<Seq<usize>>>,
        Ghost(m): Ghost<int>,
    ) -> (new_idx: usize)
        requires
            self.wf(),
            sq < self.config.total_positions,
            sq == self.config.cols * r + c,
            c < self.config.cols,
            r < self.config.rows,
            r == sq / self.config.cols,
            c == sq % self.config.cols,
            idx == base.len(),
            m >= 0,
            base.len() >= self.config.total_positions + m,
            base.len() + shots_from(self.config.rows as int, self.config.cols as int, sq as int).len()
                <= self.config.action_space_size,
            old(mask)@.len() >= self.config.action_space_size,
            mask_matches(old(mask)@, *self, player, base, self.config.total_positions as int, m),
        ensures
            final(mask)@.len() == old(mask)@.len(),
            new_idx == base.len() + shots_from(self.config.rows as int, self.config.cols as int, sq as int).len(),
            mask_matches(
                final(mask)@,
                *self,
                player,
                base + shots_from(self.config.rows as int, self.config.cols as int, sq as int),
                self.config.total_positions as int,
                m,
            ),
    {
        proof {
            lemma_config_facts(self.config);
        }
        let rows = self.config.rows;
        let cols = self.config.cols;
        let n = self.config.total_positions;
        let ghost ri = rows as int;
        let ghost ci = cols as int;
        let ghost ni = n as int;
        let mut idx = idx;
        proof {
            lemma_row_shots_mono(ci, sq as int, 0, ci);
            lemma_col_shots_mono(ci, sq as int, 0, ri);
            assert(base + row_shots_upto(ci, sq as int, 0) =~= base);
        }
        let mut c2: usize = 0;
        while c2 < cols
            invariant
                self.wf(),
                1 <= rows <= 8,
                1 <= cols <= 8,
                rows == self.config.rows,
                cols == self.config.cols,
                n == rows * cols,
                n == self.config.total_positions,
                n <= 32,
                sq < n,
                sq == cols * r + c,
                r < rows,
                c < cols,
                r == sq / cols,
                c == sq % cols,
                c2 <= cols,
                m >= 0,
                mask@.len() == old(mask)@.len(),
                mask@.len() >= self.config.action_space_size,
                base.len() >= ni + m,
                base.len() + row_shots_upto(ci, sq as int, ci).len() + col_shots_upto(ci, sq as int, ri).len()
                    <= self.config.action_space_size,
                ri == rows,
                ci == cols,
                ni == n,
                idx == base.len() + row_shots_upto(ci, sq as int, c2 as int).len(),
                mask_matches(mask@, *self, player, base + row_shots_upto(ci, sq as int, c2 as int), ni, m),
            decreases cols - c2,
        {
            let ghost old_ms = mask@;
            let ghost p = base + row_shots_upto(ci, sq as int, c2 as int);
            if c > c2 + 1 || c2 > c + 1 {
                proof {
                    lemma_row_shots_mono(ci, sq as int, c2 as int + 1, ci);
                    assert((r + 1) * cols <= n) by (nonlinear_arith)
                        requires
                            r < rows,
                            n == rows * cols,
                            cols >= 1,
                    ;
                }
                let to_sq = sq - c + c2;
                proof {
                    lemma_row_line(self.board@, ci, sq as int, to_sq as int, r as int, c as int, c2 as int, ni);
                }
                let (start, slen) = if c2 > c { (sq + 1, c2 - c - 1) } else { (to_sq + 1, c - c2 - 1) };
                let legal = self.cannon_legal_exec(player, sq, to_sq, start, 1, slen);
                if legal {
                    mask[idx] = 1;
                }
                proof {
                    lemma_mask_extend(old_ms, mask@, *self, player, p, seq![sq, to_sq], ni, m, legal);
                    assert(base + row_shots_upto(ci, sq as int, c2 + 1) =~= p.push(seq![sq, to_sq]));
                }
                idx += 1;
            } else {
                proof {
                    assert(base + row_shots_upto(ci, sq as int, c2 + 1) =~= p);
                }
            }
            c2 += 1;
        }
        let ghost base2 = base + row_shots_upto(ci, sq as int, ci);
        proof {
            assert(base2 + col_shots_upto(ci, sq as int, 0) =~= base2);
        }
        let mut r2: usize = 0;
        while r2 < rows
            invariant
                self.wf(),
                1 <= rows <= 8,
                1 <= cols <= 8,
                rows == self.config.rows,
                cols == self.config.cols,
                n == rows * cols,
                n == self.config.total_positions,
                n <= 32,
                sq < n,
                sq == cols * r + c,
                r < rows,
                c < cols,
                r == sq / cols,
                c == sq % cols,
                r2 <= rows,
                m >= 0,
                mask@.len() == old(mask)@.len(),
                mask@.len() >= self.config.action_space_size,
                base2.len() >= ni + m,
                base2.len() + col_shots_upto(ci, sq as int, ri).len() <= self.config.action_space_size,
                ri == rows,
                ci == cols,
                ni == n,
                idx == base2.len() + col_shots_upto(ci, sq as int, r2 as int).len(),
                mask_matches(mask@, *self, player, base2 + col_shots_upto(ci, sq as int, r2 as int), ni, m),
            decreases rows - r2,
        {
            let ghost old_ms = mask@;
            let ghost p = base2 + col_shots_upto(ci, sq as int, r2 as int);
            if r > r2 + 1 || r2 > r + 1 {
                proof {
                    lemma_col_shots_mono(ci, sq as int, r2 as int + 1, ri);
                    assert(r2 * cols + c < n) by (nonlinear_arith)
                        requires
                            r2 < rows,
                            c < cols,
                            n == rows * cols,
                    ;
                }
                let to_sq = r2 * cols + c;
                let (start, slen) = if r2 > r { (sq + cols, r2 - r - 1) } else { (to_sq + cols, r - r2 - 1) };
                proof {
                    lemma_col_line(self.board@, ci, sq as int, to_sq as int, r as int, r2 as int, c as int, ni);
                }
                let legal = self.cannon_legal_exec(player, sq, to_sq, start, cols, slen);
                if legal {
                    mask[idx] = 1;
                }
                proof {
                    lemma_mask_extend(old_ms, mask@, *self, player, p, seq![sq, to_sq], ni, m, legal);
                    assert(base2 + col_shots_upto(ci, sq as int, r2 + 1) =~= p.push(seq![sq, to_sq]));
                }
                idx += 1;
            } else {
                proof {
                    assert(base2 + col_shots_upto(ci, sq as int, r2 + 1) =~= p);
                }
            }
            r2 += 1;
        }
        proof {
            assert(base + shots_from(ri, ci, sq as int) =~= base2 + col_shots_upto(ci, sq as int, ri));
        }
        idx
    }
}

/// The squares strictly between two squares of one row.
proof fn lemma_row_line(board: Seq<Slot>, cols: int, sq: int, to: int, r: int, c: int, c2: int, n: int)
    requires
        1 <= cols,
        sq == cols * r + c,
        to == sq - c + c2,
        0 <= c < cols,
        0 <= c2 < cols,
        0 <= r,
        c > c2 + 1 || c2 > c + 1,
        sq < n,
        n <= 32,
        (r + 1) * cols <= n,
    ensures
        0 <= to < n,
        c2 > c ==> pieces_between(board, cols, sq, to) == count_line(board, sq + 1, 1, c2 - c - 1)
            && (sq + 1) + (c2 - c - 1) * 1 == to,
        c > c2 ==> pieces_between(board, cols, sq, to) == count_line(board, to + 1, 1, c - c2 - 1)
            && (to + 1) + (c - c2 - 1) * 1 == sq,
{
    reveal(pieces_between);
    assert(sq == r * cols + c) by (nonlinear_arith)
        requires
            sq == cols * r + c,
    ;
    vstd::arithmetic::div_mod::lemma_fundamental_div_mod_converse(sq, cols, r, c);
    vstd::arithmetic::div_mod::lemma_fundamental_div_mod_converse(to, cols, r, c2);
    assert(to < n) by (nonlinear_arith)
        requires
            to == r * cols + c2,
            c2 < cols,
            (r + 1) * cols <= n,
    ;
}

/// The squares strictly between two squares of one column, and the rows that index them.
proof fn lemma_col_line(board: Seq<Slot>, cols: int, sq: int, to: int, r: int, r2: int, c: int, n: int)
    requires
        1 <= cols,
        sq == cols * r + c,
        to == r2 * cols + c,
        0 <= c < cols,
        0 <= r,
        0 <= r2,
        r > r2 + 1 || r2 > r + 1,
        sq < n,
        to < n,
    ensures
        r2 > r ==> pieces_between(board, cols, sq, to) == count_line(board, sq + cols, cols, r2 - r - 1)
            && (sq + cols) + (r2 - r - 1) * cols == to,
        r > r2 ==> pieces_between(board, cols, sq, to) == count_line(board, to + cols, cols, r - r2 - 1)
            && (to + cols) + (r - r2 - 1) * cols == sq,
{
    reveal(pieces_between);
    assert(sq == r * cols + c) by (nonlinear_arith)
        requires
            sq == cols * r + c,
    ;
    vstd::arithmetic::div_mod::lemma_fundamental_div_mod_converse(sq, cols, r, c);
    vstd::arithmetic::div_mod::lemma_fundamental_div_mod_converse(to, cols, r2, c);
    if r2 > r {
        assert(to - sq == (r2 - r) * cols) by (nonlinear_arith)
            requires
                sq == cols * r + c,
                to == r2 * cols + c,
        ;
        vstd::arithmetic::div_mod::lemma_fundamental_div_mod_converse(to - sq, cols, r2 - r, 0);
        assert((sq + cols) + (r2 - r - 1) * cols == to) by (nonlinear_arith)
            requires
                to - sq == (r2 - r) * cols,
        ;
    } else {
        assert(sq - to == (r - r2) * cols) by (nonlinear_arith)
            requires
                sq == cols * r + c,
                to == r2 * cols + c,
        ;
        vstd::arithmetic::div_mod::lemma_fundamental_div_mod_converse(sq - to, cols, r - r2, 0);
        assert((to + cols) + (r - r2 - 1) * cols == sq) by (nonlinear_arith)
            requires
                sq - to == (r - r2) * cols,
        ;
    }
}

/// Bit `sq` of `b` is set exactly when `b` shares a bit with the single-square board of `sq`.
proof fn lemma_and_single(b: u64, sq: u64)
    requires
        sq < 64,
    ensures
        ((b & (1u64 << sq)) != 0) <==> ((b >> sq) & 1u64 == 1u64),
{
    assert(((b & (1u64 << sq)) != 0) <==> ((b >> sq) & 1u64 == 1u64)) by (bit_vector)
        requires
            sq < 64,
    ;
}

impl DarkChessEnv {
    /// Writes the legal action mask of the player to move into `mask`.
    pub fn action_masks_into(&self, mask: &mut [i32])
        requires
            self.wf(),
            old(mask)@.len() >= self.config.action_space_size,
        ensures
            final(mask)@.len() == old(mask)@.len(),
            forall|i: int| 0 <= i < final(mask)@.len() ==> #[trigger] final(mask)@[i] == self.mask_value(self.current_player, i),
    {
        self.get_action_masks_for_player_into(self.get_current_player(), mask);
    }

    /// The legal action mask of the player to move (one entry per action).
    pub fn action_masks(&self) -> (r: Vec<i32>)
        requires
            self.wf(),
        ensures
            r@.len() == self.config.action_space_size,
            forall|i: int| 0 <= i < r@.len() ==> #[trigger] r@[i] == self.mask_value(self.current_player, i),
    {
        let mut mask = vec![0i32; self.config.action_space_size];
        self.action_masks_into(mask.as_mut_slice());
        mask
    }

    /// Indices of the legal actions of the player to move, ascending.
    pub fn legal_action_indices(&self) -> (r: Vec<usize>)
        requires
            self.wf(),
        ensures
            r@ == self.legal_indices_upto(self.current_player, self.config.action_space_size as int),
    {
        let a_count = self.config.action_space_size;
        let mut mask = vec![0i32; a_count];
        self.action_masks_into(mask.as_mut_slice());
        let mut out: Vec<usize> = Vec::new();
        let mut i: usize = 0;
        while i < a_count
            invariant
                mask@.len() == a_count,
                i <= a_count,
                forall|j: int| 0 <= j < mask@.len() ==> #[trigger] mask@[j] == self.mask_value(self.current_player, j),
                out@ == self.legal_indices_upto(self.current_player, i as int),
            decreases a_count - i,
        {
            if mask[i] == 1 {
                out.push(i);
            }
            i += 1;
        }
        out
    }

    /// Structured moves of `player`: the legal actions in ascending order, each with its
    /// squares and whether it is a flip, a shot at a face-down piece, or a capture of a
    /// revealed enemy piece.
    pub fn generate_moves(&self, player: Player) -> (r: Vec<Move>)
        requires
            self.wf(),
        ensures
            r@ == self.legal_moves_upto(player, self.config.action_space_size as int),
    {
        proof {
            lemma_config_facts(self.config);
            lemma_table_sizes(self.config);
            lemma_table_entries(self.config.rows as int, self.config.cols as int);
        }
        let cfg = self.config;
        let a_count = cfg.action_space_size;
        let mut mask = vec![0i32; a_count];
        self.get_action_masks_for_player_into(player, mask.as_mut_slice());
        let lookup = action_lookup_tables(&cfg);
        let hidden_bb = self.hidden_bitboard;
        let opp_revealed_bb = self.revealed_bitboards[player.opposite().idx()];
        let ghost table = action_table(cfg.rows as int, cfg.cols as int);
        let mut out: Vec<Move> = Vec::new();
        let mut a: usize = 0;
        while a < a_count
            invariant
                self.wf(),
                cfg == self.config,
                a_count == cfg.action_space_size,
                table == action_table(cfg.rows as int, cfg.cols as int),
                table.len() == a_count,
                a_count <= 352,
                cfg.total_positions <= 32,
                cfg.total_positions == cfg.rows * cfg.cols,
                forall|b: int|
                    0 <= b < table.len() ==> {
                        let e = #[trigger] table[b];
                        &&& b < cfg.rows * cfg.cols ==> e.len() == 1 && e[0] == b
                        &&& b >= cfg.rows * cfg.cols ==> e.len() == 2 && e[0] < cfg.rows * cfg.cols && e[1] < cfg.rows * cfg.cols
                    },
                lookup.describes(cfg.rows as int, cfg.cols as int),
                hidden_bb == self.hidden_bitboard,
                opp_revealed_bb == self.revealed_bitboards@[player_idx(player_opposite(player)) as int],
                mask@.len() == a_count,
                a <= a_count,
                forall|j: int| 0 <= j < mask@.len() ==> #[trigger] mask@[j] == self.mask_value(player, j),
                out@ == self.legal_moves_upto(player, a as int),
            decreases a_count - a,
        {
            let ghost before = out@;
            if mask[a] == 1 {
                let coords = &lookup.action_to_coords[a];
                assert(coords@ == table[a as int]);
                if coords.len() == 1 {
                    out.push(Move {
                        action: a,
                        from: coords[0],
                        to: coords[0],
                        is_chance: true,
                        is_capture: false,
                        is_flip: true,
                    });
                } else {
                    let from = coords[0];
                    let to = coords[1];
                    let is_chance = (hidden_bb & ull(to)) != 0;
                    let is_opp = (opp_revealed_bb & ull(to)) != 0;
                    proof {
                        lemma_and_single(hidden_bb, to as u64);
                        lemma_and_single(opp_revealed_bb, to as u64);
                        assert(is_chance == bit_set(self.hidden_bitboard, to as int));
                        assert(is_chance == (self.board@[to as int] is Hidden));
                        let oi = player_idx(player_opposite(player)) as int;
                        assert(is_opp == bit_set(self.revealed_bitboards@[oi], to as int));
                        assert(is_opp == slot_is_revealed_of(self.board@[to as int], oi as nat));
                    }
                    out.push(Move {
                        action: a,
                        from,
                        to,
                        is_chance,
                        is_capture: !is_chance && is_opp,
                        is_flip: false,
                    });
                }
            }
            proof {
                if self.action_legal(player, a as int) {
                    assert(out@ =~= before.push(self.move_of(player, a as int)));
                } else {
                    assert(out@ =~= before);
                }
            }
            a += 1;
        }
        out
    }

    /// Game-over check given whether the side to move has no legal action (callers
    /// that already generated moves pass `moves.is_empty()`). Returns
    /// `(terminated, truncated, winner)` with the winner as `1` (Red), `-1` (Black) or
    /// `0` (draw).
    pub fn check_game_over_with_moves(&self, moves_empty: bool) -> (r: (bool, bool, Option<i32>))
        ensures
            r == self.game_over(moves_empty),
    {
        let cfg = &self.config;
        if self.get_score(Player::Red) <= 0 {
            return (true, false, Some(Player::Black.val()));
        }
        if self.get_score(Player::Black) <= 0 {
            return (true, false, Some(Player::Red.val()));
        }
        if self.dead_pieces_count[0] == cfg.total_pieces_per_player {
            return (true, false, Some(Player::Black.val()));
        }
        if self.dead_pieces_count[1] == cfg.total_pieces_per_player {
            return (true, false, Some(Player::Red.val()));
        }
        if moves_empty {
            return (true, false, Some(self.get_current_player().opposite().val()));
        }
        if self.get_move_counter() >= cfg.max_consecutive_moves_for_draw {
            return (true, false, Some(0));
        }
        if self.get_total_steps() >= cfg.max_steps_per_episode {
            return (false, true, Some(0));
        }
        (false, false, None)
    }

    /// Game-over check of the current position: `(terminated, truncated, winner)`.
    pub fn check_game_over_conditions(&self) -> (r: (bool, bool, Option<i32>))
        requires
            self.wf(),
        ensures
            r == self.game_over(!self.has_legal_action(self.current_player)),
    {
        let a_count = self.config.action_space_size;
        let mut masks = vec![0i32; a_count];
        self.get_action_masks_for_player_into(self.get_current_player(), masks.as_mut_slice());
        let mut moves_empty = true;
        let mut i: usize = 0;
        while i < a_count
            invariant
                masks@.len() == a_count,
                i <= a_count,
                forall|j: int| 0 <= j < masks@.len() ==> #[trigger] masks@[j] == self.mask_value(self.current_player, j),
                moves_empty == (forall|j: int| 0 <= j < i ==> masks@[j] == 0),
            decreases a_count - i,
        {
            if masks[i] != 0 {
                moves_empty = false;
            }
            i += 1;
        }
        proof {
            lemma_config_facts(self.config);
            lemma_table_sizes(self.config);
            if moves_empty {
                assert forall|a: int| !self.action_legal(self.current_player, a) by {
                    if 0 <= a < a_count {
                        assert(masks@[a] == 0);
                    }
                }
            } else {
                let j = choose|j: int| 0 <= j < a_count && masks@[j] != 0;
                assert(self.action_legal(self.current_player, j));
            }
        }
        self.check_game_over_with_moves(moves_empty)
    }
}

/// The structured moves list exactly the legal actions, in the same order: their
/// actions are the indices the legal action mask marks. Each listed move is legal, and
/// its flags agree: a flip is a chance move onto its own square, and a capture is never
/// a chance move.
pub proof fn law_moves_match_mask(env: DarkChessEnv, player: Player, k: int)
    requires
        0 <= k <= usize::MAX,
    ensures
        env.legal_moves_upto(player, k).map_values(|m: Move| m.action) == env.legal_indices_upto(player, k),
        forall|i: int| 0 <= i < env.legal_moves_upto(player, k).len() ==> {
            let m = #[trigger] env.legal_moves_upto(player, k)[i];
            &&& env.action_legal(player, m.action as int)
            &&& m.is_flip ==> m.is_chance && m.from == m.to
            &&& m.is_capture ==> !m.is_chance
        },
    decreases k,
{
    if k > 0 {
        law_moves_match_mask(env, player, k - 1);
        let prev = env.legal_moves_upto(player, k - 1);
        let cur = env.legal_moves_upto(player, k);
        if env.action_legal(player, k - 1) {
            let m = env.move_of(player, k - 1);
            assert(cur == prev + seq![m]);
            assert(m.action == (k - 1) as usize);
            assert(cur.map_values(|m: Move| m.action) =~= prev.map_values(|m: Move| m.action) + seq![(k - 1) as usize]);
            assert forall|i: int| 0 <= i < cur.len() implies {
                let mm = #[trigger] cur[i];
                &&& env.action_legal(player, mm.action as int)
                &&& mm.is_flip ==> mm.is_chance && mm.from == mm.to
                &&& mm.is_capture ==> !mm.is_chance
            } by {
                if i < prev.len() {
                    assert(cur[i] == prev[i]);
                }
            }
        } else {
            assert(cur =~= prev);
            assert(env.legal_indices_upto(player, k) =~= env.legal_indices_upto(player, k - 1));
        }
    } else {
        assert(env.legal_moves_upto(player, k).map_values(|m: Move| m.action) =~= Seq::<usize>::empty());
    }
}

} // verus!
