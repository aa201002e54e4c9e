//! The dark chess environment state, its well-formedness, constructors and accessors.

use rand::Rng;
use vstd::prelude::*;

use super::config::{
    config_wf, darkchess_config, game_4x4_config, lemma_config_facts, mini_config, spec_config,
    type_active, GameConfig, Variant,
};
use super::types::{
    player_idx, player_opposite, type_index, type_of_index, Piece, PieceType, Player, Slot,
};

verus! {

/// Whether bit `sq` of a bitboard is set.
pub open spec fn bit_set(b: u64, sq: int) -> bool {
    (b >> (sq as u64)) & 1u64 == 1u64
}

/// The single-square bitboard of `sq`.
pub open spec fn spec_ull(sq: int) -> u64 {
    1u64 << (sq as u64)
}

/// The bitboard of square `sq` alone.
pub fn ull(sq: usize) -> (r: u64)
    requires
        sq < 64,
    ensures
        r == spec_ull(sq as int),
        forall|i: int| 0 <= i < 64 ==> (#[trigger] bit_set(r, i) <==> i == sq),
{
    proof {
        assert forall|i: int| 0 <= i < 64 implies (#[trigger] bit_set(1u64 << (sq as u64), i) <==> i == sq) by {
            lemma_bit_of_single(sq as u64, i as u64);
        }
    }
    1u64 << (sq as u64)
}

pub proof fn lemma_bit_of_single(sq: u64, i: u64)
    requires
        sq < 64,
        i < 64,
    ensures
        (((1u64 << sq) >> i) & 1u64 == 1u64) <==> i == sq,
{
    assert((((1u64 << sq) >> i) & 1u64 == 1u64) <==> i == sq) by (bit_vector)
        requires
            sq < 64,
            i < 64,
    ;
}

/// Setting bit `sq` changes that bit only.
pub proof fn lemma_bit_or_single(b: u64, sq: u64, i: u64)
    requires
        sq < 64,
        i < 64,
    ensures
        (((b | (1u64 << sq)) >> i) & 1u64 == 1u64) <==> (i == sq || ((b >> i) & 1u64 == 1u64)),
{
    assert((((b | (1u64 << sq)) >> i) & 1u64 == 1u64) <==> (i == sq || ((b >> i) & 1u64 == 1u64)))
        by (bit_vector)
        requires
            sq < 64,
            i < 64,
    ;
}

/// Clearing bit `sq` changes that bit only.
pub proof fn lemma_bit_clear_single(b: u64, sq: u64, i: u64)
    requires
        sq < 64,
        i < 64,
    ensures
        (((b & !(1u64 << sq)) >> i) & 1u64 == 1u64) <==> (i != sq && ((b >> i) & 1u64 == 1u64)),
{
    assert((((b & !(1u64 << sq)) >> i) & 1u64 == 1u64) <==> (i != sq && ((b >> i) & 1u64 == 1u64)))
        by (bit_vector)
        requires
            sq < 64,
            i < 64,
    ;
}

/// An index below `bound` drawn by `rand::thread_rng().gen_range(0..bound)`. Trusted:
/// it is below `bound`; which one comes is chance.
#[verifier::external_body]
fn random_below(bound: usize) -> (r: usize)
    requires
        bound > 0,
    ensures
        r < bound,
{
    rand::thread_rng().gen_range(0..bound)
}

/// The face-up pieces of the first `k` squares, in square order.
pub open spec fn revealed_on(board: Seq<Slot>, k: int) -> Seq<Piece>
    decreases k,
{
    if k <= 0 {
        Seq::empty()
    } else {
        revealed_on(board, k - 1) + match board[k - 1] {
            Slot::Revealed(p) => seq![p],
            _ => Seq::empty(),
        }
    }
}

/// A board with no face-up square among the first `k` shows no piece there.
proof fn lemma_revealed_on_hidden(board: Seq<Slot>, k: int)
    requires
        forall|sq: int| 0 <= sq < k ==> #[trigger] board[sq] is Hidden,
    ensures
        revealed_on(board, k) =~= Seq::<Piece>::empty(),
    decreases k,
{
    if k > 0 {
        lemma_revealed_on_hidden(board, k - 1);
    }
}

/// Turning a face-down square up as `p` adds `p` to the face-up pieces of every prefix
/// that holds the square.
proof fn lemma_revealed_on_update(board: Seq<Slot>, sq: int, p: Piece, k: int)
    requires
        0 <= sq < board.len(),
        board[sq] is Hidden,
        k <= board.len(),
    ensures
        revealed_on(board.update(sq, Slot::Revealed(p)), k).len() == revealed_on(board, k).len() + (if sq < k { 1int } else { 0int }),
        revealed_on(board.update(sq, Slot::Revealed(p)), k).to_multiset() == (if sq < k {
            revealed_on(board, k).to_multiset().insert(p)
        } else {
            revealed_on(board, k).to_multiset()
        }),
    decreases k,
{
    broadcast use vstd::multiset::group_multiset_axioms;
    broadcast use vstd::seq_lib::lemma_multiset_commutative;

    let nb = board.update(sq, Slot::Revealed(p));
    if k > 0 {
        lemma_revealed_on_update(board, sq, p, k - 1);
        let tail_new = match nb[k - 1] {
            Slot::Revealed(q) => seq![q],
            _ => Seq::<Piece>::empty(),
        };
        let tail_old = match board[k - 1] {
            Slot::Revealed(q) => seq![q],
            _ => Seq::<Piece>::empty(),
        };
        assert(revealed_on(nb, k) == revealed_on(nb, k - 1) + tail_new);
        assert(revealed_on(board, k) == revealed_on(board, k - 1) + tail_old);
        seq![p].to_multiset_ensures();
        Seq::<Piece>::empty().to_multiset_ensures();
        if k - 1 == sq {
            assert(tail_new == seq![p]);
            assert(tail_old =~= Seq::<Piece>::empty());
            assert(seq![p].to_multiset() =~= vstd::multiset::Multiset::<Piece>::empty().insert(p)) by {
                assert(seq![p] =~= Seq::<Piece>::empty().push(p));
            }
            assert(revealed_on(board, k - 1).to_multiset().add(vstd::multiset::Multiset::<Piece>::empty().insert(p))
                =~= revealed_on(board, k - 1).to_multiset().insert(p));
            assert(revealed_on(board, k - 1).to_multiset().add(Seq::<Piece>::empty().to_multiset())
                =~= revealed_on(board, k - 1).to_multiset());
        } else {
            assert(tail_new == tail_old);
            if sq < k {
                assert(revealed_on(board, k - 1).to_multiset().insert(p).add(tail_old.to_multiset())
                    =~= revealed_on(board, k - 1).to_multiset().add(tail_old.to_multiset()).insert(p));
            }
        }
    }
}

/// The empty bitboard has no bit set.
pub proof fn lemma_bit_zero(i: u64)
    requires
        i < 64,
    ensures
        !((0u64 >> i) & 1u64 == 1u64),
{
    assert(!((0u64 >> i) & 1u64 == 1u64)) by (bit_vector)
        requires
            i < 64,
    ;
}

/// The dark chess environment. `Copy`, so that search trees can keep states by value;
/// all arrays are sized for the largest variant and trimmed by `config`.
#[derive(Clone, Copy, Debug)]
pub struct DarkChessEnv {
    pub config: GameConfig,
    /// Authoritative board; squares from `config.total_positions` on stay empty.
    pub board: [Slot; 32],
    /// Revealed pieces per `[player][kind]`.
    pub piece_bitboards: [[u64; 7]; 2],
    /// Revealed pieces per player.
    pub revealed_bitboards: [u64; 2],
    pub hidden_bitboard: u64,
    pub empty_bitboard: u64,
    pub current_player: Player,
    /// Consecutive moves without a capture or a flip.
    pub move_counter: usize,
    pub total_step_counter: usize,
    /// Health of Red and Black.
    pub scores: [i32; 2],
    /// The last action taken (`-1` before the first).
    pub last_action: i32,
    /// Face-down pieces not yet revealed (the first `hidden_pieces_count` entries).
    pub hidden_pieces_pool: [Piece; 32],
    pub hidden_pieces_count: usize,
    /// Lost pieces per player (the first `dead_pieces_count[p]` entries).
    pub dead_pieces_pool: [[PieceType; 16]; 2],
    pub dead_pieces_count: [usize; 2],
    /// Lost pieces per `[player][kind]`.
    pub dead_piece_counts_by_type: [[u8; 7]; 2],
    /// Seed of a reproducible game.
    pub seed: Option<u64>,
    /// Fixed layout of a seeded game (first `total_positions` entries).
    pub true_board: Option<[Piece; 32]>,
    /// The piece that the last flip turned up.
    pub last_revealed_piece: Option<Piece>,
}

/// Sum of the seven per-kind counts.
pub open spec fn count_sum(a: [u8; 7]) -> int {
    a@[0] + a@[1] + a@[2] + a@[3] + a@[4] + a@[5] + a@[6]
}

/// The slot of square `sq` holds a revealed piece of player index `p` (and of kind `t`).
pub open spec fn slot_is_revealed_of(s: Slot, p: nat) -> bool {
    match s {
        Slot::Revealed(pc) => player_idx(pc.player) == p,
        _ => false,
    }
}

pub open spec fn slot_is_piece_of(s: Slot, p: nat, t: nat) -> bool {
    match s {
        Slot::Revealed(pc) => player_idx(pc.player) == p && type_index(pc.piece_type) == t,
        _ => false,
    }
}

/// Pieces of one player, kinds in rank order, `counts[t]` copies of kind `t`,
/// for the first `t` kinds.
pub open spec fn player_bag(counts: Seq<u8>, player: Player, t: int) -> Seq<Piece>
    decreases t,
{
    if t <= 0 {
        Seq::empty()
    } else {
        player_bag(counts, player, t - 1) + Seq::new(
            counts[t - 1] as nat,
            |i: int| Piece { piece_type: type_of_index((t - 1) as nat), player },
        )
    }
}

/// The full set of pieces of a variant: Red's, then Black's, kinds in rank order.
pub open spec fn initial_bag(c: GameConfig) -> Seq<Piece> {
    player_bag(c.piece_counts@, Player::Red, 7) + player_bag(c.piece_counts@, Player::Black, 7)
}

impl DarkChessEnv {
    /// Number of squares in play.
    pub open spec fn n(&self) -> int {
        self.config.total_positions as int
    }

    /// The bitboards index exactly the board's contents.
    pub open spec fn bitboards_consistent(&self) -> bool {
        &&& forall|sq: int|
            0 <= sq < 64 ==> (#[trigger] bit_set(self.empty_bitboard, sq) <==> (sq < self.n()
                && self.board@[sq] is Empty))
        &&& forall|sq: int|
            0 <= sq < 64 ==> (#[trigger] bit_set(self.hidden_bitboard, sq) <==> (sq < self.n()
                && self.board@[sq] is Hidden))
        &&& forall|p: int, sq: int|
            0 <= p < 2 && 0 <= sq < 64 ==> (#[trigger] bit_set(self.revealed_bitboards@[p], sq)
                <==> (sq < self.n() && slot_is_revealed_of(self.board@[sq], p as nat)))
        &&& forall|p: int, t: int, sq: int|
            0 <= p < 2 && 0 <= t < 7 && 0 <= sq < 64 ==> (#[trigger] bit_set(
                self.piece_bitboards@[p]@[t],
                sq,
            ) <==> (sq < self.n() && slot_is_piece_of(self.board@[sq], p as nat, t as nat)))
    }

    /// Well-formedness: the invariant that constructors establish and operations keep.
    pub open spec fn wf(&self) -> bool {
        &&& config_wf(self.config)
        &&& forall|sq: int| self.n() <= sq < 32 ==> #[trigger] self.board@[sq] is Empty
        &&& self.bitboards_consistent()
        &&& self.hidden_pieces_count <= 32
        &&& forall|p: int|
            0 <= p < 2 ==> #[trigger] self.dead_pieces_count@[p] == count_sum(
                self.dead_piece_counts_by_type@[p],
            )
        &&& forall|p: int| 0 <= p < 2 ==> #[trigger] self.dead_pieces_count@[p] <= 16
        &&& self.move_counter <= self.config.max_steps_per_episode
        &&& self.total_step_counter <= self.config.max_steps_per_episode
    }

    /// The face-down pieces not yet revealed.
    pub open spec fn bag(&self) -> Seq<Piece> {
        self.hidden_pieces_pool@.subrange(0, self.hidden_pieces_count as int)
    }

    /// An environment with the given board and empty bookkeeping: zero bitboards
    /// and counters, full health, Red to move.
    pub(crate) fn fresh_with(
        config: GameConfig,
        board: [Slot; 32],
        seed: Option<u64>,
        true_board: Option<[Piece; 32]>,
    ) -> (env: Self)
        ensures
            env.config == config,
            env.board == board,
            env.seed == seed,
            env.true_board == true_board,
            env.empty_bitboard == 0,
            env.hidden_bitboard == 0,
            env.revealed_bitboards@ == seq![0u64, 0u64],
            forall|p: int, t: int| 0 <= p < 2 && 0 <= t < 7 ==> env.piece_bitboards@[p]@[t] == 0,
            env.current_player == Player::Red,
            env.move_counter == 0,
            env.total_step_counter == 0,
            env.scores@ == seq![config.initial_health, config.initial_health],
            env.last_action == -1,
            env.hidden_pieces_count == 0,
            env.dead_pieces_count@ == seq![0usize, 0usize],
            forall|p: int, t: int| 0 <= p < 2 && 0 <= t < 7 ==> env.dead_piece_counts_by_type@[p]@[t] == 0,
            env.last_revealed_piece is None,
    {
        let pieces = Piece { piece_type: PieceType::Soldier, player: Player::Red };
        DarkChessEnv {
            config,
            board,
            piece_bitboards: [[0u64, 0, 0, 0, 0, 0, 0], [0u64, 0, 0, 0, 0, 0, 0]],
            revealed_bitboards: [0u64, 0u64],
            hidden_bitboard: 0,
            empty_bitboard: 0,
            current_player: Player::Red,
            move_counter: 0,
            total_step_counter: 0,
            scores: [config.initial_health, config.initial_health],
            last_action: -1,
            hidden_pieces_pool: [pieces; 32],
            hidden_pieces_count: 0,
            dead_pieces_pool: [[PieceType::Soldier; 16]; 2],
            dead_pieces_count: [0usize, 0usize],
            dead_piece_counts_by_type: [[0u8, 0, 0, 0, 0, 0, 0], [0u8, 0, 0, 0, 0, 0, 0]],
            seed,
            true_board,
            last_revealed_piece: None,
        }
    }

    /// The start position of a variant: every square face down, all pieces in the
    /// bag, full health, Red to move.
    fn start_position(config: GameConfig) -> (env: Self)
        requires
            config_wf(config),
        ensures
            env.wf(),
            env.is_start_position(config),
            env.hidden_pieces_count == config.total_positions,
            env.last_revealed_piece is None,
    {
        proof {
            lemma_config_facts(config);
        }
        let n = config.total_positions;
        let mut board = [Slot::Empty; 32];
        let mut sq: usize = 0;
        while sq < 32
            invariant
                n == config.total_positions,
                n <= 32,
                sq <= 32,
                forall|i: int| 0 <= i < sq ==> (#[trigger] board@[i] is Hidden <==> i < n),
                forall|i: int| 0 <= i < sq && n <= i ==> #[trigger] board@[i] is Empty,
            decreases 32 - sq,
        {
            board[sq] = if sq < n { Slot::Hidden } else { Slot::Empty };
            sq += 1;
        }
        let mut env = Self::fresh_with(config, board, None, None);
        env.hidden_bitboard = low_bits(n);
        env.fill_initial_bag();
        proof {
            assert forall|i: int| 0 <= i < 64 implies !#[trigger] bit_set(0u64, i) by {
                lemma_bit_zero(i as u64);
            }
        }
        env
    }

    /// The start position of a variant, with `config.initial_revealed_pieces` pieces
    /// (at most every square) flipped face up at random: each flip turns a face-down
    /// square chosen at random up as a piece drawn at random from the bag.
    pub fn with_config(config: GameConfig) -> (env: Self)
        requires
            config_wf(config),
        ensures
            env.wf(),
            env.is_pre_revealed_start(config),
            config.initial_revealed_pieces == 0 ==> env.is_start_position(config),
    {
        proof {
            lemma_config_facts(config);
            lemma_initial_bag_len(config);
        }
        let mut env = Self::start_position(config);
        let n = config.total_positions;
        let k = if config.initial_revealed_pieces < n { config.initial_revealed_pieces } else { n };
        if k == 0 {
            proof {
                assert(revealed_on(env.board@, n as int).len() == 0) by {
                    lemma_revealed_on_hidden(env.board@, n as int);
                }
                assert(revealed_on(env.board@, n as int) =~= Seq::<Piece>::empty()) by {
                    lemma_revealed_on_hidden(env.board@, n as int);
                }
                assert(Seq::<Piece>::empty().to_multiset().add(env.bag().to_multiset()) =~= env.bag().to_multiset()) by {
                    broadcast use vstd::multiset::group_multiset_axioms;
                    Seq::<Piece>::empty().to_multiset_ensures();
                }
            }
            return env;
        }
        env.pre_reveal(k);
        env
    }

    /// The state right after a start with `config.initial_revealed_pieces` flips: the
    /// start position, except that that many squares (at most all of them) show a
    /// piece, the others are face down, and the face-up pieces and the bag together
    /// are the variant's pieces.
    pub open spec fn is_pre_revealed_start(&self, config: GameConfig) -> bool {
        let n = config.total_positions as int;
        let k = if config.initial_revealed_pieces < n { config.initial_revealed_pieces as int } else { n };
        &&& self.config == config
        &&& forall|sq: int| 0 <= sq < n ==> !(#[trigger] self.board@[sq] is Empty)
        &&& revealed_on(self.board@, n).len() == k
        &&& revealed_on(self.board@, n).to_multiset().add(self.bag().to_multiset())
            == initial_bag(config).to_multiset()
        &&& self.current_player == Player::Red
        &&& self.move_counter == 0
        &&& self.total_step_counter == 0
        &&& self.scores@ == seq![config.initial_health, config.initial_health]
        &&& self.last_action == -1
        &&& self.dead_pieces_count@ == seq![0usize, 0usize]
        &&& self.seed is None
        &&& self.true_board is None
    }

    /// Flips `k` face-down squares of a fresh start position, each chosen at random and
    /// turned up as a piece drawn at random from the bag.
    fn pre_reveal(&mut self, k: usize)
        requires
            old(self).wf(),
            old(self).is_start_position(old(self).config),
            old(self).hidden_pieces_count == old(self).config.total_positions,
            0 < k <= old(self).config.total_positions,
            k == (if old(self).config.initial_revealed_pieces < old(self).config.total_positions {
                old(self).config.initial_revealed_pieces
            } else {
                old(self).config.total_positions
            }),
        ensures
            final(self).wf(),
            final(self).is_pre_revealed_start(old(self).config),
    {
        proof {
            lemma_config_facts(self.config);
            lemma_initial_bag_len(self.config);
        }
        let ghost start = *self;
        let n = self.config.total_positions;
        let mut cands: Vec<usize> = Vec::new();
        let mut c: usize = 0;
        while c < n
            invariant
                n == start.config.total_positions,
                n <= 32,
                c <= n,
                cands@ == Seq::new(c as nat, |j: int| j as usize),
            decreases n - c,
        {
            cands.push(c);
            c += 1;
            proof {
                assert(cands@ =~= Seq::new(c as nat, |j: int| j as usize));
            }
        }
        proof {
            lemma_revealed_on_hidden(self.board@, n as int);
            assert(revealed_on(self.board@, n as int) =~= Seq::<Piece>::empty());
            broadcast use vstd::multiset::group_multiset_axioms;
            Seq::<Piece>::empty().to_multiset_ensures();
            assert(Seq::<Piece>::empty().to_multiset().add(self.bag().to_multiset()) =~= self.bag().to_multiset());
        }
        let mut i: usize = 0;
        while i < k
            invariant
                n == start.config.total_positions,
                n <= 32,
                k <= n,
                i <= k,
                self.wf(),
                *self == (DarkChessEnv {
                    board: self.board,
                    piece_bitboards: self.piece_bitboards,
                    revealed_bitboards: self.revealed_bitboards,
                    hidden_bitboard: self.hidden_bitboard,
                    empty_bitboard: self.empty_bitboard,
                    hidden_pieces_pool: self.hidden_pieces_pool,
                    hidden_pieces_count: self.hidden_pieces_count,
                    ..start
                }),
                self.hidden_pieces_count == n - i,
                cands@.len() == n - i,
                cands@.no_duplicates(),
                forall|j: int| 0 <= j < cands@.len() ==> #[trigger] cands@[j] < n && self.board@[cands@[j] as int] is Hidden,
                forall|sq: int| 0 <= sq < n ==> !(#[trigger] self.board@[sq] is Empty),
                revealed_on(self.board@, n as int).len() == i,
                revealed_on(self.board@, n as int).to_multiset().add(self.bag().to_multiset())
                    == initial_bag(start.config).to_multiset(),
            decreases k - i,
        {
            let j = random_below(cands.len());
            let ghost cands_before = cands@;
            let sq = cands.remove(j);
            let b = random_below(self.hidden_pieces_count);
            let ghost before = *self;
            let piece = self.take_from_bag(b);
            self.reveal_square(sq, piece);
            proof {
                broadcast use vstd::multiset::group_multiset_axioms;
                lemma_revealed_on_update(before.board@, sq as int, piece, n as int);
                before.bag().to_multiset_ensures();
                assert(before.bag().to_multiset().count(piece) > 0);
                let r0 = revealed_on(before.board@, n as int).to_multiset();
                let g0 = before.bag().to_multiset();
                assert(r0.insert(piece).add(g0.remove(piece)) =~= r0.add(g0));
                assert forall|a: int, bb: int| 0 <= a < cands@.len() && 0 <= bb < cands@.len() && a != bb
                    implies cands@[a] != cands@[bb] by {
                    let a2 = if a < j { a } else { a + 1 };
                    let b2 = if bb < j { bb } else { bb + 1 };
                    assert(cands@[a] == cands_before[a2]);
                    assert(cands@[bb] == cands_before[b2]);
                }
                assert forall|t: int| 0 <= t < cands@.len() implies #[trigger] cands@[t] < n && self.board@[cands@[t] as int] is Hidden by {
                    let t2 = if t < j { t } else { t + 1 };
                    assert(cands@[t] == cands_before[t2]);
                    assert(cands_before[t2] != cands_before[j as int]);
                }
            }
            i += 1;
        }
    }

    /// Removes and returns the bag entry at index `b`, keeping the others in order.
    fn take_from_bag(&mut self, b: usize) -> (p: Piece)
        requires
            b < old(self).hidden_pieces_count <= 32,
        ensures
            p == old(self).bag()[b as int],
            final(self).bag() == old(self).bag().remove(b as int),
            final(self).hidden_pieces_count == old(self).hidden_pieces_count - 1,
            *final(self) == (DarkChessEnv {
                hidden_pieces_pool: final(self).hidden_pieces_pool,
                hidden_pieces_count: final(self).hidden_pieces_count,
                ..*old(self)
            }),
    {
        let p = self.hidden_pieces_pool[b];
        let count = self.hidden_pieces_count;
        let mut t: usize = b;
        while t + 1 < count
            invariant
                b <= t < count,
                count == old(self).hidden_pieces_count,
                count <= 32,
                *self == (DarkChessEnv { hidden_pieces_pool: self.hidden_pieces_pool, ..*old(self) }),
                forall|q: int| 0 <= q < b ==> self.hidden_pieces_pool@[q] == old(self).hidden_pieces_pool@[q],
                forall|q: int| b <= q < t ==> self.hidden_pieces_pool@[q] == old(self).hidden_pieces_pool@[q + 1],
                forall|q: int| t <= q < 32 ==> self.hidden_pieces_pool@[q] == old(self).hidden_pieces_pool@[q],
            decreases count - t,
        {
            self.hidden_pieces_pool[t] = self.hidden_pieces_pool[t + 1];
            t += 1;
        }
        self.hidden_pieces_count = count - 1;
        proof {
            assert(self.bag() =~= old(self).bag().remove(b as int));
        }
        p
    }

    /// Turns the face-down square `sq` up as `p`, keeping the bitboards in step.
    fn reveal_square(&mut self, sq: usize, p: Piece)
        requires
            old(self).wf(),
            sq < old(self).config.total_positions,
            old(self).board@[sq as int] is Hidden,
        ensures
            final(self).wf(),
            final(self).board@ == old(self).board@.update(sq as int, Slot::Revealed(p)),
            *final(self) == (DarkChessEnv {
                board: final(self).board,
                piece_bitboards: final(self).piece_bitboards,
                revealed_bitboards: final(self).revealed_bitboards,
                hidden_bitboard: final(self).hidden_bitboard,
                ..*old(self)
            }),
    {
        proof {
            lemma_config_facts(self.config);
        }
        let mask = ull(sq);
        let ghost prev = *self;
        assert(mask == spec_ull(sq as int));
        self.board[sq] = Slot::Revealed(p);
        self.hidden_bitboard = self.hidden_bitboard & !mask;
        let pi = p.player.idx();
        let t = p.piece_type.index();
        self.revealed_bitboards[pi] = self.revealed_bitboards[pi] | mask;
        let mut row = self.piece_bitboards[pi];
        row[t] = row[t] | mask;
        self.piece_bitboards[pi] = row;
        proof {
            assert forall|q: int| 0 <= q < 64 implies (#[trigger] bit_set(self.empty_bitboard, q) <==> (q
                < self.n() && self.board@[q] is Empty)) by {
                assert(bit_set(prev.empty_bitboard, q) <==> (q < prev.n() && prev.board@[q] is Empty));
            }
            assert forall|q: int| 0 <= q < 64 implies (#[trigger] bit_set(self.hidden_bitboard, q) <==> (q
                < self.n() && self.board@[q] is Hidden)) by {
                lemma_bit_clear_single(prev.hidden_bitboard, sq as u64, q as u64);
                assert(bit_set(prev.hidden_bitboard, q) <==> (q < prev.n() && prev.board@[q] is Hidden));
            }
            assert forall|pp: int, q: int| 0 <= pp < 2 && 0 <= q < 64 implies (#[trigger] bit_set(
                self.revealed_bitboards@[pp],
                q,
            ) <==> (q < self.n() && slot_is_revealed_of(self.board@[q], pp as nat))) by {
                lemma_bit_or_single(prev.revealed_bitboards@[pp], sq as u64, q as u64);
                assert(bit_set(prev.revealed_bitboards@[pp], q) <==> (q < prev.n() && slot_is_revealed_of(
                    prev.board@[q],
                    pp as nat,
                )));
            }
            assert forall|pp: int, tt: int, q: int| 0 <= pp < 2 && 0 <= tt < 7 && 0 <= q < 64 implies (
            #[trigger] bit_set(self.piece_bitboards@[pp]@[tt], q) <==> (q < self.n() && slot_is_piece_of(
                self.board@[q],
                pp as nat,
                tt as nat,
            ))) by {
                lemma_bit_or_single(prev.piece_bitboards@[pp]@[tt], sq as u64, q as u64);
                assert(bit_set(prev.piece_bitboards@[pp]@[tt], q) <==> (q < prev.n() && slot_is_piece_of(
                    prev.board@[q],
                    pp as nat,
                    tt as nat,
                )));
            }
        }
    }

    /// The start position of the full 4x8 game.
    pub fn new() -> (env: Self)
        ensures
            env.wf(),
            env.is_start_position(spec_config(Variant::DarkChess4x8)),
    {
        Self::with_config(darkchess_config())
    }

    /// The start position of the 4x4 variant.
    pub fn new_4x4() -> (env: Self)
        ensures
            env.wf(),
            env.is_start_position(spec_config(Variant::DarkChess4x4)),
    {
        Self::with_config(game_4x4_config())
    }

    /// The start position of the 4x2 mini variant.
    pub fn new_mini() -> (env: Self)
        ensures
            env.wf(),
            env.is_start_position(spec_config(Variant::DarkChess4x2)),
    {
        Self::with_config(mini_config())
    }

    /// The state right after a reset: full board face down, full bag, nothing lost.
    pub open spec fn is_start_position(&self, config: GameConfig) -> bool {
        &&& self.config == config
        &&& forall|sq: int| 0 <= sq < config.total_positions ==> #[trigger] self.board@[sq] is Hidden
        &&& self.bag() == initial_bag(config)
        &&& self.current_player == Player::Red
        &&& self.move_counter == 0
        &&& self.total_step_counter == 0
        &&& self.scores@ == seq![config.initial_health, config.initial_health]
        &&& self.last_action == -1
        &&& self.dead_pieces_count@ == seq![0usize, 0usize]
        &&& self.seed is None
        &&& self.true_board is None
    }

    /// Puts every piece of the variant into the bag, in rank order, Red first.
    fn fill_initial_bag(&mut self)
        requires
            config_wf(old(self).config),
        ensures
            *final(self) == (DarkChessEnv {
                hidden_pieces_pool: final(self).hidden_pieces_pool,
                hidden_pieces_count: final(self).hidden_pieces_count,
                ..*old(self)
            }),
            final(self).bag() == initial_bag(old(self).config),
            final(self).hidden_pieces_count == old(self).config.total_positions,
    {
        proof {
            lemma_config_facts(self.config);
            lemma_initial_bag_len(self.config);
        }
        let counts = self.config.piece_counts;
        let mut count: usize = 0;
        let mut pi: usize = 0;
        while pi < 2
            invariant
                config_wf(self.config),
                counts == self.config.piece_counts,
                self.config == old(self).config,
                pi <= 2,
                *self == (DarkChessEnv {
                    hidden_pieces_pool: self.hidden_pieces_pool,
                    hidden_pieces_count: self.hidden_pieces_count,
                    ..*old(self)
                }),
                count as int == (if pi == 0 { 0 } else if pi == 1 {
                    player_bag(counts@, Player::Red, 7).len() as int
                } else {
                    initial_bag(self.config).len() as int
                }),
                initial_bag(self.config).len() <= 32,
                self.hidden_pieces_pool@.subrange(0, count as int) == (if pi == 0 {
                    Seq::<Piece>::empty()
                } else if pi == 1 {
                    player_bag(counts@, Player::Red, 7)
                } else {
                    initial_bag(self.config)
                }),
            decreases 2 - pi,
        {
            let player = if pi == 0 { Player::Red } else { Player::Black };
            let ghost start = count as int;
            let ghost before = self.hidden_pieces_pool@.subrange(0, count as int);
            let mut t: usize = 0;
            while t < 7
                invariant
                    config_wf(self.config),
                    counts == self.config.piece_counts,
                    self.config == old(self).config,
                    pi < 2,
                    player == (if pi == 0 { Player::Red } else { Player::Black }),
                    t <= 7,
                    *self == (DarkChessEnv {
                        hidden_pieces_pool: self.hidden_pieces_pool,
                        hidden_pieces_count: self.hidden_pieces_count,
                        ..*old(self)
                    }),
                    initial_bag(self.config).len() <= 32,
                    start + player_bag(counts@, player, 7).len() <= 32,
                    count == start + player_bag(counts@, player, t as int).len(),
                    player_bag(counts@, player, t as int).len() <= player_bag(counts@, player, 7).len(),
                    self.hidden_pieces_pool@.subrange(0, count as int) == before + player_bag(
                        counts@,
                        player,
                        t as int,
                    ),
                decreases 7 - t,
            {
                let k_max = counts[t];
                let mut k: u8 = 0;
                let ghost mid = self.hidden_pieces_pool@.subrange(0, count as int);
                proof {
                    lemma_player_bag_mono(counts@, player, t as int + 1, 7);
                }
                while k < k_max
                    invariant
                        t < 7,
                        k <= k_max,
                        k_max == counts@[t as int],
                        count == start + player_bag(counts@, player, t as int).len() + k,
                        start + player_bag(counts@, player, t as int + 1).len() <= 32,
                        player_bag(counts@, player, t as int + 1).len() == player_bag(counts@, player, t as int).len() + k_max,
                        *self == (DarkChessEnv {
                            hidden_pieces_pool: self.hidden_pieces_pool,
                            hidden_pieces_count: self.hidden_pieces_count,
                            ..*old(self)
                        }),
                        mid.len() == start + player_bag(counts@, player, t as int).len(),
                        self.hidden_pieces_pool@.subrange(0, count as int) == mid + Seq::new(
                            k as nat,
                            |i: int| Piece { piece_type: type_of_index(t as nat), player },
                        ),
                    decreases k_max - k,
                {
                    let ghost prev = self.hidden_pieces_pool@;
                    self.hidden_pieces_pool[count] = Piece { piece_type: PieceType::from_index(t), player };
                    proof {
                        assert(self.hidden_pieces_pool@.subrange(0, count + 1) =~= prev.subrange(0, count as int).push(
                            Piece { piece_type: type_of_index(t as nat), player }));
                        assert(Seq::new((k + 1) as nat, |i: int| Piece { piece_type: type_of_index(t as nat), player })
                            =~= Seq::new(k as nat, |i: int| Piece { piece_type: type_of_index(t as nat), player }).push(
                            Piece { piece_type: type_of_index(t as nat), player }));
                    }
                    count += 1;
                    k += 1;
                }
                proof {
                    assert(player_bag(counts@, player, t as int + 1) =~= player_bag(counts@, player, t as int)
                        + Seq::new(k_max as nat, |i: int| Piece { piece_type: type_of_index(t as nat), player }));
                    lemma_player_bag_mono(counts@, player, t as int + 1, 7);
                }
                t += 1;
            }
            pi += 1;
        }
        self.hidden_pieces_count = count;
    }
}

impl DarkChessEnv {
    /// The player to move.
    pub fn get_current_player(&self) -> (r: Player)
        ensures
            r == self.current_player,
    {
        self.current_player
    }

    /// Health of a player.
    pub fn get_score(&self, player: Player) -> (r: i32)
        ensures
            r == self.scores@[player_idx(player) as int],
    {
        self.scores[player.idx()]
    }

    /// Health of a player (same value as `get_score`).
    pub fn get_hp(&self, player: Player) -> (r: i32)
        ensures
            r == self.scores@[player_idx(player) as int],
    {
        self.scores[player.idx()]
    }

    /// Pieces a player has lost, in the order they were recorded.
    pub fn get_dead_pieces(&self, player: Player) -> (r: Vec<PieceType>)
        requires
            self.dead_pieces_count@[player_idx(player) as int] <= 16,
        ensures
            r@ == self.dead_pieces_pool@[player_idx(player) as int]@.subrange(
                0,
                self.dead_pieces_count@[player_idx(player) as int] as int,
            ),
    {
        let pi = player.idx();
        let count = self.dead_pieces_count[pi];
        let mut out: Vec<PieceType> = Vec::new();
        let mut i: usize = 0;
        while i < count
            invariant
                pi < 2,
                count == self.dead_pieces_count@[pi as int],
                count <= 16,
                i <= count,
                out@ == self.dead_pieces_pool@[pi as int]@.subrange(0, i as int),
            decreases count - i,
        {
            out.push(self.dead_pieces_pool[pi][i]);
            i += 1;
            proof {
                assert(out@ =~= self.dead_pieces_pool@[pi as int]@.subrange(0, i as int));
            }
        }
        out
    }

    /// Consecutive moves without a capture or a flip.
    pub fn get_move_counter(&self) -> (r: usize)
        ensures
            r == self.move_counter,
    {
        self.move_counter
    }

    /// Steps played so far.
    pub fn get_total_steps(&self) -> (r: usize)
        ensures
            r == self.total_step_counter,
    {
        self.total_step_counter
    }

    /// Squares holding a face-down piece.
    pub fn get_hidden_bitboard(&self) -> (r: u64)
        ensures
            r == self.hidden_bitboard,
    {
        self.hidden_bitboard
    }

    /// Empty squares.
    pub fn get_empty_bitboard(&self) -> (r: u64)
        ensures
            r == self.empty_bitboard,
    {
        self.empty_bitboard
    }

    /// Squares of each player's revealed pieces.
    pub fn get_revealed_bitboards(&self) -> (r: [u64; 2])
        ensures
            r == self.revealed_bitboards,
    {
        self.revealed_bitboards
    }

    /// Squares of each player's revealed pieces, per kind.
    pub fn get_piece_bitboards(&self) -> (r: [[u64; 7]; 2])
        ensures
            r == self.piece_bitboards,
    {
        self.piece_bitboards
    }

    /// The last action taken (`-1` before the first).
    pub fn get_last_action(&self) -> (r: i32)
        ensures
            r == self.last_action,
    {
        self.last_action
    }

    /// The piece turned up by the last flip, if any.
    pub fn last_revealed_piece(&self) -> (r: Option<Piece>)
        ensures
            r == self.last_revealed_piece,
    {
        self.last_revealed_piece
    }

    /// The contents of one square.
    pub fn get_slot(&self, sq: usize) -> (r: Slot)
        requires
            sq < 32,
        ensures
            r == self.board@[sq as int],
    {
        self.board[sq]
    }

    /// Hands the move to the other player without touching the board.
    pub fn flip_player(&mut self)
        ensures
            *final(self) == (DarkChessEnv { current_player: player_opposite(old(self).current_player), ..*old(self) }),
            old(self).wf() ==> final(self).wf(),
    {
        self.current_player = self.current_player.opposite();
    }
}

/// The bitboard of the first `n` squares.
fn low_bits(n: usize) -> (r: u64)
    requires
        n <= 32,
    ensures
        forall|i: int| 0 <= i < 64 ==> (#[trigger] bit_set(r, i) <==> i < n),
{
    let nn = n as u64;
    assert((1u64 << nn) >= 1u64) by (bit_vector)
        requires
            nn <= 32,
    ;
    let r = (1u64 << nn) - 1;
    proof {
        assert forall|i: int| 0 <= i < 64 implies (#[trigger] bit_set(r, i) <==> i < n) by {
            lemma_low_bits(n as u64, i as u64);
        }
    }
    r
}

proof fn lemma_low_bits(n: u64, i: u64)
    requires
        n <= 32,
        i < 64,
    ensures
        (((((1u64 << n) - 1) as u64) >> i) & 1u64 == 1u64) <==> i < n,
{
    assert((((((1u64 << n) - 1) as u64) >> i) & 1u64 == 1u64) <==> i < n) by (bit_vector)
        requires
            n <= 32,
            i < 64,
    ;
}

/// Player bags only grow with more kinds.
proof fn lemma_player_bag_mono(counts: Seq<u8>, player: Player, a: int, b: int)
    requires
        0 <= a <= b,
    ensures
        player_bag(counts, player, a).len() <= player_bag(counts, player, b).len(),
    decreases b - a,
{
    if a < b {
        lemma_player_bag_mono(counts, player, a, b - 1);
    }
}

/// The full set of pieces fills the board exactly.
pub proof fn lemma_initial_bag_len(c: GameConfig)
    requires
        config_wf(c),
    ensures
        initial_bag(c).len() == c.total_positions,
        player_bag(c.piece_counts@, Player::Red, 7).len() == c.total_pieces_per_player,
        player_bag(c.piece_counts@, Player::Black, 7).len() == c.total_pieces_per_player,
{
    reveal_with_fuel(player_bag, 8);
    let s = spec_config(c.variant);
    assert(c.piece_counts@ == s.piece_counts@);
}

} // verus!
