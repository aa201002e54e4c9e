//! Game variants and their rule parameters.

use vstd::prelude::*;
use vstd::string::StrSliceExecFns;

verus! {

/// Upper bound on board squares over all variants (fixed-size state arrays use it).
pub const MAX_POSITIONS: usize = 32;
/// Number of piece kinds.
pub const NUM_PIECE_TYPES_MAX: usize = 7;
/// Upper bound on pieces per player over all variants.
pub const MAX_PIECES_PER_PLAYER: usize = 16;

/// Dark chess variants: the single source of board sizes and rule parameters.
#[derive(Debug, Clone, Copy, PartialEq, Eq, Hash, Structural)]
pub enum Variant {
    /// Full 4x8 board, all seven kinds.
    DarkChess4x8,
    /// 4x4 board, all seven kinds, one of each (two soldiers) per side.
    DarkChess4x4,
    /// 4x2 board: soldier, cannon, advisor and general, one of each per side.
    DarkChess4x2,
}

/// Rule parameters of a variant. Plain data, carried by value in each environment.
#[derive(Debug, Clone, Copy, PartialEq, Eq)]
pub struct GameConfig {
    pub variant: Variant,
    pub rows: usize,
    pub cols: usize,
    pub total_positions: usize,
    /// Flip actions (one per square).
    pub reveal_actions_count: usize,
    /// One-step moves (each square to each in-board orthogonal neighbour).
    pub regular_move_actions_count: usize,
    /// Cannon shots (ordered pairs in one row or column at distance > 1).
    pub cannon_actions_count: usize,
    pub action_space_size: usize,
    /// Pieces of each kind per player, indexed by kind.
    pub piece_counts: [u8; 7],
    /// Kinds in play, ascending; the first `num_active` entries are meaningful.
    pub active_types: [usize; 7],
    pub num_active: usize,
    pub total_pieces_per_player: usize,
    pub initial_health: i32,
    /// Health damage of losing a piece of each kind.
    pub piece_values: [i32; 7],
    /// Consecutive moves without a capture or flip after which the game is drawn.
    pub max_consecutive_moves_for_draw: usize,
    /// Step limit after which the game is truncated.
    pub max_steps_per_episode: usize,
    /// Pieces flipped face up at the start (curriculum learning).
    pub initial_revealed_pieces: usize,
}

/// The rule parameters of each variant (with no pieces flipped at the start).
pub open spec fn spec_config(v: Variant) -> GameConfig {
    match v {
        Variant::DarkChess4x8 => GameConfig {
            variant: v,
            rows: 4,
            cols: 8,
            total_positions: 32,
            reveal_actions_count: 32,
            regular_move_actions_count: 104,
            cannon_actions_count: 216,
            action_space_size: 352,
            piece_counts: [5, 2, 2, 2, 2, 2, 1],
            active_types: [0, 1, 2, 3, 4, 5, 6],
            num_active: 7,
            total_pieces_per_player: 16,
            initial_health: 60,
            piece_values: [4, 10, 10, 10, 10, 20, 30],
            max_consecutive_moves_for_draw: 24,
            max_steps_per_episode: 100,
            initial_revealed_pieces: 0,
        },
        Variant::DarkChess4x4 => GameConfig {
            variant: v,
            rows: 4,
            cols: 4,
            total_positions: 16,
            reveal_actions_count: 16,
            regular_move_actions_count: 48,
            cannon_actions_count: 48,
            action_space_size: 112,
            piece_counts: [2, 1, 1, 1, 1, 1, 1],
            active_types: [0, 1, 2, 3, 4, 5, 6],
            num_active: 7,
            total_pieces_per_player: 8,
            initial_health: 60,
            piece_values: [4, 10, 10, 10, 10, 20, 30],
            max_consecutive_moves_for_draw: 16,
            max_steps_per_episode: 48,
            initial_revealed_pieces: 0,
        },
        Variant::DarkChess4x2 => GameConfig {
            variant: v,
            rows: 4,
            cols: 2,
            total_positions: 8,
            reveal_actions_count: 8,
            regular_move_actions_count: 20,
            cannon_actions_count: 12,
            action_space_size: 40,
            piece_counts: [1, 1, 0, 0, 0, 1, 1],
            active_types: [0, 1, 5, 6, 0, 0, 0],
            num_active: 4,
            total_pieces_per_player: 4,
            initial_health: 47,
            piece_values: [2, 5, 0, 0, 0, 10, 30],
            max_consecutive_moves_for_draw: 8,
            max_steps_per_episode: 30,
            initial_revealed_pieces: 0,
        },
    }
}

/// Two configurations agree on every rule parameter except the number of pieces
/// flipped at the start.
pub open spec fn same_rules(a: GameConfig, b: GameConfig) -> bool {
    &&& a.variant == b.variant
    &&& a.rows == b.rows
    &&& a.cols == b.cols
    &&& a.total_positions == b.total_positions
    &&& a.reveal_actions_count == b.reveal_actions_count
    &&& a.regular_move_actions_count == b.regular_move_actions_count
    &&& a.cannon_actions_count == b.cannon_actions_count
    &&& a.action_space_size == b.action_space_size
    &&& a.piece_counts == b.piece_counts
    &&& a.active_types == b.active_types
    &&& a.num_active == b.num_active
    &&& a.total_pieces_per_player == b.total_pieces_per_player
    &&& a.initial_health == b.initial_health
    &&& a.piece_values == b.piece_values
    &&& a.max_consecutive_moves_for_draw == b.max_consecutive_moves_for_draw
    &&& a.max_steps_per_episode == b.max_steps_per_episode
}

/// A configuration is well formed when it carries its variant's rules.
pub open spec fn config_wf(c: GameConfig) -> bool {
    same_rules(c, spec_config(c.variant))
}

/// A piece kind (by rank index) takes part in the variant.
pub open spec fn type_active(c: GameConfig, t: nat) -> bool {
    exists|i: int| 0 <= i < c.num_active && c.active_types@[i] == t
}

/// Arithmetic facts shared by all variants.
pub proof fn lemma_config_facts(c: GameConfig)
    requires
        config_wf(c),
    ensures
        1 <= c.rows <= 8,
        1 <= c.cols <= 8,
        c.total_positions == c.rows * c.cols,
        c.total_positions <= MAX_POSITIONS,
        c.reveal_actions_count == c.total_positions,
        c.action_space_size == c.reveal_actions_count + c.regular_move_actions_count
            + c.cannon_actions_count,
        c.num_active <= 7,
        c.total_pieces_per_player <= MAX_PIECES_PER_PLAYER,
        2 * c.total_pieces_per_player == c.total_positions,
        c.max_steps_per_episode <= u32::MAX,
        c.max_consecutive_moves_for_draw <= c.max_steps_per_episode,
        forall|i: int| 0 <= i < c.num_active ==> #[trigger] c.active_types@[i] < 7,
        forall|i: int, j: int|
            0 <= i < j < c.num_active ==> #[trigger] c.active_types@[i]
                < #[trigger] c.active_types@[j],
        forall|t: nat| t < 7 ==> (type_active(c, t) <==> c.piece_counts@[t as int] > 0),
        type_active(c, 0),
        type_active(c, 1),
        type_active(c, 6),
{
    let s = spec_config(c.variant);
    assert(c.active_types@ == s.active_types@);
    assert(c.piece_counts@ == s.piece_counts@);
    match c.variant {
        Variant::DarkChess4x8 => {
            assert(c.active_types@[0] == 0 && c.active_types@[1] == 1 && c.active_types@[6] == 6);
            assert forall|t: nat| t < 7 implies (type_active(c, t) <==> c.piece_counts@[t as int]
                > 0) by {
                assert(c.active_types@[t as int] == t);
            }
        },
        Variant::DarkChess4x4 => {
            assert(c.active_types@[0] == 0 && c.active_types@[1] == 1 && c.active_types@[6] == 6);
            assert forall|t: nat| t < 7 implies (type_active(c, t) <==> c.piece_counts@[t as int]
                > 0) by {
                assert(c.active_types@[t as int] == t);
            }
        },
        Variant::DarkChess4x2 => {
            assert(c.active_types@[0] == 0 && c.active_types@[1] == 1 && c.active_types@[3] == 6);
            assert(c.active_types@[2] == 5);
            assert forall|t: nat| t < 7 implies (type_active(c, t) <==> c.piece_counts@[t as int]
                > 0) by {
                if t == 5 {
                    assert(c.active_types@[2] == 5);
                }
                if t == 6 {
                    assert(c.active_types@[3] == 6);
                }
            }
        },
    }
}

impl Variant {
    /// All variants, in index order.
    pub fn all() -> (r: [Variant; 3])
        ensures
            r@ == seq![Variant::DarkChess4x8, Variant::DarkChess4x4, Variant::DarkChess4x2],
    {
        [Variant::DarkChess4x8, Variant::DarkChess4x4, Variant::DarkChess4x2]
    }

    /// Position of the variant in `all()`.
    pub fn index(&self) -> (r: usize)
        ensures
            r == variant_index(*self),
    {
        match self {
            Variant::DarkChess4x8 => 0,
            Variant::DarkChess4x4 => 1,
            Variant::DarkChess4x2 => 2,
        }
    }

    /// The variant at a position of `all()`, if there is one.
    pub fn from_index(idx: usize) -> (r: Option<Variant>)
        ensures
            r matches Some(v) ==> variant_index(v) == idx,
            r is None <==> idx >= 3,
    {
        match idx {
            0 => Some(Variant::DarkChess4x8),
            1 => Some(Variant::DarkChess4x4),
            2 => Some(Variant::DarkChess4x2),
            _ => None,
        }
    }

    /// Short identifier: `"4x8"`, `"4x4"` or `"4x2"`.
    pub fn as_str(&self) -> (r: &'static str)
        ensures
            r@ == variant_name(*self),
    {
        proof {
            reveal_strlit("4x8");
            reveal_strlit("4x4");
            reveal_strlit("4x2");
        }
        match self {
            Variant::DarkChess4x8 => "4x8",
            Variant::DarkChess4x4 => "4x4",
            Variant::DarkChess4x2 => "4x2",
        }
    }

    /// The variant with a short identifier, if there is one.
    pub fn from_str(s: &str) -> (r: Option<Variant>)
        ensures
            match r {
                Some(v) => s@ == variant_name(v),
                None => forall|v: Variant| s@ != #[trigger] variant_name(v),
            },
    {
        proof {
            reveal_strlit("4x8");
            reveal_strlit("4x4");
            reveal_strlit("4x2");
        }
        if s.unicode_len() != 3 {
            return None;
        }
        let a = s.get_char(0);
        let b = s.get_char(1);
        let c = s.get_char(2);
        if a != '4' || b != 'x' {
            return None;
        }
        if c == '8' {
            proof {
                assert(s@ =~= variant_name(Variant::DarkChess4x8));
            }
            Some(Variant::DarkChess4x8)
        } else if c == '4' {
            proof {
                assert(s@ =~= variant_name(Variant::DarkChess4x4));
            }
            Some(Variant::DarkChess4x4)
        } else if c == '2' {
            proof {
                assert(s@ =~= variant_name(Variant::DarkChess4x2));
            }
            Some(Variant::DarkChess4x2)
        } else {
            None
        }
    }

    /// Board size as `(rows, cols)`.
    pub fn board_dims(&self) -> (r: (usize, usize))
        ensures
            r == (spec_config(*self).rows, spec_config(*self).cols),
    {
        match self {
            Variant::DarkChess4x8 => (4, 8),
            Variant::DarkChess4x4 => (4, 4),
            Variant::DarkChess4x2 => (4, 2),
        }
    }

    /// The rule parameters of this variant.
    pub fn config(&self) -> (r: GameConfig)
        ensures
            r == spec_config(*self),
            config_wf(r),
    {
        match self {
            Variant::DarkChess4x8 => darkchess_config(),
            Variant::DarkChess4x4 => game_4x4_config(),
            Variant::DarkChess4x2 => mini_config(),
        }
    }
}

/// Short identifier of a variant.
pub open spec fn variant_name(v: Variant) -> Seq<char> {
    match v {
        Variant::DarkChess4x8 => "4x8"@,
        Variant::DarkChess4x4 => "4x4"@,
        Variant::DarkChess4x2 => "4x2"@,
    }
}

/// The identifiers, indices, board sizes and rule sets of the variants tell them
/// apart: a variant is determined by any one of them, and its rules are sized by its
/// board.
pub proof fn law_variant_single_source(v: Variant, w: Variant)
    ensures
        variant_name(v) == variant_name(w) ==> v == w,
        variant_index(v) == variant_index(w) ==> v == w,
        variant_index(v) < 3,
        (spec_config(v).rows, spec_config(v).cols) == (spec_config(w).rows, spec_config(w).cols) ==> v == w,
        spec_config(v).variant == v,
        spec_config(v).total_positions == spec_config(v).rows * spec_config(v).cols,
{
    reveal_strlit("4x8");
    reveal_strlit("4x4");
    reveal_strlit("4x2");
    lemma_config_facts(spec_config(v));
    if variant_name(v) == variant_name(w) {
        assert(variant_name(v)[2] == variant_name(w)[2]);
    }
}

/// Position of a variant in `Variant::all()`.
pub open spec fn variant_index(v: Variant) -> nat {
    match v {
        Variant::DarkChess4x8 => 0,
        Variant::DarkChess4x4 => 1,
        Variant::DarkChess4x2 => 2,
    }
}

/// The 4x8 configuration.
pub fn darkchess_config() -> (r: GameConfig)
    ensures
        r == spec_config(Variant::DarkChess4x8),
{
    GameConfig {
        variant: Variant::DarkChess4x8,
        rows: 4,
        cols: 8,
        total_positions: 32,
        reveal_actions_count: 32,
        regular_move_actions_count: 104,
        cannon_actions_count: 216,
        action_space_size: 352,
        piece_counts: [5, 2, 2, 2, 2, 2, 1],
        active_types: [0, 1, 2, 3, 4, 5, 6],
        num_active: 7,
        total_pieces_per_player: 16,
        initial_health: 60,
        piece_values: [4, 10, 10, 10, 10, 20, 30],
        max_consecutive_moves_for_draw: 24,
        max_steps_per_episode: 100,
        initial_revealed_pieces: 0,
    }
}

/// The 4x4 configuration.
pub fn game_4x4_config() -> (r: GameConfig)
    ensures
        r == spec_config(Variant::DarkChess4x4),
{
    GameConfig {
        variant: Variant::DarkChess4x4,
        rows: 4,
        cols: 4,
        total_positions: 16,
        reveal_actions_count: 16,
        regular_move_actions_count: 48,
        cannon_actions_count: 48,
        action_space_size: 112,
        piece_counts: [2, 1, 1, 1, 1, 1, 1],
        active_types: [0, 1, 2, 3, 4, 5, 6],
        num_active: 7,
        total_pieces_per_player: 8,
        initial_health: 60,
        piece_values: [4, 10, 10, 10, 10, 20, 30],
        max_consecutive_moves_for_draw: 16,
        max_steps_per_episode: 48,
        initial_revealed_pieces: 0,
    }
}

/// The 4x2 configuration.
pub fn mini_config() -> (r: GameConfig)
    ensures
        r == spec_config(Variant::DarkChess4x2),
{
    GameConfig {
        variant: Variant::DarkChess4x2,
        rows: 4,
        cols: 2,
        total_positions: 8,
        reveal_actions_count: 8,
        regular_move_actions_count: 20,
        cannon_actions_count: 12,
        action_space_size: 40,
        piece_counts: [1, 1, 0, 0, 0, 1, 1],
        active_types: [0, 1, 5, 6, 0, 0, 0],
        num_active: 4,
        total_pieces_per_player: 4,
        initial_health: 47,
        piece_values: [2, 5, 0, 0, 0, 10, 30],
        max_consecutive_moves_for_draw: 8,
        max_steps_per_episode: 30,
        initial_revealed_pieces: 0,
    }
}

impl GameConfig {
    /// Whether a piece kind (by rank index) takes part in this variant.
    pub fn is_active_type(&self, t: usize) -> (r: bool)
        requires
            self.num_active <= 7,
        ensures
            r == type_active(*self, t as nat),
    {
        let mut i: usize = 0;
        while i < self.num_active
            invariant
                self.num_active <= 7,
                i <= self.num_active,
                forall|j: int| 0 <= j < i ==> self.active_types@[j] != t,
            decreases self.num_active - i,
        {
            if self.active_types[i] == t {
                return true;
            }
            i += 1;
        }
        false
    }
}

} // verus!
