//! Chance outcomes of a flip (each revealable piece gets a compact outcome id) and the
//! integer end-of-game health lead.

use vstd::prelude::*;

use super::board::DarkChessEnv;
use super::config::{config_wf, lemma_config_facts, type_active, GameConfig};
use super::types::{type_index, Piece, Player};

verus! {

/// The outcome id of turning up `p`: the rank of its kind among the variant's active
/// kinds, plus `num_active` for a Black piece.
pub open spec fn is_outcome_id(cfg: GameConfig, p: Piece, id: int) -> bool {
    let k = if p.player == Player::Black { id - cfg.num_active } else { id };
    &&& p.player == Player::Black ==> cfg.num_active <= id
    &&& 0 <= k < cfg.num_active
    &&& cfg.active_types@[k] == type_index(p.piece_type)
}

/// Outcome id of a flip that turns up `piece`: the compact index of its kind among the
/// active kinds, offset by the number of active kinds for Black. Ids run from 0 to
/// `2 * num_active - 1`.
pub fn get_outcome_id(cfg: &GameConfig, piece: &Piece) -> (r: usize)
    requires
        config_wf(*cfg),
        type_active(*cfg, type_index(piece.piece_type)),
    ensures
        is_outcome_id(*cfg, *piece, r as int),
        r < 2 * cfg.num_active,
{
    proof {
        lemma_config_facts(*cfg);
    }
    let t = piece.piece_type.index();
    let mut k: usize = 0;
    while k < cfg.num_active && cfg.active_types[k] != t
        invariant
            config_wf(*cfg),
            cfg.num_active <= 7,
            k <= cfg.num_active,
            t == type_index(piece.piece_type),
            type_active(*cfg, t as nat),
            forall|j: int| 0 <= j < k ==> cfg.active_types@[j] != t,
        decreases cfg.num_active - k,
    {
        k += 1;
    }
    proof {
        if k == cfg.num_active {
            let i = choose|i: int| 0 <= i < cfg.num_active && cfg.active_types@[i] == t;
            assert(cfg.active_types@[i] != t);
        }
    }
    if piece.player == Player::Black {
        cfg.num_active + k
    } else {
        k
    }
}

impl DarkChessEnv {
    /// Red's health minus Black's (the integer end-of-game health lead of Red).
    pub fn terminal_health_diff_red_int(&self) -> (r: Option<i32>)
        requires
            i32::MIN <= self.scores@[0] - self.scores@[1] <= i32::MAX,
        ensures
            r == Some((self.scores@[0] - self.scores@[1]) as i32),
    {
        Some(self.get_hp(Player::Red) - self.get_hp(Player::Black))
    }
}

/// Distinct active pieces have distinct outcome ids, so an id names one outcome.
pub proof fn law_outcome_id_injective(cfg: GameConfig, p: Piece, q: Piece, id: int)
    requires
        config_wf(cfg),
        is_outcome_id(cfg, p, id),
        is_outcome_id(cfg, q, id),
    ensures
        p == q,
{
    lemma_config_facts(cfg);
    let kp = if p.player == Player::Black { id - cfg.num_active } else { id };
    let kq = if q.player == Player::Black { id - cfg.num_active } else { id };
    assert(p.player == q.player);
    assert(kp == kq);
    super::types::lemma_type_index_roundtrip(p.piece_type);
    super::types::lemma_type_index_roundtrip(q.piece_type);
}

} // verus!
