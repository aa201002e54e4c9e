//! The 4x2 mini variant: a `DarkChessEnv` with the 4x2 rules.

use vstd::prelude::*;

use crate::env::board::DarkChessEnv;
use crate::env::config::{mini_config, spec_config, Variant};
use crate::env::error::EnvError;
use crate::env::snapshot::{
    rebuilt_from, snapshot_of, snapshot_rebuildable, PositionSnapshot, SnapshotEnv,
};
use crate::env::types::{player_opposite, Player};

verus! {

/// Action space of the mini variant (8 flips, 20 moves, 12 cannon shots).
pub const MINI_ACTION_SPACE_SIZE: usize = 40;
/// Rows of the mini board.
pub const MINI_BOARD_ROWS: usize = 4;
/// Columns of the mini board.
pub const MINI_BOARD_COLS: usize = 2;

/// The 4x2 mini variant.
#[derive(Clone, Copy, Debug)]
pub struct MiniDarkChessEnv {
    pub inner: DarkChessEnv,
}

impl MiniDarkChessEnv {
    /// The start position.
    pub fn new() -> (r: Self)
        ensures
            r.inner.wf(),
            r.inner.is_start_position(spec_config(Variant::DarkChess4x2)),
    {
        MiniDarkChessEnv { inner: DarkChessEnv::with_config(mini_config()) }
    }

    /// Number of actions.
    pub fn action_space_size(&self) -> (r: usize)
        ensures
            r == spec_config(Variant::DarkChess4x2).action_space_size,
            r == MINI_ACTION_SPACE_SIZE,
    {
        mini_config().action_space_size
    }

    /// Step limit of a game.
    pub fn max_steps(&self) -> (r: usize)
        ensures
            r == spec_config(Variant::DarkChess4x2).max_steps_per_episode,
    {
        mini_config().max_steps_per_episode
    }

    /// The player to move.
    pub fn get_current_player(&self) -> (r: Player)
        ensures
            r == self.inner.current_player,
    {
        self.inner.get_current_player()
    }

    /// Hands the move to the other player (board and pieces unchanged).
    pub fn flip_player(&mut self)
        ensures
            final(self).inner == (DarkChessEnv {
                current_player: player_opposite(old(self).inner.current_player),
                ..old(self).inner
            }),
    {
        self.inner.flip_player();
    }

    /// Writes the legal action mask of the player to move.
    pub fn action_masks_into(&self, masks: &mut [i32])
        requires
            self.inner.wf(),
            old(masks)@.len() >= self.inner.config.action_space_size,
        ensures
            final(masks)@.len() == old(masks)@.len(),
            forall|i: int| 0 <= i < final(masks)@.len() ==> #[trigger] final(masks)@[i]
                == self.inner.mask_value(self.inner.current_player, i),
    {
        self.inner.action_masks_into(masks);
    }

    /// `(terminated, truncated, winner)` of the position.
    pub fn check_game_over_conditions(&self) -> (r: (bool, bool, Option<i32>))
        requires
            self.inner.wf(),
        ensures
            r == self.inner.game_over(!self.inner.has_legal_action(self.inner.current_player)),
    {
        self.inner.check_game_over_conditions()
    }
}

impl Default for MiniDarkChessEnv {
    fn default() -> (r: Self)
        ensures
            r.inner.wf(),
            r.inner.is_start_position(spec_config(Variant::DarkChess4x2)),
    {
        Self::new()
    }
}

impl SnapshotEnv for MiniDarkChessEnv {
    open spec fn snapshot_ready(&self) -> bool {
        self.inner.snapshot_ready()
    }

    fn to_snapshot(&self) -> (r: PositionSnapshot)
        ensures
            r@ == snapshot_of(self.inner),
    {
        self.inner.to_snapshot()
    }

    fn from_snapshot(s: &PositionSnapshot) -> (r: Result<Self, EnvError>)
        ensures
            match r {
                Ok(e) => s@.variant == Variant::DarkChess4x2 && snapshot_rebuildable(s@) && rebuilt_from(
                    e.inner,
                    s@,
                ),
                Err(err) => (s@.variant != Variant::DarkChess4x2 || !snapshot_rebuildable(s@))
                    && err is InvalidSnapshot,
            },
    {
        if s.variant != Variant::DarkChess4x2 {
            return Err(EnvError::InvalidSnapshot { context: "快照变体与本环境变体不符" });
        }
        let inner = DarkChessEnv::from_snapshot(s)?;
        Ok(MiniDarkChessEnv { inner })
    }
}

} // verus!
