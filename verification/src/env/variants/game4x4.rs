//! The 4x4 variant: a `DarkChessEnv` with the 4x4 rules.

use vstd::prelude::*;

use crate::env::board::DarkChessEnv;
use crate::env::config::{game_4x4_config, spec_config, Variant};
use crate::env::error::EnvError;
use crate::env::snapshot::{
    rebuilt_from, snapshot_of, snapshot_rebuildable, PositionSnapshot, SnapshotEnv,
};
use crate::env::types::{player_opposite, Player};

verus! {

/// Action space of the 4x4 variant (16 flips, 48 moves, 48 cannon shots).
pub const GAME4X4_ACTION_SPACE_SIZE: usize = 112;
/// Rows of the 4x4 board.
pub const GAME4X4_BOARD_ROWS: usize = 4;
/// Columns of the 4x4 board.
pub const GAME4X4_BOARD_COLS: usize = 4;

/// The 4x4 variant.
#[derive(Clone, Copy, Debug)]
pub struct Game4x4Env {
    pub inner: DarkChessEnv,
}

impl Game4x4Env {
    /// The start position.
    pub fn new() -> (r: Self)
        ensures
            r.inner.wf(),
            r.inner.is_start_position(spec_config(Variant::DarkChess4x4)),
    {
        Game4x4Env { inner: DarkChessEnv::with_config(game_4x4_config()) }
    }

    /// Number of actions.
    pub fn action_space_size(&self) -> (r: usize)
        ensures
            r == spec_config(Variant::DarkChess4x4).action_space_size,
            r == GAME4X4_ACTION_SPACE_SIZE,
    {
        game_4x4_config().action_space_size
    }

    /// Step limit of a game.
    pub fn max_steps(&self) -> (r: usize)
        ensures
            r == spec_config(Variant::DarkChess4x4).max_steps_per_episode,
    {
        game_4x4_config().max_steps_per_episode
    }

    /// The player to move.
    pub fn get_current_player(&self) -> (r: Player)
        ensures
            r == self.inner.current_player,
    {
        self.inner.get_current_player()
    }

    /// Hands the move to the other player (board and pieces unchanged).
    pub fn flip_player(&mut self)
        ensures
            final(self).inner == (DarkChessEnv {
                current_player: player_opposite(old(self).inner.current_player),
                ..old(self).inner
            }),
    {
        self.inner.flip_player();
    }

    /// Writes the legal action mask of the player to move.
    pub fn action_masks_into(&self, masks: &mut [i32])
        requires
            self.inner.wf(),
            old(masks)@.len() >= self.inner.config.action_space_size,
        ensures
            final(masks)@.len() == old(masks)@.len(),
            forall|i: int| 0 <= i < final(masks)@.len() ==> #[trigger] final(masks)@[i]
                == self.inner.mask_value(self.inner.current_player, i),
    {
        self.inner.action_masks_into(masks);
    }

    /// `(terminated, truncated, winner)` of the position.
    pub fn check_game_over_conditions(&self) -> (r: (bool, bool, Option<i32>))
        requires
            self.inner.wf(),
        ensures
            r == self.inner.game_over(!self.inner.has_legal_action(self.inner.current_player)),
    {
        self.inner.check_game_over_conditions()
    }
}

impl Default for Game4x4Env {
    fn default() -> (r: Self)
        ensures
            r.inner.wf(),
            r.inner.is_start_position(spec_config(Variant::DarkChess4x4)),
    {
        Self::new()
    }
}

impl SnapshotEnv for Game4x4Env {
    open spec fn snapshot_ready(&self) -> bool {
        self.inner.snapshot_ready()
    }

    fn to_snapshot(&self) -> (r: PositionSnapshot)
        ensures
            r@ == snapshot_of(self.inner),
    {
        self.inner.to_snapshot()
    }

    fn from_snapshot(s: &PositionSnapshot) -> (r: Result<Self, EnvError>)
        ensures
            match r {
                Ok(e) => s@.variant == Variant::DarkChess4x4 && snapshot_rebuildable(s@) && rebuilt_from(
                    e.inner,
                    s@,
                ),
                Err(err) => (s@.variant != Variant::DarkChess4x4 || !snapshot_rebuildable(s@))
                    && err is InvalidSnapshot,
            },
    {
        if s.variant != Variant::DarkChess4x4 {
            return Err(EnvError::InvalidSnapshot { context: "快照变体与本环境变体不符" });
        }
        let inner = DarkChessEnv::from_snapshot(s)?;
        Ok(Game4x4Env { inner })
    }
}

} // verus!
