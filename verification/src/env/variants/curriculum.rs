//! Curriculum learning: environments that start with some pieces already face up.
//! Only `initial_revealed_pieces` changes, so board size, action space and feature
//! sizes stay the same across stages.

use vstd::prelude::*;

use crate::env::board::DarkChessEnv;
use crate::env::config::{darkchess_config, game_4x4_config, mini_config, spec_config, GameConfig, Variant};
use crate::env::variants::game4x4::Game4x4Env;
use crate::env::variants::mini_darkchess::MiniDarkChessEnv;

verus! {

/// The configuration of a variant with `n` pieces flipped at the start.
pub open spec fn curriculum_config(v: Variant, n: usize) -> GameConfig {
    GameConfig { initial_revealed_pieces: n, ..spec_config(v) }
}

/// Variant environments whose number of pieces flipped at the start can be chosen.
pub trait CurriculumEnv: Sized + Default {
    /// An environment with `n` pieces flipped at the start (capped at the number of
    /// squares).
    fn with_initial_revealed(n: usize) -> Self;
}

impl Default for DarkChessEnv {
    fn default() -> (r: Self)
        ensures
            r.wf(),
            r.is_start_position(spec_config(Variant::DarkChess4x8)),
    {
        DarkChessEnv::new()
    }
}

impl CurriculumEnv for DarkChessEnv {
    fn with_initial_revealed(n: usize) -> (r: Self)
        ensures
            r.wf(),
            r.is_pre_revealed_start(curriculum_config(Variant::DarkChess4x8, n)),
    {
        let mut cfg = darkchess_config();
        cfg.initial_revealed_pieces = n;
        DarkChessEnv::with_config(cfg)
    }
}

impl CurriculumEnv for Game4x4Env {
    fn with_initial_revealed(n: usize) -> (r: Self)
        ensures
            r.inner.wf(),
            r.inner.is_pre_revealed_start(curriculum_config(Variant::DarkChess4x4, n)),
    {
        let mut cfg = game_4x4_config();
        cfg.initial_revealed_pieces = n;
        Game4x4Env { inner: DarkChessEnv::with_config(cfg) }
    }
}

impl CurriculumEnv for MiniDarkChessEnv {
    fn with_initial_revealed(n: usize) -> (r: Self)
        ensures
            r.inner.wf(),
            r.inner.is_pre_revealed_start(curriculum_config(Variant::DarkChess4x2, n)),
    {
        let mut cfg = mini_config();
        cfg.initial_revealed_pieces = n;
        MiniDarkChessEnv { inner: DarkChessEnv::with_config(cfg) }
    }
}

} // verus!
