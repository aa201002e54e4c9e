//! Seeded games (a fixed layout drawn from the seed) and access to the underlying
//! `DarkChessEnv` of the variant wrappers.

use rand::rngs::StdRng;
use rand::seq::SliceRandom;
use rand::SeedableRng;
use vstd::prelude::*;

use super::board::{initial_bag, lemma_initial_bag_len, DarkChessEnv};
use super::config::{config_wf, lemma_config_facts, GameConfig};
use super::types::{Piece, PieceType, Player};
use super::variants::game4x4::Game4x4Env;
use super::variants::mini_darkchess::MiniDarkChessEnv;

verus! {

/// The order in which `rand`'s slice shuffle, driven by a `StdRng` seeded with `seed`,
/// leaves `items`.
pub uninterp spec fn seeded_shuffle(seed: u64, items: Seq<Piece>) -> Seq<Piece>;

/// Shuffles `items` in place with `SliceRandom::shuffle`, driven by
/// `StdRng::seed_from_u64(seed)`. Trusted: the outcome is a function of the seed and
/// the items (`seeded_shuffle`), and it is a permutation of the items, since the shuffle
/// only swaps entries.
#[verifier::external_body]
fn shuffle_with_seed(seed: u64, items: &mut Vec<Piece>)
    ensures
        final(items)@ == seeded_shuffle(seed, old(items)@),
        final(items)@.to_multiset() == old(items)@.to_multiset(),
{
    let mut rng = StdRng::seed_from_u64(seed);
    items.shuffle(&mut rng);
}

impl DarkChessEnv {
    /// The start position of `config` in a game seeded with `seed`: the ordinary start
    /// position, the seed recorded, and the fixed layout that the seed draws from the
    /// variant's pieces.
    pub open spec fn is_seeded_start(&self, config: GameConfig, seed: u64) -> bool {
        &&& self.wf()
        &&& (DarkChessEnv { seed: None, true_board: None, ..*self }).is_start_position(config)
        &&& self.seed == Some(seed)
        &&& self.true_board matches Some(tb) && tb@.subrange(0, config.total_positions as int)
            == seeded_shuffle(seed, initial_bag(config))
    }
}

/// Environments that can be seeded for reproducible games.
pub trait SeedableEnv {
    /// The environment's rules allow a seeded restart.
    spec fn seed_ready(&self) -> bool;

    /// Seeds the game and restarts it from the start position with the fixed layout
    /// the seed determines.
    fn set_seed(&mut self, seed: u64)
        requires
            old(self).seed_ready(),
    ;
}

/// Restarts `env` as a game seeded with `seed`.
fn seeded_restart(env: &mut DarkChessEnv, seed: u64)
    requires
        config_wf(old(env).config),
        old(env).config.initial_revealed_pieces == 0,
    ensures
        final(env).is_seeded_start(old(env).config, seed),
        final(env).true_board matches Some(tb) && tb@.subrange(0, old(env).config.total_positions as int).to_multiset()
            == initial_bag(old(env).config).to_multiset(),
{
    let config = env.config;
    proof {
        lemma_config_facts(config);
    }
    let mut fresh = DarkChessEnv::with_config(config);
    let n = config.total_positions;
    proof {
        lemma_initial_bag_len(config);
        assert(fresh.bag().len() == fresh.hidden_pieces_count);
    }
    let mut layout: Vec<Piece> = Vec::with_capacity(n);
    let mut i: usize = 0;
    while i < fresh.hidden_pieces_count
        invariant
            fresh.hidden_pieces_count == n,
            n <= 32,
            i <= n,
            layout@ == fresh.bag().subrange(0, i as int),
        decreases n - i,
    {
        layout.push(fresh.hidden_pieces_pool[i]);
        i += 1;
        proof {
            assert(layout@ =~= fresh.bag().subrange(0, i as int));
        }
    }
    proof {
        assert(fresh.bag().subrange(0, n as int) =~= fresh.bag());
    }
    let ghost unshuffled = layout@;
    shuffle_with_seed(seed, &mut layout);
    proof {
        unshuffled.to_multiset_ensures();
        layout@.to_multiset_ensures();
    }
    let mut tb = [Piece { piece_type: PieceType::Soldier, player: Player::Red }; 32];
    let mut j: usize = 0;
    while j < n
        invariant
            n <= 32,
            layout@.len() == n,
            j <= n,
            forall|k: int| 0 <= k < j ==> tb@[k] == layout@[k],
        decreases n - j,
    {
        tb[j] = layout[j];
        j += 1;
    }
    proof {
        assert(tb@.subrange(0, n as int) =~= layout@);
    }
    fresh.seed = Some(seed);
    fresh.true_board = Some(tb);
    *env = fresh;
    proof {
        assert((DarkChessEnv { seed: None, true_board: None, ..*env }).bag() == env.bag());
    }
}

impl SeedableEnv for DarkChessEnv {
    open spec fn seed_ready(&self) -> bool {
        config_wf(self.config) && self.config.initial_revealed_pieces == 0
    }

    fn set_seed(&mut self, seed: u64)
        ensures
            final(self).is_seeded_start(old(self).config, seed),
            final(self).true_board matches Some(tb) && tb@.subrange(0, old(self).config.total_positions as int).to_multiset()
                == initial_bag(old(self).config).to_multiset(),
    {
        seeded_restart(self, seed);
    }
}

impl SeedableEnv for Game4x4Env {
    open spec fn seed_ready(&self) -> bool {
        config_wf(self.inner.config) && self.inner.config.initial_revealed_pieces == 0
    }

    fn set_seed(&mut self, seed: u64)
        ensures
            final(self).inner.is_seeded_start(old(self).inner.config, seed),
    {
        seeded_restart(&mut self.inner, seed);
    }
}

impl SeedableEnv for MiniDarkChessEnv {
    open spec fn seed_ready(&self) -> bool {
        config_wf(self.inner.config) && self.inner.config.initial_revealed_pieces == 0
    }

    fn set_seed(&mut self, seed: u64)
        ensures
            final(self).inner.is_seeded_start(old(self).inner.config, seed),
    {
        seeded_restart(&mut self.inner, seed);
    }
}

/// Seeding is reproducible: two environments restarted with the same rules and the same
/// seed hold the same position and the same fixed layout.
pub proof fn law_seeding_reproducible(a: DarkChessEnv, b: DarkChessEnv, config: GameConfig, seed: u64)
    requires
        a.is_seeded_start(config, seed),
        b.is_seeded_start(config, seed),
    ensures
        a.board == b.board,
        a.bag() == b.bag(),
        a.current_player == b.current_player,
        a.move_counter == b.move_counter,
        a.total_step_counter == b.total_step_counter,
        a.scores == b.scores,
        a.last_action == b.last_action,
        a.dead_pieces_count == b.dead_pieces_count,
        a.true_board matches Some(ta) && b.true_board matches Some(tb) && ta@.subrange(
            0,
            config.total_positions as int,
        ) == tb@.subrange(0, config.total_positions as int),
{
    lemma_config_facts(config);
    assert(a.board@ =~= b.board@) by {
        assert forall|j: int| 0 <= j < 32 implies a.board@[j] == b.board@[j] by {
            if j < config.total_positions {
                assert(a.board@[j] is Hidden);
                assert(b.board@[j] is Hidden);
            }
        }
    }
    assert(a.scores@ =~= b.scores@);
    assert(a.dead_pieces_count@ =~= b.dead_pieces_count@);
}

/// Read access to the `DarkChessEnv` behind an environment.
pub trait AsDarkChessRef {
    fn as_darkchess_ref(&self) -> &DarkChessEnv;
}

impl AsDarkChessRef for DarkChessEnv {
    fn as_darkchess_ref(&self) -> (r: &DarkChessEnv)
        ensures
            *r == *self,
    {
        self
    }
}

impl AsDarkChessRef for Game4x4Env {
    fn as_darkchess_ref(&self) -> (r: &DarkChessEnv)
        ensures
            *r == self.inner,
    {
        &self.inner
    }
}

impl AsDarkChessRef for MiniDarkChessEnv {
    fn as_darkchess_ref(&self) -> (r: &DarkChessEnv)
        ensures
            *r == self.inner,
    {
        &self.inner
    }
}

} // verus!
