use banqi_core::env::board::DarkChessEnv;
use banqi_core::env::error::EnvError;
use banqi_core::env::seed::{AsDarkChessRef, SeedableEnv};
use banqi_core::env::snapshot::SnapshotEnv;
use banqi_core::env::types::{Move, Piece, PieceType, Player, Slot};
use banqi_core::env::variants::game4x4::Game4x4Env;
use banqi_core::env::variants::mini_darkchess::MiniDarkChessEnv;
use banqi_core::expectimax::negamax::move_to_front;
use banqi_core::expectimax::{budget_verdict, Ctx};
use banqi_core::env::variants::curriculum::CurriculumEnv;
use banqi_core::mcts::evaluator::EvaluatorError;

fn mv(action: usize, from: usize) -> Move {
    Move { action, from, to: from, is_chance: false, is_capture: false, is_flip: false }
}

#[test]
fn move_to_front_moves_the_first_match_only() {
    let mut moves = vec![mv(5, 0), mv(3, 1), mv(7, 2), mv(3, 3)];
    move_to_front(&mut moves, 3);
    assert_eq!(moves, vec![mv(3, 1), mv(5, 0), mv(7, 2), mv(3, 3)]);
    move_to_front(&mut moves, 3);
    assert_eq!(moves, vec![mv(3, 1), mv(5, 0), mv(7, 2), mv(3, 3)]);
    move_to_front(&mut moves, 9);
    assert_eq!(moves, vec![mv(3, 1), mv(5, 0), mv(7, 2), mv(3, 3)]);
    move_to_front(&mut moves, 7);
    assert_eq!(moves, vec![mv(7, 2), mv(3, 1), mv(5, 0), mv(3, 3)]);
    let mut empty: Vec<Move> = Vec::new();
    move_to_front(&mut empty, 1);
    assert!(empty.is_empty());
}

#[test]
fn tick_stops_after_the_node_budget() {
    let env = DarkChessEnv::new();
    let mut ctx = Ctx::new(3, 2, 0, &env);
    assert_eq!(ctx.tick(), Ok(()));
    assert_eq!(ctx.tick(), Ok(()));
    assert_eq!(ctx.tick(), Err(()));
    let mut ctx = Ctx::new(3, 0, 0, &env);
    assert_eq!(ctx.tick(), Ok(()));
    assert_eq!(ctx.tick(), Err(()));
    let mut ctx = Ctx::new(3, 5000, 60_000, &env);
    for _ in 0..2000 {
        assert_eq!(ctx.tick(), Ok(()));
    }
}

#[test]
fn record_cutoff_accepts_any_depth() {
    let env = DarkChessEnv::new();
    let mut ctx = Ctx::new(2, 100, 0, &env);
    let m = Move { action: 40, from: 1, to: 2, is_chance: false, is_capture: false, is_flip: false };
    ctx.record_cutoff(&m, 3, 32);
    ctx.record_cutoff(&m, -1, 32);
    ctx.record_cutoff(&m, 100, 32);
    ctx.record_cutoff(&Move { from: 40, ..m }, 2, 32);
    assert_eq!(ctx.tick(), Ok(()));
}

#[test]
fn evaluator_error_keeps_its_message() {
    let e = EvaluatorError::new("backend failed");
    assert_eq!(e.message(), "backend failed");
    assert_eq!(e.clone(), e);
    assert_ne!(EvaluatorError::new("a"), e);
}

#[test]
fn env_error_kinds() {
    assert_eq!(EnvError::IllegalAction { action: 3 }.kind_name(), "illegal action");
    assert_eq!(
        EnvError::BrokenInvariant { context: "x" }.kind_name(),
        "broken environment invariant"
    );
    assert_eq!(
        EnvError::InvalidSnapshot { context: "y" }.kind_name(),
        "invalid position snapshot"
    );
}

#[test]
fn piece_and_player_basics() {
    assert_eq!(Piece::new(PieceType::General, Player::Red).short_name(), "R_Gen");
    assert_eq!(Piece::new(PieceType::Soldier, Player::Black).short_name(), "B_Sol");
    assert_eq!(Piece::new(PieceType::Cannon, Player::Black).short_name(), "B_Can");
    assert_eq!(Player::Red.opposite(), Player::Black);
    assert_eq!(Player::Black.opposite(), Player::Red);
    assert_eq!(Player::Red.val(), 1);
    assert_eq!(Player::Black.val(), -1);
    assert_eq!(Player::Black.idx(), 1);
    for i in 0..7 {
        assert_eq!(PieceType::from_index(i).index(), i);
    }
    assert_eq!(PieceType::from_index(5), PieceType::Advisor);
    assert_eq!(Piece::default(), Piece::new(PieceType::Soldier, Player::Red));
}

fn sorted_codes(pieces: &[Piece]) -> Vec<usize> {
    let mut v: Vec<usize> = pieces.iter().map(|p| p.player.idx() * 7 + p.piece_type.index()).collect();
    v.sort();
    v
}

#[test]
fn seeding_is_reproducible() {
    let mut a = DarkChessEnv::new();
    let mut b = DarkChessEnv::new();
    a.set_seed(7);
    b.set_seed(7);
    assert_eq!(a.seed, Some(7));
    assert_eq!(a.true_board, b.true_board);
    assert_eq!(a.to_snapshot(), b.to_snapshot());
    let layout = a.true_board.expect("layout");
    let bag = a.to_snapshot().hidden_bag;
    assert_eq!(sorted_codes(&layout), sorted_codes(&bag));
    assert_ne!(layout.to_vec(), bag);
    assert!(a.board.iter().all(|s| *s == Slot::Hidden));

    let mut g = Game4x4Env::new();
    g.set_seed(11);
    let mut h = Game4x4Env::new();
    h.set_seed(11);
    assert_eq!(g.inner.true_board, h.inner.true_board);
    let layout = g.inner.true_board.expect("layout");
    assert_eq!(sorted_codes(&layout[..16]), sorted_codes(&g.to_snapshot().hidden_bag));

    let mut m = MiniDarkChessEnv::new();
    m.set_seed(3);
    assert_eq!(m.inner.seed, Some(3));
}

#[test]
fn wrappers_expose_their_environment() {
    let g = Game4x4Env::new();
    assert_eq!(g.as_darkchess_ref().config.total_positions, 16);
    let m = MiniDarkChessEnv::new();
    assert_eq!(m.as_darkchess_ref().config.total_positions, 8);
    let d = DarkChessEnv::new();
    assert_eq!(d.as_darkchess_ref().config.total_positions, 32);
    assert_eq!(d.get_slot(0), Slot::Hidden);
    assert_eq!(d.get_score(Player::Red), 60);
}

#[test]
fn budget_verdict_cases() {
    assert_eq!(budget_verdict(5, 4, 0, None), Err(()));
    assert_eq!(budget_verdict(4, 4, 0, None), Ok(()));
    assert_eq!(budget_verdict(4, 4, 100, Some(100)), Err(()));
    assert_eq!(budget_verdict(4, 4, 100, Some(99)), Ok(()));
    assert_eq!(budget_verdict(4, 4, 0, Some(1000)), Ok(()));
    assert_eq!(budget_verdict(4, 4, 100, None), Ok(()));
}

#[test]
fn health_lead_is_red_minus_black() {
    let env = DarkChessEnv::new();
    assert_eq!(env.terminal_health_diff_red_int(), Some(0));
    let mut env = env;
    env.scores = [12, 47];
    assert_eq!(env.terminal_health_diff_red_int(), Some(-35));
}

fn revealed(env: &DarkChessEnv) -> Vec<Piece> {
    let n = env.config.total_positions;
    env.board[..n]
        .iter()
        .filter_map(|s| match s {
            Slot::Revealed(p) => Some(*p),
            _ => None,
        })
        .collect()
}

#[test]
fn curriculum_start_flips_the_requested_pieces() {
    let full = DarkChessEnv::new().to_snapshot().hidden_bag;
    for n in [0usize, 1, 5, 32, 100] {
        let env = DarkChessEnv::with_initial_revealed(n);
        let up = revealed(&env);
        assert_eq!(up.len(), n.min(32));
        assert!(env.board[..32].iter().all(|s| *s != Slot::Empty));
        let bag = env.to_snapshot().hidden_bag;
        assert_eq!(bag.len(), 32 - n.min(32));
        let mut all = up.clone();
        all.extend(bag);
        assert_eq!(sorted_codes(&all), sorted_codes(&full));
        assert_eq!(env.config.initial_revealed_pieces, n);
        assert_eq!(env.get_current_player(), Player::Red);
        assert_eq!(env.get_hidden_bitboard().count_ones() as usize, 32 - n.min(32));
        let red = env.get_revealed_bitboards()[0].count_ones() + env.get_revealed_bitboards()[1].count_ones();
        assert_eq!(red as usize, n.min(32));
    }
    let g = Game4x4Env::with_initial_revealed(3);
    assert_eq!(revealed(&g.inner).len(), 3);
    let m = MiniDarkChessEnv::with_initial_revealed(9);
    assert_eq!(revealed(&m.inner).len(), 8);
    assert!(m.inner.legal_action_indices().iter().all(|&a| a >= 8));
}
