use banqi_core::env::board::DarkChessEnv;
use banqi_core::env::config::Variant;
use banqi_core::env::error::EnvError;
use banqi_core::env::seed::SeedableEnv;
use banqi_core::env::snapshot::{PositionSnapshot, SnapshotEnv, SNAPSHOT_VERSION};
use banqi_core::env::types::{Piece, PieceType, Player, Slot};
use banqi_core::env::variants::game4x4::Game4x4Env;
use banqi_core::env::variants::mini_darkchess::MiniDarkChessEnv;

fn all_envs() -> Vec<DarkChessEnv> {
    vec![DarkChessEnv::new(), DarkChessEnv::new_4x4(), DarkChessEnv::new_mini()]
}

#[test]
fn invalid_snapshot_payloads_are_rejected() {
    let env = DarkChessEnv::new();
    let good = env.to_snapshot().encode();

    let mut bad_version = good.clone();
    bad_version[0] = SNAPSHOT_VERSION + 1;
    assert!(PositionSnapshot::decode(&bad_version).is_err());

    assert!(PositionSnapshot::decode(&good[..good.len() - 1]).is_err());
    assert!(PositionSnapshot::decode(&[]).is_err());

    let mut bad_slot = good.clone();
    bad_slot[2] = 200;
    assert!(PositionSnapshot::decode(&bad_slot).is_err());

    let mut snap = DarkChessEnv::new_mini().to_snapshot();
    snap.variant = Variant::DarkChess4x8;
    assert!(DarkChessEnv::from_snapshot(&snap).is_err());

    let mut snap = env.to_snapshot();
    snap.dead_counts[0][0] = u8::MAX;
    assert!(DarkChessEnv::from_snapshot(&snap).is_err());
}

#[test]
fn mini_start_snapshot_has_the_documented_layout() {
    let bytes = DarkChessEnv::new_mini().to_snapshot().encode();
    let mut expected: Vec<u8> = vec![1, 2];
    expected.extend_from_slice(&[1u8; 8]);
    expected.push(0);
    expected.extend_from_slice(&[0, 0, 0, 0]);
    expected.extend_from_slice(&[0, 0, 0, 0]);
    expected.extend_from_slice(&[47, 0, 0, 0]);
    expected.extend_from_slice(&[47, 0, 0, 0]);
    expected.extend_from_slice(&[0xff, 0xff, 0xff, 0xff]);
    expected.push(8);
    expected.extend_from_slice(&[0, 1, 5, 6, 7, 8, 12, 13]);
    expected.extend_from_slice(&[0u8; 14]);
    expected.push(0);
    assert_eq!(bytes, expected);
}

#[test]
fn decode_inverts_encode_for_all_variants() {
    for env in all_envs() {
        let snap = env.to_snapshot();
        let bytes = snap.encode();
        let decoded = PositionSnapshot::decode(&bytes).expect("decodes");
        assert_eq!(decoded, snap);
        assert_eq!(decoded.encode(), bytes);
        let mut longer = bytes.clone();
        longer.extend_from_slice(&[9, 9, 9]);
        assert_eq!(PositionSnapshot::decode(&longer).expect("decodes"), snap);
    }
}

#[test]
fn rebuilt_environment_exports_the_same_snapshot() {
    for env in all_envs() {
        let snap = env.to_snapshot();
        let rebuilt = DarkChessEnv::from_snapshot(&snap).expect("rebuilds");
        assert_eq!(rebuilt.to_snapshot(), snap);
        assert_eq!(rebuilt.board, env.board);
        assert_eq!(rebuilt.hidden_bitboard, env.hidden_bitboard);
        assert_eq!(rebuilt.empty_bitboard, env.empty_bitboard);
        assert_eq!(rebuilt.action_masks(), env.action_masks());
        assert_eq!(rebuilt.check_game_over_conditions(), env.check_game_over_conditions());
    }
}

#[test]
fn snapshot_with_revealed_pieces_rebuilds_bitboards() {
    let mut snap = DarkChessEnv::new_mini().to_snapshot();
    snap.slots[0] = Slot::Revealed(Piece::new(PieceType::General, Player::Black));
    snap.slots[1] = Slot::Empty;
    snap.slots[5] = Slot::Revealed(Piece::new(PieceType::Soldier, Player::Red));
    snap.hidden_bag.truncate(5);
    snap.current_player = Player::Black;
    snap.move_counter = 3;
    snap.total_step_counter = 7;
    snap.scores = [40, 17];
    snap.last_action = 12;
    snap.dead_counts[1][1] = 1;
    let env = DarkChessEnv::from_snapshot(&snap).expect("rebuilds");
    assert_eq!(env.get_empty_bitboard(), 1 << 1);
    assert_eq!(env.get_hidden_bitboard(), 0b1101_1100);
    assert_eq!(env.get_revealed_bitboards(), [1 << 5, 1 << 0]);
    assert_eq!(env.get_piece_bitboards()[1][6], 1 << 0);
    assert_eq!(env.get_piece_bitboards()[0][0], 1 << 5);
    assert_eq!(env.get_current_player(), Player::Black);
    assert_eq!(env.get_move_counter(), 3);
    assert_eq!(env.get_total_steps(), 7);
    assert_eq!(env.get_hp(Player::Red), 40);
    assert_eq!(env.get_hp(Player::Black), 17);
    assert_eq!(env.get_last_action(), 12);
    assert_eq!(env.get_dead_pieces(Player::Black), vec![PieceType::Cannon]);
    assert!(env.get_dead_pieces(Player::Red).is_empty());
    assert_eq!(env.to_snapshot(), snap);
}

#[test]
fn lost_pieces_are_listed_in_canonical_order() {
    let mut snap = DarkChessEnv::new().to_snapshot();
    snap.dead_counts[0] = [2, 0, 1, 0, 0, 0, 1];
    let env = DarkChessEnv::from_snapshot(&snap).expect("rebuilds");
    assert_eq!(
        env.get_dead_pieces(Player::Red),
        vec![PieceType::Soldier, PieceType::Soldier, PieceType::Horse, PieceType::General]
    );
    snap.dead_counts[0] = [5, 2, 2, 2, 2, 2, 1];
    assert!(DarkChessEnv::from_snapshot(&snap).is_ok());
    snap.dead_counts[1] = [5, 2, 2, 2, 2, 2, 2];
    assert!(DarkChessEnv::from_snapshot(&snap).is_err());
}

#[test]
fn from_snapshot_errors_are_invalid_snapshot() {
    let base = DarkChessEnv::new_4x4().to_snapshot();

    let mut snap = base.clone();
    snap.slots.pop();
    assert!(matches!(DarkChessEnv::from_snapshot(&snap), Err(EnvError::InvalidSnapshot { .. })));

    let mut snap = base.clone();
    snap.true_board = Some(vec![Piece::default(); 15]);
    assert!(matches!(DarkChessEnv::from_snapshot(&snap), Err(EnvError::InvalidSnapshot { .. })));

    let mut snap = base.clone();
    snap.hidden_bag = vec![Piece::default(); 33];
    assert!(matches!(DarkChessEnv::from_snapshot(&snap), Err(EnvError::InvalidSnapshot { .. })));

    let mut snap = base.clone();
    snap.move_counter = 49;
    assert!(matches!(DarkChessEnv::from_snapshot(&snap), Err(EnvError::InvalidSnapshot { .. })));
    snap.move_counter = 48;
    assert!(DarkChessEnv::from_snapshot(&snap).is_ok());

    let mut snap = base.clone();
    snap.total_step_counter = 49;
    assert!(matches!(DarkChessEnv::from_snapshot(&snap), Err(EnvError::InvalidSnapshot { .. })));
}

#[test]
fn decode_rejects_each_malformed_field() {
    let good = DarkChessEnv::new_mini().to_snapshot().encode();
    let o = 2 + 8;

    let mut b = good.clone();
    b[1] = 3;
    assert!(matches!(PositionSnapshot::decode(&b), Err(EnvError::InvalidSnapshot { .. })));

    let mut b = good.clone();
    b[o] = 2;
    assert!(PositionSnapshot::decode(&b).is_err());

    let mut b = good.clone();
    b[o + 21] = 33;
    assert!(PositionSnapshot::decode(&b).is_err());

    let mut b = good.clone();
    b[o + 22] = 14;
    assert!(PositionSnapshot::decode(&b).is_err());

    let mut b = good.clone();
    let last = b.len() - 1;
    b[last] = 2;
    assert!(PositionSnapshot::decode(&b).is_err());

    let mut b = good.clone();
    b[last] = 1;
    assert!(PositionSnapshot::decode(&b).is_err());
    b.extend_from_slice(&[0, 1, 2, 3, 4, 5, 6, 13]);
    let decoded = PositionSnapshot::decode(&b).expect("decodes");
    assert_eq!(
        decoded.true_board.expect("layout")[7],
        Piece::new(PieceType::General, Player::Black)
    );

    for len in 0..good.len() {
        assert!(PositionSnapshot::decode(&good[..len]).is_err());
    }
}

#[test]
fn seeded_games_snapshot_their_layout() {
    let mut env = DarkChessEnv::new_4x4();
    env.set_seed(20260916);
    let snap = env.to_snapshot();
    let layout = snap.true_board.clone().expect("seeded layout");
    assert_eq!(layout.len(), 16);
    let bytes = snap.encode();
    assert_eq!(PositionSnapshot::decode(&bytes).expect("decodes"), snap);
    let rebuilt = DarkChessEnv::from_snapshot(&snap).expect("rebuilds");
    assert_eq!(rebuilt.true_board, env.true_board);
    assert_eq!(rebuilt.seed, None);
}

#[test]
fn variant_wrappers_check_the_variant() {
    let mini = MiniDarkChessEnv::new();
    let snap = mini.to_snapshot();
    assert!(MiniDarkChessEnv::from_snapshot(&snap).is_ok());
    assert!(matches!(Game4x4Env::from_snapshot(&snap), Err(EnvError::InvalidSnapshot { .. })));
    let snap4 = Game4x4Env::new().to_snapshot();
    let rebuilt = Game4x4Env::from_snapshot(&snap4).expect("rebuilds");
    assert_eq!(rebuilt.to_snapshot(), snap4);
    assert!(MiniDarkChessEnv::from_snapshot(&snap4).is_err());
}

#[test]
fn snapshot_errors_carry_their_context() {
    let good = DarkChessEnv::new().to_snapshot().encode();
    let mut bad = good.clone();
    bad[0] = 9;
    assert_eq!(PositionSnapshot::decode(&bad), Err(EnvError::InvalidSnapshot { context: "快照版本不支持" }));
    assert_eq!(
        PositionSnapshot::decode(&good[..10]),
        Err(EnvError::InvalidSnapshot { context: "快照长度不足" })
    );
    let mut snap = DarkChessEnv::new().to_snapshot();
    snap.dead_counts[1] = [9, 9, 0, 0, 0, 0, 0];
    assert!(matches!(
        DarkChessEnv::from_snapshot(&snap),
        Err(EnvError::InvalidSnapshot { context: "快照阵亡计数超出池容量" })
    ));
}
