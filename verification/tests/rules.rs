use banqi_core::env::actions::{action_lookup_tables, pack_coords};
use banqi_core::env::board::DarkChessEnv;
use banqi_core::env::config::{darkchess_config, game_4x4_config, mini_config, Variant};
use banqi_core::env::snapshot::{PositionSnapshot, SnapshotEnv};
use banqi_core::env::traits::get_outcome_id;
use banqi_core::env::types::{Move, Piece, PieceType, Player, Slot};
use banqi_core::env::variants::game4x4::{Game4x4Env, GAME4X4_ACTION_SPACE_SIZE};
use banqi_core::env::variants::mini_darkchess::{MiniDarkChessEnv, MINI_ACTION_SPACE_SIZE};

fn mini_position(slots: Vec<Slot>) -> PositionSnapshot {
    let mut snap = DarkChessEnv::new_mini().to_snapshot();
    snap.slots = slots;
    snap.hidden_bag.clear();
    snap
}

fn general_vs_soldier_and_advisor() -> DarkChessEnv {
    let mut slots = vec![Slot::Empty; 8];
    slots[0] = Slot::Revealed(Piece::new(PieceType::General, Player::Red));
    slots[1] = Slot::Revealed(Piece::new(PieceType::Soldier, Player::Black));
    slots[2] = Slot::Revealed(Piece::new(PieceType::Advisor, Player::Black));
    DarkChessEnv::from_snapshot(&mini_position(slots)).expect("rebuilds")
}

#[test]
fn pack_coords_layout() {
    assert_eq!(pack_coords(&[5]), 5 + (1u64 << 40));
    assert_eq!(pack_coords(&[3, 7]), (3 << 16) + 7 + (2u64 << 40));
    assert_eq!(pack_coords(&[1, 2]), 2199023321090);
    assert_eq!(pack_coords(&[1, 2]), (2u64 << 40) | (1 << 16) | 2);
    assert_ne!(pack_coords(&[3]), pack_coords(&[3, 0]));
}

#[test]
fn action_tables_have_the_documented_sizes() {
    let t = action_lookup_tables(&darkchess_config());
    assert_eq!(t.action_to_coords.len(), 352);
    assert_eq!(t.coords_to_action.len(), 352);
    let t = action_lookup_tables(&game_4x4_config());
    assert_eq!(t.action_to_coords.len(), 112);
    let t = action_lookup_tables(&mini_config());
    assert_eq!(t.action_to_coords.len(), 40);
    assert_eq!(t.action_to_coords[0], vec![0]);
    assert_eq!(t.action_to_coords[8], vec![0, 2]);
    assert_eq!(t.action_to_coords[9], vec![0, 1]);
    assert_eq!(t.coords_to_action[&pack_coords(&[0, 2])], 8);
    for (a, coords) in t.action_to_coords.iter().enumerate() {
        assert_eq!(t.coords_to_action[&pack_coords(coords)], a);
    }
}

#[test]
fn start_position_allows_every_flip_and_nothing_else() {
    let env = DarkChessEnv::new();
    let legal = env.legal_action_indices();
    assert_eq!(legal, (0..32).collect::<Vec<usize>>());
    let masks = env.action_masks();
    assert_eq!(masks.iter().filter(|&&m| m == 1).count(), 32);
    let moves = env.generate_moves(Player::Red);
    assert_eq!(moves.len(), 32);
    assert!(moves.iter().all(|m| m.is_flip && m.is_chance && m.from == m.to && !m.is_capture));
    assert_eq!(env.check_game_over_conditions(), (false, false, None));
}

#[test]
fn general_takes_advisor_but_not_soldier() {
    let env = general_vs_soldier_and_advisor();
    assert_eq!(env.legal_action_indices(), vec![8]);
    assert_eq!(
        env.generate_moves(Player::Red),
        vec![Move { action: 8, from: 0, to: 2, is_chance: false, is_capture: true, is_flip: false }]
    );
    let mut masks = vec![7i32; 45];
    env.action_masks_into(&mut masks);
    assert_eq!(masks.iter().filter(|&&m| m == 1).count(), 1);
    assert_eq!(masks[8], 1);
    assert_eq!(masks[44], 0);
    assert_eq!(env.check_game_over_conditions(), (false, false, None));
}

#[test]
fn soldier_takes_general() {
    let mut slots = vec![Slot::Empty; 8];
    slots[0] = Slot::Revealed(Piece::new(PieceType::Soldier, Player::Red));
    slots[1] = Slot::Revealed(Piece::new(PieceType::General, Player::Black));
    let env = DarkChessEnv::from_snapshot(&mini_position(slots)).expect("rebuilds");
    assert_eq!(env.legal_action_indices(), vec![8, 9]);
    let black = env.generate_moves(Player::Black);
    assert_eq!(black.len(), 1);
    assert_eq!((black[0].from, black[0].to, black[0].is_capture), (1, 3, false));
}

#[test]
fn cannon_needs_exactly_one_screen() {
    let mut slots = vec![Slot::Empty; 8];
    slots[0] = Slot::Revealed(Piece::new(PieceType::Cannon, Player::Red));
    slots[6] = Slot::Revealed(Piece::new(PieceType::General, Player::Black));
    let env = DarkChessEnv::from_snapshot(&mini_position(slots.clone())).expect("rebuilds");
    assert!(env.legal_action_indices().is_empty());
    assert_eq!(env.check_game_over_conditions(), (true, false, Some(-1)));
    slots[2] = Slot::Hidden;
    let mut snap = mini_position(slots);
    snap.hidden_bag = vec![Piece::new(PieceType::Soldier, Player::Black)];
    let env = DarkChessEnv::from_snapshot(&snap).expect("rebuilds");
    let moves = env.generate_moves(Player::Red);
    let shots: Vec<&Move> = moves.iter().filter(|m| !m.is_flip).collect();
    assert_eq!(shots.len(), 1);
    assert_eq!((shots[0].from, shots[0].to, shots[0].is_capture, shots[0].is_chance), (0, 6, true, false));
    assert!(shots[0].action >= 28);
}

#[test]
fn game_over_conditions_in_order() {
    let env = general_vs_soldier_and_advisor();
    let mut snap = env.to_snapshot();
    snap.scores = [0, 0];
    assert_eq!(DarkChessEnv::from_snapshot(&snap).unwrap().check_game_over_conditions(), (true, false, Some(-1)));
    snap.scores = [5, -3];
    assert_eq!(DarkChessEnv::from_snapshot(&snap).unwrap().check_game_over_conditions(), (true, false, Some(1)));
    snap.scores = [5, 5];
    snap.dead_counts[1] = [1, 1, 0, 0, 0, 1, 1];
    assert_eq!(DarkChessEnv::from_snapshot(&snap).unwrap().check_game_over_conditions(), (true, false, Some(1)));
    snap.dead_counts[1] = [0; 7];
    snap.move_counter = 8;
    assert_eq!(DarkChessEnv::from_snapshot(&snap).unwrap().check_game_over_conditions(), (true, false, Some(0)));
    snap.move_counter = 7;
    snap.total_step_counter = 30;
    assert_eq!(DarkChessEnv::from_snapshot(&snap).unwrap().check_game_over_conditions(), (false, true, Some(0)));
    let env = DarkChessEnv::from_snapshot(&snap).unwrap();
    assert_eq!(env.check_game_over_with_moves(true), (true, false, Some(-1)));
}

#[test]
fn outcome_ids_are_compact_per_variant() {
    let full = darkchess_config();
    assert_eq!(get_outcome_id(&full, &Piece::new(PieceType::Soldier, Player::Red)), 0);
    assert_eq!(get_outcome_id(&full, &Piece::new(PieceType::General, Player::Red)), 6);
    assert_eq!(get_outcome_id(&full, &Piece::new(PieceType::Soldier, Player::Black)), 7);
    assert_eq!(get_outcome_id(&full, &Piece::new(PieceType::General, Player::Black)), 13);
    let mini = mini_config();
    assert_eq!(get_outcome_id(&mini, &Piece::new(PieceType::Advisor, Player::Red)), 2);
    assert_eq!(get_outcome_id(&mini, &Piece::new(PieceType::General, Player::Black)), 7);
    let mut seen = std::collections::HashSet::new();
    for player in [Player::Red, Player::Black] {
        for t in [PieceType::Soldier, PieceType::Cannon, PieceType::Advisor, PieceType::General] {
            assert!(seen.insert(get_outcome_id(&mini, &Piece::new(t, player))));
        }
    }
    assert_eq!(seen.len(), 8);
}

#[test]
fn variant_wrappers_forward_to_the_environment() {
    let mut g = Game4x4Env::new();
    assert_eq!(g.action_space_size(), 112);
    assert_eq!(GAME4X4_ACTION_SPACE_SIZE, 112);
    assert_eq!(g.max_steps(), 48);
    assert_eq!(g.get_current_player(), Player::Red);
    g.flip_player();
    assert_eq!(g.get_current_player(), Player::Black);
    let mut masks = vec![0i32; 112];
    g.action_masks_into(&mut masks);
    assert_eq!(masks.iter().filter(|&&m| m == 1).count(), 16);
    assert_eq!(g.check_game_over_conditions(), (false, false, None));

    let m = MiniDarkChessEnv::default();
    assert_eq!(m.action_space_size(), MINI_ACTION_SPACE_SIZE);
    assert_eq!(m.max_steps(), 30);
    assert_eq!(m.inner.config.variant, Variant::DarkChess4x2);
}

#[test]
fn variants_index_round_trip() {
    let all = Variant::all();
    for (i, v) in all.iter().enumerate() {
        assert_eq!(v.index(), i);
        assert_eq!(Variant::from_index(i), Some(*v));
    }
    assert_eq!(Variant::from_index(3), None);
    for v in all {
        assert_eq!(Variant::from_str(v.as_str()), Some(v));
    }
    assert_eq!(Variant::from_str("4x4"), Some(Variant::DarkChess4x4));
    assert_eq!(Variant::from_str("4x9"), None);
    assert_eq!(Variant::from_str("4x"), None);
    assert_eq!(Variant::from_str("mini"), None);
    assert_eq!(Variant::from_str(""), None);
    assert_eq!(Variant::DarkChess4x2.as_str(), "4x2");
    assert_eq!(Variant::DarkChess4x8.board_dims(), (4, 8));
    assert_eq!(Variant::DarkChess4x4.config().action_space_size, 112);
}

#[test]
fn generated_moves_match_the_mask() {
    let mut slots = vec![Slot::Hidden; 8];
    slots[0] = Slot::Revealed(Piece::new(PieceType::Cannon, Player::Red));
    slots[3] = Slot::Empty;
    slots[5] = Slot::Revealed(Piece::new(PieceType::Advisor, Player::Black));
    slots[7] = Slot::Revealed(Piece::new(PieceType::General, Player::Red));
    let mut snap = mini_position(slots);
    snap.hidden_bag = vec![Piece::new(PieceType::Soldier, Player::Black); 4];
    let custom = DarkChessEnv::from_snapshot(&snap).expect("rebuilds");
    for env in [DarkChessEnv::new(), DarkChessEnv::new_mini(), general_vs_soldier_and_advisor(), custom] {
        for player in [Player::Red, Player::Black] {
            let moves = env.generate_moves(player);
            let mut probe = env;
            probe.current_player = player;
            let actions: Vec<usize> = moves.iter().map(|m| m.action).collect();
            assert_eq!(actions, probe.legal_action_indices());
            for m in &moves {
                if m.is_flip {
                    assert!(m.is_chance && m.from == m.to);
                }
                if m.is_capture {
                    assert!(!m.is_chance);
                }
            }
        }
    }
}

#[test]
fn action_table_lists_flips_then_neighbours_then_line_shots() {
    for cfg in [darkchess_config(), game_4x4_config(), mini_config()] {
        let t = action_lookup_tables(&cfg);
        let n = cfg.total_positions;
        let cols = cfg.cols;
        let m = cfg.regular_move_actions_count;
        assert_eq!(t.coords_to_action.len(), t.action_to_coords.len());
        for (i, e) in t.action_to_coords.iter().enumerate() {
            if i < n {
                assert_eq!(e, &vec![i]);
                continue;
            }
            let (a, b) = (e[0], e[1]);
            let (ra, ca, rb, cb) = (a / cols, a % cols, b / cols, b % cols);
            let dr = ra.abs_diff(rb);
            let dc = ca.abs_diff(cb);
            if i < n + m {
                assert!((dr == 0 && dc == 1) || (dc == 0 && dr == 1), "action {i}");
            } else {
                assert!((dr == 0 && dc > 1) || (dc == 0 && dr > 1), "action {i}");
            }
        }
        let mut seen = std::collections::HashSet::new();
        for e in &t.action_to_coords {
            assert!(seen.insert(e.clone()));
        }
        let mut neighbours = 0;
        let mut shots = 0;
        for a in 0..n {
            for b in 0..n {
                let (dr, dc) = ((a / cols).abs_diff(b / cols), (a % cols).abs_diff(b % cols));
                if (dr == 0 && dc == 1) || (dc == 0 && dr == 1) {
                    neighbours += 1;
                    assert!(t.coords_to_action[&pack_coords(&[a, b])] >= n);
                }
                if (dr == 0 && dc > 1) || (dc == 0 && dr > 1) {
                    shots += 1;
                    assert!(t.coords_to_action[&pack_coords(&[a, b])] >= n + m);
                }
            }
        }
        assert_eq!(neighbours, m);
        assert_eq!(shots, cfg.cannon_actions_count);
    }
}
