use codestrain::battle::{Battle, BattleLogEntry, TurnEvent, TurnOutcome};
use codestrain::board::{Board, Player, MAX_ARENA_SIZE};
use codestrain::errors::{ConfigurationError, OccupyError, ReplayError};
use codestrain::legality::allowed_moves;
use codestrain::perspective::{build_view, transform_coord};
use codestrain::{replay_log, run_battle, BuiltinStrategy, StrainHandle};

#[test]
fn initialize_seeds_the_two_corners() {
    let b = Board::initialize(3).unwrap();
    assert_eq!(b.arena_size(), 3);
    assert_eq!(b.get(0, 0), Some(Player::A));
    assert_eq!(b.get(2, 2), Some(Player::B));
    assert_eq!(b.get(1, 1), None);
    assert_eq!(b.get(2, 0), None);
    assert_eq!(b.score(Player::A), 1);
    assert_eq!(b.score(Player::B), 1);
}

#[test]
fn initialize_rejects_bad_sizes() {
    assert_eq!(Board::initialize(1).unwrap_err(), ConfigurationError::InvalidArenaSize);
    assert_eq!(Board::initialize(0).unwrap_err(), ConfigurationError::InvalidArenaSize);
    assert_eq!(Board::initialize(-5).unwrap_err(), ConfigurationError::InvalidArenaSize);
    assert_eq!(
        Board::initialize(MAX_ARENA_SIZE + 1).unwrap_err(),
        ConfigurationError::InvalidArenaSize
    );
    assert!(Board::initialize(2).is_ok());
    assert!(Board::initialize(24).is_ok());
}

#[test]
fn occupy_checks_bounds_and_occupancy() {
    let mut b = Board::initialize(3).unwrap();
    assert_eq!(b.occupy(3, 0, Player::A).unwrap_err(), OccupyError::OutOfBounds);
    assert_eq!(b.occupy(0, -1, Player::A).unwrap_err(), OccupyError::OutOfBounds);
    assert_eq!(b.occupy(0, 0, Player::B).unwrap_err(), OccupyError::AlreadyOccupied);
    assert_eq!(b.get(0, 0), Some(Player::A));
    b.occupy(1, 1, Player::A).unwrap();
    assert_eq!(b.get(1, 1), Some(Player::A));
    assert_eq!(b.occupy(1, 1, Player::B).unwrap_err(), OccupyError::AlreadyOccupied);
    assert_eq!(b.score(Player::A), 2);
    assert_eq!(b.score(Player::B), 1);
}

#[test]
fn allowed_moves_are_empty_cells_next_to_the_player() {
    let b = Board::initialize(3).unwrap();
    let for_a = allowed_moves(&b, Player::A);
    assert_eq!(for_a, vec![(1, 0), (0, 1), (1, 1)]);
    for &(x, y) in &for_a {
        assert_eq!(b.get(x, y), None);
    }
    let for_b = allowed_moves(&b, Player::B);
    assert_eq!(for_b, vec![(1, 1), (2, 1), (1, 2)]);
}

#[test]
fn allowed_moves_empty_exactly_when_no_frontier() {
    let mut b = Board::initialize(3).unwrap();
    b.occupy(1, 0, Player::B).unwrap();
    b.occupy(0, 1, Player::B).unwrap();
    b.occupy(1, 1, Player::B).unwrap();
    // player A is fully enclosed: no owned cell of A touches an empty cell
    assert!(allowed_moves(&b, Player::A).is_empty());
    assert!(!allowed_moves(&b, Player::B).is_empty());
}

#[test]
fn perspective_is_identity_for_a_and_point_reflection_for_b() {
    assert_eq!(transform_coord(5, Player::A, 2, 3), (2, 3));
    assert_eq!(transform_coord(5, Player::B, 0, 0), (4, 4));
    assert_eq!(transform_coord(5, Player::B, 2, 3), (2, 1));
    assert_eq!(transform_coord(2, Player::B, 0, 1), (1, 0));
}

#[test]
fn perspective_transform_is_self_inverse() {
    for size in [2, 3, 5, 24] {
        for p in [Player::A, Player::B] {
            for x in 0..size {
                for y in 0..size {
                    let (vx, vy) = transform_coord(size, p, x, y);
                    assert_eq!(transform_coord(size, p, vx, vy), (x, y));
                }
            }
        }
    }
}

#[test]
fn build_view_relabels_and_rotates_for_b() {
    let b = Board::initialize(2).unwrap();
    let allowed = allowed_moves(&b, Player::B);
    assert_eq!(allowed, vec![(1, 0), (0, 1)]);
    let v = build_view(&b, Player::B, &allowed);
    assert_eq!(
        v.board,
        vec![
            ((0, 0), Some(true)),
            ((1, 0), None),
            ((0, 1), None),
            ((1, 1), Some(false)),
        ]
    );
    assert_eq!(v.allowed, vec![(0, 1), (1, 0)]);
}

#[test]
fn build_view_keeps_a_unchanged() {
    let b = Board::initialize(2).unwrap();
    let allowed = allowed_moves(&b, Player::A);
    assert_eq!(allowed, vec![(1, 0), (0, 1)]);
    let v = build_view(&b, Player::A, &allowed);
    assert_eq!(
        v.board,
        vec![
            ((0, 0), Some(true)),
            ((1, 0), None),
            ((0, 1), None),
            ((1, 1), Some(false)),
        ]
    );
    assert_eq!(v.allowed, vec![(1, 0), (0, 1)]);
}

#[test]
fn two_by_two_opening_moves() {
    // both remaining cells are immediately legal for both players
    let mut b = Board::initialize(2).unwrap();
    assert_eq!(allowed_moves(&b, Player::A), vec![(1, 0), (0, 1)]);
    assert_eq!(allowed_moves(&b, Player::B), vec![(1, 0), (0, 1)]);
    // the first applied move by A at (0,1) leaves only (1,0) legal for B
    b.occupy(0, 1, Player::A).unwrap();
    assert_eq!(allowed_moves(&b, Player::B), vec![(1, 0)]);
    assert_eq!(allowed_moves(&b, Player::A), vec![(1, 0)]);
}

#[test]
fn battle_rejects_bad_configuration() {
    assert_eq!(
        Battle::new(1, 2, 3, 1, 5).unwrap_err(),
        ConfigurationError::InvalidArenaSize
    );
    assert_eq!(
        Battle::new(1, 2, 3, 8, 0).unwrap_err(),
        ConfigurationError::InvalidMoveBudget
    );
    let failing = StrainHandle::Failing;
    match run_battle(2, 3, -1, 5, failing, StrainHandle::Failing) {
        Err(e) => assert_eq!(e, ConfigurationError::InvalidArenaSize),
        Ok(_) => panic!("invalid arena size accepted"),
    }
}

#[test]
fn failing_strains_exhaust_after_a_double_round() {
    let res = run_battle(11, 22, 2, 3, StrainHandle::Failing, StrainHandle::Failing).unwrap();
    assert_eq!(res.arena_size, 2);
    assert_eq!(res.strain_a, 11);
    assert_eq!(res.strain_b, 22);
    assert_eq!(res.score_a, 1);
    assert_eq!(res.score_b, 1);
    assert_eq!(res.winner, None);
    assert_eq!(res.log.len(), 6);
    for (i, e) in res.log.iter().enumerate() {
        assert_eq!(e.turn_index, i);
        assert_eq!(e.outcome, TurnOutcome::Skipped);
    }
    // rounds of three slots: A, A, A, B, B, B
    for e in &res.log[0..3] {
        assert_eq!(e.player, Player::A);
    }
    for e in &res.log[3..6] {
        assert_eq!(e.player, Player::B);
    }
}

#[test]
fn illegal_proposal_is_logged_and_counted_like_a_skip() {
    let mut battle = Battle::new(7, 1, 2, 4, 1).unwrap();
    let input = battle.turn_input().expect("A has moves at the start");
    assert!(!input.allowed.contains(&(2, 0)));
    battle.advance(TurnEvent::Response(2, 0));
    assert!(!battle.is_finished());
    let res = battle.finalize();
    assert_eq!(res.log.len(), 1);
    assert_eq!(
        res.log[0],
        BattleLogEntry { turn_index: 0, player: Player::A, outcome: TurnOutcome::Illegal(2, 0) }
    );
    // the board is unchanged: only the two seeds are owned
    assert_eq!(res.score_a, 1);
    assert_eq!(res.score_b, 1);
}

#[test]
fn scripted_win_and_exact_log() {
    let a = StrainHandle::Scripted { moves: vec![(0, 1), (1, 0)], next: 0 };
    let res = run_battle(10, 20, 2, 1, a, StrainHandle::Failing).unwrap();
    assert_eq!(res.score_a, 3);
    assert_eq!(res.score_b, 1);
    assert_eq!(res.winner, Some(10));
    let outcomes: Vec<TurnOutcome> = res.log.iter().map(|e| e.outcome).collect();
    assert_eq!(
        outcomes,
        vec![
            TurnOutcome::Applied(0, 1),
            TurnOutcome::Skipped,
            TurnOutcome::Applied(1, 0),
            TurnOutcome::Skipped,
            TurnOutcome::Skipped,
        ]
    );
    let players: Vec<Player> = res.log.iter().map(|e| e.player).collect();
    assert_eq!(players, vec![Player::A, Player::B, Player::A, Player::B, Player::A]);
}

#[test]
fn response_of_b_is_mapped_back_through_the_rotation() {
    let b = StrainHandle::Scripted { moves: vec![(0, 1)], next: 0 };
    let res = run_battle(5, 6, 2, 1, StrainHandle::Failing, b).unwrap();
    // B answered (0,1) in its own view, which is (1,0) on the board
    assert_eq!(res.log[1].player, Player::B);
    assert_eq!(res.log[1].outcome, TurnOutcome::Applied(1, 0));
    assert_eq!(res.score_a, 1);
    assert_eq!(res.score_b, 2);
    assert_eq!(res.winner, Some(6));
}

#[test]
fn fill_against_fill_fills_the_tiny_board() {
    let a = StrainHandle::Strategy(BuiltinStrategy::Fill);
    let b = StrainHandle::Strategy(BuiltinStrategy::Fill);
    let res = run_battle(1, 2, 2, 1, a, b).unwrap();
    assert_eq!(res.score_a, 2);
    assert_eq!(res.score_b, 2);
    assert_eq!(res.winner, None);
    // the board filled, so the scores reach the cell count exactly
    assert_eq!(res.score_a + res.score_b, 4);
    assert_eq!(res.log.len(), 4);
    assert_eq!(res.log[0].outcome, TurnOutcome::Applied(1, 0));
    assert_eq!(res.log[1].outcome, TurnOutcome::Applied(0, 1));
    assert_eq!(res.log[2].outcome, TurnOutcome::Skipped);
    assert_eq!(res.log[3].outcome, TurnOutcome::Skipped);
}

#[test]
fn scores_never_exceed_the_cell_count() {
    for (ha, hb) in [
        (StrainHandle::Strategy(BuiltinStrategy::Fill), StrainHandle::Strategy(BuiltinStrategy::FillReverse)),
        (StrainHandle::Strategy(BuiltinStrategy::FirstChoice), StrainHandle::Strategy(BuiltinStrategy::Pathfinding)),
        (StrainHandle::Failing, StrainHandle::Strategy(BuiltinStrategy::Fill)),
    ] {
        let res = run_battle(1, 2, 4, 2, ha, hb).unwrap();
        assert!(res.score_a + res.score_b <= 16);
        assert!(res.score_a >= 1 && res.score_b >= 1);
        match res.winner {
            Some(w) => {
                if res.score_a > res.score_b {
                    assert_eq!(w, 1);
                } else {
                    assert!(res.score_b > res.score_a);
                    assert_eq!(w, 2);
                }
            },
            None => assert_eq!(res.score_a, res.score_b),
        }
    }
}

#[test]
fn replaying_the_log_reconstructs_the_final_board() {
    let a = StrainHandle::Strategy(BuiltinStrategy::Fill);
    let b = StrainHandle::Strategy(BuiltinStrategy::FillReverse);
    let res = run_battle(1, 2, 4, 2, a, b).unwrap();
    let board = replay_log(res.arena_size, &res.log).unwrap();
    assert_eq!(board.score(Player::A), res.score_a);
    assert_eq!(board.score(Player::B), res.score_b);
    // replay of a prefix also succeeds and owns no more cells
    let half: Vec<_> = res.log[0..res.log.len() / 2].to_vec();
    let part = replay_log(res.arena_size, &half).unwrap();
    assert!(part.score(Player::A) <= res.score_a);
    assert!(part.score(Player::B) <= res.score_b);
}

#[test]
fn replay_rejects_inconsistent_logs() {
    let entry = BattleLogEntry {
        turn_index: 0,
        player: Player::A,
        outcome: TurnOutcome::Applied(0, 0),
    };
    // the seed cell is already occupied
    assert_eq!(
        replay_log(2, &vec![entry]).unwrap_err(),
        ReplayError::InconsistentEntry
    );
    let oob = BattleLogEntry {
        turn_index: 0,
        player: Player::A,
        outcome: TurnOutcome::Applied(5, 0),
    };
    assert_eq!(replay_log(2, &vec![oob]).unwrap_err(), ReplayError::InconsistentEntry);
    assert_eq!(replay_log(1, &vec![]).unwrap_err(), ReplayError::InvalidArenaSize);
    let fine = BattleLogEntry {
        turn_index: 0,
        player: Player::A,
        outcome: TurnOutcome::Applied(0, 1),
    };
    let board = replay_log(2, &vec![fine]).unwrap();
    assert_eq!(board.get(0, 1), Some(Player::A));
}

#[test]
fn neighbors8_excludes_out_of_bounds_cells() {
    let b = Board::initialize(3).unwrap();
    assert_eq!(b.neighbors8(0, 0), vec![(1, 0), (0, 1), (1, 1)]);
    assert_eq!(
        b.neighbors8(1, 1),
        vec![(0, 0), (1, 0), (2, 0), (0, 1), (2, 1), (0, 2), (1, 2), (2, 2)]
    );
    assert_eq!(b.neighbors8(2, 1), vec![(1, 0), (2, 0), (1, 1), (1, 2), (2, 2)]);
}
