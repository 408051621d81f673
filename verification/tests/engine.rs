use othello::board::Disc;
use othello::cpu::get_best_move;
use othello::game::Game;
use othello::player::CpuLevel;

fn cleared_game() -> Game {
    let mut game = Game::new();
    for r in 0..8 {
        for c in 0..8 {
            game.board.put_disc(r, c, Disc::Empty);
        }
    }
    game
}

#[test]
fn test_new_game_has_four_discs() {
    let game = Game::new();
    let (black_count, white_count) = game.count_discs();
    assert_eq!(black_count, 2);
    assert_eq!(white_count, 2);
    let mut empty_count = 0;
    for r in 0..8 {
        for c in 0..8 {
            let occupied = (r == 3 || r == 4) && (c == 3 || c == 4);
            let disc = game.board().get_disc(r, c).unwrap();
            if occupied {
                assert_ne!(disc, Disc::Empty);
            } else {
                assert_eq!(disc, Disc::Empty);
                empty_count += 1;
            }
        }
    }
    assert_eq!(empty_count, 60);
}

#[test]
fn test_illegal_move_leaves_state_unchanged() {
    let mut game = Game::new();
    assert!(!game.make_move(0, 0, Disc::Black));
    assert!(!game.make_move(3, 3, Disc::Black));
    assert!(!game.make_move(8, 8, Disc::Black));
    let fresh = Game::new();
    assert_eq!(game.current_turn(), fresh.current_turn());
    for r in 0..8 {
        for c in 0..8 {
            assert_eq!(game.board().get_disc(r, c), fresh.board().get_disc(r, c));
        }
    }
}

#[test]
fn test_opening_move_flips_and_switches_turn() {
    let mut game = Game::new();
    assert_eq!(game.board().get_disc(3, 3), Some(Disc::White));
    assert!(game.make_move(2, 3, Disc::Black));
    assert_eq!(game.board().get_disc(2, 3), Some(Disc::Black));
    assert_eq!(game.board().get_disc(3, 3), Some(Disc::Black));
    assert_eq!(game.current_turn(), Disc::White);
    let (black_count, white_count) = game.count_discs();
    assert_eq!(black_count, 4);
    assert_eq!(white_count, 1);
}

#[test]
fn test_tally_grows_by_one_per_move() {
    let mut game = Game::new();
    assert!(game.make_move(2, 3, Disc::Black));
    let (b1, w1) = game.count_discs();
    assert_eq!(b1 + w1, 5);
    let reply = game.get_valid_moves(Disc::White)[0];
    assert!(game.make_move(reply.0, reply.1, Disc::White));
    let (b2, w2) = game.count_discs();
    assert_eq!(b2 + w2, 6);
}

#[test]
fn test_valid_moves_agree_with_single_cell_check() {
    let game = Game::new();
    for side in [Disc::Black, Disc::White] {
        let moves = game.get_valid_moves(side);
        for r in 0..8 {
            for c in 0..8 {
                assert_eq!(moves.contains(&(r, c)), game.is_valid_move(r, c, side));
            }
        }
    }
}

#[test]
fn test_not_over_when_only_one_side_is_blocked() {
    let mut game = cleared_game();
    game.board.put_disc(0, 0, Disc::Black);
    game.board.put_disc(0, 1, Disc::White);
    assert!(game.get_valid_moves(Disc::White).is_empty());
    assert!(!game.get_valid_moves(Disc::Black).is_empty());
    assert!(!game.is_game_over());
}

#[test]
fn test_over_when_neither_side_can_move() {
    let game = cleared_game();
    assert!(game.get_valid_moves(Disc::Black).is_empty());
    assert!(game.get_valid_moves(Disc::White).is_empty());
    assert!(game.is_game_over());
}

#[test]
fn test_greedy_takes_the_larger_capture() {
    let mut game = cleared_game();
    game.board.put_disc(0, 0, Disc::Black);
    game.board.put_disc(0, 1, Disc::White);
    game.board.put_disc(0, 2, Disc::White);
    game.board.put_disc(2, 0, Disc::Black);
    game.board.put_disc(2, 1, Disc::White);
    let moves = game.get_valid_moves(Disc::Black);
    assert_eq!(moves, vec![(0, 3), (2, 2)]);
    assert_eq!(get_best_move(&game, Disc::Black, CpuLevel::Medium), (0, 3));
}

#[test]
fn test_minimax_opening_is_legal_and_deterministic() {
    let game = Game::new();
    let first = get_best_move(&game, Disc::Black, CpuLevel::Hard);
    let second = get_best_move(&game, Disc::Black, CpuLevel::Hard);
    assert_eq!(first, second);
    assert!(game.is_valid_move(first.0, first.1, Disc::Black));
}

#[test]
fn test_random_move_is_legal() {
    let game = Game::new();
    for _ in 0..16 {
        let mv = get_best_move(&game, Disc::Black, CpuLevel::Easy);
        assert!(game.is_valid_move(mv.0, mv.1, Disc::Black));
    }
}
