use marble_puzzle::board::{done, Board};
use marble_puzzle::discovered::BoardSet;
use marble_puzzle::explorer::{run_search, search_from, Explorer, Outcome};
use marble_puzzle::moves::possible_next_moves;
use marble_puzzle::position::{GameState, Kuhle, Position};
use std::collections::HashSet;

#[test]
fn set_holds_a_board_once() {
    let mut set = BoardSet::new();
    assert_eq!(set.len(), 0);
    assert!(set.insert(Board::new()));
    assert_eq!(set.len(), 1);
    assert!(!set.insert(Board::new()));
    assert_eq!(set.len(), 1);
    assert!(set.contains(&Board::new()));
}

#[test]
fn set_tells_boards_apart_by_turn() {
    let mut set = BoardSet::new();
    let other = Board { game_state: GameState::GrossMuss, ..Board::new() };
    assert!(set.insert(Board::new()));
    assert!(!set.contains(&other));
    assert!(set.insert(other));
    assert_eq!(set.len(), 2);
    assert_eq!(set.get(0), Board::new());
    assert_eq!(set.get(1), other);
}

#[test]
fn search_begins_with_the_starting_position() {
    let explorer = Explorer::new();
    assert_eq!(explorer.len(), 1);
    assert_eq!(explorer.board(0), Board::new());
}

#[test]
fn first_round_finds_the_four_first_moves() {
    let mut explorer = Explorer::new();
    let report = explorer.advance();
    assert_eq!(report.size, 5);
    assert_eq!(report.found, None);
    assert!(report.grew);
    assert_eq!(explorer.len(), 5);
    assert_eq!(explorer.board(0), Board::new());
    let turn = GameState::GrossMuss;
    assert_eq!(
        explorer.board(1),
        Board { TL: Kuhle::EMPTY, TM: Kuhle::METALL, game_state: turn, ..Board::new() }
    );
    assert_eq!(
        explorer.board(4),
        Board { DR: Kuhle::EMPTY, DM: Kuhle::GLAS, game_state: turn, ..Board::new() }
    );
}

#[test]
fn rounds_keep_what_was_found() {
    let mut explorer = Explorer::new();
    let mut known: Vec<Board> = vec![Board::new()];
    for _ in 0..6 {
        let report = explorer.advance();
        assert_eq!(report.size, explorer.len());
        assert_eq!(report.grew, explorer.len() > known.len());
        for (index, board) in known.iter().enumerate() {
            assert_eq!(explorer.board(index), *board);
        }
        known = (0..explorer.len()).map(|index| explorer.board(index)).collect();
    }
    for (index, board) in known.iter().enumerate() {
        assert!(!known[..index].contains(board));
    }
}

fn goal_board(game_state: GameState) -> Board {
    Board {
        TL: Kuhle::GLAS,
        TM: Kuhle::EMPTY,
        TR: Kuhle::METALL,
        DL: Kuhle::GLAS,
        DM: Kuhle::EMPTY,
        DR: Kuhle::METALL,
        L: Kuhle::GLAS,
        R: Kuhle::METALL,
        MID: Kuhle::GROSS,
        game_state,
    }
}

#[test]
fn search_from_the_starting_position_runs_dry() {
    assert_eq!(run_search(), Outcome::NoSolution);
    assert_eq!(search_from(Board::new()), Outcome::NoSolution);
}

#[test]
fn rounds_from_the_starting_position_stop_growing() {
    let mut explorer = Explorer::new();
    let mut rounds = 0;
    let mut size = 1;
    loop {
        let report = explorer.advance();
        rounds += 1;
        assert_eq!(report.found, None);
        assert!(report.size >= size);
        assert_eq!(report.grew, report.size > size);
        size = report.size;
        if !report.grew {
            break;
        }
    }
    assert_eq!(rounds, 40);
    assert_eq!(size, 3881);
    for index in 0..explorer.len() {
        assert!(!done(&explorer.board(index)));
    }
    let again = explorer.advance();
    assert_eq!(again.size, size);
    assert!(!again.grew);
    assert_eq!(again.found, None);
}

#[test]
fn search_from_the_target_position_finds_it_at_once() {
    let start = goal_board(GameState::KleinMuss);
    assert_eq!(search_from(start), Outcome::Found(start));
    let mut explorer = Explorer::starting_at(start);
    let report = explorer.advance();
    assert_eq!(report.found, Some(start));
    assert_eq!(report.size, 1);
    assert!(!report.grew);
    assert_eq!(explorer.len(), 1);
}

#[test]
fn search_one_move_before_the_target_finds_it() {
    let start = Board {
        TL: Kuhle::EMPTY,
        TM: Kuhle::GLAS,
        ..goal_board(GameState::KleinMuss)
    };
    assert_eq!(search_from(start), Outcome::Found(goal_board(GameState::GrossMuss)));
}

#[test]
fn round_that_finds_the_target_leaves_the_search_as_it_is() {
    let start = Board {
        TL: Kuhle::EMPTY,
        TM: Kuhle::GLAS,
        ..goal_board(GameState::KleinMuss)
    };
    let mut explorer = Explorer::starting_at(start);
    let first = explorer.advance();
    assert_eq!(first.found, None);
    assert_eq!(first.size, 5);
    assert!(first.grew);
    let second = explorer.advance();
    assert_eq!(second.found, Some(goal_board(GameState::GrossMuss)));
    assert_eq!(second.size, 5);
    assert!(!second.grew);
    let third = explorer.advance();
    assert_eq!(third, second);
    assert_eq!(explorer.len(), 5);
}

#[test]
fn search_from_a_dead_end_runs_dry_at_once() {
    let start = Board { game_state: GameState::GrossMuss, ..Board::new() };
    assert_eq!(search_from(start), Outcome::NoSolution);
    let mut explorer = Explorer::starting_at(start);
    let report = explorer.advance();
    assert_eq!(report.size, 1);
    assert!(!report.grew);
    assert_eq!(report.found, None);
}

#[test]
fn finished_search_holds_every_successor_and_no_board_twice() {
    let mut explorer = Explorer::new();
    while explorer.advance().grew {}
    let boards: Vec<Board> = (0..explorer.len()).map(|index| explorer.board(index)).collect();
    let set: HashSet<Board> = boards.iter().copied().collect();
    assert_eq!(set.len(), boards.len());
    assert!(set.contains(&Board::new()));
    for board in &boards {
        for next in possible_next_moves(board) {
            assert!(set.contains(&next));
        }
    }
}

#[test]
fn every_board_of_the_search_holds_the_same_marbles() {
    let mut explorer = Explorer::new();
    while explorer.advance().grew {}
    for index in 0..explorer.len() {
        let board = explorer.board(index);
        let count = |wanted: Kuhle| {
            Position::every().into_iter().filter(|pos| board.piece_at(*pos) == wanted).count()
        };
        assert_eq!(count(Kuhle::EMPTY), 2);
        assert_eq!(count(Kuhle::GROSS), 1);
        assert_eq!(count(Kuhle::GLAS), 3);
        assert_eq!(count(Kuhle::METALL), 3);
    }
}
