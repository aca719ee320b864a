use marble_puzzle::board::{done, move_pos_from_to, pos_empty, pos_has_gross, Board, MoveError};
use marble_puzzle::position::{GameState, Kuhle, Position};

fn goal_board(game_state: GameState) -> Board {
    Board {
        TL: Kuhle::GLAS,
        TM: Kuhle::EMPTY,
        TR: Kuhle::METALL,
        DL: Kuhle::GLAS,
        DM: Kuhle::EMPTY,
        DR: Kuhle::METALL,
        L: Kuhle::GLAS,
        R: Kuhle::METALL,
        MID: Kuhle::GROSS,
        game_state,
    }
}

#[test]
fn new_board_is_the_starting_position() {
    let board = Board::new();
    assert_eq!(board.TL, Kuhle::METALL);
    assert_eq!(board.TM, Kuhle::EMPTY);
    assert_eq!(board.TR, Kuhle::GLAS);
    assert_eq!(board.DL, Kuhle::METALL);
    assert_eq!(board.DM, Kuhle::EMPTY);
    assert_eq!(board.DR, Kuhle::GLAS);
    assert_eq!(board.L, Kuhle::METALL);
    assert_eq!(board.R, Kuhle::GLAS);
    assert_eq!(board.MID, Kuhle::GROSS);
    assert_eq!(board.game_state, GameState::KleinMuss);
}

#[test]
fn piece_at_reads_every_slot() {
    let board = Board::new();
    assert_eq!(board.piece_at(Position::TL), Kuhle::METALL);
    assert_eq!(board.piece_at(Position::TM), Kuhle::EMPTY);
    assert_eq!(board.piece_at(Position::TR), Kuhle::GLAS);
    assert_eq!(board.piece_at(Position::DL), Kuhle::METALL);
    assert_eq!(board.piece_at(Position::DM), Kuhle::EMPTY);
    assert_eq!(board.piece_at(Position::DR), Kuhle::GLAS);
    assert_eq!(board.piece_at(Position::L), Kuhle::METALL);
    assert_eq!(board.piece_at(Position::R), Kuhle::GLAS);
    assert_eq!(board.piece_at(Position::MID), Kuhle::GROSS);
}

#[test]
fn put_changes_one_slot_only() {
    let mut board = Board::new();
    board.put(Position::DM, Kuhle::GLAS);
    let expected = Board { DM: Kuhle::GLAS, ..Board::new() };
    assert_eq!(board, expected);
}

#[test]
fn pos_empty_tells_free_slots() {
    let board = Board::new();
    assert!(pos_empty(Position::TM, &board));
    assert!(pos_empty(Position::DM, &board));
    assert!(!pos_empty(Position::TL, &board));
    assert!(!pos_empty(Position::R, &board));
    assert!(!pos_empty(Position::MID, &board));
}

#[test]
fn pos_has_gross_finds_the_large_marble() {
    let board = Board::new();
    assert!(pos_has_gross(Position::MID, &board));
    assert!(!pos_has_gross(Position::TL, &board));
    assert!(!pos_has_gross(Position::TR, &board));
    assert!(!pos_has_gross(Position::TM, &board));
}

#[test]
fn iter_walks_the_slots_in_order() {
    let board = Board::new();
    let mut walk = board.iter();
    let expected = [
        Kuhle::METALL,
        Kuhle::EMPTY,
        Kuhle::GLAS,
        Kuhle::METALL,
        Kuhle::EMPTY,
        Kuhle::GLAS,
        Kuhle::METALL,
        Kuhle::GLAS,
        Kuhle::GROSS,
    ];
    for kuhle in expected {
        assert_eq!(walk.next(), Some(kuhle));
    }
    assert_eq!(walk.next(), None);
    assert_eq!(walk.next(), None);
}

#[test]
fn move_puts_the_marble_into_the_free_slot() {
    let moved = move_pos_from_to(Board::new(), Position::TL, Position::TM);
    let expected = Board {
        TL: Kuhle::EMPTY,
        TM: Kuhle::METALL,
        game_state: GameState::GrossMuss,
        ..Board::new()
    };
    assert_eq!(moved, Ok(expected));
}

#[test]
fn move_of_the_large_marble_passes_the_turn_to_the_small_ones() {
    let board = Board {
        TL: Kuhle::EMPTY,
        TM: Kuhle::METALL,
        game_state: GameState::GrossMuss,
        ..Board::new()
    };
    let moved = move_pos_from_to(board, Position::MID, Position::TL);
    let expected = Board {
        TL: Kuhle::GROSS,
        TM: Kuhle::METALL,
        MID: Kuhle::EMPTY,
        game_state: GameState::KleinMuss,
        ..Board::new()
    };
    assert_eq!(moved, Ok(expected));
}

#[test]
fn move_into_a_taken_slot_is_refused() {
    let moved = move_pos_from_to(Board::new(), Position::TL, Position::L);
    assert_eq!(moved, Err(MoveError::InvalidMove));
}

#[test]
fn move_out_of_a_free_slot_is_refused() {
    let moved = move_pos_from_to(Board::new(), Position::TM, Position::DM);
    assert_eq!(moved, Err(MoveError::InvalidMove));
    let same = move_pos_from_to(Board::new(), Position::TM, Position::TM);
    assert_eq!(same, Err(MoveError::InvalidMove));
}

#[test]
fn moving_back_restores_the_board() {
    let board = Board::new();
    let there = move_pos_from_to(board, Position::DR, Position::DM).unwrap();
    assert_ne!(there, board);
    let back = move_pos_from_to(there, Position::DM, Position::DR).unwrap();
    assert_eq!(back, board);
}

#[test]
fn done_holds_for_the_target_position_whatever_the_turn() {
    assert!(done(&goal_board(GameState::KleinMuss)));
    assert!(done(&goal_board(GameState::GrossMuss)));
}

#[test]
fn done_fails_for_other_boards() {
    assert!(!done(&Board::new()));
    let nearly = Board { R: Kuhle::GLAS, ..goal_board(GameState::KleinMuss) };
    assert!(!done(&nearly));
    let shifted = Board {
        TM: Kuhle::GLAS,
        TL: Kuhle::EMPTY,
        ..goal_board(GameState::GrossMuss)
    };
    assert!(!done(&shifted));
}

#[test]
fn boards_are_equal_by_slots_and_turn() {
    let a = Board::new();
    let b = Board::new();
    assert_eq!(a, b);
    let other_turn = Board { game_state: GameState::GrossMuss, ..a };
    assert_ne!(a, other_turn);
    let other_slot = Board { L: Kuhle::GLAS, ..a };
    assert_ne!(a, other_slot);
}

#[test]
fn flip_changes_the_turn() {
    assert_eq!(GameState::GrossMuss.flip(), GameState::KleinMuss);
    assert_eq!(GameState::KleinMuss.flip(), GameState::GrossMuss);
}

#[test]
fn labels_are_two_characters_wide() {
    assert_eq!(Kuhle::EMPTY.label(), "E ");
    assert_eq!(Kuhle::GLAS.label(), "G ");
    assert_eq!(Kuhle::METALL.label(), "M ");
    assert_eq!(Kuhle::GROSS.label(), "GR");
}
