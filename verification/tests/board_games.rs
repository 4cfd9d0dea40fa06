use std::collections::HashMap;

use game_solver::game::tic_tac_toe::board::Board;
use game_solver::game::tic_tac_toe::Session;
use game_solver::game::{solve, Game, Outcome};

/// Two boards agree on every observable: dimensions and each cell.
fn boards_agree(a: &Board, b: &Board) -> bool {
    if a.height() != b.height() || a.width() != b.width() {
        return false;
    }
    for i in 0..a.height() {
        for j in 0..a.width() {
            if a.symbol_at(i, j) != b.symbol_at(i, j) {
                return false;
            }
        }
    }
    true
}

#[test]
fn empty_board_hashes_to_zero() {
    let b = Board::new(3, 3, 3);
    assert_eq!(b.hash(), 0);
    assert_eq!(b.outcome(), None);
}

#[test]
fn hash_weighs_cells_in_row_major_base_three() {
    let mut b = Board::new(3, 3, 3);
    b.place(Some(true), 0, 0);
    assert_eq!(b.hash(), 1);
    b.place(Some(false), 0, 1);
    assert_eq!(b.hash(), 1 + 2 * 3);
    b.place(Some(true), 1, 0);
    assert_eq!(b.hash(), 1 + 2 * 3 + 27);
}

#[test]
fn transform_rotation_moves_a_mark() {
    let mut b = Board::new(3, 3, 3);
    b.place(Some(true), 0, 0);
    // One quarter-turn to the right sends (0, 0) to (0, 2).
    b.transform(0, 1);
    assert_eq!(b.symbol_at(0, 2), Some(true));
    assert_eq!(b.symbol_at(0, 0), None);
}

#[test]
fn transform_flip_reverses_rows() {
    let mut b = Board::new(2, 3, 3);
    b.place(Some(false), 0, 1);
    b.transform(1, 0);
    assert_eq!(b.symbol_at(1, 1), Some(false));
    assert_eq!(b.symbol_at(0, 1), None);
}

#[test]
fn rotation_swaps_the_dimensions() {
    let mut b = Board::new(2, 3, 3);
    b.transform(0, 1);
    assert_eq!(b.height(), 3);
    assert_eq!(b.width(), 2);
    b.transform(0, 1);
    assert_eq!(b.height(), 2);
    assert_eq!(b.width(), 3);
}

#[test]
fn four_rotations_and_double_flips_restore_the_board() {
    let mut b = Board::new(3, 3, 3);
    b.place(Some(true), 0, 1);
    b.place(Some(false), 2, 2);
    let mut untouched = Board::new(3, 3, 3);
    untouched.place(Some(true), 0, 1);
    untouched.place(Some(false), 2, 2);
    b.transform(0, 4);
    assert!(boards_agree(&b, &untouched));
    b.transform(2, 0);
    assert!(boards_agree(&b, &untouched));
}

#[test]
fn horizontal_run_is_a_loss_for_the_mover() {
    let mut b = Board::new(3, 3, 3);
    for j in 0..3 {
        b.place(Some(true), 1, j);
    }
    assert_eq!(b.outcome(), Some(Outcome::Loss(0)));
}

#[test]
fn vertical_run_is_a_loss_for_the_mover() {
    let mut b = Board::new(4, 3, 3);
    for i in 1..4 {
        b.place(Some(false), i, 2);
    }
    assert_eq!(b.outcome(), Some(Outcome::Loss(0)));
}

#[test]
fn diagonal_runs_in_both_directions_are_detected() {
    let mut down_right = Board::new(3, 3, 3);
    for k in 0..3 {
        down_right.place(Some(true), k, k);
    }
    assert_eq!(down_right.outcome(), Some(Outcome::Loss(0)));
    let mut down_left = Board::new(3, 3, 3);
    for k in 0..3 {
        down_left.place(Some(false), k, 2 - k);
    }
    assert_eq!(down_left.outcome(), Some(Outcome::Loss(0)));
}

#[test]
fn full_board_without_a_run_ties() {
    let mut b = Board::new(3, 3, 3);
    // x o x / x o o / o x x : no three-in-a-row anywhere.
    let marks = [
        (0, 0, true),
        (0, 1, false),
        (0, 2, true),
        (1, 0, true),
        (1, 1, false),
        (1, 2, false),
        (2, 0, false),
        (2, 1, true),
        (2, 2, true),
    ];
    for (i, j, m) in marks {
        b.place(Some(m), i, j);
    }
    assert_eq!(b.outcome(), Some(Outcome::Tie(0)));
}

#[test]
fn a_short_run_is_not_terminal() {
    let mut b = Board::new(3, 3, 3);
    b.place(Some(true), 0, 0);
    b.place(Some(true), 0, 1);
    assert_eq!(b.outcome(), None);
}

#[test]
fn single_cell_board_with_run_one() {
    let mut b = Board::new(1, 1, 1);
    assert_eq!(b.outcome(), None);
    b.place(Some(true), 0, 0);
    assert_eq!(b.outcome(), Some(Outcome::Loss(0)));
}

#[test]
fn canonicalization_is_idempotent() {
    let mut b = Board::new(3, 3, 3);
    b.place(Some(true), 0, 0);
    b.place(Some(false), 1, 2);
    let once = b.canonical();
    let twice = once.canonical();
    assert!(boards_agree(&once, &twice));
    assert_eq!(once.hash(), twice.hash());
}

#[test]
fn canonicalization_is_idempotent_on_non_square_boards() {
    let mut b = Board::new(2, 3, 3);
    b.place(Some(true), 0, 2);
    b.place(Some(false), 1, 0);
    let once = b.canonical();
    let twice = once.canonical();
    assert!(boards_agree(&once, &twice));
}

#[test]
fn rotated_square_boards_canonicalize_identically() {
    let mut b1 = Board::new(3, 3, 3);
    b1.place(Some(true), 0, 0);
    b1.place(Some(false), 1, 0);
    // Build the 90-degree rotation of b1 independently.
    let mut rotated = Board::new(3, 3, 3);
    rotated.place(Some(true), 0, 2);
    rotated.place(Some(false), 0, 1);
    let b2 = rotated.canonical();
    let c1 = b1.canonical();
    assert!(boards_agree(&c1, &b2));
    assert_eq!(c1.hash(), b2.hash());
}

#[test]
fn every_symmetry_of_a_square_board_shares_the_canonical_hash() {
    let mut b = Board::new(3, 3, 3);
    b.place(Some(true), 0, 1);
    b.place(Some(false), 2, 0);
    let canon_hash = b.canonical().hash();
    for f in 0..2 {
        for r in 0..4 {
            let mut t = Board::new(3, 3, 3);
            t.place(Some(true), 0, 1);
            t.place(Some(false), 2, 0);
            t.transform(f, r);
            assert_eq!(t.canonical().hash(), canon_hash);
        }
    }
}

#[test]
fn tic_tac_toe_empty_three_by_three_ties_in_nine() {
    let mut game = Session::new(3, 3, 3);
    let mut seen: HashMap<i32, Outcome> = HashMap::new();
    let out = solve(&mut game, &mut seen);
    assert_eq!(out, Outcome::Tie(9));
    // Canonicalization folds symmetry-equivalent positions: far fewer table
    // entries than the raw count of reachable non-initial positions (5477).
    assert!(seen.len() < 5477);
    assert!(seen.len() > 0);
}

#[test]
fn tic_tac_toe_repeated_solves_share_outcome_and_table_size() {
    let mut g1 = Session::new(3, 3, 3);
    let mut s1: HashMap<i32, Outcome> = HashMap::new();
    let o1 = solve(&mut g1, &mut s1);
    let mut g2 = Session::new(3, 3, 3);
    let mut s2: HashMap<i32, Outcome> = HashMap::new();
    let o2 = solve(&mut g2, &mut s2);
    assert_eq!(o1, o2);
    assert_eq!(s1.len(), s2.len());
}

#[test]
fn tic_tac_toe_rotated_openings_share_a_state_key() {
    // The first player marks a corner; the four corners are one position
    // after canonicalization, so the sessions share a single table entry.
    let mut corner_a = Session::new(3, 3, 3);
    corner_a.play(2 * 0 + 0);
    let mut corner_b = Session::new(3, 3, 3);
    corner_b.play(2 * 2 + 0);
    assert_eq!(corner_a.state(), corner_b.state());
    let mut edge = Session::new(3, 3, 3);
    edge.play(2 * 1 + 0);
    assert_ne!(corner_a.state(), edge.state());
}

#[test]
fn tic_tac_toe_play_undo_round_trip() {
    let mut game = Session::new(3, 3, 3);
    let state_before = game.state();
    let moves_before = game.possible_moves();
    game.play(2 * 4 + 0);
    game.play(2 * 0 + 1);
    game.play(2 * 8 + 0);
    game.undo();
    game.undo();
    game.undo();
    assert_eq!(game.state(), state_before);
    assert_eq!(game.possible_moves(), moves_before);
    assert_eq!(game.outcome(), None);
}

#[test]
fn tic_tac_toe_moves_alternate_between_players() {
    let game = Session::new(3, 3, 3);
    let first = game.possible_moves();
    assert_eq!(first.len(), 9);
    // The first player's tokens are even: the low bit carries the mark.
    assert!(first.iter().all(|t| t % 2 == 0));
    let mut game = Session::new(3, 3, 3);
    game.play(first[0]);
    let second = game.possible_moves();
    assert_eq!(second.len(), 8);
    assert!(second.iter().all(|t| t % 2 == 1));
}

#[test]
fn tic_tac_toe_session_reports_a_win_as_terminal() {
    let mut game = Session::new(3, 3, 3);
    // O takes the top row while X wanders elsewhere.
    game.play(2 * 0 + 0);
    game.play(2 * 3 + 1);
    game.play(2 * 1 + 0);
    game.play(2 * 4 + 1);
    game.play(2 * 2 + 0);
    assert_eq!(game.outcome(), Some(Outcome::Loss(0)));
}

#[test]
fn four_by_three_grid_solves_deterministically() {
    let mut g1 = Session::new(4, 3, 3);
    let mut s1: HashMap<i32, Outcome> = HashMap::new();
    let o1 = solve(&mut g1, &mut s1);
    let mut g2 = Session::new(4, 3, 3);
    let mut s2: HashMap<i32, Outcome> = HashMap::new();
    let o2 = solve(&mut g2, &mut s2);
    assert_eq!(o1, o2);
    assert_eq!(s1.len(), s2.len());
}
