use std::collections::HashMap;

use game_solver::game::coin_game::{CoinGame, Move};
use game_solver::game::zero_by_1_2;
use game_solver::game::zero_by_1_3_4;
use game_solver::game::{get_outcome, solve, Game, Outcome};

#[test]
fn coin_game_zero_coins_is_immediate_loss() {
    let mut game = CoinGame::new(0);
    let mut seen: HashMap<i32, Outcome> = HashMap::new();
    assert_eq!(solve(&mut game, &mut seen), Outcome::Loss(0));
    assert_eq!(seen.len(), 0);
}

#[test]
fn coin_game_one_coin_wins_in_one_ply() {
    let mut game = CoinGame::new(1);
    let mut seen: HashMap<i32, Outcome> = HashMap::new();
    assert_eq!(solve(&mut game, &mut seen), Outcome::Win(1));
}

#[test]
fn coin_game_three_coins_is_a_forced_loss() {
    // Every move hands the opponent a winning pile; the loss is delayed as
    // long as possible, two plies in total.
    let mut game = CoinGame::new(3);
    let mut seen: HashMap<i32, Outcome> = HashMap::new();
    assert_eq!(solve(&mut game, &mut seen), Outcome::Loss(2));
}

#[test]
fn coin_game_terminal_outcome_reported_before_moves() {
    let game = CoinGame::new(0);
    assert_eq!(game.outcome(), Some(Outcome::Loss(0)));
    assert!(game.possible_moves().is_empty());
}

#[test]
fn coin_game_play_then_undo_restores_observables() {
    let mut game = CoinGame::new(7);
    let state_before = game.state();
    let moves_before = game.possible_moves();
    let one = game.move_uuid(Move::One);
    let two = game.move_uuid(Move::Two);
    game.play(two);
    game.play(one);
    game.undo();
    game.undo();
    assert_eq!(game.state(), state_before);
    assert_eq!(game.possible_moves(), moves_before);
    assert_eq!(game.outcome(), None);
}

#[test]
fn coin_game_solve_restores_the_session() {
    let mut game = CoinGame::new(6);
    let mut seen: HashMap<i32, Outcome> = HashMap::new();
    let state_before = game.state();
    let moves_before = game.possible_moves();
    solve(&mut game, &mut seen);
    assert_eq!(game.state(), state_before);
    assert_eq!(game.possible_moves(), moves_before);
}

#[test]
fn coin_game_repeated_solves_agree() {
    let mut first = CoinGame::new(9);
    let mut seen_first: HashMap<i32, Outcome> = HashMap::new();
    let out_first = solve(&mut first, &mut seen_first);
    let mut second = CoinGame::new(9);
    let mut seen_second: HashMap<i32, Outcome> = HashMap::new();
    let out_second = solve(&mut second, &mut seen_second);
    assert_eq!(out_first, out_second);
    assert_eq!(seen_first.len(), seen_second.len());
}

#[test]
fn coin_game_win_has_losing_child_one_ply_closer() {
    // The chosen move of a Win(r) position leads to a Loss(r - 1) child,
    // and a Loss(r) position only has Win children no slower than r - 1.
    let mut seen: HashMap<i32, Outcome> = HashMap::new();
    let mut root = CoinGame::new(3);
    let root_out = solve(&mut root, &mut seen);
    assert_eq!(root_out, Outcome::Loss(2));
    let mut child_two = CoinGame::new(2);
    let mut child_one = CoinGame::new(1);
    let mut seen_two: HashMap<i32, Outcome> = HashMap::new();
    let mut seen_one: HashMap<i32, Outcome> = HashMap::new();
    assert_eq!(solve(&mut child_two, &mut seen_two), Outcome::Win(1));
    assert_eq!(solve(&mut child_one, &mut seen_one), Outcome::Win(1));
}

#[test]
fn zero_by_1_2_multiples_of_three_lose() {
    for coins in [0i32, 3, 6, 9] {
        let mut game = zero_by_1_2::Session::new(coins);
        let mut seen: HashMap<i32, Outcome> = HashMap::new();
        let out = solve(&mut game, &mut seen);
        assert!(matches!(out, Outcome::Loss(_)), "coins = {}", coins);
    }
    for coins in [1i32, 2, 4, 5, 7, 8] {
        let mut game = zero_by_1_2::Session::new(coins);
        let mut seen: HashMap<i32, Outcome> = HashMap::new();
        let out = solve(&mut game, &mut seen);
        assert!(matches!(out, Outcome::Win(_)), "coins = {}", coins);
    }
}

#[test]
fn zero_by_1_2_five_coins_wins_in_three() {
    let mut game = zero_by_1_2::Session::new(5);
    assert_eq!(game.coins_left(), 5);
    let mut seen: HashMap<i32, Outcome> = HashMap::new();
    assert_eq!(solve(&mut game, &mut seen), Outcome::Win(3));
    assert_eq!(game.coins_left(), 5);
}

#[test]
fn zero_by_1_2_session_solve_tracks_the_current_pile() {
    let mut game = zero_by_1_2::Session::new(5);
    assert_eq!(game.solve(), Outcome::Win(3));
    let one = game.move_uuid(zero_by_1_2::Move::One);
    let two = game.move_uuid(zero_by_1_2::Move::Two);
    game.play(two);
    assert_eq!(game.solve(), Outcome::Loss(2));
    game.play(one);
    assert_eq!(game.solve(), Outcome::Win(1));
}

#[test]
fn zero_by_1_2_tokens_are_stable_and_distinct() {
    let game = zero_by_1_2::Session::new(4);
    let one = game.move_uuid(zero_by_1_2::Move::One);
    let two = game.move_uuid(zero_by_1_2::Move::Two);
    assert_ne!(one, two);
    assert_eq!(one, game.move_uuid(zero_by_1_2::Move::One));
    assert_eq!(two, game.move_uuid(zero_by_1_2::Move::Two));
}

#[test]
fn zero_by_1_3_4_seven_coins_is_a_forced_loss() {
    let mut game = zero_by_1_3_4::Session::new(7);
    let mut seen: HashMap<i32, Outcome> = HashMap::new();
    assert_eq!(solve(&mut game, &mut seen), Outcome::Loss(4));
}

#[test]
fn zero_by_1_3_4_three_coins_wins_at_once() {
    let mut game = zero_by_1_3_4::Session::new(3);
    let mut seen: HashMap<i32, Outcome> = HashMap::new();
    assert_eq!(solve(&mut game, &mut seen), Outcome::Win(1));
}

#[test]
fn zero_by_1_3_4_move_menu_shrinks_with_the_pile() {
    let mut game = zero_by_1_3_4::Session::new(4);
    assert_eq!(game.possible_moves().len(), 3);
    let one = game.move_uuid(zero_by_1_3_4::Move::One);
    game.play(one);
    assert_eq!(game.coins_left(), 3);
    assert_eq!(game.possible_moves().len(), 2);
    game.play(one);
    assert_eq!(game.possible_moves().len(), 1);
    game.undo();
    game.undo();
    assert_eq!(game.coins_left(), 4);
    assert_eq!(game.possible_moves().len(), 3);
}

#[test]
fn combine_prefers_fastest_win_over_everything() {
    let outs = vec![
        Outcome::Win(2),
        Outcome::Loss(5),
        Outcome::Tie(1),
        Outcome::Loss(3),
    ];
    assert_eq!(get_outcome(outs), Outcome::Win(4));
}

#[test]
fn combine_prefers_fastest_tie_when_no_loss() {
    let outs = vec![Outcome::Win(2), Outcome::Tie(5), Outcome::Tie(3)];
    assert_eq!(get_outcome(outs), Outcome::Tie(4));
}

#[test]
fn combine_delays_a_forced_loss() {
    let outs = vec![Outcome::Win(1), Outcome::Win(7), Outcome::Win(3)];
    assert_eq!(get_outcome(outs), Outcome::Loss(8));
}

#[test]
fn combine_of_no_children_is_an_immediate_loss() {
    assert_eq!(get_outcome(Vec::new()), Outcome::Loss(0));
}
