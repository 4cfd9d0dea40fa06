//! The value model of the solver: outcomes with remoteness, and the rule
//! that combines the outcomes of a position's children into the outcome of
//! the position itself.

pub mod coin_game;
pub mod tic_tac_toe;
pub mod zero_by_1_2;
pub mod zero_by_1_3_4;

use vstd::prelude::*;
use std::collections::HashMap;
use crate::game::tic_tac_toe::board::{
    s_flip, s_rot, s_rot_n, s_flip_n, s_transform, lemma_flip_wf, lemma_rot_wf, lemma_flip_set,
    lemma_rot_set, lemma_flip_outcome, lemma_rot_outcome, lemma_flip_filled, lemma_rot_filled,
    lemma_transform_wf, lemma_canonical_wf, lemma_canonical_props, lemma_hash_injective,
    lemma_inverse, lemma_compose, comp_f, comp_r, candidates, rect_f, rect_r,
    BoardModel, board_wf, board_set, board_outcome, board_hash, board_filled, canonical_of,
    cell_at, lemma_filled_update, lemma_filled_upto_bounds, lemma_flat_decode,
    lemma_flat_index, lemma_filled_none, MAX_HASH_CELLS,
};

verus! {

broadcast use vstd::std_specs::hash::group_hash_axioms;

/// The exact game-theoretic value of a position, from the point of view of
/// the player about to move.  The payload is the remoteness: the number of
/// plies to termination under optimal play by both sides (0 at a terminal
/// position).
#[derive(Eq, Hash, PartialEq, Structural, Clone, Copy, Debug)]
pub enum Outcome {
    Win(i32),
    Loss(i32),
    Tie(i32),
}

/// The remoteness carried by an outcome.
pub open spec fn rem_of(o: Outcome) -> int {
    match o {
        Outcome::Win(r) => r as int,
        Outcome::Loss(r) => r as int,
        Outcome::Tie(r) => r as int,
    }
}

/// Does some child position lose (for the player who moves there)?
pub open spec fn has_loss(outs: Seq<Outcome>) -> bool {
    exists|i: int| 0 <= i < outs.len() && outs[i] is Loss
}

/// Does some child position tie?
pub open spec fn has_tie(outs: Seq<Outcome>) -> bool {
    exists|i: int| 0 <= i < outs.len() && outs[i] is Tie
}

/// Minimum remoteness among the `Loss` outcomes of `outs`
/// (`i32::MAX` if there is none).
pub open spec fn min_loss_rem(outs: Seq<Outcome>) -> int
    decreases outs.len(),
{
    if outs.len() == 0 {
        i32::MAX as int
    } else {
        let rest = min_loss_rem(outs.drop_last());
        if outs.last() is Loss && rem_of(outs.last()) < rest {
            rem_of(outs.last())
        } else {
            rest
        }
    }
}

/// Minimum remoteness among the `Tie` outcomes of `outs`
/// (`i32::MAX` if there is none).
pub open spec fn min_tie_rem(outs: Seq<Outcome>) -> int
    decreases outs.len(),
{
    if outs.len() == 0 {
        i32::MAX as int
    } else {
        let rest = min_tie_rem(outs.drop_last());
        if outs.last() is Tie && rem_of(outs.last()) < rest {
            rem_of(outs.last())
        } else {
            rest
        }
    }
}

/// Maximum remoteness among the `Win` outcomes of `outs`
/// (`-1` if there is none).
pub open spec fn max_win_rem(outs: Seq<Outcome>) -> int
    decreases outs.len(),
{
    if outs.len() == 0 {
        -1
    } else {
        let rest = max_win_rem(outs.drop_last());
        if outs.last() is Win && rem_of(outs.last()) > rest {
            rem_of(outs.last())
        } else {
            rest
        }
    }
}

/// The tie-break rule that turns the outcomes of a position's children into
/// the outcome of the position: a position is a win iff some child is a loss
/// (taking the fastest such win), otherwise a tie iff some child is a tie
/// (again fastest), otherwise every child is a win for the opponent and the
/// position is a loss, delayed as long as possible.
pub open spec fn combine(outs: Seq<Outcome>) -> Outcome {
    if has_loss(outs) {
        Outcome::Win((min_loss_rem(outs) + 1) as i32)
    } else if has_tie(outs) {
        Outcome::Tie((min_tie_rem(outs) + 1) as i32)
    } else {
        Outcome::Loss((max_win_rem(outs) + 1) as i32)
    }
}

/// The abstract state of a subtraction game: the sorted amounts a move may
/// remove, the coins remaining, and the amounts removed so far.
pub struct SubtractState {
    pub takes: Seq<int>,
    pub coins: int,
    pub history: Seq<int>,
}

/// The abstract state of a grid game: the board and the cells filled so
/// far, in order.
pub struct GridState {
    pub board: BoardModel,
    pub history: Seq<(int, int)>,
}

/// The abstract position of any supported game.  Every session abstracts to
/// one of these, and the solver's contract is stated over them.
pub enum AbsGame {
    Subtract(SubtractState),
    Grid(GridState),
}

/// The sum of a sequence of integers.
pub open spec fn seq_sum(s: Seq<int>) -> int
    decreases s.len(),
{
    if s.len() == 0 {
        0
    } else {
        seq_sum(s.drop_last()) + s.last()
    }
}

/// Well-formedness of a move menu: non-empty, strictly increasing, and
/// starting at 1, so that a move is legal exactly when it fits in the coins
/// left and some move is legal whenever a coin is left.
pub open spec fn takes_wf(takes: Seq<int>) -> bool {
    &&& 1 <= takes.len() <= i32::MAX as int
    &&& takes[0] == 1
    &&& forall|i: int, j: int| 0 <= i < j < takes.len() ==> #[trigger] takes[i] < #[trigger] takes[j]
    &&& forall|i: int| 0 <= i < takes.len() ==> #[trigger] takes[i] >= 1
}

/// How many moves of the menu fit in `coins`: a prefix, since the menu is
/// sorted.
pub open spec fn num_legal(takes: Seq<int>, coins: int) -> nat
    decreases takes.len(),
{
    if takes.len() == 0 {
        0
    } else if takes[0] > coins {
        0
    } else {
        (1 + num_legal(takes.drop_first(), coins)) as nat
    }
}

/// The legal move tokens of a grid position among the first `c` cells:
/// one token per empty cell, carrying the mover's mark in its low bit.
pub open spec fn grid_moves(b: BoardModel, bit: int, c: nat) -> Seq<u64>
    decreases c,
{
    if c == 0 {
        Seq::empty()
    } else {
        let rest = grid_moves(b, bit, (c - 1) as nat);
        if cell_at(b, c - 1) is None {
            rest.push((2 * (c - 1) + bit) as u64)
        } else {
            rest
        }
    }
}

/// Well-formedness of an abstract position.
pub open spec fn abs_wf(a: AbsGame) -> bool {
    match a {
        AbsGame::Subtract(s) => {
            &&& takes_wf(s.takes)
            &&& 0 <= s.coins <= i32::MAX as int
            &&& forall|k: int| 0 <= k < s.history.len() ==> 1 <= #[trigger] s.history[k]
            &&& s.coins + seq_sum(s.history) <= i32::MAX as int
        },
        AbsGame::Grid(g) => {
            &&& board_wf(g.board)
            &&& g.history.len() == board_filled(g.board)
            &&& forall|k: int|
                0 <= k < g.history.len() ==> 0 <= (#[trigger] g.history[k]).0 < g.board.height
                    && 0 <= g.history[k].1 < g.board.width
        },
    }
}

/// The terminal status of an abstract position.
pub open spec fn abs_outcome(a: AbsGame) -> Option<Outcome> {
    match a {
        AbsGame::Subtract(s) => if s.coins <= 0 {
            Some(Outcome::Loss(0))
        } else {
            None
        },
        AbsGame::Grid(g) => board_outcome(g.board),
    }
}

/// The ordered legal move tokens of an abstract position.
pub open spec fn abs_moves(a: AbsGame) -> Seq<u64> {
    match a {
        AbsGame::Subtract(s) => Seq::new(num_legal(s.takes, s.coins), |i: int| i as u64),
        AbsGame::Grid(g) => grid_moves(
            g.board,
            g.history.len() as int % 2,
            (g.board.height * g.board.width) as nat,
        ),
    }
}

/// The abstract position after playing a legal move token.
pub open spec fn abs_play(a: AbsGame, mv: u64) -> AbsGame {
    match a {
        AbsGame::Subtract(s) => AbsGame::Subtract(
            SubtractState {
                takes: s.takes,
                coins: s.coins - s.takes[mv as int],
                history: s.history.push(s.takes[mv as int]),
            },
        ),
        AbsGame::Grid(g) => {
            let c = (mv as int) / 2;
            let i = c / g.board.width;
            let j = c % g.board.width;
            let mark = (mv as int) % 2 == 1;
            AbsGame::Grid(
                GridState {
                    board: board_set(g.board, i, j, Some(mark)),
                    history: g.history.push((i, j)),
                },
            )
        },
    }
}

/// Whether a move has been recorded that `abs_undo` could revert.
pub open spec fn abs_can_undo(a: AbsGame) -> bool {
    match a {
        AbsGame::Subtract(s) => s.history.len() > 0,
        AbsGame::Grid(g) => g.history.len() > 0,
    }
}

/// The abstract position after reverting the most recent move.
pub open spec fn abs_undo(a: AbsGame) -> AbsGame {
    match a {
        AbsGame::Subtract(s) => if s.history.len() == 0 {
            a
        } else {
            AbsGame::Subtract(
                SubtractState {
                    takes: s.takes,
                    coins: s.coins + s.history.last(),
                    history: s.history.drop_last(),
                },
            )
        },
        AbsGame::Grid(g) => if g.history.len() == 0 {
            a
        } else {
            AbsGame::Grid(
                GridState {
                    board: board_set(g.board, g.history.last().0, g.history.last().1, None),
                    history: g.history.drop_last(),
                },
            )
        },
    }
}

/// The state key of an abstract position: the coins left, or the hash of
/// the canonicalized board.
pub open spec fn abs_key(a: AbsGame) -> int {
    match a {
        AbsGame::Subtract(s) => s.coins,
        AbsGame::Grid(g) => board_hash(canonical_of(g.board)),
    }
}

/// An upper bound on the number of plies left: every move strictly
/// decreases it.
pub open spec fn abs_measure(a: AbsGame) -> nat {
    match a {
        AbsGame::Subtract(s) => if s.coins >= 0 {
            s.coins as nat
        } else {
            0
        },
        AbsGame::Grid(g) => {
            let e = g.board.height * g.board.width - board_filled(g.board);
            if e >= 0 {
                e as nat
            } else {
                0
            }
        },
    }
}

/// The game-theoretic value of a position, computed by backward induction
/// with an explicit fuel; `fuel >= abs_measure(a)` makes it exact.
pub open spec fn value_fuel(a: AbsGame, fuel: nat) -> Outcome
    decreases fuel, 0int,
{
    match abs_outcome(a) {
        Some(out) => out,
        None => if fuel == 0 {
            Outcome::Tie(0)
        } else {
            combine(child_values(a, abs_moves(a).len(), (fuel - 1) as nat))
        },
    }
}

/// The values of the first `k` children of a position, at the given fuel.
pub open spec fn child_values(a: AbsGame, k: nat, fuel: nat) -> Seq<Outcome>
    decreases fuel, k,
{
    if k == 0 {
        Seq::empty()
    } else {
        child_values(a, (k - 1) as nat, fuel).push(
            value_fuel(abs_play(a, abs_moves(a)[k - 1]), fuel),
        )
    }
}

/// The exact game-theoretic value of an abstract position: the outcome of
/// optimal play by both sides, combined by the rule of `combine`.
pub open spec fn value_of(a: AbsGame) -> Outcome {
    value_fuel(a, abs_measure(a))
}

/// The legal moves of a sorted menu are exactly its first `num_legal`
/// entries.
pub proof fn lemma_num_legal(takes: Seq<int>, coins: int)
    requires
        forall|i: int, j: int|
            0 <= i < j < takes.len() ==> #[trigger] takes[i] < #[trigger] takes[j],
    ensures
        num_legal(takes, coins) <= takes.len(),
        forall|i: int| 0 <= i < num_legal(takes, coins) ==> #[trigger] takes[i] <= coins,
        forall|i: int| num_legal(takes, coins) <= i < takes.len() ==> #[trigger] takes[i] > coins,
    decreases takes.len(),
{
    if takes.len() > 0 {
        let rest = takes.drop_first();
        assert(forall|i: int| 0 <= i < rest.len() ==> #[trigger] rest[i] == takes[i + 1]);
        lemma_num_legal(rest, coins);
        if takes[0] > coins {
            assert forall|i: int| 0 <= i < takes.len() implies #[trigger] takes[i] > coins by {
                if i > 0 {
                    assert(takes[0] < takes[i]);
                }
            }
        } else {
            assert forall|i: int| 0 <= i < num_legal(takes, coins) implies #[trigger] takes[i]
                <= coins by {
                if i > 0 {
                    assert(rest[i - 1] == takes[i]);
                    assert(rest[i - 1] <= coins);
                }
            }
            assert forall|i: int| num_legal(takes, coins) <= i < takes.len() implies #[trigger]
                takes[i] > coins by {
                assert(rest[i - 1] == takes[i]);
                assert(rest[i - 1] > coins);
            }
        }
    }
}

/// A sum of positive amounts is at least its last term, and non-negative.
pub proof fn lemma_seq_sum_nonneg(s: Seq<int>)
    requires
        forall|k: int| 0 <= k < s.len() ==> 1 <= #[trigger] s[k],
    ensures
        seq_sum(s) >= 0,
        s.len() > 0 ==> seq_sum(s) >= s.last(),
    decreases s.len(),
{
    if s.len() > 0 {
        let dl = s.drop_last();
        assert(forall|k: int| 0 <= k < dl.len() ==> #[trigger] dl[k] == s[k]);
        lemma_seq_sum_nonneg(dl);
    }
}

/// A grid move token decodes to an empty cell and carries the mover's bit.
pub proof fn lemma_grid_moves_elem(b: BoardModel, bit: int, c: nat, mv: u64)
    requires
        0 <= bit <= 1,
        c <= MAX_HASH_CELLS as nat,
        grid_moves(b, bit, c).contains(mv),
    ensures
        mv as int % 2 == bit,
        0 <= mv as int / 2 < c,
        cell_at(b, mv as int / 2) is None,
    decreases c,
{
    if c > 0 {
        let rest = grid_moves(b, bit, (c - 1) as nat);
        if cell_at(b, c - 1) is None {
            let full = rest.push((2 * (c - 1) + bit) as u64);
            assert(grid_moves(b, bit, c) == full);
            let w = choose|w: int| 0 <= w < full.len() && full[w] == mv;
            if w == rest.len() {
                assert(mv == (2 * (c - 1) + bit) as u64);
                assert(0 <= 2 * (c - 1) + bit <= 2 * MAX_HASH_CELLS);
                assert(mv as int == 2 * (c - 1) + bit);
                assert((2 * (c - 1) + bit) % 2 == bit) by (nonlinear_arith)
                    requires
                        0 <= bit <= 1,
                        c >= 1,
                ;
                assert((2 * (c - 1) + bit) / 2 == c - 1) by (nonlinear_arith)
                    requires
                        0 <= bit <= 1,
                        c >= 1,
                ;
            } else {
                assert(rest[w] == mv);
                assert(rest.contains(mv));
                lemma_grid_moves_elem(b, bit, (c - 1) as nat, mv);
            }
        } else {
            lemma_grid_moves_elem(b, bit, (c - 1) as nat, mv);
        }
    }
}

/// Every empty cell contributes its token to the grid move list.
pub proof fn lemma_grid_moves_full(b: BoardModel, bit: int, c: nat, t: int)
    requires
        0 <= bit <= 1,
        c <= MAX_HASH_CELLS as nat,
        0 <= t < c,
        cell_at(b, t) is None,
    ensures
        grid_moves(b, bit, c).contains((2 * t + bit) as u64),
    decreases c,
{
    let rest = grid_moves(b, bit, (c - 1) as nat);
    if t == c - 1 {
        let full = rest.push((2 * t + bit) as u64);
        assert(full[rest.len() as int] == (2 * t + bit) as u64);
    } else {
        lemma_grid_moves_full(b, bit, (c - 1) as nat, t);
        let w = choose|w: int| 0 <= w < rest.len() && rest[w] == (2 * t + bit) as u64;
        if cell_at(b, c - 1) is None {
            let full = rest.push((2 * (c - 1) + bit) as u64);
            assert(full[w] == (2 * t + bit) as u64);
        }
    }
}

/// Playing a legal move preserves well-formedness, strictly decreases the
/// measure, and leaves a move to undo.
pub proof fn lemma_play_wf(a: AbsGame, mv: u64)
    requires
        abs_wf(a),
        abs_moves(a).contains(mv),
    ensures
        abs_wf(abs_play(a, mv)),
        abs_measure(abs_play(a, mv)) < abs_measure(a),
        abs_can_undo(abs_play(a, mv)),
    decreases 0int,
{
    match a {
        AbsGame::Subtract(s) => {
            let moves = abs_moves(a);
            lemma_num_legal(s.takes, s.coins);
            let w = choose|w: int| 0 <= w < moves.len() && moves[w] == mv;
            assert(0 <= w < num_legal(s.takes, s.coins));
            assert(moves[w] == w as u64);
            assert(mv as int == w);
            assert(s.takes[mv as int] <= s.coins);
            assert(1 <= s.takes[mv as int]);
            let h2 = s.history.push(s.takes[mv as int]);
            assert(h2.drop_last() =~= s.history);
            assert(seq_sum(h2) == seq_sum(s.history) + s.takes[mv as int]);
        },
        AbsGame::Grid(g) => {
            let b = g.board;
            let total = b.height * b.width;
            let bit = g.history.len() as int % 2;
            assert(total <= MAX_HASH_CELLS as int);
            lemma_grid_moves_elem(b, bit, total as nat, mv);
            let c = mv as int / 2;
            lemma_flat_decode(c, b.height, b.width);
            let i = c / b.width;
            let j = c % b.width;
            let mark = mv as int % 2 == 1;
            vstd::arithmetic::div_mod::lemma_fundamental_div_mod(c, b.width);
            assert(i * b.width == b.width * i) by (nonlinear_arith);
            assert(i * b.width + j == c);
            assert(cell_at(b, c) == b.cells[i][j]);
            let b2 = board_set(b, i, j, Some(mark));
            assert(board_wf(b2)) by {
                assert forall|r: int| 0 <= r < b2.height implies (#[trigger] b2.cells[r]).len()
                    == b2.width by {
                    if r == i {
                        assert(b2.cells[r] == b.cells[i].update(j, Some(mark)));
                    } else {
                        assert(b2.cells[r] == b.cells[r]);
                    }
                }
            }
            lemma_filled_update(b, i, j, Some(mark), total as nat);
            assert(board_filled(b2) == board_filled(b) + 1);
            lemma_filled_none(b, c, total as nat);
            assert(board_filled(b) <= total - 1);
            lemma_filled_upto_bounds(b, total as nat);
        },
    }
}

/// Undoing a freshly played move restores the position exactly.
pub proof fn lemma_play_undo(a: AbsGame, mv: u64)
    requires
        abs_wf(a),
        abs_moves(a).contains(mv),
    ensures
        abs_undo(abs_play(a, mv)) == a,
{
    match a {
        AbsGame::Subtract(s) => {
            let t = s.takes[mv as int];
            let h2 = s.history.push(t);
            assert(h2.last() == t);
            assert(h2.drop_last() =~= s.history);
        },
        AbsGame::Grid(g) => {
            let b = g.board;
            let total = b.height * b.width;
            let bit = g.history.len() as int % 2;
            lemma_grid_moves_elem(b, bit, total as nat, mv);
            let c = mv as int / 2;
            lemma_flat_decode(c, b.height, b.width);
            let i = c / b.width;
            let j = c % b.width;
            let mark = mv as int % 2 == 1;
            assert(cell_at(b, c) == b.cells[i][j]);
            assert(b.cells[i][j] is None);
            let h2 = g.history.push((i, j));
            assert(h2.last() == (i, j));
            assert(h2.drop_last() =~= g.history);
            let b2 = board_set(b, i, j, Some(mark));
            let b3 = board_set(b2, i, j, None);
            assert(b2.cells[i] == b.cells[i].update(j, Some(mark)));
            assert(b2.cells[i].update(j, None) =~= b.cells[i]);
            assert forall|r: int| 0 <= r < b.cells.len() implies #[trigger] b3.cells[r]
                == b.cells[r] by {
                if r == i {
                    assert(b3.cells[i] == b2.cells[i].update(j, None));
                } else {
                    assert(b3.cells[r] == b2.cells[r]);
                    assert(b2.cells[r] == b.cells[r]);
                }
            }
            assert(b3.cells =~= b.cells);
            assert(b3 == b);
        },
    }
}

/// The measure of a well-formed position fits the remoteness type.
pub proof fn lemma_measure_bound(a: AbsGame)
    requires
        abs_wf(a),
    ensures
        abs_measure(a) <= i32::MAX as int,
{
    match a {
        AbsGame::Subtract(s) => {},
        AbsGame::Grid(g) => {
            lemma_filled_upto_bounds(g.board, (g.board.height * g.board.width) as nat);
        },
    }
}

/// A non-terminal position has at least one ply left.
pub proof fn lemma_nonterminal_measure(a: AbsGame)
    requires
        abs_wf(a),
        abs_outcome(a) is None,
    ensures
        abs_measure(a) >= 1,
{
    match a {
        AbsGame::Subtract(s) => {},
        AbsGame::Grid(g) => {
            let b = g.board;
            let total = b.height * b.width;
            let (i, j) = choose|i: int, j: int|
                0 <= i < b.height && 0 <= j < b.width && !(b.cells[i][j] is Some);
            lemma_flat_index(i, j, b.width);
            assert(0 <= i * b.width + j < b.height * b.width) by (nonlinear_arith)
                requires
                    0 <= i < b.height,
                    0 <= j < b.width,
                    1 <= b.width,
            ;
            assert(cell_at(b, i * b.width + j) is None);
            lemma_filled_none(b, i * b.width + j, total as nat);
            lemma_filled_upto_bounds(b, total as nat);
        },
    }
}

/// A non-terminal well-formed position has at least one legal move: the
/// solver meets `possible_moves() == empty` only at terminal or exhausted
/// positions, and neither arises below a well-formed non-terminal one.
pub proof fn lemma_nonterminal_moves(a: AbsGame)
    requires
        abs_wf(a),
        abs_outcome(a) is None,
    ensures
        abs_moves(a).len() > 0,
{
    match a {
        AbsGame::Subtract(s) => {
            lemma_num_legal(s.takes, s.coins);
            assert(num_legal(s.takes, s.coins) > 0);
        },
        AbsGame::Grid(g) => {
            let b = g.board;
            let bit = g.history.len() as int % 2;
            let total = b.height * b.width;
            let (i, j) = choose|i: int, j: int|
                0 <= i < b.height && 0 <= j < b.width && !(b.cells[i][j] is Some);
            lemma_flat_index(i, j, b.width);
            assert(0 <= i * b.width + j < b.height * b.width) by (nonlinear_arith)
                requires
                    0 <= i < b.height,
                    0 <= j < b.width,
                    1 <= b.width,
            ;
            assert(cell_at(b, i * b.width + j) is None);
            lemma_grid_moves_full(b, bit, total as nat, i * b.width + j);
        },
    }
}

/// The value is insensitive to any fuel at or above the measure.
pub proof fn lemma_value_fuel(a: AbsGame, f1: nat, f2: nat)
    requires
        abs_wf(a),
        f1 >= abs_measure(a),
        f2 >= abs_measure(a),
    ensures
        value_fuel(a, f1) == value_fuel(a, f2),
    decreases abs_measure(a), abs_moves(a).len() + 1,
{
    if abs_outcome(a) is None {
        lemma_nonterminal_measure(a);
        lemma_child_values_fuel(a, abs_moves(a).len(), (f1 - 1) as nat, (f2 - 1) as nat);
    }
}

/// Child values are insensitive to any fuel at or above the measure less
/// one.
pub proof fn lemma_child_values_fuel(a: AbsGame, k: nat, f1: nat, f2: nat)
    requires
        abs_wf(a),
        k <= abs_moves(a).len(),
        f1 + 1 >= abs_measure(a),
        f2 + 1 >= abs_measure(a),
    ensures
        child_values(a, k, f1) == child_values(a, k, f2),
    decreases abs_measure(a), k,
{
    if k > 0 {
        lemma_child_values_fuel(a, (k - 1) as nat, f1, f2);
        let mv = abs_moves(a)[k - 1];
        assert(abs_moves(a).contains(mv)) by {
            assert(abs_moves(a)[k - 1] == mv);
        }
        lemma_play_wf(a, mv);
        lemma_value_fuel(abs_play(a, mv), f1, f2);
    }
}

/// The first `k` child values, at sufficient fuel, are the children's exact
/// values.
pub proof fn lemma_child_values_at(a: AbsGame, k: nat, fuel: nat)
    requires
        abs_wf(a),
        k <= abs_moves(a).len(),
        fuel + 1 >= abs_measure(a),
    ensures
        child_values(a, k, fuel).len() == k,
        forall|i: int|
            0 <= i < k ==> #[trigger] child_values(a, k, fuel)[i] == value_of(
                abs_play(a, abs_moves(a)[i]),
            ),
    decreases k,
{
    if k > 0 {
        lemma_child_values_at(a, (k - 1) as nat, fuel);
        let mv = abs_moves(a)[k - 1];
        assert(abs_moves(a).contains(mv)) by {
            assert(abs_moves(a)[k - 1] == mv);
        }
        lemma_play_wf(a, mv);
        lemma_value_fuel(abs_play(a, mv), fuel, abs_measure(abs_play(a, mv)));
    }
}

/// At a terminal position, the value is the terminal outcome itself: the
/// solver honours `outcome()` before it ever consults the move list.
pub proof fn lemma_value_terminal(a: AbsGame)
    requires
        abs_outcome(a) is Some,
    ensures
        abs_outcome(a) == Some(value_of(a)),
{
}

/// At a non-terminal position, the value combines exactly the children's
/// values.
pub proof fn lemma_value_children(a: AbsGame, outs: Seq<Outcome>)
    requires
        abs_wf(a),
        abs_outcome(a) is None,
        outs.len() == abs_moves(a).len(),
        forall|i: int|
            0 <= i < outs.len() ==> #[trigger] outs[i] == value_of(abs_play(a, abs_moves(a)[i])),
    ensures
        value_of(a) == combine(outs),
{
    lemma_nonterminal_measure(a);
    let m = abs_measure(a);
    lemma_child_values_at(a, abs_moves(a).len(), (m - 1) as nat);
    assert(child_values(a, abs_moves(a).len(), (m - 1) as nat) =~= outs);
}

/// Where the minimum loss remoteness comes from, and that it is a minimum.
pub proof fn lemma_min_loss_rem_props(outs: Seq<Outcome>)
    requires
        forall|i: int|
            0 <= i < outs.len() ==> 0 <= rem_of(#[trigger] outs[i]) < i32::MAX as int,
    ensures
        has_loss(outs) ==> exists|i: int|
            0 <= i < outs.len() && (#[trigger] outs[i]) is Loss && rem_of(outs[i]) == min_loss_rem(
                outs,
            ),
        !has_loss(outs) ==> min_loss_rem(outs) == i32::MAX as int,
        forall|i: int|
            0 <= i < outs.len() && (#[trigger] outs[i]) is Loss ==> min_loss_rem(outs) <= rem_of(
                outs[i],
            ),
    decreases outs.len(),
{
    if outs.len() > 0 {
        let dl = outs.drop_last();
        lemma_min_loss_rem_props(dl);
        assert(forall|i: int| 0 <= i < dl.len() ==> #[trigger] dl[i] == outs[i]);
        assert forall|i: int|
            0 <= i < outs.len() && (#[trigger] outs[i]) is Loss implies min_loss_rem(outs)
            <= rem_of(outs[i]) by {
            if i < outs.len() - 1 {
                assert(dl[i] is Loss);
                assert(min_loss_rem(dl) <= rem_of(dl[i]));
            } else {
                assert(outs[i] == outs.last());
            }
        }
        if has_loss(outs) {
            let w = choose|w: int| 0 <= w < outs.len() && outs[w] is Loss;
            if outs.last() is Loss && rem_of(outs.last()) < min_loss_rem(dl) {
                assert(outs[outs.len() - 1] is Loss && rem_of(outs[outs.len() - 1])
                    == min_loss_rem(outs));
            } else {
                if w < outs.len() - 1 {
                    assert(has_loss(dl)) by {
                        assert(dl[w] is Loss);
                    }
                } else {
                    assert(outs.last() is Loss);
                    assert(min_loss_rem(outs) == min_loss_rem(dl));
                    assert(has_loss(dl) || rem_of(outs.last()) >= min_loss_rem(dl));
                    if !has_loss(dl) {
                        assert(min_loss_rem(dl) == i32::MAX as int);
                        assert(rem_of(outs.last()) >= i32::MAX as int || rem_of(outs.last())
                            == min_loss_rem(outs));
                    }
                }
                if has_loss(dl) {
                    let v = choose|v: int|
                        0 <= v < dl.len() && (#[trigger] dl[v]) is Loss && rem_of(dl[v])
                            == min_loss_rem(dl);
                    assert(outs[v] is Loss && rem_of(outs[v]) == min_loss_rem(outs));
                }
            }
        } else {
            assert(!has_loss(dl)) by {
                if has_loss(dl) {
                    let v = choose|v: int| 0 <= v < dl.len() && (#[trigger] dl[v]) is Loss;
                    assert(outs[v] is Loss);
                }
            }
            assert(!(outs.last() is Loss)) by {
                if outs.last() is Loss {
                    assert(outs[outs.len() - 1] is Loss);
                }
            }
        }
    }
}

/// Where the minimum tie remoteness comes from, and that it is a minimum.
pub proof fn lemma_min_tie_rem_props(outs: Seq<Outcome>)
    requires
        forall|i: int|
            0 <= i < outs.len() ==> 0 <= rem_of(#[trigger] outs[i]) < i32::MAX as int,
    ensures
        has_tie(outs) ==> exists|i: int|
            0 <= i < outs.len() && (#[trigger] outs[i]) is Tie && rem_of(outs[i]) == min_tie_rem(
                outs,
            ),
        !has_tie(outs) ==> min_tie_rem(outs) == i32::MAX as int,
        forall|i: int|
            0 <= i < outs.len() && (#[trigger] outs[i]) is Tie ==> min_tie_rem(outs) <= rem_of(
                outs[i],
            ),
    decreases outs.len(),
{
    if outs.len() > 0 {
        let dl = outs.drop_last();
        lemma_min_tie_rem_props(dl);
        assert(forall|i: int| 0 <= i < dl.len() ==> #[trigger] dl[i] == outs[i]);
        assert forall|i: int|
            0 <= i < outs.len() && (#[trigger] outs[i]) is Tie implies min_tie_rem(outs) <= rem_of(
            outs[i],
        ) by {
            if i < outs.len() - 1 {
                assert(dl[i] is Tie);
                assert(min_tie_rem(dl) <= rem_of(dl[i]));
            } else {
                assert(outs[i] == outs.last());
            }
        }
        if has_tie(outs) {
            let w = choose|w: int| 0 <= w < outs.len() && outs[w] is Tie;
            if outs.last() is Tie && rem_of(outs.last()) < min_tie_rem(dl) {
                assert(outs[outs.len() - 1] is Tie && rem_of(outs[outs.len() - 1]) == min_tie_rem(
                    outs,
                ));
            } else {
                if w < outs.len() - 1 {
                    assert(has_tie(dl)) by {
                        assert(dl[w] is Tie);
                    }
                } else {
                    assert(outs.last() is Tie);
                    if !has_tie(dl) {
                        assert(min_tie_rem(dl) == i32::MAX as int);
                    }
                }
                if has_tie(dl) {
                    let v = choose|v: int|
                        0 <= v < dl.len() && (#[trigger] dl[v]) is Tie && rem_of(dl[v])
                            == min_tie_rem(dl);
                    assert(outs[v] is Tie && rem_of(outs[v]) == min_tie_rem(outs));
                }
            }
        } else {
            assert(!has_tie(dl)) by {
                if has_tie(dl) {
                    let v = choose|v: int| 0 <= v < dl.len() && (#[trigger] dl[v]) is Tie;
                    assert(outs[v] is Tie);
                }
            }
            assert(!(outs.last() is Tie)) by {
                if outs.last() is Tie {
                    assert(outs[outs.len() - 1] is Tie);
                }
            }
        }
    }
}

/// Where the maximum win remoteness comes from, and that it is a maximum.
pub proof fn lemma_max_win_rem_props(outs: Seq<Outcome>)
    requires
        forall|i: int|
            0 <= i < outs.len() ==> 0 <= rem_of(#[trigger] outs[i]) < i32::MAX as int,
    ensures
        (exists|i: int| 0 <= i < outs.len() && (#[trigger] outs[i]) is Win) ==> exists|i: int|
            0 <= i < outs.len() && (#[trigger] outs[i]) is Win && rem_of(outs[i]) == max_win_rem(
                outs,
            ),
        !(exists|i: int| 0 <= i < outs.len() && (#[trigger] outs[i]) is Win) ==> max_win_rem(outs)
            == -1,
        forall|i: int|
            0 <= i < outs.len() && (#[trigger] outs[i]) is Win ==> rem_of(outs[i]) <= max_win_rem(
                outs,
            ),
    decreases outs.len(),
{
    if outs.len() > 0 {
        let dl = outs.drop_last();
        lemma_max_win_rem_props(dl);
        assert(forall|i: int| 0 <= i < dl.len() ==> #[trigger] dl[i] == outs[i]);
        assert forall|i: int|
            0 <= i < outs.len() && (#[trigger] outs[i]) is Win implies rem_of(outs[i])
            <= max_win_rem(outs) by {
            if i < outs.len() - 1 {
                assert(dl[i] is Win);
                assert(rem_of(dl[i]) <= max_win_rem(dl));
            } else {
                assert(outs[i] == outs.last());
            }
        }
        if exists|i: int| 0 <= i < outs.len() && (#[trigger] outs[i]) is Win {
            let w = choose|w: int| 0 <= w < outs.len() && (#[trigger] outs[w]) is Win;
            if outs.last() is Win && rem_of(outs.last()) > max_win_rem(dl) {
                assert(outs[outs.len() - 1] is Win && rem_of(outs[outs.len() - 1]) == max_win_rem(
                    outs,
                ));
            } else {
                if w < outs.len() - 1 {
                    assert(dl[w] is Win);
                } else {
                    assert(outs.last() is Win);
                    if !(exists|i: int| 0 <= i < dl.len() && (#[trigger] dl[i]) is Win) {
                        assert(max_win_rem(dl) == -1);
                        assert(rem_of(outs.last()) <= -1 || rem_of(outs[outs.len() - 1])
                            == max_win_rem(outs));
                    }
                }
                if exists|i: int| 0 <= i < dl.len() && (#[trigger] dl[i]) is Win {
                    let v = choose|v: int|
                        0 <= v < dl.len() && (#[trigger] dl[v]) is Win && rem_of(dl[v])
                            == max_win_rem(dl);
                    assert(outs[v] is Win && rem_of(outs[v]) == max_win_rem(outs));
                }
            }
        } else {
            assert(!(exists|i: int| 0 <= i < dl.len() && (#[trigger] dl[i]) is Win)) by {
                if exists|i: int| 0 <= i < dl.len() && (#[trigger] dl[i]) is Win {
                    let v = choose|v: int| 0 <= v < dl.len() && (#[trigger] dl[v]) is Win;
                    assert(outs[v] is Win);
                }
            }
            assert(!(outs.last() is Win)) by {
                if outs.last() is Win {
                    assert(outs[outs.len() - 1] is Win);
                }
            }
        }
    }
}

/// The remoteness of a position's value never exceeds its measure.
pub proof fn lemma_value_rem_bound(a: AbsGame)
    requires
        abs_wf(a),
    ensures
        0 <= rem_of(value_of(a)) <= abs_measure(a),
    decreases abs_measure(a),
{
    if abs_outcome(a) is None {
        lemma_nonterminal_measure(a);
        lemma_measure_bound(a);
        let moves = abs_moves(a);
        let n = moves.len();
        let outs = Seq::new(n, |i: int| value_of(abs_play(a, moves[i])));
        assert forall|i: int| 0 <= i < n implies 0 <= rem_of(#[trigger] outs[i]) < abs_measure(
            a,
        ) by {
            assert(moves.contains(moves[i])) by {
                assert(moves[i] == moves[i]);
            }
            lemma_play_wf(a, moves[i]);
            lemma_value_rem_bound(abs_play(a, moves[i]));
        }
        lemma_value_children(a, outs);
        lemma_min_loss_rem_props(outs);
        lemma_min_tie_rem_props(outs);
        lemma_max_win_rem_props(outs);
    }
}

/// How a position's remoteness relates to its children's: a win is one ply
/// beyond its fastest losing child, a tie one ply beyond its fastest tying
/// child with no losing child available, and a loss one ply beyond its
/// slowest (all winning) children.
#[verifier::rlimit(80)]
pub proof fn lemma_value_child_remoteness(a: AbsGame)
    requires
        abs_wf(a),
        abs_outcome(a) is None,
    ensures
        ({
            let moves = abs_moves(a);
            let r = rem_of(value_of(a));
            &&& 1 <= r <= abs_measure(a)
            &&& value_of(a) is Win ==> (exists|i: int|
                0 <= i < moves.len() && value_of(abs_play(a, #[trigger] moves[i]))
                    == Outcome::Loss((r - 1) as i32)) && (forall|i: int|
                0 <= i < moves.len() && value_of(abs_play(a, #[trigger] moves[i])) is Loss ==> r - 1
                    <= rem_of(value_of(abs_play(a, moves[i]))))
            &&& value_of(a) is Tie ==> (exists|i: int|
                0 <= i < moves.len() && value_of(abs_play(a, #[trigger] moves[i]))
                    == Outcome::Tie((r - 1) as i32)) && (forall|i: int|
                0 <= i < moves.len() ==> !(value_of(abs_play(a, #[trigger] moves[i])) is Loss))
            &&& value_of(a) is Loss ==> (exists|i: int|
                0 <= i < moves.len() && value_of(abs_play(a, #[trigger] moves[i]))
                    == Outcome::Win((r - 1) as i32)) && (forall|i: int|
                0 <= i < moves.len() ==> value_of(abs_play(a, #[trigger] moves[i])) is Win
                    && rem_of(value_of(abs_play(a, moves[i]))) <= r - 1)
        }),
{
    lemma_nonterminal_measure(a);
    lemma_nonterminal_moves(a);
    lemma_measure_bound(a);
    let moves = abs_moves(a);
    let n = moves.len();
    let outs = Seq::new(n, |i: int| value_of(abs_play(a, moves[i])));
    assert forall|i: int| 0 <= i < n implies 0 <= rem_of(#[trigger] outs[i]) < abs_measure(a) by {
        assert(moves.contains(moves[i])) by {
            assert(moves[i] == moves[i]);
        }
        lemma_play_wf(a, moves[i]);
        lemma_value_rem_bound(abs_play(a, moves[i]));
    }
    lemma_value_children(a, outs);
    lemma_min_loss_rem_props(outs);
    lemma_min_tie_rem_props(outs);
    lemma_max_win_rem_props(outs);
    let r = rem_of(value_of(a));
    if has_loss(outs) {
        let w = choose|i: int|
            0 <= i < outs.len() && (#[trigger] outs[i]) is Loss && rem_of(outs[i]) == min_loss_rem(
                outs,
            );
        assert(outs[w] == Outcome::Loss((r - 1) as i32));
        assert(value_of(abs_play(a, moves[w])) == Outcome::Loss((r - 1) as i32));
        assert forall|i: int|
            0 <= i < moves.len() && value_of(abs_play(a, #[trigger] moves[i])) is Loss implies r - 1
            <= rem_of(value_of(abs_play(a, moves[i]))) by {
            assert(outs[i] == value_of(abs_play(a, moves[i])));
            assert(min_loss_rem(outs) <= rem_of(outs[i]));
        }
    } else if has_tie(outs) {
        let w = choose|i: int|
            0 <= i < outs.len() && (#[trigger] outs[i]) is Tie && rem_of(outs[i]) == min_tie_rem(
                outs,
            );
        assert(outs[w] == Outcome::Tie((r - 1) as i32));
        assert(value_of(abs_play(a, moves[w])) == Outcome::Tie((r - 1) as i32));
        assert forall|i: int| 0 <= i < moves.len() implies !(value_of(
            abs_play(a, #[trigger] moves[i]),
        ) is Loss) by {
            assert(outs[i] == value_of(abs_play(a, moves[i])));
            if outs[i] is Loss {
                assert(has_loss(outs));
            }
        }
    } else {
        assert forall|i: int| 0 <= i < n implies (#[trigger] outs[i]) is Win by {
            if outs[i] is Loss {
                assert(has_loss(outs));
            }
            if outs[i] is Tie {
                assert(has_tie(outs));
            }
        }
        assert(outs[0] is Win);
        let w = choose|i: int|
            0 <= i < outs.len() && (#[trigger] outs[i]) is Win && rem_of(outs[i]) == max_win_rem(
                outs,
            );
        assert(outs[w] == Outcome::Win((r - 1) as i32));
        assert(value_of(abs_play(a, moves[w])) == Outcome::Win((r - 1) as i32));
        assert forall|i: int| 0 <= i < moves.len() implies value_of(
            abs_play(a, #[trigger] moves[i]),
        ) is Win && rem_of(value_of(abs_play(a, moves[i]))) <= r - 1 by {
            assert(outs[i] == value_of(abs_play(a, moves[i])));
            assert(outs[i] is Win);
            assert(rem_of(outs[i]) <= max_win_rem(outs));
        }
    }
}

/// What a legal move token of a subtraction game guarantees.
pub proof fn lemma_subtract_move(s: SubtractState, mv: u64)
    requires
        abs_wf(AbsGame::Subtract(s)),
        abs_moves(AbsGame::Subtract(s)).contains(mv),
    ensures
        0 <= (mv as int) < num_legal(s.takes, s.coins),
        num_legal(s.takes, s.coins) <= s.takes.len(),
        s.takes[mv as int] <= s.coins,
        1 <= s.takes[mv as int],
{
    let moves = abs_moves(AbsGame::Subtract(s));
    lemma_num_legal(s.takes, s.coins);
    let w = choose|w: int| 0 <= w < moves.len() && moves[w] == mv;
    assert(moves[w] == w as u64);
    assert(mv as int == w);
}

/// Undoing a subtraction move cannot overflow the coin count.
pub proof fn lemma_subtract_undo_bound(s: SubtractState)
    requires
        abs_wf(AbsGame::Subtract(s)),
        s.history.len() > 0,
    ensures
        1 <= s.history.last(),
        s.coins + s.history.last() <= i32::MAX as int,
{
    lemma_seq_sum_nonneg(s.history);
}

/// The value of a subtraction position does not depend on its history, only
/// on the menu and the coins left.
pub proof fn lemma_subtract_value_hist(takes: Seq<int>, coins: int, h1: Seq<int>, h2: Seq<int>)
    requires
        abs_wf(AbsGame::Subtract(SubtractState { takes, coins, history: h1 })),
        abs_wf(AbsGame::Subtract(SubtractState { takes, coins, history: h2 })),
    ensures
        value_of(AbsGame::Subtract(SubtractState { takes, coins, history: h1 })) == value_of(
            AbsGame::Subtract(SubtractState { takes, coins, history: h2 }),
        ),
    decreases (if coins >= 0 {
        coins
    } else {
        0
    }) as nat,
{
    let a1 = AbsGame::Subtract(SubtractState { takes, coins, history: h1 });
    let a2 = AbsGame::Subtract(SubtractState { takes, coins, history: h2 });
    if abs_outcome(a1) is None {
        let moves = abs_moves(a1);
        assert(abs_moves(a2) == moves);
        let n = moves.len();
        let outs1 = Seq::new(n, |i: int| value_of(abs_play(a1, moves[i])));
        let outs2 = Seq::new(n, |i: int| value_of(abs_play(a2, moves[i])));
        assert forall|i: int| 0 <= i < n implies #[trigger] outs1[i] == outs2[i] by {
            assert(moves.contains(moves[i])) by {
                assert(moves[i] == moves[i]);
            }
            lemma_subtract_move(SubtractState { takes, coins, history: h1 }, moves[i]);
            lemma_play_wf(a1, moves[i]);
            lemma_play_wf(a2, moves[i]);
            lemma_subtract_value_hist(
                takes,
                coins - takes[moves[i] as int],
                h1.push(takes[moves[i] as int]),
                h2.push(takes[moves[i] as int]),
            );
        }
        assert(outs1 =~= outs2);
        lemma_value_children(a1, outs1);
        lemma_value_children(a2, outs2);
    }
}

/// Every position reachable from a subtraction game is a subtraction
/// position over the same menu.
pub proof fn lemma_reaches_subtract(a: AbsGame, p: AbsGame, n: nat)
    requires
        reaches(a, p, n),
        a is Subtract,
    ensures
        p is Subtract,
        p->Subtract_0.takes == a->Subtract_0.takes,
    decreases n,
{
    if n > 0 {
        let mv = choose|mv: u64|
            #[trigger] abs_moves(a).contains(mv) && reaches(abs_play(a, mv), p, (n - 1) as nat);
        lemma_reaches_subtract(abs_play(a, mv), p, (n - 1) as nat);
    }
}

/// A subtraction game's state key never collides: the key is the coin
/// count, which with the fixed menu determines the value outright.
pub proof fn lemma_subtract_key_consistent(a: AbsGame)
    requires
        abs_wf(a),
        a is Subtract,
    ensures
        key_consistent(a),
{
    assert forall|p: AbsGame, q: AbsGame|
        #[trigger] reachable(a, p) && #[trigger] reachable(a, q) && abs_key(p) == abs_key(
            q,
        ) implies value_of(p) == value_of(q) by {
        let n1 = choose|n: nat| reaches(a, p, n);
        let n2 = choose|n: nat| reaches(a, q, n);
        lemma_reaches_subtract(a, p, n1);
        lemma_reaches_subtract(a, q, n2);
        lemma_reachable_wf(a, p);
        lemma_reachable_wf(a, q);
        lemma_subtract_value_hist(
            a->Subtract_0.takes,
            abs_key(p),
            p->Subtract_0.history,
            q->Subtract_0.history,
        );
    }
}

/// The combination rule only looks at which outcomes occur, not where: two
/// child lists with the same outcomes combine identically.
pub proof fn lemma_combine_set_invariant(outs1: Seq<Outcome>, outs2: Seq<Outcome>)
    requires
        forall|i: int|
            0 <= i < outs1.len() ==> 0 <= rem_of(#[trigger] outs1[i]) < i32::MAX as int,
        forall|i: int|
            0 <= i < outs2.len() ==> 0 <= rem_of(#[trigger] outs2[i]) < i32::MAX as int,
        forall|i: int| #![trigger outs1[i]]
            0 <= i < outs1.len() ==> exists|j: int|
                0 <= j < outs2.len() && #[trigger] outs2[j] == outs1[i],
        forall|j: int| #![trigger outs2[j]]
            0 <= j < outs2.len() ==> exists|i: int|
                0 <= i < outs1.len() && #[trigger] outs1[i] == outs2[j],
    ensures
        combine(outs1) == combine(outs2),
{
    lemma_min_loss_rem_props(outs1);
    lemma_min_loss_rem_props(outs2);
    lemma_min_tie_rem_props(outs1);
    lemma_min_tie_rem_props(outs2);
    lemma_max_win_rem_props(outs1);
    lemma_max_win_rem_props(outs2);
    if has_loss(outs1) {
        let i = choose|i: int|
            0 <= i < outs1.len() && (#[trigger] outs1[i]) is Loss && rem_of(outs1[i])
                == min_loss_rem(outs1);
        let j = choose|j: int| 0 <= j < outs2.len() && #[trigger] outs2[j] == outs1[i];
        assert(has_loss(outs2));
        assert(min_loss_rem(outs2) <= min_loss_rem(outs1));
    }
    if has_loss(outs2) {
        let j = choose|j: int|
            0 <= j < outs2.len() && (#[trigger] outs2[j]) is Loss && rem_of(outs2[j])
                == min_loss_rem(outs2);
        let i = choose|i: int| 0 <= i < outs1.len() && #[trigger] outs1[i] == outs2[j];
        assert(has_loss(outs1));
        assert(min_loss_rem(outs1) <= min_loss_rem(outs2));
    }
    if has_tie(outs1) {
        let i = choose|i: int|
            0 <= i < outs1.len() && (#[trigger] outs1[i]) is Tie && rem_of(outs1[i])
                == min_tie_rem(outs1);
        let j = choose|j: int| 0 <= j < outs2.len() && #[trigger] outs2[j] == outs1[i];
        assert(has_tie(outs2));
        assert(min_tie_rem(outs2) <= min_tie_rem(outs1));
    }
    if has_tie(outs2) {
        let j = choose|j: int|
            0 <= j < outs2.len() && (#[trigger] outs2[j]) is Tie && rem_of(outs2[j])
                == min_tie_rem(outs2);
        let i = choose|i: int| 0 <= i < outs1.len() && #[trigger] outs1[i] == outs2[j];
        assert(has_tie(outs1));
        assert(min_tie_rem(outs1) <= min_tie_rem(outs2));
    }
    if exists|i: int| 0 <= i < outs1.len() && (#[trigger] outs1[i]) is Win {
        let i = choose|i: int|
            0 <= i < outs1.len() && (#[trigger] outs1[i]) is Win && rem_of(outs1[i])
                == max_win_rem(outs1);
        let j = choose|j: int| 0 <= j < outs2.len() && #[trigger] outs2[j] == outs1[i];
        assert(outs2[j] is Win);
        assert(max_win_rem(outs1) <= max_win_rem(outs2));
    }
    if exists|j: int| 0 <= j < outs2.len() && (#[trigger] outs2[j]) is Win {
        let j = choose|j: int|
            0 <= j < outs2.len() && (#[trigger] outs2[j]) is Win && rem_of(outs2[j])
                == max_win_rem(outs2);
        let i = choose|i: int| 0 <= i < outs1.len() && #[trigger] outs1[i] == outs2[j];
        assert(outs1[i] is Win);
        assert(max_win_rem(outs2) <= max_win_rem(outs1));
    }
    if !(exists|i: int| 0 <= i < outs1.len() && (#[trigger] outs1[i]) is Win) && (exists|j: int|
        0 <= j < outs2.len() && (#[trigger] outs2[j]) is Win) {
        let j = choose|j: int| 0 <= j < outs2.len() && (#[trigger] outs2[j]) is Win;
        let i = choose|i: int| 0 <= i < outs1.len() && #[trigger] outs1[i] == outs2[j];
        assert(outs1[i] is Win);
    }
    if (exists|i: int| 0 <= i < outs1.len() && (#[trigger] outs1[i]) is Win) && !(exists|j: int|
        0 <= j < outs2.len() && (#[trigger] outs2[j]) is Win) {
        let i = choose|i: int| 0 <= i < outs1.len() && (#[trigger] outs1[i]) is Win;
        let j = choose|j: int| 0 <= j < outs2.len() && #[trigger] outs2[j] == outs1[i];
        assert(outs2[j] is Win);
    }
}

/// A placeholder history of the right length for a board: the value of a
/// grid position does not depend on which cells its history names.
pub open spec fn synth_hist(b: BoardModel) -> Seq<(int, int)> {
    Seq::new(board_filled(b) as nat, |k: int| (0int, 0int))
}

/// The value of a grid position is invariant under reflecting the board.
pub proof fn lemma_grid_value_flip(b: BoardModel, h1: Seq<(int, int)>, h2: Seq<(int, int)>)
    requires
        abs_wf(AbsGame::Grid(GridState { board: b, history: h1 })),
        abs_wf(AbsGame::Grid(GridState { board: s_flip(b), history: h2 })),
    ensures
        value_of(AbsGame::Grid(GridState { board: b, history: h1 })) == value_of(
            AbsGame::Grid(GridState { board: s_flip(b), history: h2 }),
        ),
    decreases abs_measure(AbsGame::Grid(GridState { board: b, history: h1 })),
{
    let g1 = AbsGame::Grid(GridState { board: b, history: h1 });
    let g2 = AbsGame::Grid(GridState { board: s_flip(b), history: h2 });
    let fb = s_flip(b);
    let h = b.height;
    let w = b.width;
    let total = h * w;
    lemma_flip_wf(b);
    lemma_flip_outcome(b);
    lemma_flip_filled(b);
    assert(h1.len() == h2.len());
    let bit = h1.len() as int % 2;
    if abs_outcome(g1) is None {
        let n1 = abs_moves(g1);
        let n2 = abs_moves(g2);
        let outs1 = Seq::new(n1.len(), |i: int| value_of(abs_play(g1, n1[i])));
        let outs2 = Seq::new(n2.len(), |i: int| value_of(abs_play(g2, n2[i])));
        assert forall|i: int| #![trigger outs1[i]] 0 <= i < outs1.len() implies exists|j: int|
            0 <= j < outs2.len() && #[trigger] outs2[j] == outs1[i] by {
            let mv = n1[i];
            assert(n1.contains(mv)) by {
                assert(n1[i] == mv);
            }
            lemma_grid_moves_elem(b, bit, total as nat, mv);
            let c = mv as int / 2;
            lemma_flat_decode(c, h, w);
            let r = c / w;
            let cl = c % w;
            vstd::arithmetic::div_mod::lemma_fundamental_div_mod(c, w);
            assert(r * w == w * r) by (nonlinear_arith);
            assert(cell_at(b, c) == b.cells[r][cl]);
            let c2 = (h - 1 - r) * w + cl;
            lemma_flat_index(h - 1 - r, cl, w);
            assert(0 <= c2 < h * w) by (nonlinear_arith)
                requires
                    c2 == (h - 1 - r) * w + cl,
                    0 <= h - 1 - r < h,
                    0 <= cl < w,
                    1 <= w,
            ;
            assert(cell_at(fb, c2) == fb.cells[h - 1 - r][cl]);
            assert(fb.cells[h - 1 - r] == b.cells[r]);
            lemma_grid_moves_full(fb, bit, total as nat, c2);
            let mv2 = (2 * c2 + bit) as u64;
            assert(n2.contains(mv2));
            let j = choose|j: int| 0 <= j < n2.len() && n2[j] == mv2;
            let mark = mv as int % 2 == 1;
            assert((2 * c2 + bit) % 2 == bit && (2 * c2 + bit) / 2 == c2) by (nonlinear_arith)
                requires
                    0 <= bit <= 1,
                    0 <= c2,
            ;
            assert(mv2 as int % 2 == bit && mv2 as int / 2 == c2);
            lemma_play_wf(g1, mv);
            lemma_play_wf(g2, mv2);
            lemma_flip_set(b, r, cl, Some(mark));
            let child1 = abs_play(g1, mv)->Grid_0;
            let child2 = abs_play(g2, mv2)->Grid_0;
            assert(child1.board == board_set(b, r, cl, Some(mark)));
            assert(child2.board == board_set(fb, h - 1 - r, cl, Some(mark)));
            assert(s_flip(child1.board) == child2.board);
            lemma_grid_value_flip(child1.board, child1.history, child2.history);
            assert(outs2[j] == outs1[i]);
        }
        assert forall|j: int| #![trigger outs2[j]] 0 <= j < outs2.len() implies exists|i: int|
            0 <= i < outs1.len() && #[trigger] outs1[i] == outs2[j] by {
            let mv2 = n2[j];
            assert(n2.contains(mv2)) by {
                assert(n2[j] == mv2);
            }
            lemma_grid_moves_elem(fb, bit, total as nat, mv2);
            let c2 = mv2 as int / 2;
            lemma_flat_decode(c2, h, w);
            let r2 = c2 / w;
            let cl = c2 % w;
            vstd::arithmetic::div_mod::lemma_fundamental_div_mod(c2, w);
            assert(r2 * w == w * r2) by (nonlinear_arith);
            assert(cell_at(fb, c2) == fb.cells[r2][cl]);
            assert(fb.cells[r2] == b.cells[h - 1 - r2]);
            let c1 = (h - 1 - r2) * w + cl;
            lemma_flat_index(h - 1 - r2, cl, w);
            assert(0 <= c1 < h * w) by (nonlinear_arith)
                requires
                    c1 == (h - 1 - r2) * w + cl,
                    0 <= h - 1 - r2 < h,
                    0 <= cl < w,
                    1 <= w,
            ;
            assert(cell_at(b, c1) == b.cells[h - 1 - r2][cl]);
            lemma_grid_moves_full(b, bit, total as nat, c1);
            let mv1 = (2 * c1 + bit) as u64;
            assert(n1.contains(mv1));
            let i = choose|i: int| 0 <= i < n1.len() && n1[i] == mv1;
            let mark = mv2 as int % 2 == 1;
            assert((2 * c1 + bit) % 2 == bit && (2 * c1 + bit) / 2 == c1) by (nonlinear_arith)
                requires
                    0 <= bit <= 1,
                    0 <= c1,
            ;
            assert(mv1 as int % 2 == bit && mv1 as int / 2 == c1);
            lemma_play_wf(g1, mv1);
            lemma_play_wf(g2, mv2);
            lemma_flip_set(b, h - 1 - r2, cl, Some(mark));
            let child1 = abs_play(g1, mv1)->Grid_0;
            let child2 = abs_play(g2, mv2)->Grid_0;
            assert(child1.board == board_set(b, h - 1 - r2, cl, Some(mark)));
            assert(child2.board == board_set(fb, r2, cl, Some(mark)));
            assert(s_flip(child1.board) == child2.board);
            lemma_grid_value_flip(child1.board, child1.history, child2.history);
            assert(outs1[i] == outs2[j]);
        }
        assert forall|i: int| 0 <= i < outs1.len() implies 0 <= rem_of(#[trigger] outs1[i])
            < i32::MAX as int by {
            assert(n1.contains(n1[i])) by {
                assert(n1[i] == n1[i]);
            }
            lemma_play_wf(g1, n1[i]);
            lemma_value_rem_bound(abs_play(g1, n1[i]));
            lemma_measure_bound(g1);
        }
        assert forall|j: int| 0 <= j < outs2.len() implies 0 <= rem_of(#[trigger] outs2[j])
            < i32::MAX as int by {
            assert(n2.contains(n2[j])) by {
                assert(n2[j] == n2[j]);
            }
            lemma_play_wf(g2, n2[j]);
            lemma_value_rem_bound(abs_play(g2, n2[j]));
            lemma_measure_bound(g2);
        }
        lemma_value_children(g1, outs1);
        lemma_value_children(g2, outs2);
        lemma_combine_set_invariant(outs1, outs2);
    }
}

/// The value of a grid position is invariant under rotating the board.
pub proof fn lemma_grid_value_rot(b: BoardModel, h1: Seq<(int, int)>, h2: Seq<(int, int)>)
    requires
        abs_wf(AbsGame::Grid(GridState { board: b, history: h1 })),
        abs_wf(AbsGame::Grid(GridState { board: s_rot(b), history: h2 })),
    ensures
        value_of(AbsGame::Grid(GridState { board: b, history: h1 })) == value_of(
            AbsGame::Grid(GridState { board: s_rot(b), history: h2 }),
        ),
    decreases abs_measure(AbsGame::Grid(GridState { board: b, history: h1 })),
{
    let g1 = AbsGame::Grid(GridState { board: b, history: h1 });
    let g2 = AbsGame::Grid(GridState { board: s_rot(b), history: h2 });
    let rb = s_rot(b);
    let h = b.height;
    let w = b.width;
    let total = h * w;
    lemma_rot_wf(b);
    lemma_rot_outcome(b);
    lemma_rot_filled(b);
    assert(w * h == h * w) by (nonlinear_arith);
    assert(h1.len() == h2.len());
    let bit = h1.len() as int % 2;
    if abs_outcome(g1) is None {
        let n1 = abs_moves(g1);
        let n2 = abs_moves(g2);
        let outs1 = Seq::new(n1.len(), |i: int| value_of(abs_play(g1, n1[i])));
        let outs2 = Seq::new(n2.len(), |i: int| value_of(abs_play(g2, n2[i])));
        assert forall|i: int| #![trigger outs1[i]] 0 <= i < outs1.len() implies exists|j: int|
            0 <= j < outs2.len() && #[trigger] outs2[j] == outs1[i] by {
            let mv = n1[i];
            assert(n1.contains(mv)) by {
                assert(n1[i] == mv);
            }
            lemma_grid_moves_elem(b, bit, total as nat, mv);
            let c = mv as int / 2;
            lemma_flat_decode(c, h, w);
            let r = c / w;
            let cl = c % w;
            vstd::arithmetic::div_mod::lemma_fundamental_div_mod(c, w);
            assert(r * w == w * r) by (nonlinear_arith);
            assert(cell_at(b, c) == b.cells[r][cl]);
            let c2 = cl * h + (h - 1 - r);
            lemma_flat_index(cl, h - 1 - r, h);
            assert(0 <= c2 < w * h) by (nonlinear_arith)
                requires
                    c2 == cl * h + (h - 1 - r),
                    0 <= h - 1 - r < h,
                    0 <= cl < w,
                    1 <= h,
            ;
            assert(cell_at(rb, c2) == rb.cells[cl][h - 1 - r]);
            assert(rb.cells[cl][h - 1 - r] == b.cells[r][cl]);
            lemma_grid_moves_full(rb, bit, total as nat, c2);
            let mv2 = (2 * c2 + bit) as u64;
            assert(n2.contains(mv2));
            let j = choose|j: int| 0 <= j < n2.len() && n2[j] == mv2;
            let mark = mv as int % 2 == 1;
            assert((2 * c2 + bit) % 2 == bit && (2 * c2 + bit) / 2 == c2) by (nonlinear_arith)
                requires
                    0 <= bit <= 1,
                    0 <= c2,
            ;
            assert(mv2 as int % 2 == bit && mv2 as int / 2 == c2);
            lemma_play_wf(g1, mv);
            lemma_play_wf(g2, mv2);
            lemma_rot_set(b, r, cl, Some(mark));
            let child1 = abs_play(g1, mv)->Grid_0;
            let child2 = abs_play(g2, mv2)->Grid_0;
            assert(child1.board == board_set(b, r, cl, Some(mark)));
            assert(child2.board == board_set(rb, cl, h - 1 - r, Some(mark)));
            assert(s_rot(child1.board) == child2.board);
            lemma_grid_value_rot(child1.board, child1.history, child2.history);
            assert(outs2[j] == outs1[i]);
        }
        assert forall|j: int| #![trigger outs2[j]] 0 <= j < outs2.len() implies exists|i: int|
            0 <= i < outs1.len() && #[trigger] outs1[i] == outs2[j] by {
            let mv2 = n2[j];
            assert(n2.contains(mv2)) by {
                assert(n2[j] == mv2);
            }
            lemma_grid_moves_elem(rb, bit, total as nat, mv2);
            let c2 = mv2 as int / 2;
            lemma_flat_decode(c2, w, h);
            let r2 = c2 / h;
            let cl2 = c2 % h;
            vstd::arithmetic::div_mod::lemma_fundamental_div_mod(c2, h);
            assert(r2 * h == h * r2) by (nonlinear_arith);
            assert(cell_at(rb, c2) == rb.cells[r2][cl2]);
            assert(rb.cells[r2][cl2] == b.cells[h - 1 - cl2][r2]);
            let c1 = (h - 1 - cl2) * w + r2;
            lemma_flat_index(h - 1 - cl2, r2, w);
            assert(0 <= c1 < h * w) by (nonlinear_arith)
                requires
                    c1 == (h - 1 - cl2) * w + r2,
                    0 <= h - 1 - cl2 < h,
                    0 <= r2 < w,
                    1 <= w,
            ;
            assert(cell_at(b, c1) == b.cells[h - 1 - cl2][r2]);
            lemma_grid_moves_full(b, bit, total as nat, c1);
            let mv1 = (2 * c1 + bit) as u64;
            assert(n1.contains(mv1));
            let i = choose|i: int| 0 <= i < n1.len() && n1[i] == mv1;
            let mark = mv2 as int % 2 == 1;
            assert((2 * c1 + bit) % 2 == bit && (2 * c1 + bit) / 2 == c1) by (nonlinear_arith)
                requires
                    0 <= bit <= 1,
                    0 <= c1,
            ;
            assert(mv1 as int % 2 == bit && mv1 as int / 2 == c1);
            lemma_play_wf(g1, mv1);
            lemma_play_wf(g2, mv2);
            lemma_rot_set(b, h - 1 - cl2, r2, Some(mark));
            let child1 = abs_play(g1, mv1)->Grid_0;
            let child2 = abs_play(g2, mv2)->Grid_0;
            assert(child1.board == board_set(b, h - 1 - cl2, r2, Some(mark)));
            assert(child2.board == board_set(rb, r2, cl2, Some(mark)));
            assert(s_rot(child1.board) == child2.board);
            lemma_grid_value_rot(child1.board, child1.history, child2.history);
            assert(outs1[i] == outs2[j]);
        }
        assert forall|i: int| 0 <= i < outs1.len() implies 0 <= rem_of(#[trigger] outs1[i])
            < i32::MAX as int by {
            assert(n1.contains(n1[i])) by {
                assert(n1[i] == n1[i]);
            }
            lemma_play_wf(g1, n1[i]);
            lemma_value_rem_bound(abs_play(g1, n1[i]));
            lemma_measure_bound(g1);
        }
        assert forall|j: int| 0 <= j < outs2.len() implies 0 <= rem_of(#[trigger] outs2[j])
            < i32::MAX as int by {
            assert(n2.contains(n2[j])) by {
                assert(n2[j] == n2[j]);
            }
            lemma_play_wf(g2, n2[j]);
            lemma_value_rem_bound(abs_play(g2, n2[j]));
            lemma_measure_bound(g2);
        }
        lemma_value_children(g1, outs1);
        lemma_value_children(g2, outs2);
        lemma_combine_set_invariant(outs1, outs2);
    }
}

/// The value of a grid position is invariant under any symmetry transform
/// of the board: canonicalization never changes game semantics, only the
/// table key.
pub proof fn lemma_grid_value_transform(
    b: BoardModel,
    h1: Seq<(int, int)>,
    f: nat,
    r: nat,
    h2: Seq<(int, int)>,
)
    requires
        abs_wf(AbsGame::Grid(GridState { board: b, history: h1 })),
        abs_wf(AbsGame::Grid(GridState { board: s_transform(f, r, b), history: h2 })),
    ensures
        value_of(AbsGame::Grid(GridState { board: b, history: h1 })) == value_of(
            AbsGame::Grid(GridState { board: s_transform(f, r, b), history: h2 }),
        ),
    decreases f, r,
{
    lemma_transform_wf(f, r, b);
    if r > 0 {
        let tb = s_transform(f, (r - 1) as nat, b);
        lemma_transform_wf(f, (r - 1) as nat, b);
        let sh = synth_hist(tb);
        lemma_filled_upto_bounds(tb, (tb.height * tb.width) as nat);
        assert(abs_wf(AbsGame::Grid(GridState { board: tb, history: sh })));
        lemma_grid_value_transform(b, h1, f, (r - 1) as nat, sh);
        assert(s_transform(f, r, b) == s_rot(tb)) by {
            assert(s_rot_n(r, s_flip_n(f, b)) == s_rot(s_rot_n((r - 1) as nat, s_flip_n(f, b))));
        }
        lemma_grid_value_rot(tb, sh, h2);
    } else if f > 0 {
        let tb = s_transform((f - 1) as nat, 0, b);
        lemma_transform_wf((f - 1) as nat, 0, b);
        let sh = synth_hist(tb);
        lemma_filled_upto_bounds(tb, (tb.height * tb.width) as nat);
        assert(abs_wf(AbsGame::Grid(GridState { board: tb, history: sh })));
        lemma_grid_value_transform(b, h1, (f - 1) as nat, 0, sh);
        assert(tb == s_flip_n((f - 1) as nat, b)) by {
            assert(s_rot_n(0, s_flip_n((f - 1) as nat, b)) == s_flip_n((f - 1) as nat, b));
        }
        assert(s_transform(f, 0, b) == s_flip(tb)) by {
            assert(s_flip_n(f, b) == s_flip(s_flip_n((f - 1) as nat, b)));
            assert(s_rot_n(0, s_flip_n(f, b)) == s_flip_n(f, b));
        }
        lemma_grid_value_flip(tb, sh, h2);
    } else {
        assert(s_transform(0, 0, b) == b) by {
            assert(s_flip_n(0, b) == b);
            assert(s_rot_n(0, b) == b);
        }
        let fl = s_flip(b);
        lemma_flip_wf(b);
        lemma_flip_filled(b);
        let sh = synth_hist(fl);
        lemma_filled_upto_bounds(fl, (fl.height * fl.width) as nat);
        assert(abs_wf(AbsGame::Grid(GridState { board: fl, history: sh })));
        lemma_grid_value_flip(b, h1, sh);
        lemma_grid_value_flip(b, h2, sh);
    }
}

/// Every position reachable from a grid game is a grid position with the
/// root's dimensions and win length.
pub proof fn lemma_reaches_grid(a: AbsGame, p: AbsGame, n: nat)
    requires
        reaches(a, p, n),
        a is Grid,
    ensures
        p is Grid,
        p->Grid_0.board.height == a->Grid_0.board.height,
        p->Grid_0.board.width == a->Grid_0.board.width,
        p->Grid_0.board.win == a->Grid_0.board.win,
    decreases n,
{
    if n > 0 {
        let mv = choose|mv: u64|
            #[trigger] abs_moves(a).contains(mv) && reaches(abs_play(a, mv), p, (n - 1) as nat);
        lemma_reaches_grid(abs_play(a, mv), p, (n - 1) as nat);
    }
}

/// A grid game's canonicalized state key never collides: equal keys mean
/// the boards are symmetry transforms of one another, and the value is
/// invariant under those transforms.
pub proof fn lemma_grid_key_consistent(a: AbsGame)
    requires
        abs_wf(a),
        a is Grid,
    ensures
        key_consistent(a),
{
    assert forall|p: AbsGame, q: AbsGame|
        #[trigger] reachable(a, p) && #[trigger] reachable(a, q) && abs_key(p) == abs_key(
            q,
        ) implies value_of(p) == value_of(q) by {
        let n1 = choose|n: nat| reaches(a, p, n);
        let n2 = choose|n: nat| reaches(a, q, n);
        lemma_reaches_grid(a, p, n1);
        lemma_reaches_grid(a, q, n2);
        lemma_reachable_wf(a, p);
        lemma_reachable_wf(a, q);
        let bp = p->Grid_0.board;
        let bq = q->Grid_0.board;
        lemma_canonical_wf(bp);
        lemma_canonical_wf(bq);
        lemma_canonical_props(bp);
        lemma_canonical_props(bq);
        lemma_hash_injective(canonical_of(bp), canonical_of(bq));
        let c = canonical_of(bp);
        assert(canonical_of(bq) == c);
        let cands_p = candidates(bp);
        let cands_q = candidates(bq);
        let ip = choose|i: int| 0 <= i < cands_p.len() && cands_p[i] == c;
        let iq = choose|i: int| 0 <= i < cands_q.len() && cands_q[i] == c;
        let square = bp.height == bp.width;
        let fp: nat = if square {
            (ip / 4) as nat
        } else {
            rect_f(ip)
        };
        let rp: nat = if square {
            (ip % 4) as nat
        } else {
            rect_r(ip)
        };
        let fq: nat = if square {
            (iq / 4) as nat
        } else {
            rect_f(iq)
        };
        let rq: nat = if square {
            (iq % 4) as nat
        } else {
            rect_r(iq)
        };
        assert(cands_p[ip] == s_transform(fp, rp, bp));
        assert(cands_q[iq] == s_transform(fq, rq, bq));
        assert(fp <= 1 && rp <= 3 && fq <= 1 && rq <= 3);
        lemma_inverse(fq, rq, bq);
        let rqi: nat = if fq == 0 {
            ((4 - rq) % 4) as nat
        } else {
            rq
        };
        assert(s_transform(fq, rqi, c) == bq);
        lemma_compose(fp, rp, fq, rqi, bp);
        let ff = comp_f(fp, fq);
        let rr = comp_r(rp, rqi, fq);
        assert(bq == s_transform(ff, rr, bp));
        lemma_grid_value_transform(bp, p->Grid_0.history, ff, rr, q->Grid_0.history);
        assert(p == AbsGame::Grid(GridState { board: bp, history: p->Grid_0.history }));
        assert(q == AbsGame::Grid(GridState { board: bq, history: q->Grid_0.history }));
    }
}

/// The position reached by playing a sequence of legal moves.
pub open spec fn play_seq(a: AbsGame, ms: Seq<u64>) -> AbsGame
    decreases ms.len(),
{
    if ms.len() == 0 {
        a
    } else {
        play_seq(abs_play(a, ms[0]), ms.drop_first())
    }
}

/// Whether each move of a sequence is legal when its turn comes.
pub open spec fn legal_seq(a: AbsGame, ms: Seq<u64>) -> bool
    decreases ms.len(),
{
    ms.len() == 0 || (abs_moves(a).contains(ms[0]) && legal_seq(abs_play(a, ms[0]), ms.drop_first()))
}

/// `n` undos in a row.
pub open spec fn undo_n(a: AbsGame, n: nat) -> AbsGame
    decreases n,
{
    if n == 0 {
        a
    } else {
        abs_undo(undo_n(a, (n - 1) as nat))
    }
}

/// Any sequence of legal moves followed by as many undos restores the
/// position exactly, so every observation (`state()`, `possible_moves()`,
/// `outcome()`) returns to its pre-sequence value.
pub proof fn lemma_play_seq_undo(a: AbsGame, ms: Seq<u64>)
    requires
        abs_wf(a),
        legal_seq(a, ms),
    ensures
        undo_n(play_seq(a, ms), ms.len()) == a,
    decreases ms.len(),
{
    if ms.len() > 0 {
        let a1 = abs_play(a, ms[0]);
        lemma_play_wf(a, ms[0]);
        lemma_play_seq_undo(a1, ms.drop_first());
        assert(undo_n(play_seq(a1, ms.drop_first()), ms.drop_first().len()) == a1);
        lemma_play_undo(a, ms[0]);
    }
}

/// The state key of a well-formed position fits its integer type: the coin
/// count is bounded by the pile, and the board hash by its base-3 range.
pub proof fn lemma_key_bound(a: AbsGame)
    requires
        abs_wf(a),
    ensures
        0 <= abs_key(a) <= i32::MAX as int,
{
    match a {
        AbsGame::Subtract(s) => {},
        AbsGame::Grid(g) => {
            lemma_canonical_wf(g.board);
            let c = canonical_of(g.board);
            crate::game::tic_tac_toe::board::lemma_hash_upto_bounds(
                c,
                (c.height * c.width) as nat,
            );
            crate::game::tic_tac_toe::board::lemma_pow3_mono(
                (c.height * c.width) as nat,
                MAX_HASH_CELLS as nat,
            );
            crate::game::tic_tac_toe::board::lemma_pow3_value();
        },
    }
}

/// The `i32` form of a position's state key.
pub open spec fn abs_key_i32(a: AbsGame) -> i32 {
    abs_key(a) as i32
}

/// `p` is reached from `a` by exactly `n` legal moves.
pub open spec fn reaches(a: AbsGame, p: AbsGame, n: nat) -> bool
    decreases n,
{
    if n == 0 {
        p == a
    } else {
        exists|mv: u64|
            #[trigger] abs_moves(a).contains(mv) && reaches(abs_play(a, mv), p, (n - 1) as nat)
    }
}

/// `p` is reached from `a` by some sequence of legal moves.
pub open spec fn reachable(a: AbsGame, p: AbsGame) -> bool {
    exists|n: nat| reaches(a, p, n)
}

/// The state key does not collide on the positions reachable from `root`:
/// equal keys mean equal values.  Spelled out, the game's encoding is
/// injective enough for the transposition table to be reused soundly.
pub open spec fn key_consistent(root: AbsGame) -> bool {
    forall|p: AbsGame, q: AbsGame|
        #[trigger] reachable(root, p) && #[trigger] reachable(root, q) && abs_key(p) == abs_key(q)
            ==> value_of(p) == value_of(q)
}

/// The table entry at `k` is the value of some reachable position keyed
/// `k`.
pub open spec fn table_entry_ok(t: Map<i32, Outcome>, root: AbsGame, k: i32) -> bool {
    exists|p: AbsGame|
        reachable(root, p) && #[trigger] abs_key(p) == k as int && t[k] == value_of(p)
}

/// Every table entry records the exact value of a reachable position with
/// that key; entries are never overwritten, only added.
pub open spec fn table_sound(t: Map<i32, Outcome>, root: AbsGame) -> bool {
    forall|k: i32| t.dom().contains(k) ==> #[trigger] table_entry_ok(t, root, k)
}

pub proof fn lemma_reachable_refl(a: AbsGame)
    ensures
        reachable(a, a),
{
    assert(reaches(a, a, 0));
}

pub proof fn lemma_reachable_step(a: AbsGame, mv: u64)
    requires
        abs_moves(a).contains(mv),
    ensures
        reachable(a, abs_play(a, mv)),
{
    assert(reaches(abs_play(a, mv), abs_play(a, mv), 0));
    assert(reaches(a, abs_play(a, mv), 1));
}

pub proof fn lemma_reaches_trans(a: AbsGame, b: AbsGame, c: AbsGame, n1: nat, n2: nat)
    requires
        reaches(a, b, n1),
        reaches(b, c, n2),
    ensures
        reaches(a, c, n1 + n2),
    decreases n1,
{
    if n1 > 0 {
        let mv = choose|mv: u64|
            #[trigger] abs_moves(a).contains(mv) && reaches(abs_play(a, mv), b, (n1 - 1) as nat);
        lemma_reaches_trans(abs_play(a, mv), b, c, (n1 - 1) as nat, n2);
        assert(abs_moves(a).contains(mv) && reaches(abs_play(a, mv), c, (n1 + n2 - 1) as nat));
    }
}

pub proof fn lemma_reachable_trans(a: AbsGame, b: AbsGame, c: AbsGame)
    requires
        reachable(a, b),
        reachable(b, c),
    ensures
        reachable(a, c),
{
    let n1 = choose|n: nat| reaches(a, b, n);
    let n2 = choose|n: nat| reaches(b, c, n);
    lemma_reaches_trans(a, b, c, n1, n2);
}

pub proof fn lemma_reaches_wf(a: AbsGame, p: AbsGame, n: nat)
    requires
        abs_wf(a),
        reaches(a, p, n),
    ensures
        abs_wf(p),
    decreases n,
{
    if n > 0 {
        let mv = choose|mv: u64|
            #[trigger] abs_moves(a).contains(mv) && reaches(abs_play(a, mv), p, (n - 1) as nat);
        lemma_play_wf(a, mv);
        lemma_reaches_wf(abs_play(a, mv), p, (n - 1) as nat);
    }
}

pub proof fn lemma_reachable_wf(a: AbsGame, p: AbsGame)
    requires
        abs_wf(a),
        reachable(a, p),
    ensures
        abs_wf(p),
{
    let n = choose|n: nat| reaches(a, p, n);
    lemma_reaches_wf(a, p, n);
}

/// The capability interface a game session exposes to the solver.  Each
/// session abstracts to an `AbsGame`, and every operation is specified
/// against that abstraction.
pub trait Game: Sized {
    /// The abstract position this session currently holds.
    spec fn abs(&self) -> AbsGame;

    /// Mutates to the position after the legal move `mv` and records the
    /// move on the undo history.
    fn play(&mut self, mv: u64)
        requires
            abs_wf(old(self).abs()),
            abs_moves(old(self).abs()).contains(mv),
        ensures
            final(self).abs() == abs_play(old(self).abs(), mv),
    ;

    /// Reverts the most recently recorded move.
    fn undo(&mut self)
        requires
            abs_wf(old(self).abs()),
            abs_can_undo(old(self).abs()),
        ensures
            final(self).abs() == abs_undo(old(self).abs()),
    ;

    /// The integer encoding of the current position, the transposition
    /// table's key.
    fn state(&self) -> (key: i32)
        requires
            abs_wf(self.abs()),
        ensures
            key as int == abs_key(self.abs()),
    ;

    /// The terminal status of the current position.
    fn outcome(&self) -> (res: Option<Outcome>)
        requires
            abs_wf(self.abs()),
        ensures
            res == abs_outcome(self.abs()),
    ;

    /// The ordered legal move tokens of the current position; empty iff the
    /// position is terminal or exhausted.
    fn possible_moves(&self) -> (mvs: Vec<u64>)
        requires
            abs_wf(self.abs()),
        ensures
            mvs@ == abs_moves(self.abs()),
    ;
}

/// Solves the current position exactly: the returned outcome is the
/// game-theoretic value of the position under optimal play by both sides.
/// The session is restored to its original position, every table entry
/// added holds the exact value of a position visited, and a terminal
/// position is answered from `outcome()` alone.  The result is a function
/// of the abstract position only, so repeated solves of the same
/// configuration agree, whatever order `possible_moves()` chooses.
pub fn solve<G: Game>(game: &mut G, seen: &mut HashMap<i32, Outcome>) -> (out: Outcome)
    requires
        abs_wf(old(game).abs()),
        key_consistent(old(game).abs()),
        table_sound(old(seen)@, old(game).abs()),
    ensures
        final(game).abs() == old(game).abs(),
        out == value_of(old(game).abs()),
        table_sound(final(seen)@, old(game).abs()),
        old(seen)@.dom().subset_of(final(seen)@.dom()),
        abs_outcome(old(game).abs()) matches Some(o) ==> out == o,
        abs_outcome(old(game).abs()) is None ==> forall|i: int|
            0 <= i < abs_moves(old(game).abs()).len() ==> final(seen)@.dom().contains(
                #[trigger] abs_key_i32(abs_play(old(game).abs(), abs_moves(old(game).abs())[i])),
            ),
{
    proof {
        lemma_reachable_refl(old(game).abs());
    }
    solve_rec(game, seen, Ghost(old(game).abs()))
}

/// The recursive worker behind `solve`: the table may already hold entries
/// for positions reachable from the ghost root, and stays sound for it.
#[verifier::loop_isolation(false)]
fn solve_rec<G: Game>(
    game: &mut G,
    seen: &mut HashMap<i32, Outcome>,
    Ghost(root): Ghost<AbsGame>,
) -> (out: Outcome)
    requires
        abs_wf(root),
        key_consistent(root),
        reachable(root, old(game).abs()),
        table_sound(old(seen)@, root),
    ensures
        final(game).abs() == old(game).abs(),
        out == value_of(old(game).abs()),
        table_sound(final(seen)@, root),
        old(seen)@.dom().subset_of(final(seen)@.dom()),
        abs_outcome(old(game).abs()) is None ==> forall|i: int|
            0 <= i < abs_moves(old(game).abs()).len() ==> final(seen)@.dom().contains(
                #[trigger] abs_key_i32(abs_play(old(game).abs(), abs_moves(old(game).abs())[i])),
            ),
    decreases abs_measure(old(game).abs()),
{
    let ghost a0 = old(game).abs();
    proof {
        lemma_reachable_wf(root, a0);
    }
    let terminal = game.outcome();
    if let Some(out) = terminal {
        return out;
    }
    proof {
        lemma_nonterminal_measure(a0);
        lemma_measure_bound(a0);
    }
    let mvs = game.possible_moves();
    let n = mvs.len();
    let mut outs: Vec<Outcome> = Vec::new();
    let mut k: usize = 0;
    while k < n
        invariant
            game.abs() == a0,
            table_sound(seen@, root),
            0 <= k <= n,
            outs@.len() == k,
            forall|i: int|
                0 <= i < k ==> #[trigger] outs@[i] == value_of(abs_play(a0, abs_moves(a0)[i])),
            forall|i: int|
                0 <= i < k ==> seen@.dom().contains(
                    #[trigger] abs_key_i32(abs_play(a0, abs_moves(a0)[i])),
                ),
            old(seen)@.dom().subset_of(seen@.dom()),
        decreases n - k,
    {
        let mv = mvs[k];
        proof {
            assert(abs_moves(a0).contains(mv)) by {
                assert(abs_moves(a0)[k as int] == mv);
            }
            lemma_play_wf(a0, mv);
        }
        game.play(mv);
        let ghost child = abs_play(a0, mv);
        proof {
            lemma_reachable_step(a0, mv);
            lemma_reachable_trans(root, a0, child);
        }
        let key = game.state();
        let out_c: Outcome;
        let cached = seen.get(&key);
        match cached {
            Some(o) => {
                out_c = *o;
                proof {
                    assert(seen@.dom().contains(key));
                    assert(table_entry_ok(seen@, root, key));
                    let p = choose|p: AbsGame|
                        reachable(root, p) && #[trigger] abs_key(p) == key as int && seen@[key]
                            == value_of(p);
                    assert(abs_key(p) == abs_key(child));
                    assert(value_of(p) == value_of(child));
                }
            },
            None => {
                out_c = solve_rec(game, seen, Ghost(root));
                let ghost pre = seen@;
                seen.insert(key, out_c);
                proof {
                    assert(seen@ == pre.insert(key, out_c));
                    assert forall|k2: i32| seen@.dom().contains(k2) implies table_entry_ok(
                        seen@,
                        root,
                        k2,
                    ) by {
                        if k2 == key {
                            assert(reachable(root, child) && abs_key(child) == key as int
                                && seen@[k2] == value_of(child));
                        } else {
                            assert(pre.dom().contains(k2));
                            assert(table_entry_ok(pre, root, k2));
                            let p = choose|p: AbsGame|
                                reachable(root, p) && #[trigger] abs_key(p) == k2 as int && pre[k2]
                                    == value_of(p);
                            assert(reachable(root, p) && abs_key(p) == k2 as int && seen@[k2]
                                == value_of(p));
                        }
                    }
                }
            },
        }
        outs.push(out_c);
        game.undo();
        proof {
            lemma_play_undo(a0, mv);
            lemma_key_bound(child);
            assert(key == abs_key_i32(child));
            assert(seen@.dom().contains(key));
        }
        k = k + 1;
    }
    let ghost outsv = outs@;
    proof {
        assert forall|i: int| 0 <= i < outsv.len() implies 0 <= rem_of(#[trigger] outsv[i])
            < i32::MAX as int by {
            assert(abs_moves(a0).contains(abs_moves(a0)[i])) by {
                assert(abs_moves(a0)[i] == abs_moves(a0)[i]);
            }
            lemma_play_wf(a0, abs_moves(a0)[i]);
            lemma_value_rem_bound(abs_play(a0, abs_moves(a0)[i]));
        }
    }
    let res = get_outcome(outs);
    proof {
        lemma_value_children(a0, outsv);
    }
    res
}

/// Combines the outcomes of a position's children, as `combine` specifies.
pub fn get_outcome(available: Vec<Outcome>) -> (out: Outcome)
    requires
        forall|i: int|
            0 <= i < available@.len() ==> 0 <= #[trigger] rem_of(available@[i]) < i32::MAX as int,
    ensures
        out == combine(available@),
{
    let mut w_rem: i32 = i32::MAX;
    let mut t_rem: i32 = i32::MAX;
    let mut l_rem: i32 = -1;
    let mut win: bool = false;
    let mut tie: bool = false;
    let n = available.len();
    let mut k: usize = 0;
    while k < n
        invariant
            n == available@.len(),
            0 <= k <= n,
            forall|i: int|
                0 <= i < available@.len() ==> 0 <= #[trigger] rem_of(available@[i]) < i32::MAX as int,
            win == has_loss(available@.take(k as int)),
            tie == has_tie(available@.take(k as int)),
            w_rem as int == min_loss_rem(available@.take(k as int)),
            t_rem as int == min_tie_rem(available@.take(k as int)),
            l_rem as int == max_win_rem(available@.take(k as int)),
            0 <= w_rem,
            0 <= t_rem,
            !win ==> w_rem == i32::MAX,
            !tie ==> t_rem == i32::MAX,
            win ==> w_rem < i32::MAX,
            tie ==> t_rem < i32::MAX,
            -1 <= l_rem < i32::MAX,
        decreases n - k,
    {
        let out = available[k];
        proof {
            assert(available@.take(k + 1).drop_last() =~= available@.take(k as int));
            assert(available@.take(k + 1).last() == available@[k as int]);
            assert(0 <= rem_of(available@[k as int]) < i32::MAX as int);
        }
        match out {
            Outcome::Loss(rem) => {
                win = true;
                if rem < w_rem {
                    w_rem = rem;
                }
            },
            Outcome::Tie(rem) => {
                tie = true;
                if rem < t_rem {
                    t_rem = rem;
                }
            },
            Outcome::Win(rem) => {
                if rem > l_rem {
                    l_rem = rem;
                }
            },
        }
        k = k + 1;
    }
    proof {
        assert(available@.take(n as int) =~= available@);
    }
    if win {
        Outcome::Win(w_rem + 1)
    } else if tie {
        Outcome::Tie(t_rem + 1)
    } else {
        Outcome::Loss(l_rem + 1)
    }
}

} // verus!
