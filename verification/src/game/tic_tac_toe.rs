//! A tic-tac-toe style session: a rectangular board on which two players
//! alternately place their marks, trying to complete a run of a fixed
//! length.  The transposition table is keyed by the hash of the
//! canonicalized board, folding symmetry-equivalent positions together.

pub mod board;

use vstd::prelude::*;
use board::{Board, lemma_empty_filled, lemma_flat_decode, MAX_HASH_CELLS};
use super::{AbsGame, Game, GridState, Outcome, abs_wf, grid_moves, lemma_grid_moves_elem};

verus! {

/// A legal move: a cross or a nought placed at a cell.
#[derive(Eq, Hash, PartialEq, Structural, Clone, Copy, Debug)]
pub enum Move {
    X(Place),
    O(Place),
}

/// A cell position on the board.
#[derive(Eq, Hash, PartialEq, Structural, Clone, Copy, Debug)]
pub struct Place {
    i: i32,
    j: i32,
}

/// The cell a move fills.
pub closed spec fn place_of(m: Move) -> (int, int) {
    match m {
        Move::X(p) => (p.i as int, p.j as int),
        Move::O(p) => (p.i as int, p.j as int),
    }
}

/// A grid game session: the live board and the undo history.
pub struct Session {
    board: Board,
    stack: Vec<Move>,
}

impl Session {
    /// A fresh session over an empty `height` by `width` board on which a
    /// run of `win` equal marks wins.
    pub fn new(height: i32, width: i32, win: i32) -> (g: Session)
        requires
            1 <= height,
            1 <= width,
            (height as int) * (width as int) <= MAX_HASH_CELLS as int,
            1 <= win,
        ensures
            abs_wf(g.abs()),
            g.abs() == AbsGame::Grid(
                GridState {
                    board: board::empty_board(height as int, width as int, win as int),
                    history: Seq::empty(),
                },
            ),
    {
        let b = Board::new(height, width, win);
        let g = Session { board: b, stack: Vec::new() };
        proof {
            assert(g.stack@.map_values(|m: Move| place_of(m)) =~= Seq::<(int, int)>::empty());
            lemma_empty_filled(
                height as int,
                width as int,
                win as int,
                (height as int * width as int) as nat,
            );
        }
        g
    }
}

impl Game for Session {
    closed spec fn abs(&self) -> AbsGame {
        AbsGame::Grid(
            GridState {
                board: self.board.model(),
                history: self.stack@.map_values(|m: Move| place_of(m)),
            },
        )
    }

    fn play(&mut self, mv: u64) {
        let ghost g = old(self).abs()->Grid_0;
        let ghost b = g.board;
        let ghost bit = g.history.len() as int % 2;
        proof {
            lemma_grid_moves_elem(b, bit, (b.height * b.width) as nat, mv);
            lemma_flat_decode(mv as int / 2, b.height, b.width);
        }
        let c = (mv / 2) as i32;
        let w = self.board.width();
        let i = c / w;
        let j = c % w;
        let mark = mv % 2 == 1;
        let place = Place { i, j };
        let m = if mark {
            Move::X(place)
        } else {
            Move::O(place)
        };
        self.board.place(Some(mark), i, j);
        self.stack.push(m);
        proof {
            assert(mv as int % 2 == 1 <==> mv % 2u64 == 1u64);
            assert(self.stack@.map_values(|x: Move| place_of(x)) =~= g.history.push(
                (i as int, j as int),
            ));
        }
    }

    fn undo(&mut self) {
        let ghost g = old(self).abs()->Grid_0;
        proof {
            assert(g.history.last() == place_of(old(self).stack@.last()));
            assert(g.history[g.history.len() - 1] == g.history.last());
            assert(0 <= g.history.last().0 < g.board.height);
            assert(0 <= g.history.last().1 < g.board.width);
        }
        let m = self.stack.pop().unwrap();
        let place = match m {
            Move::X(p) => p,
            Move::O(p) => p,
        };
        self.board.place(None, place.i, place.j);
        proof {
            assert(self.stack@.map_values(|x: Move| place_of(x)) =~= g.history.drop_last());
        }
    }

    fn state(&self) -> (key: i32) {
        let canon = self.board.canonical();
        canon.hash()
    }

    fn outcome(&self) -> (res: Option<Outcome>) {
        self.board.outcome()
    }

    #[verifier::loop_isolation(false)]
    fn possible_moves(&self) -> (mvs: Vec<u64>) {
        let ghost g = self.abs()->Grid_0;
        let ghost b = g.board;
        let h = self.board.height();
        let w = self.board.width();
        let total = h * w;
        let bit: u64 = (self.stack.len() % 2) as u64;
        proof {
            assert(bit as int == g.history.len() as int % 2);
        }
        let mut mvs: Vec<u64> = Vec::new();
        let mut c: i32 = 0;
        while c < total
            invariant
                self.abs()->Grid_0 == g,
                b == g.board,
                h as int == b.height,
                w as int == b.width,
                total == b.height * b.width,
                bit as int == g.history.len() as int % 2,
                0 <= c <= total,
                mvs@ == grid_moves(b, bit as int, c as nat),
            decreases total - c,
        {
            proof {
                lemma_flat_decode(c as int, b.height, b.width);
            }
            let i = c / w;
            let j = c % w;
            let cell = self.board.symbol_at(i, j);
            if cell.is_none() {
                mvs.push(2 * (c as u64) + bit);
                proof {
                    assert(board::cell_at(b, c as int) is None);
                    assert(grid_moves(b, bit as int, (c + 1) as nat) == grid_moves(
                        b,
                        bit as int,
                        c as nat,
                    ).push((2 * (c as int) + bit as int) as u64));
                    assert((2 * (c as int) + bit as int) as u64 == 2 * (c as u64) + bit);
                }
            } else {
                proof {
                    assert(!(board::cell_at(b, c as int) is None));
                    assert(grid_moves(b, bit as int, (c + 1) as nat) == grid_moves(
                        b,
                        bit as int,
                        c as nat,
                    ));
                }
            }
            c = c + 1;
        }
        mvs
    }
}

} // verus!
