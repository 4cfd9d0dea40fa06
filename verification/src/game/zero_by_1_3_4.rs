//! Zero-by-one-three-or-four: two players take turns removing one, three
//! or four coins from a pile of N until none remain.  The player who
//! removes the last coins wins, so the player to move at zero coins loses.

use vstd::prelude::*;
use crate::game::{
    AbsGame, Game, Outcome, SubtractState, abs_moves, abs_wf, num_legal, lemma_subtract_move,
    lemma_subtract_undo_bound,
};

verus! {

/// A legal move: remove one, three or four coins.
#[derive(Eq, Hash, PartialEq, Structural, Clone, Copy, Debug)]
pub enum Move {
    One,
    Three,
    Four,
}

/// How many coins a move removes.
pub open spec fn amount_of(m: Move) -> int {
    match m {
        Move::One => 1,
        Move::Three => 3,
        Move::Four => 4,
    }
}

/// The fixed move menu of this game.
pub open spec fn zero_by_1_3_4_takes() -> Seq<int> {
    seq![1int, 3int, 4int]
}

/// A session of the game: the pile and the undo history.
pub struct Session {
    coins: i32,
    stack: Vec<Move>,
}

impl Session {
    /// A fresh session over a pile of `coins`; a negative pile is rejected
    /// before a session ever exists.
    pub fn new(coins: i32) -> (g: Session)
        requires
            0 <= coins,
        ensures
            abs_wf(g.abs()),
            g.abs() == AbsGame::Subtract(
                SubtractState {
                    takes: zero_by_1_3_4_takes(),
                    coins: coins as int,
                    history: Seq::empty(),
                },
            ),
    {
        let g = Session { coins, stack: Vec::new() };
        proof {
            assert(g.stack@.map_values(|m: Move| amount_of(m)) =~= Seq::<int>::empty());
            assert(zero_by_1_3_4_takes()[0] == 1);
        }
        g
    }

    /// The number of coins still in the pile.
    pub fn coins_left(&self) -> (c: i32)
        ensures
            self.abs() matches AbsGame::Subtract(s) && s.coins == c as int,
    {
        self.coins
    }

    /// The stable token of a move, fixed at construction.
    pub fn move_uuid(&self, mv: Move) -> (token: u64)
        ensures
            zero_by_1_3_4_takes()[token as int] == amount_of(mv),
            0 <= token < zero_by_1_3_4_takes().len(),
    {
        match mv {
            Move::One => 0,
            Move::Three => 1,
            Move::Four => 2,
        }
    }
}

impl Game for Session {
    closed spec fn abs(&self) -> AbsGame {
        AbsGame::Subtract(
            SubtractState {
                takes: zero_by_1_3_4_takes(),
                coins: self.coins as int,
                history: self.stack@.map_values(|m: Move| amount_of(m)),
            },
        )
    }

    fn play(&mut self, mv: u64) {
        let ghost s = old(self).abs()->Subtract_0;
        proof {
            lemma_subtract_move(s, mv);
            assert(zero_by_1_3_4_takes()[0] == 1 && zero_by_1_3_4_takes()[1] == 3
                && zero_by_1_3_4_takes()[2] == 4);
        }
        let m: Move;
        if mv == 0 {
            m = Move::One;
            self.coins = self.coins - 1;
        } else if mv == 1 {
            m = Move::Three;
            self.coins = self.coins - 3;
        } else {
            proof {
                assert(mv == 2);
            }
            m = Move::Four;
            self.coins = self.coins - 4;
        }
        self.stack.push(m);
        proof {
            assert(self.stack@.map_values(|x: Move| amount_of(x)) =~= s.history.push(
                s.takes[mv as int],
            ));
        }
    }

    fn undo(&mut self) {
        let ghost s = old(self).abs()->Subtract_0;
        proof {
            lemma_subtract_undo_bound(s);
            assert(s.history.last() == amount_of(old(self).stack@.last()));
        }
        let m = self.stack.pop().unwrap();
        match m {
            Move::One => {
                self.coins = self.coins + 1;
            },
            Move::Three => {
                self.coins = self.coins + 3;
            },
            Move::Four => {
                self.coins = self.coins + 4;
            },
        }
        proof {
            assert(self.stack@.map_values(|x: Move| amount_of(x)) =~= s.history.drop_last());
        }
    }

    fn state(&self) -> (key: i32) {
        self.coins
    }

    fn outcome(&self) -> (res: Option<Outcome>) {
        if self.coins <= 0 {
            Some(Outcome::Loss(0))
        } else {
            None
        }
    }

    fn possible_moves(&self) -> (mvs: Vec<u64>) {
        let ghost s = self.abs()->Subtract_0;
        proof {
            let c = self.coins as int;
            assert(zero_by_1_3_4_takes().len() == 3 && zero_by_1_3_4_takes()[0] == 1
                && zero_by_1_3_4_takes()[1] == 3 && zero_by_1_3_4_takes()[2] == 4);
            assert(seq![3int, 4int].len() == 2 && seq![3int, 4int][0] == 3 && seq![3int, 4int][1]
                == 4);
            assert(seq![4int].len() == 1 && seq![4int][0] == 4);
            assert(zero_by_1_3_4_takes().drop_first() =~= seq![3int, 4int]);
            assert(seq![3int, 4int].drop_first() =~= seq![4int]);
            assert(seq![4int].drop_first() =~= Seq::<int>::empty());
            assert(num_legal(Seq::<int>::empty(), c) == 0);
            assert(num_legal(seq![4int], c) == if c >= 4 {
                1nat
            } else {
                0nat
            });
            assert(num_legal(seq![3int, 4int], c) == if c >= 4 {
                2nat
            } else if c >= 3 {
                1nat
            } else {
                0nat
            });
            assert(num_legal(zero_by_1_3_4_takes(), c) == if c >= 4 {
                3nat
            } else if c >= 3 {
                2nat
            } else if c >= 1 {
                1nat
            } else {
                0nat
            });
        }
        let mut mvs: Vec<u64> = Vec::new();
        if self.coins >= 1 {
            mvs.push(0);
        }
        if self.coins >= 3 {
            mvs.push(1);
        }
        if self.coins >= 4 {
            mvs.push(2);
        }
        proof {
            assert(mvs@ =~= abs_moves(self.abs()));
        }
        mvs
    }
}

} // verus!
