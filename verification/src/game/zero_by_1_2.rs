//! Zero-by-one-or-two: two players take turns removing one or two coins
//! from a pile of N until none remain.  The player who removes the last
//! coins wins, so the player to move at zero coins loses.

use vstd::prelude::*;
use std::collections::HashMap;
use crate::game::{
    AbsGame, Game, Outcome, SubtractState, abs_moves, abs_wf, num_legal, value_of,
    lemma_subtract_move, lemma_subtract_undo_bound, lemma_subtract_key_consistent,
    lemma_subtract_value_hist,
};

verus! {

/// A legal move: remove one coin, or remove two.
#[derive(Eq, Hash, PartialEq, Structural, Clone, Copy, Debug)]
pub enum Move {
    One,
    Two,
}

/// How many coins a move removes.
pub open spec fn amount_of(m: Move) -> int {
    match m {
        Move::One => 1,
        Move::Two => 2,
    }
}

/// The fixed move menu of this game.
pub open spec fn zero_by_1_2_takes() -> Seq<int> {
    seq![1int, 2int]
}

/// A session of the game: the pile and the undo history.
pub struct Session {
    coins: i32,
    stack: Vec<Move>,
}

impl Session {
    /// A fresh session over a pile of `coins`; a negative pile is rejected
    /// before a session ever exists.
    pub fn new(coins: i32) -> (g: Session)
        requires
            0 <= coins,
        ensures
            abs_wf(g.abs()),
            g.abs() == AbsGame::Subtract(
                SubtractState {
                    takes: zero_by_1_2_takes(),
                    coins: coins as int,
                    history: Seq::empty(),
                },
            ),
    {
        let g = Session { coins, stack: Vec::new() };
        proof {
            assert(g.stack@.map_values(|m: Move| amount_of(m)) =~= Seq::<int>::empty());
            assert(zero_by_1_2_takes()[0] == 1);
        }
        g
    }

    /// The number of coins still in the pile.
    pub fn coins_left(&self) -> (c: i32)
        ensures
            self.abs() matches AbsGame::Subtract(s) && s.coins == c as int,
    {
        self.coins
    }

    /// The stable token of a move, fixed at construction.
    pub fn move_uuid(&self, mv: Move) -> (token: u64)
        ensures
            zero_by_1_2_takes()[token as int] == amount_of(mv),
            0 <= token < zero_by_1_2_takes().len(),
    {
        match mv {
            Move::One => 0,
            Move::Two => 1,
        }
    }

    /// Solves this session from scratch: the exact value of the current
    /// pile under optimal play, whatever moves are already on the history.
    pub fn solve(&self) -> (out: Outcome)
        requires
            abs_wf(self.abs()),
        ensures
            out == value_of(self.abs()),
    {
        let ghost s = self.abs()->Subtract_0;
        let mut fresh = Session::new(self.coins_left());
        let mut seen: HashMap<i32, Outcome> = HashMap::new();
        proof {
            lemma_subtract_key_consistent(fresh.abs());
            assert(seen@.dom() =~= Set::<i32>::empty());
        }
        let out = crate::game::solve(&mut fresh, &mut seen);
        proof {
            lemma_subtract_value_hist(s.takes, s.coins, Seq::empty(), s.history);
        }
        out
    }
}

impl Game for Session {
    closed spec fn abs(&self) -> AbsGame {
        AbsGame::Subtract(
            SubtractState {
                takes: zero_by_1_2_takes(),
                coins: self.coins as int,
                history: self.stack@.map_values(|m: Move| amount_of(m)),
            },
        )
    }

    fn play(&mut self, mv: u64) {
        let ghost s = old(self).abs()->Subtract_0;
        proof {
            lemma_subtract_move(s, mv);
            assert(zero_by_1_2_takes()[0] == 1 && zero_by_1_2_takes()[1] == 2);
        }
        let m: Move;
        if mv == 0 {
            m = Move::One;
            self.coins = self.coins - 1;
        } else {
            proof {
                assert(mv == 1);
            }
            m = Move::Two;
            self.coins = self.coins - 2;
        }
        self.stack.push(m);
        proof {
            assert(self.stack@.map_values(|x: Move| amount_of(x)) =~= s.history.push(
                s.takes[mv as int],
            ));
        }
    }

    fn undo(&mut self) {
        let ghost s = old(self).abs()->Subtract_0;
        proof {
            lemma_subtract_undo_bound(s);
            assert(s.history.last() == amount_of(old(self).stack@.last()));
        }
        let m = self.stack.pop().unwrap();
        match m {
            Move::One => {
                self.coins = self.coins + 1;
            },
            Move::Two => {
                self.coins = self.coins + 2;
            },
        }
        proof {
            assert(self.stack@.map_values(|x: Move| amount_of(x)) =~= s.history.drop_last());
        }
    }

    fn state(&self) -> (key: i32) {
        self.coins
    }

    fn outcome(&self) -> (res: Option<Outcome>) {
        if self.coins <= 0 {
            Some(Outcome::Loss(0))
        } else {
            None
        }
    }

    fn possible_moves(&self) -> (mvs: Vec<u64>) {
        let ghost s = self.abs()->Subtract_0;
        proof {
            let c = self.coins as int;
            assert(zero_by_1_2_takes().len() == 2 && zero_by_1_2_takes()[0] == 1
                && zero_by_1_2_takes()[1] == 2);
            assert(seq![2int].len() == 1 && seq![2int][0] == 2);
            assert(zero_by_1_2_takes().drop_first() =~= seq![2int]);
            assert(seq![2int].drop_first() =~= Seq::<int>::empty());
            assert(num_legal(Seq::<int>::empty(), c) == 0);
            assert(num_legal(seq![2int], c) == if c >= 2 {
                1nat
            } else {
                0nat
            });
            assert(num_legal(zero_by_1_2_takes(), c) == if c >= 2 {
                2nat
            } else if c >= 1 {
                1nat
            } else {
                0nat
            });
        }
        let mut mvs: Vec<u64> = Vec::new();
        if self.coins >= 1 {
            mvs.push(0);
        }
        if self.coins >= 2 {
            mvs.push(1);
        }
        proof {
            assert(mvs@ =~= abs_moves(self.abs()));
        }
        mvs
    }
}

} // verus!
