//! An exhaustive solver for two-player, perfect-information, zero-sum,
//! finite combinatorial games.
//!
//! The solver computes the exact game-theoretic outcome (win, loss or tie,
//! each annotated with a remoteness) of any position exposed through the
//! [`game::Game`] capability interface, memoizing solved positions in a
//! transposition table.  Grid-based positions can additionally be
//! canonicalized under board symmetries before keying the table.

pub mod game;
