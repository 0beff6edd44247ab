//! Least-squares trilateration over a dense matrix engine, with the
//! bookkeeping of a Monte Carlo accuracy study and its statistics.

pub mod scalar;
pub mod matrix;
pub mod point;
pub mod solver;
pub mod stats;
pub mod rectangle;
pub mod test_runner;
