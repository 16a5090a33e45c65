//! A compression-research harness that tunes a small linear heuristic for
//! ranking chess moves by plausibility.
//!
//! Given a corpus of decoded games, the crate orders the legal moves of each
//! position by a weighted feature score, records the rank of the move actually
//! played, measures how many bits an optimal prefix code needs for the
//! observed rank distribution, and drives the weights toward a minimum of that
//! bit cost with a simultaneous-perturbation stochastic optimizer.
//!
//! All quantities are exact fixed-point integers, so every result is a pure,
//! reproducible function of the inputs and the optimizer seed.  Reading the
//! corpus, decoding game notation and generating legal moves are external
//! services: callers hand the harness already-decoded games as plain values.

pub mod batch;
pub mod cost;
pub mod fixmath;
pub mod ranker;
pub mod rng;
pub mod spsa;
