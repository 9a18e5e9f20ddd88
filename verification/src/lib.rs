//! Monte Carlo estimation of the chance that a town of MyHordes is
//! overrun ("débordement") during the nightly attack.
//!
//! The verified library holds the integer rules of the game model: how many
//! targets the attack spreads over, how flags shave it, how the attack is
//! finally handed out to the targets, how the nightly attack strength is
//! distributed, and the bookkeeping of the Monte Carlo runs.

pub mod arith;
pub mod rules;
pub mod distribution;
pub mod simulator;
pub mod montecarlo;
