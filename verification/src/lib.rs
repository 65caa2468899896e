//! A weighted-kernel probabilistic cellular automaton and an evolutionary
//! search over its rule space.
//!
//! Probabilities and alive ratios are held in fixed point: the value 1.0 is
//! `fixed::PROB_ONE`, and a stored number `p` stands for the real quantity
//! `p / PROB_ONE`.

pub mod data;
pub mod ext;
pub mod fixed;
pub mod grid;
pub mod lab;
pub mod rules;
pub mod sim;

