//! Supervised estimation of a discrete hidden Markov model.
//!
//! The model is fitted once from an ordered sequence of
//! (hidden state, observation) pairs and then answers point probability
//! queries: the prior of a hidden state, the likelihood of an observation
//! given a state, and the single-step Bayesian posterior of a state given
//! an observation.  Symbols of both alphabets are plain `u64` identifiers;
//! callers intern richer label types to identifiers before training.
//!
//! All probabilities are exact rationals (`Prob`), so the distribution
//! rows provably sum to one with no floating-point tolerance.

pub mod counts;
pub mod model;
pub mod prob;
pub mod table;
