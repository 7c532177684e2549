//! Decision logic of an ORE board miner: square predictions, genetic search
//! helpers, per-round bookkeeping of the mining loops and the on-chain
//! deploy / claim rules.

pub mod seqs;
pub mod rng;
pub mod subset;
pub mod predictor;
pub mod frequency;
pub mod rounds;
pub mod deploy_rounds;
pub mod chain;
pub mod slot_miner;
pub mod snapshot;
pub mod markov;
pub mod accounts;
