//! A trainer of byte-pair-encoding vocabularies.
//!
//! Training turns a count of words into a vocabulary of symbols and an
//! ordered list of merges. It either starts from the words alone, or goes
//! on from the merges of an earlier training, which it replays before it
//! discovers further ones.
//!
//! Every function is verified against a contract over mathematical values.
//! The contracts of the trainer say what a training comes to, as a function
//! of the parameters and the words; the modules `laws`, `lengths`,
//! `replaying`, `coverage` and `stopping` prove what holds of every
//! training.

pub mod alphabet;
pub mod corpus;
pub mod coverage;
pub mod discovery;
pub mod encoding;
pub mod feeding;
pub mod heap;
pub mod indexing;
pub mod laws;
pub mod lengths;
pub mod listing;
pub mod pairs;
pub mod queue;
pub mod replay;
pub mod replaying;
pub mod rules;
pub mod stopping;
pub mod table;
pub mod text;
pub mod trainer;
pub mod training;
pub mod vocab;
pub mod word;

pub use trainer::{AddedToken, BpeTrainer, BpeTrainerBuilder, TrainError, BPE};
pub use training::ExtendSource;
pub use word::{Pair, Word};
