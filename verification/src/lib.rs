//! A first-order Markov chain over the words of a text corpus.
//!
//! A corpus is read into a model of observed transitions between atoms (words,
//! commas, sentence breaks); new sentences are then sampled from the model by a
//! weighted random walk.

pub mod atom;
pub mod corpus;
pub mod model;
pub mod sampler;
pub mod sentence;
pub mod state;
pub mod tally;
pub mod token;

pub use atom::{AtomView, SentAtom};
pub use corpus::read_corpus;
pub use model::WordFreq;
pub use sampler::weighted_choice;
pub use sentence::{generate_sentence, generate_sentence_from, GenerateError, Walk, MAX_REDRAWS};
pub use state::LibState;
pub use tally::WordTally;
pub use token::{split_words, trimcomma};
