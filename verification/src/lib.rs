//! A per-author Markov word-transition model for pastiche replies: a
//! transition graph trained from chat transcripts, a registry of one
//! graph per author, and a weighted random-walk generator with a bounded
//! retry policy.

mod generator;
mod markov;
mod msgprocessor;
mod registry;

pub use generator::GenerationError;
pub use generator::MAX_ATTEMPTS;
pub use generator::MIN_LENGTH;
pub use generator::generate;
pub use generator::generate_reply;
pub use generator::join_words;
pub use markov::MAX_WALK_STEPS;
pub use markov::Markov;
pub use markov::Node;
pub use markov::WORD_SENTENCE_BEGIN;
pub use markov::WORD_SENTENCE_END;
pub use markov::WORD_USER_BEGIN;
pub use msgprocessor::LogMessage;
pub use msgprocessor::ProcessedMessage;
pub use registry::ModelRegistry;
