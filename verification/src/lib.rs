//! A configurable lexical scanner: named literal tokens resolved through a
//! longest-prefix trie, named regular-expression tokens forced to match only
//! at the probed position, and a dispatch loop that turns an input string into
//! positioned tokens or reports the first unclassifiable character.

pub mod common;
pub mod engine;
pub mod error;
pub mod patterns;
pub mod tokenizer;
pub mod tree;

pub use tokenizer::Token;
pub use tokenizer::Tokenizer;
pub use tree::Tree;
