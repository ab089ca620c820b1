//! Multi-pattern search with a double-array Aho-Corasick automaton.
//!
//! An [`Automaton`] is built once from a set of patterns and then finds, in
//! any haystack, where the patterns occur. Patterns and haystacks are
//! strings; a match gives the offsets of its first codepoint and of the
//! codepoint behind its last, and the index of its pattern.
//!
//! What the searches report is defined over the pattern set and the
//! haystack alone, in `text` and `matches`; `laws` holds what follows for
//! every result. `alphabet` and `limits` say which pattern sets are
//! accepted, and `position` how places in a haystack are counted.

pub mod alphabet;
pub mod automaton;
mod compact;
mod double_array;
pub mod error;
pub mod laws;
mod leftmost;
pub mod limits;
mod links;
pub mod matches;
pub mod position;
mod search;
pub mod text;
mod trie;

pub use automaton::Automaton;
pub use error::{ConstructionError, InvalidConfiguration};
pub use matches::{Match, MatchKind};
