//! Word ladders: the shortest chain of dictionary words between two words of
//! equal length, in which every step replaces exactly one character.
//!
//! [`shortest_path`] is the whole operation. It checks the two words
//! ([`validate`]), which builds the dictionary of their length from a corpus
//! of words ([`load_dictionary`]), and then searches that dictionary level by
//! level ([`find_path`]), telling neighbours by their distance
//! ([`hamming_distance`]).
//!
//! - `distance`: the number of positions at which two words differ.
//! - `order`: the order in which a dictionary keeps its words.
//! - `dictionary`: the words of one length, in order and without repetition.
//! - `node`: search nodes, which remember where they were reached from.
//! - `ladder`: what a ladder is, and which one is the shortest and first.
//! - `frontier`: what holds of a search between two steps.
//! - `measure`: why a search ends.
//! - `search`: the search itself.
//! - `error`: the ways in which it fails.

pub mod dictionary;
pub mod distance;
pub mod error;
pub mod frontier;
pub mod ladder;
pub mod measure;
pub mod node;
pub mod order;
pub mod search;

pub use dictionary::{load_dictionary, Dictionary};
pub use distance::hamming_distance;
pub use error::Error;
pub use node::Node;
pub use order::{compare_words, Placement};
pub use search::{find_path, shortest_path, validate};
