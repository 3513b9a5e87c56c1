//! Why a search for a ladder may fail.

use vstd::prelude::*;

verus! {

/// The ways in which a search for a ladder fails. Each carries the words
/// that it is about.
#[derive(Debug)]
pub enum Error {
    /// Both words are in the dictionary, but no ladder leads from the one to
    /// the other.
    NoPathExists { start_word: String, end_word: String },
    /// The word is not in the dictionary of its length.
    NotInDictionary { word: String },
    /// The two words do not have the same number of characters.
    WordsUnequalLen { start_word: String, end_word: String },
}

} // verus!
