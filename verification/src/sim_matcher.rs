//! The similarity measures a fuzzy matcher can use.
use vstd::prelude::*;

verus! {

/// How the similarity between a word and a text is measured.
#[derive(Clone, Copy, Debug, PartialEq, Eq, Structural)]
pub enum SimMatchType {
    /// Normalized Levenshtein (edit) distance.
    Levenshtein,
}

/// A word of a similarity table that a text variant matched; its score is
/// kept by the caller, which computes it.
pub struct SimHit {
    /// Identifier of the table's match.
    pub match_id: u32,
    /// Identifier of the table.
    pub table_id: u32,
    /// Index of the word in the table.
    pub word_id: u32,
    /// The word.
    pub word: String,
}

} // verus!
