//! Detection and masking of dictionary words in text, by a trie compiled from
//! the dictionary and a left-to-right scan under a shortest or longest match
//! policy.
use vstd::prelude::*;

pub mod mask;
pub mod matching;
pub mod order;
pub mod scan;
pub mod text;
pub mod trie;

verus! {

/// Matching policy for a probe at one text position.
pub enum MatchType {
    /// Stop at the first (shortest) dictionary word.
    MinMatchType,
    /// Continue to the last (longest) dictionary word.
    MaxMatchType,
}

} // verus!

pub use mask::{mask_words, replace_chars, replace_sensitive_word};
pub use scan::find_sensitive_word;
pub use text::{from_chars, to_chars};
pub use trie::{build_sensitive_word_map, check_sensitive_word, SensitiveWordMap};
