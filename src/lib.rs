use vstd::prelude::*;

/// Small string helpers: the characters of a string, substring search.
pub mod utils;
/// A prefix trie over characters, kept in a flat arena of nodes.
pub mod varmap;
/// A multi-pattern matching automaton: the trie with failure links.
pub mod ac;
/// Tokens, expression trees and the parser of a small prefix-notation language.
pub mod token;
/// The operators of the expression language.
pub mod calc;

verus! {

} // verus!
