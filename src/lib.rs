//! Lossless text compression into back-reference triples, with an exact
//! longest-match search driven by a Knuth-Morris-Pratt matcher.
pub mod codec;
pub mod str_match;
pub mod wire;
