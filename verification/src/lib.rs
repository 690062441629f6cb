//! A character-level prefix tree over a set of terms, and a linear index over
//! the same terms that serves as the baseline it is compared with.

pub mod laws;
pub mod linear;
pub mod terms;
pub mod text;
pub mod trie;
