//! Compiles a list of words into one compact regular-expression alternation
//! that matches exactly those words: shared prefixes become nested groups,
//! a word ending inside a shared prefix becomes an optional suffix, two
//! single-letter alternatives become a bracket class, and accented letters
//! are folded to single bytes for comparison and re-expanded at the end.

pub mod assemble;
pub mod balance;
pub mod codec;
pub mod engine;
pub mod group;
pub mod lang;
pub mod normalize;
pub mod order;
pub mod tidy;
