//! Breadth-first closure of a string-rewriting (semi-Thue) system: from a
//! start word, rules `from -> to` are applied at one occurrence at a time,
//! generation by generation, and every terminal-only word found is reported.
use vstd::prelude::*;

pub mod closure;
pub mod grammar;
pub mod laws;
pub mod matcher;
pub mod text;
pub mod word_set;

verus! {

} // verus!
