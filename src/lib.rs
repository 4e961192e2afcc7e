//! A small interpreter for a Forth-like stack language: a stack of unsigned
//! cells, a table of named words, and a line executor that compiles
//! `: name ... ;` definitions and runs everything else.
use vstd::prelude::*;

pub mod model;
pub mod literal;
pub mod word;
pub mod table;
pub mod forth;
pub mod laws;

pub use forth::{Forth, ForthError};
pub use literal::parse_literal;
pub use model::{Native, MAX_DEPTH};
pub use word::Word;

verus! {

} // verus!
