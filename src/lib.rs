//! A small rewriting interpreter for a concatenative language: operators are
//! defined by declarative `pattern => state` rules.
use vstd::prelude::*;

pub mod error;
pub mod token;
pub mod item;
pub mod operator;
pub mod table;
pub mod render;
pub mod execute;

pub use error::{ParseError, RuntimeError};
pub use token::get_tokens;

verus! {

} // verus!
