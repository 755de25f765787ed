//! A small language of function definitions, `name(var1,var2,...)=expression`:
//! the expression is normalized so that parentheses spell out precedence,
//! scanned into a token tree, and folded into the expression it computes.
use vstd::prelude::*;

pub mod error;
pub mod text;
pub mod normalize;
pub mod token;
pub mod eval;
pub mod function;

verus! {

} // verus!
