use vstd::prelude::*;

pub mod text;
pub mod codec;
pub mod account;
pub mod filter;
pub mod parse;

verus! {

} // verus!
