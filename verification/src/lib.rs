use vstd::prelude::*;

pub mod cli;
pub mod registry;
pub mod resolver;
pub mod store;
pub mod strutil;
pub mod types;

verus! {

} // verus!
