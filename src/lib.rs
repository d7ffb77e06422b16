use vstd::prelude::*;

pub mod chunker;
pub mod index;
pub mod context;
pub mod conversation;

verus! {

} // verus!
