//! A solver for the numbers game: combine a multiset of source numbers with
//! `+`, `-`, `×` and `÷` into a value as close as possible to a goal.
use vstd::prelude::*;

pub mod candidate;
pub mod number_list;
pub mod operation;
pub mod solve;
pub mod text;

verus! {

} // verus!
