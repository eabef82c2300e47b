//! Verified core of the GraphFather and GitFather project ledgers.
use vstd::prelude::*;

pub mod digest;
pub mod gitfather;
pub mod graphfather;
pub mod hook;
pub mod ledger;
pub mod table;
pub mod text;

verus! {
} // verus!
