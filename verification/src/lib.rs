use vstd::prelude::*;

pub mod text;
pub mod num;
pub mod utf8len;
pub mod rope_spec;
pub mod rope;
pub mod markdown;
pub mod gui;
pub mod config;
pub mod directory;
pub mod highlight;
pub mod notes;
pub mod rpc;
pub mod search;
pub mod vault;

verus! {

} // verus!
