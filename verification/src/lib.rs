use vstd::prelude::*;

pub mod config;
pub mod kernel;
pub mod manager;
pub mod mm;
pub mod pid;
pub mod process;
pub mod task;

verus! {

} // verus!
