use vstd::prelude::*;

pub mod text;
pub mod format;
pub mod qb;
pub mod config;
pub mod bot;
pub mod server;

verus! {

} // verus!
