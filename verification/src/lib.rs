use vstd::prelude::*;

pub mod compile;
pub mod controller;
pub mod decompile;
pub mod encode;
pub mod error;
pub mod laws;
pub mod memory;
pub mod names;
pub mod round_trip;
pub mod session;
pub mod text;

verus! {
} // verus!
