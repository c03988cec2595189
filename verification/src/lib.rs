use vstd::prelude::*;

pub mod blz;
pub mod bytes;
pub mod cell;
pub mod cg;
pub mod dump;
pub mod error;
pub mod extract;
pub mod format_laws;
pub mod image;
pub mod laws;
pub mod listing;
pub mod map;
pub mod mapping;
pub mod narc;
pub mod overworld;
pub mod ncer;
pub mod rom;
pub mod sheet;
pub mod signature;
pub mod sprites;
pub mod text;

verus! {

} // verus!
