use vstd::prelude::*;

pub mod context;
pub mod files;
pub mod matching;
pub mod needle;
pub mod net;
pub mod netlike;
pub mod params;
pub mod parse;
pub mod scanner;

verus! {

} // verus!
