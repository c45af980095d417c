use vstd::prelude::*;

pub mod category;
pub mod error;
pub mod text;
pub mod version;
pub mod model;
pub mod render;
pub mod parse;
pub mod engine;
pub mod store;
pub mod laws;

verus! {

} // verus!
