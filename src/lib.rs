use vstd::prelude::*;

pub mod text;
pub mod engine;
pub mod decoder;
pub mod editor;

verus! {

} // verus!
