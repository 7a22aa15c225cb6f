//! Parser for an OpenSCAD-like modelling language, with the pure parts of its
//! evaluator and of its binary STL export.
use vstd::prelude::*;

pub mod ast;
pub mod bind;
pub mod copy;
pub mod error;
pub mod laws;
pub mod lists;
pub mod message;
pub mod numeral;
pub mod parser;
pub mod readings;
pub mod rng;
pub mod shift;
pub mod syntax;
pub mod stl;
pub mod text;

verus! {
} // verus!
