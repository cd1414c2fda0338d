//! Repair of two-dimensional numeric grids with missing cells.
//!
//! Each missing cell, in row-major order, gets the rounded mean of the
//! nearest known or already repaired values above, below, left and right
//! of it (`0` when there are none). Values are fixed-point numbers in
//! millionths, held in `i64`.
use vstd::prelude::*;

pub mod algorithm;
pub mod array;
pub mod grid;
pub mod pending;
pub mod token;

verus! {

} // verus!
