//! Sparse sets and maps over small integer keys, a fixed-width beam search
//! engine, and a rectangle bin-packing node that drives it.
use vstd::prelude::*;

pub mod set;
pub mod set_ops;
pub mod map;
pub mod beam;
pub mod mock;
pub mod geom;
pub mod storage;
pub mod bspa;

verus! {

} // verus!
