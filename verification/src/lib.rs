//! Witness generation for arithmetic circuits over the BN254 scalar field.
//!
//! The crate models a circuit as a straight-line expression graph: a
//! topologically ordered list of nodes (inputs, constants, binary field
//! operations), a list of output node indices, and a map binding named input
//! signals to slots of the input buffer. It offers a recorder that builds the
//! graph, an optimizer (constant folding, algebraic simplification, common
//! subexpression elimination, dead code elimination with renumbering), and an
//! evaluator that replays the graph on fresh inputs to produce the witness
//! vector.

use vstd::prelude::*;

pub mod bind;
pub mod codec;
pub mod field;
pub mod graph;
pub mod loader;
pub mod ops;
pub mod opt;
pub mod recorder;

verus! {

} // verus!
