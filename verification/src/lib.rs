//! Reconstruction of structured control flow from a basic-block intermediate
//! representation, and simplification of explicit guard idioms into single
//! fallible operations.
//!
//! The pipeline consumes, per function, a control-flow graph of basic blocks
//! (`ullbc_ast`), rebuilds nested conditionals, switches and loops with
//! indexed breaks and continues (`ullbc_to_llbc`), and then collapses the
//! producer's three-statement checked-arithmetic idioms into single
//! implicitly-fallible operations (`simplify_binops`).

#![verifier::loop_isolation(false)]

use vstd::prelude::*;

pub mod expressions;
pub mod ordered_map;
pub mod ullbc_ast;
pub mod llbc_ast;
pub mod graph;
pub mod simplify_binops;
pub mod ullbc_to_llbc;

verus! {

} // verus!
