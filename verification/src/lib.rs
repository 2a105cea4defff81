//! Reversible computing: logic gates and circuits that preserve information.
//!
//! Every operation is a bijection on bit vectors: gates, circuits built from
//! them, permutations, synthesis of circuits from truth tables, ancilla
//! management and uncomputation.
use vstd::prelude::*;

pub mod ancilla;
pub mod bits;
pub mod circuit;
pub mod gate;
pub mod permutation;
pub mod synthesis;
pub mod transpositions;
pub mod uncompute;

pub use ancilla::{AncillaManager, AncillaState, GarbageCount};
pub use circuit::{CircuitBuilder, ReversibleCircuit};
pub use gate::ReversibleGate;
pub use permutation::{Parity, Permutation, PermutationGroup};
pub use synthesis::{GateType, PositionalGate, SynthesisResult, TruthTable, apply_sequence, synthesize};
pub use uncompute::{UncomputeResult, bennett_uncompute, invert_circuit, verify_inverse};

verus! {

} // verus!
