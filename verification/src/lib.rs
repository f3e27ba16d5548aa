//! Reversible boolean circuits built from generalized multi-controlled NOT
//! gates, evaluated as a purely classical boolean simulator.
//!
//! A circuit owns a fixed number of wires (named qubits by analogy, though
//! only classical bits flow through them), an ordered gate list, and a
//! mapping from wires to descriptors that declare each wire's role at the
//! circuit boundary: argument input, result output, or (implicitly)
//! ancillary scratch. `Circuit::execute` folds the list of gates over a concrete
//! argument assignment and returns the result bits; its behaviour is pinned
//! down by the specification functions in [`model`].

pub mod args;
pub mod circuit;
pub mod laws;
pub mod model;
mod valmap;
