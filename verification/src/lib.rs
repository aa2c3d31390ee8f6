//! Multidimensional boolean-valued tensors over pluggable boolean algebras.
//!
//! The crate provides generic vector storage (dense, bit-packed and unit
//! representations behind one interface), a shape/stride engine with the
//! polymer reindexing operation, boolean algebra backends (trivial, concrete
//! and SAT-solver backed), and two's-complement arithmetic circuits built
//! from the algebra's primitive gates.

pub mod genvec;
pub mod boolean;
pub mod binary;
pub mod solver;
pub mod tensor;
