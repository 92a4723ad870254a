//! Conversion of legacy checkpoint archives into a flat tensor container.
//!
//! The core is a verified stack-machine interpreter for a reduced subset of a
//! binary object-serialization protocol, together with the pattern matching
//! that walks the reconstructed object graph to recover per-tensor metadata.

pub mod laws;
pub mod machine;
pub mod pickle;
pub mod pth;
pub mod value;
pub mod visit;
