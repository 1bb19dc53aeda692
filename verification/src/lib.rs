//! A framework for constructing textbook quantum-query circuits (Deutsch,
//! Deutsch-Jozsa, Bernstein-Vazirani) and entanglement demonstrations
//! (teleportation, superdense coding, swap test) against an abstract
//! state-vector simulator.
//!
//! The crate builds and validates circuits: it tracks single-use qubit
//! handles, scopes controlled sub-circuits, synthesizes oracles from hidden
//! classical functions, and registers measurements.  The numerical state
//! evolution itself is left to an external simulation engine that replays
//! the compiled gate list.

pub mod gates;
pub mod model;
pub mod circuit;
pub mod oracle;
pub mod algorithms;
