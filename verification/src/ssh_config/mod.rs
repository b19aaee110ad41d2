//! The configuration document engine.
pub mod block;
pub mod edits;
pub mod fidelity;
pub mod lookup;
pub mod model;
pub mod mutation;
pub mod parser;
pub mod persistence;
pub mod projection;
pub mod resolve;
pub mod writer;
