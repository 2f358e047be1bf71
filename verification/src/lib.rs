//! Editing of alias documents: classification of a timeline object's effect
//! chain as a Filter Object or a Filter Effect, and the lossless transforms
//! between the two shapes.

pub mod batch;
pub mod chars;
pub mod classify;
pub mod codec;
pub mod errors;
pub mod laws;
pub mod registry;
pub mod roundtrip;
pub mod table;
pub mod transform;
