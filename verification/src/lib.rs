//! A statistical text-generation engine.
//!
//! The library trains a first-order word-transition model from a corpus of
//! short messages, caches one trained model per channel, and synthesizes new
//! bounded-length messages by weighted random traversal of the model,
//! optionally anchored to a caller-supplied seed word.

pub mod cache;
pub mod chain;
pub mod laws;
mod rng;
pub mod text;
pub mod weights;
pub mod words;
