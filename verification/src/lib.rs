//! Stackpack: a compressor-agnostic compression pipeline.
//!
//! A pipeline is an ordered chain of two-way byte transforms ("mutators").
//! Driving the pipeline applies every stage in order; reverting applies the
//! inverses in reverse order. The built-in transforms (Burrows-Wheeler,
//! move-to-front, adaptive arithmetic coding, run-length encoding and a
//! block-framed coder) live here together with the pipeline engine, the
//! registry of named mutators and the pipeline-description parsers.

pub mod arith;
pub mod bsc;
pub mod bwt;
pub mod cli;
pub mod compressor;
pub mod mtf;
pub mod mutator;
pub mod pipeline;
pub mod registered;
pub mod rle;
pub mod sample;
