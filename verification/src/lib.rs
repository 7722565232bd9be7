//! A point index whose bucket function is a trainable model, together with
//! the trainer that prepares the model's samples.
//!
//! Coordinates are 32-bit fixed-point integers, so that every comparison and
//! every statistic in the library is exact.

pub mod error;
pub mod hasher;
pub mod helper;
pub mod laws;
pub mod linear;
pub mod map;
pub mod model;
pub mod point;
pub mod trainer;
pub mod variance;
