//! Legality-and-scoring core of a grid-based word-placement game.
//!
//! The engine decides whether a proposed set of tile placements on a fixed
//! board is a legal move, determines which words that move forms, and
//! computes the resulting score under position-dependent multipliers.

pub mod board;
pub mod connect;
pub mod dict;
pub mod hand;
pub mod score;
pub mod validate;
pub mod words;
pub mod error;
