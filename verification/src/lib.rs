//! A verified L-system engine.
//!
//! An L-system rewrites a string of symbols by applying, in parallel, a
//! production for every symbol that has one.  This crate provides:
//!
//! - a grammar type mapping symbols to productions, with a deterministic and
//!   a weighted (stochastic) variant;
//! - a naive rewriter that materialises the whole derivation
//!   ([`expression::write_expression`]);
//! - a lazy generator ([`expression::LSystemBuilder`]) that emits the same
//!   symbol sequence one symbol at a time while holding only one
//!   partially-consumed production per depth level;
//! - a turtle-graphics interpreter ([`reader::SymbolReader`]) that executes a
//!   table of actions against a 2D cursor, accumulating line segments.
//!
//! A symbol without a production is terminal and reproduces itself; there is
//! no strict mode.  The stochastic variants ([`stochastic::LSystemBuilderStochastic`]
//! and the eager [`stochastic::write_expression_stochastic`]) draw one weighted
//! alternative per expanded occurrence, exactly once, from a seedable source;
//! whatever they emit is proved to be a derivation the grammar allows.
//!
//! Geometry uses fixed-point integer coordinates: a unit heading vector has
//! length [`cursor::SCALE`].  Rotations are given as precomputed unit vectors
//! (cosine/sine pairs in the same fixed-point scale), so quarter and half
//! turns are exact.

pub mod rewriting;
pub mod grammar;
pub mod expression;
pub mod cursor;
pub mod segment;
pub mod actions;
pub mod reader;
pub mod random;
pub mod stochastic;
