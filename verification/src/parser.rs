//! The `.mmn` grammar as functions on characters, each with the
//! specification that it meets.
pub mod primitives;
pub mod base;
pub mod directives;
pub mod modifiers;
pub mod expr;
pub mod track;
pub mod program;
