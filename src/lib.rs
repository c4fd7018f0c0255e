//! Core of a declarative widget toolkit: style cascades, a widget tree,
//! input handling that yields semantic actions, and an action reconciler.
pub mod input;
pub mod style;
pub mod table;
pub mod text;
pub mod tree;
pub mod app;
