//! The Phosphor framework: style values, signals, themes, platform
//! configuration, and the widget tree.

pub mod color;
pub mod matching;
pub mod platform;
pub mod signal;
pub mod store;
pub mod style;
pub mod tree;
