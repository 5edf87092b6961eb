//! The Halogen framework: geometry, style enums, events, signals, themes,
//! and child reconciliation.

pub mod event;
pub mod geometry;
pub mod paint;
pub mod signal;
pub mod style;
pub mod tree;
pub mod widget;
