//! Verified core of the Halogen and Phosphor UI frameworks: geometry and
//! style value types, reactive signal state, type-keyed themes, and the
//! widget-tree bookkeeping (mounting, reconciliation, dirty tracking).
//!
//! Rendering, layout through taffy, windowing and anything that computes on
//! floating-point values live in the companion `app` crate.

pub mod halogen;
pub mod ids;
pub mod matching;
pub mod phosphor;
pub mod subscribers;
pub mod theme;
