//! Reconciliation of editor state: position-addressed text edits applied to a
//! line buffer, and the add/remove delta between two sign overlays.

pub mod annotation;
pub mod diffing;
pub mod reconcile;
pub mod buffer;
pub mod edits;
pub mod commands;
pub mod text;
pub mod merge;
pub mod roots;
pub mod paths;
