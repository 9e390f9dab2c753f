//! Focus routing and pie dialog support for flo_scene user interfaces.
//!
//! The `focus` module holds the state machine that decides which subprogram and control
//! receive pointer and keyboard events; the `subprograms` module holds the identifiers
//! that it works with; the `dialog` module holds the pie dialog support.

pub mod subprograms;
pub mod focus;
pub mod dialog;
