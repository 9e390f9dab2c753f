//! Dialogs built on the focus subprogram.

pub mod pie;
