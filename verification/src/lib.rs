//! A library for tab-aligned tables kept in plain text.
//!
//! Horizontal tabs in the text encode variable-width column padding. The
//! library recovers a column-width grid from such text, keeps the grid
//! consistent through cell edits, maps grid coordinates to screen
//! coordinates for a scrollable viewport, and renders the grid back into
//! tab-delimited text that preserves the alignment.
//!
//! The sheet's invariant — distinct in-bounds cells, one positive width
//! per column, and prefix sums that match the widths exactly — is
//! established by every constructor and preserved by every edit. The
//! cursor stays inside the grid under any sequence of moves, and the
//! corner scrolls after it edge-triggered, by the overflow amount. For a
//! sheet whose cells are tab- and newline-free and fit their columns,
//! laying the serialized text's tokens back against the sheet's widths
//! restores every cell; when every cell of the grid is occupied and the
//! last column is as wide as its widest cell, reloading the serialized
//! text restores the whole sheet, widths included.
#![verifier::loop_isolation(false)]

pub mod editor;
pub mod sheet;
pub mod text;
pub mod util;
pub mod widths;
