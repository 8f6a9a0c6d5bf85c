//! Verified core of a local structured-data inspector: CSV/TSV and JSON
//! document handling, delimiter and header detection, and the data behind
//! the structured tree and table views.

pub mod text;
pub mod number;
pub mod json;
pub mod csv_read;
pub mod document;
pub mod tree;
pub mod pointer;
pub mod table;
pub mod state;
