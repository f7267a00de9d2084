//! Verified core of `pdf-ops`: page-range selection, output-name patterns,
//! PDF file selection and ordering, and the assembly of merged and split
//! documents on top of `lopdf`.

pub mod glob;
pub mod merge;
pub mod page_spec;
pub mod paths;
pub mod pdf;
pub mod text;
pub mod scan;
pub mod split;
pub mod tui;
