//! A rectangular table of optional text cells, with an optional header row,
//! its layout as the sheets of an xlsx workbook, and the lists built from a
//! directory workbook's tables.

pub mod customers;
pub mod duplicates;
pub mod excel;
pub mod laws;
pub mod samples;
pub mod table;
pub mod text;
