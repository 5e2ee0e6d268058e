//! A verified spreadsheet core: a sparse, named two-dimensional grid whose
//! cells hold numeric literals, arithmetic expressions over cell references,
//! or range-aggregate formulas, together with an evaluator that resolves
//! every cell to a concrete value (with memo-free cycle detection) and a
//! renderer that lays the results out as a fixed-width textual table.

pub mod table_error;
pub mod strutil;
pub mod id_converter;
pub mod numtext;
pub mod value;
pub mod textscan;
pub mod expression;
pub mod formula;
pub mod cell;
pub mod table_output;
pub mod table;
