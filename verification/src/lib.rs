//! Cutting columns out of comma-separated lines.
//!
//! A line is split into fields at its commas, except those inside single or double
//! quotes; quotes and backslashes stay in the fields as they are. A column
//! specification such as `1,3,5-7` names the columns to keep, counted from 0 or from 1.
//! Each line is then cut to those columns, in the order of the specification.
//!
//! `line` holds the tokenizer and the selection, `parse_args` the column
//! specification, `quote` the states of the scan of a line. `split`, `text`, `number`
//! and `scan` hold what these are built on: cutting a text into pieces and joining
//! them, white space, decimal numbers, and byte offsets in UTF-8.

pub mod line;
pub mod number;
pub mod parse_args;
pub mod quote;
pub mod scan;
pub mod split;
pub mod text;
