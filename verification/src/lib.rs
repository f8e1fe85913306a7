//! Converts delimited text into a typed, sorted, columnar table file.
//!
//! The pipeline is: resolve the declared columns into a schema, decode
//! the text against it, project the requested columns, sort the rows by
//! the requested keys, and serialise the table.  Every stage works on
//! plain bytes and values, and every stage carries a proved contract.

pub mod bytes;
pub mod convert;
pub mod csv;
pub mod decimal;
pub mod decode;
pub mod error;
pub mod format;
pub mod number;
pub mod project;
pub mod reading;
pub mod reference;
pub mod schema;
pub mod sort;
pub mod table;
pub mod writer;
