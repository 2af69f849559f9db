//! An in-memory table model for comma-separated text: a header of column
//! names, a body of rows, positional and name-based access, structural
//! editing, and conversion to and from delimited text.
pub mod codec;
pub mod error;
pub mod table;
pub mod text;

pub use codec::{parse, render};
pub use error::{Access, CsvError, IoStep};
pub use table::{CsvBody, CsvData, CsvFile, CsvHeader, CsvRow};
