//! Front end of an SCSS compiler: statement parsing, selector algebra and
//! source positions for diagnostics, all stated over byte sequences.

pub mod pos;
pub mod scan;
pub mod selectors;
pub mod error;
pub mod functions;
pub mod value;
pub mod parser;
pub mod round_trip;

