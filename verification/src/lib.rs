//! Decoder for files in the Flow Cytometry Standard (FCS) binary format.
//!
//! An FCS file is a fixed-structure container of three sequential segments:
//! a fixed-width HEADER, a delimiter-separated TEXT segment holding a
//! metadata dictionary, and a binary DATA segment holding per-event
//! measurements.  The library decodes such a file, given as a byte slice,
//! into a named-column table plus a metadata dictionary.  Opening files and
//! turning the decoded raw columns into floating-point numbers is left to
//! the caller.

pub mod data;
pub mod error;
pub mod header;
pub mod numeric;
pub mod text;

pub use data::{create_dataframe, parse_data, read_events, read_sample, ByteOrder, ColumnNames, DataTable, EventValues, FlowSample};
pub use error::FcsError;
pub use header::{read_header, zero_when_empty, Header, OffsetRange};
pub use numeric::NumParseError;
pub use text::{read_metadata, validate_text, KeywordMap};
