//! Reads one top-level field of a TOML file, byte by byte, into a buffer on the stack.
//!
//! A [`FieldScanner`](scanner::FieldScanner) is told, one event at a time, what a file yields, and
//! says whether to read on or what the answer is. It keeps the value and a few words of state, and
//! nothing else of the file.
//!
//! - `bytes`: the bytes that carry meaning, and runs of bytes
//! - `field`: what the value of a field is, and what a scan reports
//! - `scanner`: the scanner
//! - `reader`: a whole file, from its opening to the answer
//! - `report`: one line about one field
//! - `error`: the errors and their codes
//! - `laws`: what holds of every file
//! - `read_laws`, `scan_laws`, `report_laws`: what callers get
pub mod bytes;
pub mod error;
pub mod field;
pub mod laws;
pub mod read_laws;
pub mod reader;
pub mod report;
pub mod report_laws;
pub mod scan_laws;
pub mod scanner;
mod stability;
mod tracking;

pub use error::{terse_error_code, ReadTomlFieldError};
pub use field::RSLSF_MAX_BYTES_SCANNED;
pub use reader::{read_single_line_string_field_from_toml_no_heap, TomlFile};
pub use scanner::{FieldScanner, FileEvent, ScanStep};
