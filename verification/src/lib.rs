//! Parsers for the driver logs of the DM (Dameng) database: JDBC driver logs,
//! one event per line, and DM Provider logs, whose records may span lines.
//!
//! ```text
//! [INFO - 2026-09-16 17:45:19.763] tid:119 - [worker] { conn-3, pstmt-854 } executeQuery(): rs-2216; [USED TIME]: 8.5ms; [EXEC_ID]: 19010657;
//! ```
//!
//! Each format is a verified function from the bytes of a record to its
//! fields. [`framing`] groups the physical lines of a file into records.

pub mod encoding;
pub mod error;
pub mod formats;
pub mod framing;
pub mod text;
pub mod unified;

pub use encoding::FileEncodingHint;
pub use error::ParseError;
pub use formats::dm_provider;
pub use formats::dm_provider::{DmProviderEvent, DmProviderFormat, TimeUnit, UsedTime};
pub use formats::jdbc as parser;
pub use formats::jdbc::{DriverLogEvent, Event, JdbcEvent, JdbcFormat};
pub use framing::RecordFraming;
pub use unified::{
    LogEvent, LogFormatKind, parse_bytes, parse_bytes_with_encoding, parse_line,
};
