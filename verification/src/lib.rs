//! Zero-copy parsing of large log files into columnar batches.
//!
//! Records are located by a newline scanner, parsed by one of four
//! format-specific parsers (plain text, JSON lines, logfmt, CSV) and stored as
//! byte ranges into the caller's buffer. Every function carries a contract
//! stated over byte sequences; nothing here copies or decodes field payloads.

pub mod ascii;
pub mod bits;
pub mod chunks;
pub mod csv_parser;
pub mod data;
pub mod format;
pub mod json_parser;
pub mod lines;
pub mod logfmt_parser;
pub mod orchestrator;
pub mod parser;
pub mod pinning;
pub mod search;
pub mod simd_scan;
pub mod structured;
pub mod structured_orchestrator;
