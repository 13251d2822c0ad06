//! Scans byte streams for ANSI/VT terminal escape sequences.
//!
//! The entry point is [`EscapeScanner`], which separates plain text from
//! escape sequences one [`Event`] at a time. Behavior on malformed input is
//! controlled by [`Mode`]: [`Mode::Strict`] (the default) reports an error
//! instead of guessing, [`Mode::Lenient`] recovers the way a real terminal
//! would.
//!
//! Every scanning function is specified over the byte sequence it reads.
//! The module `grammar` states the grammar of escape sequences directly and
//! proves that strict mode accepts exactly the well-formed sequences;
//! `laws` proves the properties that hold across whole scans, and
//! `composition` how parameter lists print, parse back and combine.

pub mod csi;
pub mod composition;
pub mod error;
pub mod grammar;
pub mod laws;
pub mod mode;
pub mod scanner;
pub mod sgr;

pub use error::ScanError;
pub use mode::Mode;
pub use scanner::{EscapeScanner, Event};
