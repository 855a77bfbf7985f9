//! A verified parser, serializer and editor for the host-alias table text
//! format ("etc/hosts" style): blank lines, comments, and lines mapping an
//! IP address to one or more aliases. The editor keeps a managed region,
//! marked by a sentinel comment, and upserts address/alias pairs into it
//! idempotently while preserving the rest of the file.

pub mod text;
pub mod addr;
pub mod line;
pub mod hosts;
pub mod laws;

pub use addr::HostAddr;
pub use line::{FormatError, Line, LineData};
pub use hosts::{EtcHosts, remove_first};
