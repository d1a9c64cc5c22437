//! Architecture decision records: the verified core of the `adr` tool.
//!
//! The library holds everything the tool decides or computes: how ADR ids are
//! written and read back from file names, how a new ADR file is named and
//! filled in, how `mod` rewrites the metadata block of an ADR, and how `toc`
//! parses every ADR, checks it and renders the overview document. Reading and
//! writing files, the clock and the terminal are left to the program around it.

pub mod text;
pub mod id;
pub mod init;
pub mod io_error;
pub mod modify;
pub mod new;
pub mod output;
pub mod paths;
pub mod resolver;
pub mod template;
pub mod toc;

