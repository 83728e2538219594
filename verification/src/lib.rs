//! Host audit helpers: the parsing, matching and report-building steps of a
//! Linux hardening audit, verified with Verus.
pub mod text;
pub mod paths;
pub mod color;
pub mod digest;
pub mod packages;
pub mod users;
pub mod processes;
pub mod networking;
pub mod files;
pub mod shell;
