//! marmita: vendors single source files from git repositories and keeps a
//! plain-text manifest of them.
pub mod commands;
pub mod date;
pub mod git;
pub mod manifest;
pub mod naming;
pub mod order;
pub mod roundtrip;
pub mod text;
