//! Configuration engine for a line-oriented hotkey-daemon file format:
//! parsing, an editable model, validation, serialization and the
//! decisions behind checksum-verified backups.

pub mod text;
pub mod shortcut;
pub mod grammar;
pub mod parser;
pub mod config;
pub mod serializer;
pub mod loader;
pub mod validation;
pub mod editor;
pub mod round_trip;
pub mod laws;
pub mod paths;
pub mod backup;
pub mod shell;
pub mod logs;
pub mod preview;
pub mod templates;
pub mod execution;
