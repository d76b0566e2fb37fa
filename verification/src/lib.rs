//! Shell configuration file model: parsing, formatting and checking of
//! Bash and PowerShell configuration files.
pub mod text;
pub mod model;
pub mod parser;
pub mod checker;
pub mod formatter;
pub mod config;
pub mod i18n;
pub mod backup;
pub mod import;
