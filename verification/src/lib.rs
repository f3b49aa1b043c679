//! Checks and updates dependencies across package managers.
pub mod chars;
pub mod cli;
pub mod commands;
pub mod config;
pub mod console;
pub mod detect;
pub mod documents;
pub mod http;
pub mod plugin;
pub mod plugins;
pub mod ranges;
pub mod report;
pub mod select;
pub mod table;
pub mod text;
pub mod tree;
pub mod version;
