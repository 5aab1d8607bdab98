//! Git hooks described in project manifests.

pub mod config;
pub mod doctor;
pub mod document;
pub mod git;
pub mod init;
pub mod installer;
pub mod json;
pub mod knowledge;
pub mod path;
pub mod pattern;
pub mod run;
pub mod runner;
pub mod shell;
pub mod splice;
pub mod stash;
pub mod style;
pub mod text;
pub mod toml;
pub mod uninstaller;
