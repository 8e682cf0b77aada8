//! Switches a named theme across the configuration files of several
//! programs by rewriting the spans of named regex capture groups, and
//! records which theme is currently active.

pub mod config;
pub mod pattern;
pub mod program;
pub mod state;
pub mod theme;
