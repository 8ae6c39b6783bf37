//! Sync user-level configuration between machines through a cloud folder.
//!
//! Paths under the home base are moved into a folder that a cloud client keeps
//! in sync, and symlinked back. This crate holds every rule and decision of
//! that: what state a mapping is in, what an operation does to the disk, how it
//! is undone, what a health check reports, and the text that is shown.
#![allow(unused_imports)]

pub mod text;
pub mod number;
pub mod order;
pub mod path;
pub mod mapping;
pub mod targets;
pub mod error;
pub mod group;
pub mod config;
pub mod tree;
pub mod content;
pub mod fsutil;
pub mod volume;
pub mod plan;
pub mod journal;
pub mod script;
pub mod apply;
pub mod disk;
pub mod doctor;
pub mod findings;
pub mod discovery;
pub mod ui;
pub mod json;
pub mod overview;
pub mod select;
pub mod manage;
pub mod document;
pub mod managing;
pub mod report;
pub mod shown;
pub mod shell;
