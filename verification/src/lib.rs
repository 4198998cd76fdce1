//! A terminal pager that splits text into pages.

pub mod ansi;
pub mod binds;
pub mod config;
pub mod content;
pub mod keys;
pub mod options;
pub mod pages;
pub mod pattern;
pub mod pty;
pub mod screen;
pub mod text;
pub mod viewer;
