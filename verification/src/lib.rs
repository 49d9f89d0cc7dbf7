//! Bookmark management logic for AT Protocol bookmark records: reference
//! resolution, filtering, tag handling, page metadata extraction, OAuth
//! callback parsing and terminal layout.

pub mod text;
pub mod refs;
pub mod types;
pub mod urls;
pub mod callback;
pub mod enrich;
pub mod bookmarks;
pub mod records;
pub mod display;
pub mod config;
