//! Core of a local document server: query parsing, path guessing and
//! file-name search over an index of document files, the settings model,
//! and the safety rules used when serving files under configured roots.

pub mod config;
pub mod text;
pub mod unicode;
pub mod web;
pub mod index;
pub mod os_path;
pub mod search;
pub mod sort;

pub use config::Settings;
pub use index::{FileEntry, FileIndex, FileKind};
pub use search::query::{SearchMode, SearchQuery};
pub use search::SearchResult;
