//! A term-resolution engine for a dictionary application.
//!
//! The crate resolves a user-typed word to dictionary entries, accounting for
//! morphological inflection (for example "running" resolves to "run"), and
//! offers prefix-based autocomplete.  The lexical store is an in-memory,
//! read-only collection of entries handed to the library by its host; the
//! inflection index is built once from a tab-delimited source text.

pub mod clock;
pub mod database;
pub mod inflection;
pub mod plugin_manager;
pub mod properties;
pub mod search_engine;
pub mod text;

pub use database::Database;
pub use database::DatabaseStats;
pub use database::DictionaryEntry;
pub use plugin_manager::PluginInfo;
pub use plugin_manager::PluginManager;
pub use plugin_manager::PluginManagerStats;
pub use plugin_manager::PluginManifest;
pub use search_engine::SearchEngine;
pub use search_engine::SearchEngineStats;
pub use search_engine::SearchResult;
