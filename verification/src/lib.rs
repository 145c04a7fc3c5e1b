//! A verified core for a personal script manager: script names and tags,
//! tag-selector filtering, fuzzy matching, query resolution, an append-only
//! event history, and an in-memory script repository backed by plain rows.
//!
//! Times are plain numbers, compared and never interpreted; callers read the
//! clock outside and hand times in as arguments.
pub mod bridge;
pub mod error;
pub mod fuzzy;
pub mod historian;
pub mod list;
pub mod query;
pub mod script;
pub mod script_name;
pub mod script_repo;
pub mod strutil;
pub mod tag;
pub mod util;
