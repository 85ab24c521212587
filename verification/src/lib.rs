//! Core of a zettelkasten database: plain-text notes with three zones, typed
//! tables over them, and merges of what was changed apart. Where the two sides
//! changed different things, it does not matter which of them merges.
//!
//! The crate holds the rules; reading files, talking to a repository or to a
//! database is left to the program around it.
#![verifier::loop_isolation(false)]

pub mod attachments;
pub mod body_laws;
pub mod bundle;
pub mod bundled_laws;
pub mod bundled_types;
pub mod change_laws;
pub mod column_laws;
pub mod compaction;
pub mod crdt_resolver;
pub mod detail_laws;
pub mod docs;
pub mod effect_laws;
pub mod effects;
pub mod entry_laws;
pub mod error;
pub mod field_laws;
pub mod front_laws;
pub mod git_ops;
pub mod hlc;
pub mod ids;
pub mod index_laws;
pub mod index_plan;
pub mod index_sql;
pub mod indexer;
pub mod link_laws;
pub mod log_laws;
pub mod maintenance;
pub mod merge;
pub mod merge_fm;
pub mod merge_laws;
pub mod move_laws;
pub mod nosql;
pub mod note_laws;
pub mod order_laws;
pub mod output_laws;
pub mod parse_laws;
pub mod parser;
pub mod patterns;
pub mod picks;
pub mod reading_laws;
pub mod row_laws;
pub mod rows;
pub mod rule_laws;
pub mod schema;
pub mod section_laws;
pub mod sql;
pub mod sql_engine;
pub mod sql_laws;
pub mod sql_plan;
pub mod statement_laws;
pub mod store_laws;
pub mod string_laws;
pub mod table_laws;
pub mod text;
pub mod text_laws;
pub mod textmap;
pub mod traits;
pub mod types;
pub mod value_laws;
pub mod written;
pub mod yaml;
pub mod yaml_laws;
