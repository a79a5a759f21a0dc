//! Marker tracking for source files: markers such as `$$todo` are found in
//! source text, given ids (`$$todo:1:open`), tracked as items, and mirrored
//! to Markdown checklists whose checked marks flow back into the sources.
pub mod config;
pub mod db;
pub mod markdown;
pub mod readback;
pub mod scanner;
pub mod schema;
pub mod sync;
pub mod text;
pub mod updater;

pub use config::{load_config, load_marker_prefix, CadenceConfig, DEFAULT_MARKER_PREFIX};
pub use db::{Database, DbItem, StagedFiles};
pub use markdown::{
    generate_markdown_files, parse_markdown_status, parse_markdown_status_for_files, MarkdownFile,
};
pub use scanner::{find_markers, Marker};
pub use schema::{load_schemas, Schemas};
pub use sync::{update_source_files, SourceFile};
pub use updater::{update_files_with_ids, update_files_with_ids_checked};
