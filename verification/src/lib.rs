//! Verified core of a synced-lyrics (LRC) editor.
pub mod document;
pub mod entry;
pub mod highlight;
pub mod metadata;
pub mod parser;
pub mod reparse;
pub mod selection;
pub mod snap;
pub mod state;
pub mod text;
pub mod time;
pub mod timeline;

pub use document::LrcDocument;
pub use entry::LyricEntry;
pub use parser::LrcParser;
pub use selection::{SelectionMode, SelectionState};
pub use time::TimeMs;
