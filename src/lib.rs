//! Indexes for a folder tree of interlinked Markdown notes: structural
//! extraction of headings, tags and wikilinks, resolution of wikilink targets,
//! and the tag and link indexes built from a collection of notes.
pub mod config;
pub mod indexing;
pub mod json;
pub mod links;
pub mod markdown;
pub mod parser;
pub mod pathmap;
pub mod resolve;
pub mod tags;
pub mod text;
pub mod vault;

pub use links::LinkIndex;
pub use markdown::{Heading, Wikilink};
pub use parser::{MarkdownParser, ParsedMarkdown, ParsedNote, TreeSitterParser};
pub use tags::{extract_tags, TagIndex, TagIndexBuilder};
