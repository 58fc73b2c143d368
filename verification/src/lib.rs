//! Nōki: version-controlled notes. The library holds the note model, the
//! filename/title template engine, frontmatter framing, the terminal Markdown
//! renderer, label chips and the in-memory store.
pub mod text;
pub mod cli;
pub mod render;
pub mod timestamp;
pub mod template;
pub mod md;
pub mod config;
pub mod note;
pub mod commands;
pub mod io;
pub mod editor;
pub mod label;
pub mod vcs;
pub mod output;
pub mod sync;
pub mod table;
