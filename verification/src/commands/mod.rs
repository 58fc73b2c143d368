//! The decisions behind each command: what a new, edited or daily note
//! becomes, and how the notes are listed and shown.
pub mod create;
pub mod daily;
pub mod edit;
pub mod list;
pub mod show;
