//! Builds a static notes site: mirrors asset trees verbatim and turns
//! Markdown notes into HTML, keeping the relative layout of every file.
//!
//! The library decides; the caller performs the file system work it asks for.
pub mod path;
pub mod walk;
pub mod note;
pub mod site;
