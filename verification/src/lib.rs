//! Core of a personal notes site: scans a content directory tree into an
//! ordered navigation structure, resolves request paths to source documents,
//! renders Markdown to HTML with captioned figures, aggregates recently
//! modified documents, and composes the parts into a page.

pub mod text;
pub mod title;
pub mod route;
pub mod render;
pub mod math;
pub mod figures;
pub mod fstree;
pub mod recent;
pub mod compose;
