//! The content graph of a static site: sections and pages in one arena of
//! stable keys, linked into a tree, grouped into taxonomies, split into
//! pagers, and rendered against a table of permalinks.

pub mod text;
pub mod config;
pub mod pagination;
pub mod graph;
pub mod section;
pub mod page;
pub mod store;
pub mod library;
pub mod taxonomy;
pub mod render;
pub mod order;
pub mod toc;
pub mod markup;
