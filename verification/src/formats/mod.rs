//! Readers for the supported file formats.

pub mod csv;
pub mod detect;
pub mod json;
pub mod json_page;
pub mod json_tree;
pub mod lines;
pub mod page;
pub mod parquet;
pub mod scan;
