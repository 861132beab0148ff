//! Segmentation of Markdown notes into bounded, heading-annotated chunks, and the
//! resolution of the text around embedded images, for semantic indexing.
pub mod api;
pub mod chunker;
pub mod config;
pub mod db;
pub mod image_context;
pub mod search;
pub mod splitter;
pub mod text;
