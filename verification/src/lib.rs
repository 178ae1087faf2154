//! Verified text-layout and document-post-processing logic.

pub mod text;
pub mod render;
pub mod types;
pub mod error;
pub mod plugins;
pub mod tables;
pub mod pipeline;
pub mod markdown;
pub mod config;
pub mod embed;
pub mod image_ocr;
