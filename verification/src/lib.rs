//! Verified core of a PowerPoint (PPTX) media compressor.

pub mod text;
pub mod media;
pub mod scanner;
pub mod xml_clean;
pub mod gif_opt;
pub mod gif_codec;
pub mod pipeline;
pub mod session;
pub mod summary;
pub mod archive;
pub mod order;
pub mod repack;
pub mod lines;
pub mod ffmpeg;
pub mod imaging;
pub mod content_types;
pub mod unzip;
