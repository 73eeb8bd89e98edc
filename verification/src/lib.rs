pub mod text;
pub mod pattern;
pub mod primitives;
pub mod config;
pub mod compressor;
