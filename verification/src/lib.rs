pub mod types;
pub mod text;
pub mod model;
pub mod grid;
pub mod editor;
pub mod segmenter;
pub mod tracer;
pub mod commands;
pub mod desktop;
pub mod svgpath;
pub mod export;
pub mod pipeline;
pub mod flatten;
pub mod config;
pub mod preview;
pub mod decoder;
pub mod detector;
pub mod resizer;
