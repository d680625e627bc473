//! Subtitle processing for students of foreign languages: timestamps, cue
//! parsing, cleaning, and bilingual alignment of two subtitle tracks.
pub mod align;
pub mod clean;
pub mod commands;
pub mod cue;
pub mod decode;
pub mod error;
pub mod render;
pub mod reparse;
pub mod srt;
pub mod text;
pub mod time;
