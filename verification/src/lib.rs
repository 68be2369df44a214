//! Verified core of a music library organiser: naming rules, tag rewriting,
//! lyric extraction, genre selection, duplicate detection and import planning.

pub mod actions;
pub mod audio;
pub mod chars;
pub mod cli;
pub mod commands;
pub mod comments;
pub mod encoding;
pub mod fsutil;
pub mod genre;
pub mod import;
pub mod json;
pub mod known;
pub mod lyric_tags;
pub mod lyrics;
pub mod numbers;
pub mod order;
pub mod path;
pub mod pathset;
pub mod probe;
pub mod reserve;
pub mod sidecars;
pub mod strings;
pub mod tags;
pub mod text;
pub mod transcode;
pub mod transfer;
