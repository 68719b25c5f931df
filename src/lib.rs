//! Reads an osu! song library in either of its two storage formats, removes
//! duplicate songs and names the files of an exported music folder.

pub mod beatmap_text;
pub mod classic;
pub mod cli;
pub mod dedup;
pub mod filename;
pub mod lazer;
pub mod model;
pub mod numbers;
pub mod paths;
pub mod reconcile;
pub mod text;
