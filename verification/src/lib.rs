//! Filename intelligence for multi-part media: classify files by format,
//! read disc and side markers out of file names, and group the files of a
//! directory into the sets that share one playlist.

pub mod cli;
pub mod locator;
pub mod m3u;
pub mod order;
pub mod parser;
pub mod scanner;
pub mod text;
pub mod types;
