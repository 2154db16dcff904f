//! Verified core of a caption-summarizing pipeline: caption text
//! extraction from subtitle-timing content, configuration encoding and
//! decoding, downloader-output parsing, summary assembly, the interactive
//! refinement state machine, and URL-list batching.

pub mod batch;
pub mod captions;
pub mod config;
pub mod downloader;
pub mod summarize;
pub mod text;
