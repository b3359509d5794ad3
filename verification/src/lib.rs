//! Timed lyrics for audio files.
//!
//! Lyric files are read, cleaned, normalized and merged (`lrc`, `clean`, `hybrid`);
//! transcriptions are read from JSON and broken into lines (`json`, `parse`, `linebreak`,
//! `formats`); a run, a download and a fetch of files decide step by step what is to be done next
//! (`pipeline`, `download`, `fetch`), and `process` says where programs and models are looked for.
pub mod text;
pub mod decimal;
pub mod timestamp;
pub mod lrc;
pub mod clean;
pub mod hybrid;
pub mod json;
pub mod seconds;
pub mod parse;
pub mod linebreak;
pub mod formats;
pub mod process;
pub mod pipeline;
pub mod download;
pub mod fetch;
pub mod ffmpeg_downloader;
pub mod model_downloader;
