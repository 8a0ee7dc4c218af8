//! Builds SubRip subtitle files from a directory of numbered audio clips and
//! transcripts: files `000.wav`/`000.txt`, `001.wav`/`001.txt`, ... become
//! numbered caption blocks whose time ranges follow the clips' durations.

pub mod assemble;
pub mod digits;
pub mod discover;
pub mod error;
pub mod laws;
pub mod serialize;
pub mod timefmt;

pub use assemble::{make_srt_blocks, SrtBlock};
pub use serialize::make_srt;
pub use discover::{extract_wav_and_txt, FileEntry, FileKind, SourceFile};
pub use error::SrtError;
