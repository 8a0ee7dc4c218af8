//! The failure taxonomy of the pipeline. Every failure is terminal: the run
//! aborts before any output is written.

use vstd::prelude::*;

verus! {

/// One fatal condition of a run. Fieldless so that equality is structural in
/// contracts and in tests.
#[derive(Clone, Copy, Debug, PartialEq, Eq, Structural)]
pub enum SrtError {
    /// The input directory is missing or cannot be listed.
    PathNotFound,
    /// No audio file was found in the input directory.
    MissingAudio,
    /// No text file was found in the input directory.
    MissingText,
    /// The number of audio files differs from the number of text files.
    CountMismatch,
    /// A numeric prefix has a file of one kind but not the other.
    UnpairedBlock,
    /// An audio file's header is unreadable or malformed.
    AudioDecodeError,
    /// A text file is not valid text.
    TextReadError,
    /// The destination file cannot be created or written.
    WriteError,
}

impl SrtError {
    /// A human-readable diagnostic naming the failure kind: a fixed text per
    /// variant.
    pub fn describe(&self) -> (r: &'static str)
        ensures
            r@.len() > 0,
            self is PathNotFound ==> r@ == "input directory does not exist or cannot be listed"@,
            self is MissingAudio ==> r@ == "no audio files found in the input directory"@,
            self is MissingText ==> r@ == "no text files found in the input directory"@,
            self is CountMismatch ==> r@ == "audio and text file counts differ"@,
            self is UnpairedBlock ==> r@
                == "a numeric prefix is missing its audio or text counterpart"@,
            self is AudioDecodeError ==> r@ == "an audio file's header could not be decoded"@,
            self is TextReadError ==> r@ == "a text file could not be read as text"@,
            self is WriteError ==> r@ == "the output file could not be written"@,
    {
        proof {
            reveal_strlit("input directory does not exist or cannot be listed");
            reveal_strlit("no audio files found in the input directory");
            reveal_strlit("no text files found in the input directory");
            reveal_strlit("audio and text file counts differ");
            reveal_strlit("a numeric prefix is missing its audio or text counterpart");
            reveal_strlit("an audio file's header could not be decoded");
            reveal_strlit("a text file could not be read as text");
            reveal_strlit("the output file could not be written");
        }
        match self {
            SrtError::PathNotFound => "input directory does not exist or cannot be listed",
            SrtError::MissingAudio => "no audio files found in the input directory",
            SrtError::MissingText => "no text files found in the input directory",
            SrtError::CountMismatch => "audio and text file counts differ",
            SrtError::UnpairedBlock => "a numeric prefix is missing its audio or text counterpart",
            SrtError::AudioDecodeError => "an audio file's header could not be decoded",
            SrtError::TextReadError => "a text file could not be read as text",
            SrtError::WriteError => "the output file could not be written",
        }
    }
}

} // verus!
