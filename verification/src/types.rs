//! The plain types of a speech request and of its answers.

use vstd::prelude::*;
use vstd::string::StringExecFns;

verus! {

/// The name of a voice.
pub struct Voice(String);

impl Voice {
    /// The name as characters.
    pub closed spec fn name(self) -> Seq<char> {
        self.0@
    }

    /// The voice called `name`.
    pub fn new(name: String) -> (voice: Voice)
        ensures
            voice.name() == name@,
    {
        Voice(name)
    }

    /// The name of the voice.
    pub fn as_str(&self) -> (name: &str)
        ensures
            name@ == self.name(),
    {
        self.0.as_str()
    }
}

impl Default for Voice {
    /// The voice of a request that names none.
    fn default() -> (voice: Voice)
        ensures
            voice.name() == "af_heart"@,
    {
        Voice(String::from_str("af_heart"))
    }
}

/// The audio formats that a request may name.
#[derive(Clone, Copy, Debug, PartialEq, Eq, Structural)]
pub enum AudioFormat {
    Mp3,
    Wav,
    Opus,
    Aac,
    Flac,
    Pcm,
}

/// The format in which audio for a request of `format` is written: WAV and
/// PCM as asked, every other format as MP3.
pub open spec fn written_as(format: AudioFormat) -> AudioFormat {
    match format {
        AudioFormat::Wav => AudioFormat::Wav,
        AudioFormat::Pcm => AudioFormat::Pcm,
        _ => AudioFormat::Mp3,
    }
}

/// The name of `format` in lower case.
pub open spec fn format_name(format: AudioFormat) -> Seq<char> {
    match format {
        AudioFormat::Mp3 => "mp3"@,
        AudioFormat::Wav => "wav"@,
        AudioFormat::Opus => "opus"@,
        AudioFormat::Aac => "aac"@,
        AudioFormat::Flac => "flac"@,
        AudioFormat::Pcm => "pcm"@,
    }
}

impl AudioFormat {
    /// The format in which audio for a request of this format is written.
    pub fn effective(self) -> (format: AudioFormat)
        ensures
            format == written_as(self),
    {
        match self {
            AudioFormat::Wav => AudioFormat::Wav,
            AudioFormat::Pcm => AudioFormat::Pcm,
            _ => AudioFormat::Mp3,
        }
    }

    /// The name of the format in lower case.
    pub fn label(self) -> (name: &'static str)
        ensures
            name@ == format_name(self),
    {
        match self {
            AudioFormat::Mp3 => "mp3",
            AudioFormat::Wav => "wav",
            AudioFormat::Opus => "opus",
            AudioFormat::Aac => "aac",
            AudioFormat::Flac => "flac",
            AudioFormat::Pcm => "pcm",
        }
    }
}

/// Why a speech request failed.
pub enum TauriSpeechError {
    /// Synthesis failed.
    TTSGenerationError(String),
    /// An event could not be handed to the sink.
    EventEmissionError(String),
    /// The request was not acceptable.
    InvalidInput(String),
    /// Anything else.
    InternalError(String),
}

/// What went wrong inside, by its source.
#[derive(Clone, Copy, Debug, PartialEq, Eq, Structural)]
pub enum Fault {
    /// Reading or writing failed.
    Io,
    /// A task could not be queued.
    TaskChannel,
    /// A value could not be written as JSON.
    Json,
    /// Any other error.
    Generic,
}

/// The words that introduce the detail of a fault.
pub open spec fn fault_prefix(fault: Fault) -> Seq<char> {
    match fault {
        Fault::Io => "IO Error: "@,
        Fault::TaskChannel => "Task channel send error: "@,
        Fault::Json => "JSON serialization error: "@,
        Fault::Generic => "Generic error: "@,
    }
}

impl TauriSpeechError {
    /// The text that the error carries.
    pub open spec fn text(self) -> Seq<char> {
        match self {
            TauriSpeechError::TTSGenerationError(m) => m@,
            TauriSpeechError::EventEmissionError(m) => m@,
            TauriSpeechError::InvalidInput(m) => m@,
            TauriSpeechError::InternalError(m) => m@,
        }
    }

    /// The internal error for a fault of the given source, with `detail`
    /// behind the words that name the source.
    pub fn internal(fault: Fault, detail: &str) -> (error: TauriSpeechError)
        ensures
            error is InternalError,
            error.text() == fault_prefix(fault) + detail@,
    {
        let prefix = match fault {
            Fault::Io => "IO Error: ",
            Fault::TaskChannel => "Task channel send error: ",
            Fault::Json => "JSON serialization error: ",
            Fault::Generic => "Generic error: ",
        };
        let mut text = String::from_str(prefix);
        text.append(detail);
        TauriSpeechError::InternalError(text)
    }

    /// The text that the error carries.
    pub fn message(&self) -> (text: &str)
        ensures
            text@ == self.text(),
    {
        match self {
            TauriSpeechError::TTSGenerationError(m) => m.as_str(),
            TauriSpeechError::EventEmissionError(m) => m.as_str(),
            TauriSpeechError::InvalidInput(m) => m.as_str(),
            TauriSpeechError::InternalError(m) => m.as_str(),
        }
    }
}

/// A model as listed to clients.
pub struct ModelObject {
    pub id: String,
    pub object: String,
    pub created: u64,
    pub owned_by: String,
}

} // verus!
