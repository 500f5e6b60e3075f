//! The closed set of failures the analyser reports, and the table that maps
//! failures of the audio backend onto it.

use vstd::prelude::*;

verus! {

/// Everything that can go wrong while setting up, playing or analysing.
/// No variant carries detail: callers only learn the kind of failure.
#[derive(Debug, Clone, Copy, PartialEq, Eq, Structural)]
pub enum MusicAnalizerError {
    RodioStreamError,
    RodioSinkError,
    RodioDecoderError,
    IoError,
    EmptyBufferError,
    MaxMinZeroError,
    MutexGuardError,
    UnimplementedError,
}

/// The kinds of failure that reach the analyser from outside: opening the
/// output stream, creating the playback sink on it, reading a file,
/// decoding it.
#[derive(Debug, Clone, Copy, PartialEq, Eq, Structural)]
pub enum ErrorSource {
    Stream,
    Play,
    Io,
    Decoder,
}

impl MusicAnalizerError {
    /// The conversion table. Each outside failure maps to the kind named
    /// after what failed, and whatever detail it carried is dropped.
    pub open spec fn converted(source: ErrorSource) -> MusicAnalizerError {
        match source {
            ErrorSource::Stream => MusicAnalizerError::RodioStreamError,
            ErrorSource::Play => MusicAnalizerError::RodioSinkError,
            ErrorSource::Io => MusicAnalizerError::IoError,
            ErrorSource::Decoder => MusicAnalizerError::RodioDecoderError,
        }
    }

    /// The text shown for each kind.
    pub open spec fn message_text(self) -> Seq<char> {
        match self {
            MusicAnalizerError::RodioStreamError => "Error caused by rodio stream creation"@,
            MusicAnalizerError::RodioSinkError => "Error when trying to create a sink"@,
            MusicAnalizerError::IoError => "Error when reading file"@,
            MusicAnalizerError::RodioDecoderError => "Error when decoding a file"@,
            MusicAnalizerError::EmptyBufferError => "fft buffer empty when calling fft"@,
            MusicAnalizerError::MaxMinZeroError => "buffer has no maximum or minimum"@,
            MusicAnalizerError::MutexGuardError => "failed to acquire lock to the buffer"@,
            MusicAnalizerError::UnimplementedError => "not yet specified"@,
        }
    }

    /// No two outside failures share a kind, and none of them is reported
    /// as a failure of the analysis or as `UnimplementedError`.
    pub proof fn lemma_conversion_is_one_to_one(a: ErrorSource, b: ErrorSource)
        ensures
            Self::converted(a) == Self::converted(b) ==> a == b,
            Self::converted(a) != MusicAnalizerError::EmptyBufferError,
            Self::converted(a) != MusicAnalizerError::MaxMinZeroError,
            Self::converted(a) != MusicAnalizerError::MutexGuardError,
            Self::converted(a) != MusicAnalizerError::UnimplementedError,
    {
    }

    /// Maps an outside failure to the kind reported for it.
    pub fn from_source(source: ErrorSource) -> (e: MusicAnalizerError)
        ensures
            e == Self::converted(source),
    {
        match source {
            ErrorSource::Stream => MusicAnalizerError::RodioStreamError,
            ErrorSource::Play => MusicAnalizerError::RodioSinkError,
            ErrorSource::Io => MusicAnalizerError::IoError,
            ErrorSource::Decoder => MusicAnalizerError::RodioDecoderError,
        }
    }

    /// The human-readable description of this failure.
    pub fn message(&self) -> (s: String)
        ensures
            s@ == self.message_text(),
    {
        let text: &str = match self {
            MusicAnalizerError::RodioStreamError => "Error caused by rodio stream creation",
            MusicAnalizerError::RodioSinkError => "Error when trying to create a sink",
            MusicAnalizerError::IoError => "Error when reading file",
            MusicAnalizerError::RodioDecoderError => "Error when decoding a file",
            MusicAnalizerError::EmptyBufferError => "fft buffer empty when calling fft",
            MusicAnalizerError::MaxMinZeroError => "buffer has no maximum or minimum",
            MusicAnalizerError::MutexGuardError => "failed to acquire lock to the buffer",
            MusicAnalizerError::UnimplementedError => "not yet specified",
        };
        String::from_str(text)
    }
}

} // verus!
