//! Error types of the library.
use vstd::prelude::*;

verus! {

/// Errors of configuration handling and audio preparation.
#[derive(Debug)]
pub enum VibeVoiceCoreError {
    AudioDecode(String),
    UnsupportedConfig(String),
    InvalidInput(String),
}

/// Errors of the speech recognition pipeline.
#[derive(Debug)]
pub enum VibeVoiceAsrError {
    Candle(String),
    Core(VibeVoiceCoreError),
    TokenizerModel(VibeVoiceTokenizerError),
    Tokenizer(String),
    Unsupported(String),
    InvalidInput(String),
}

/// Errors of the audio tokenizer models.
#[derive(Debug)]
pub enum VibeVoiceTokenizerError {
    Core(VibeVoiceCoreError),
    Unsupported(String),
    InvalidShape(String),
}

/// Errors of speech synthesis.
#[derive(Debug, Clone, Copy, PartialEq, Eq, Structural)]
pub enum VibeVoiceTtsError {
    NotImplemented,
}

} // verus!
