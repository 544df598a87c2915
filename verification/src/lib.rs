//! Speech-to-text transcription support: chunk planning for long
//! recordings, merging of per-chunk transcripts, prompt layout, decoding
//! control, configuration, streaming of transcripts to JSON files and their
//! rendering as text.
use vstd::prelude::*;

pub mod chunking;
pub mod config;
pub mod decoding;
pub mod device;
pub mod error;
pub mod model;
pub mod processor;
pub mod segments;
pub mod stream;
pub mod strings;
pub mod tensor;
pub mod text;
pub mod tokenizer_model;
pub mod transcription;
pub mod tts;

verus! {

} // verus!
