//! Speech synthesis (not available yet).
use vstd::prelude::*;

use crate::config::VibeVoiceConfig;
use crate::error::VibeVoiceTtsError;

verus! {

/// The speech synthesis model and its configuration.
#[derive(Debug)]
pub struct VibeVoiceTtsModel {
    pub config: VibeVoiceConfig,
}

impl VibeVoiceTtsModel {
    /// A model with the given configuration.
    pub fn new(config: VibeVoiceConfig) -> (r: Self)
        ensures
            r.config == config,
    {
        VibeVoiceTtsModel { config }
    }

    /// Synthesis is not available yet: always `NotImplemented`, whatever
    /// the sample type asked for.
    pub fn synthesize<S>(&self, _text: &str) -> (r: Result<Vec<S>, VibeVoiceTtsError>)
        ensures
            r == Err::<Vec<S>, VibeVoiceTtsError>(VibeVoiceTtsError::NotImplemented),
    {
        Err(VibeVoiceTtsError::NotImplemented)
    }
}

} // verus!
