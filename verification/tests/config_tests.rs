use vibevoice::config::{
    default_encoder_ratios, default_hidden_act, default_vocab_size, DTypeName,
    Qwen2DecoderConfig, VibeVoiceASRConfig, VibeVoiceAcousticTokenizerConfig,
};
use vibevoice::error::VibeVoiceCoreError;

#[test]
fn encoder_ratio_overflow_is_reported() {
    let config = VibeVoiceASRConfig {
        acoustic_tokenizer_config: VibeVoiceAcousticTokenizerConfig {
            encoder_ratios: vec![usize::MAX, 2],
            ..Default::default()
        },
        ..Default::default()
    };
    assert!(matches!(
        config.encoder_ratios_product(),
        Err(VibeVoiceCoreError::UnsupportedConfig(_))
    ));
}

#[test]
fn default_config_values() {
    let config = VibeVoiceASRConfig::default();
    assert_eq!(config.acoustic_vae_dim(), 64);
    assert_eq!(config.semantic_vae_dim(), 128);
    assert_eq!(config.encoder_ratios_product().unwrap(), 3200);
    assert_eq!(config.acoustic_tokenizer_config.encoder_ratios, default_encoder_ratios());
    assert_eq!(config.decoder_config.vocab_size, default_vocab_size());
    assert_eq!(config.decoder_config.hidden_act, default_hidden_act());
    assert_eq!(config.weights_dtype(), DTypeName::Bf16);
}

#[test]
fn explicit_vae_dims_win() {
    let config = VibeVoiceASRConfig {
        acoustic_vae_dim: Some(32),
        semantic_vae_dim: Some(256),
        ..Default::default()
    };
    assert_eq!(config.acoustic_vae_dim(), 32);
    assert_eq!(config.semantic_vae_dim(), 256);
}

#[test]
fn encoder_ratios_product_multiplies_in_order() {
    let mut config = VibeVoiceASRConfig::default();
    config.acoustic_tokenizer_config.encoder_ratios = vec![];
    assert_eq!(config.encoder_ratios_product().unwrap(), 1);
    config.acoustic_tokenizer_config.encoder_ratios = vec![3, 0, usize::MAX];
    assert_eq!(config.encoder_ratios_product().unwrap(), 0);
    config.acoustic_tokenizer_config.encoder_ratios = vec![usize::MAX, 0];
    assert_eq!(config.encoder_ratios_product().unwrap(), 0);
    config.acoustic_tokenizer_config.encoder_ratios = vec![usize::MAX, 2, 0];
    assert!(config.encoder_ratios_product().is_err());
}

#[test]
fn weights_dtype_prefers_top_level_then_decoder() {
    let mut config = VibeVoiceASRConfig::default();
    config.torch_dtype = Some(DTypeName::F16);
    assert_eq!(config.weights_dtype(), DTypeName::F16);
    config.torch_dtype = None;
    config.decoder_config = Qwen2DecoderConfig { torch_dtype: None, ..Default::default() };
    assert_eq!(config.weights_dtype(), DTypeName::F32);
    assert_eq!(DTypeName::default(), DTypeName::F32);
}

#[test]
fn dtype_names_map_to_candle_types() {
    assert_eq!(DTypeName::F16.into_candle(), candle_core::DType::F16);
    assert_eq!(DTypeName::F32.into_candle(), candle_core::DType::F32);
    assert_eq!(DTypeName::Bf16.into_candle(), candle_core::DType::BF16);
}
