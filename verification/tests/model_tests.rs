use vibevoice::model::speech_mask_for_prompt;
use candle_core::{DType, Device, Tensor};
use vibevoice::config::{Qwen2DecoderConfig, VibeVoiceASRConfig};
use vibevoice::error::VibeVoiceAsrError;
use vibevoice::model::{
    acoustic_token_count, apply_speech_features, to_candle_qwen2_config, pick_prefix, prefix_probes,
    select_weight_files, trailing_acoustic_mask, DEFAULT_MODEL_REPO,
};

fn strings(names: &[&str]) -> Vec<String> {
    names.iter().map(|s| s.to_string()).collect()
}

#[test]
fn qwen2_config_conversion_works() {
    let cfg = VibeVoiceASRConfig::default();
    let qcfg = to_candle_qwen2_config(&cfg.decoder_config).unwrap();
    assert_eq!(qcfg.hidden_size, cfg.decoder_config.hidden_size);
    assert_eq!(qcfg.vocab_size, cfg.decoder_config.vocab_size);
}

#[test]
fn decoder_settings_are_copied_and_window_defaults() {
    let cfg = Qwen2DecoderConfig { sliding_window: None, max_position_embeddings: 4096, ..Default::default() };
    let layout = to_candle_qwen2_config(&cfg).unwrap();
    assert_eq!(layout.sliding_window, 4096);
    assert_eq!(layout.max_position_embeddings, 4096);
    assert_eq!(layout.num_hidden_layers, cfg.num_hidden_layers);
    assert_eq!(layout.num_key_value_heads, cfg.num_key_value_heads);
    let cfg = Qwen2DecoderConfig { sliding_window: Some(7), ..Default::default() };
    assert_eq!(to_candle_qwen2_config(&cfg).unwrap().sliding_window, 7);
}

#[test]
fn decoder_refuses_other_activations() {
    let cfg = Qwen2DecoderConfig { hidden_act: "gelu".to_string(), ..Default::default() };
    assert!(matches!(to_candle_qwen2_config(&cfg), Err(VibeVoiceAsrError::Unsupported(_))));
}

#[test]
fn speech_features_replace_masked_positions() {
    let embeds = vec![0f32; 12];
    let speech = vec![1f32, 2., 3., 4., 5., 6.];
    let updated =
        apply_speech_features(embeds, 1, 4, 3, &[false, true, true, false], &speech, 2, 3).unwrap();
    assert_eq!(&updated[3..9], &[1., 2., 3., 4., 5., 6.]);
    assert_eq!(&updated[0..3], &[0., 0., 0.]);
    assert_eq!(&updated[9..12], &[0., 0., 0.]);
}

#[test]
fn speech_features_stop_when_speech_runs_out() {
    let embeds = vec![9i32; 6];
    let speech = vec![1, 2];
    let updated = apply_speech_features(embeds, 1, 3, 2, &[true, true, false], &speech, 1, 2).unwrap();
    assert_eq!(updated, vec![1, 2, 9, 9, 9, 9]);
}

#[test]
fn speech_features_check_shapes() {
    let speech = vec![1, 2];
    assert!(matches!(
        apply_speech_features(vec![0; 12], 2, 2, 3, &[true, false], &speech, 1, 2),
        Err(VibeVoiceAsrError::InvalidInput(_))
    ));
    assert!(matches!(
        apply_speech_features(vec![0; 6], 1, 2, 3, &[true], &speech, 1, 2),
        Err(VibeVoiceAsrError::InvalidInput(_))
    ));
    assert!(matches!(
        apply_speech_features(vec![0; 6], 1, 2, 3, &[true, false], &speech, 1, 2),
        Err(VibeVoiceAsrError::InvalidInput(_))
    ));
}

#[test]
fn acoustic_token_count_rounds_up() {
    assert_eq!(acoustic_token_count(6_401, Some(3_200)), 3);
    assert_eq!(acoustic_token_count(6_400, Some(3_200)), 2);
    assert_eq!(acoustic_token_count(0, Some(3_200)), 0);
    assert_eq!(acoustic_token_count(usize::MAX, Some(1)), usize::MAX);
    assert_eq!(acoustic_token_count(1_000, None), 0);
}

#[test]
fn trailing_acoustic_mask_flags_the_end() {
    assert_eq!(trailing_acoustic_mask(5, 2), vec![false, false, false, true, true]);
    assert_eq!(trailing_acoustic_mask(2, 5), vec![true, true]);
    assert_eq!(trailing_acoustic_mask(3, 0), vec![false, false, false]);
}

#[test]
fn weight_index_files_are_deduplicated_and_sorted() {
    let files = select_weight_files(
        Some(strings(&[
            "model-00002-of-00002.safetensors",
            "model-00001-of-00002.safetensors",
            "model-00002-of-00002.safetensors",
        ])),
        strings(&["ignored.safetensors"]),
    )
    .unwrap();
    assert_eq!(
        files,
        strings(&["model-00001-of-00002.safetensors", "model-00002-of-00002.safetensors"])
    );
}

#[test]
fn directory_weight_files_are_filtered_and_sorted() {
    let files = select_weight_files(
        None,
        strings(&["b.safetensors", "config.json", "a.safetensors", ".safetensors", "c.safetensors.bak"]),
    )
    .unwrap();
    assert_eq!(files, strings(&["a.safetensors", "b.safetensors"]));
}

#[test]
fn missing_weight_files_are_reported() {
    assert!(matches!(
        select_weight_files(None, strings(&["config.json", "tokenizer.json"])),
        Err(VibeVoiceAsrError::InvalidInput(_))
    ));
}

#[test]
fn prefix_probes_name_three_tensors() {
    assert_eq!(
        prefix_probes("model"),
        strings(&[
            "model.fc1.weight",
            "model.encoder.head.weight",
            "model.model.embed_tokens.weight"
        ])
    );
}

#[test]
fn pick_prefix_takes_first_present() {
    let candidates = strings(&["", "model", "model.language_model"]);
    assert_eq!(pick_prefix(&candidates, &vec![false, true, true]).unwrap(), "model");
    assert!(matches!(
        pick_prefix(&candidates, &vec![false, false, false]),
        Err(VibeVoiceAsrError::InvalidInput(_))
    ));
}

#[test]
fn default_model_repo_name() {
    assert_eq!(DEFAULT_MODEL_REPO, "microsoft/VibeVoice-ASR-HF");
}

#[test]
fn speech_mask_for_prompt_flags_trailing_speech_tokens() {
    let config = VibeVoiceASRConfig::default();
    let speech = Tensor::zeros((1, 1, 6_401), DType::F32, &Device::Cpu).unwrap();
    assert_eq!(speech_mask_for_prompt(&config, 5, &speech), vec![false, false, true, true, true]);
    let flat = Tensor::zeros((1, 6_401), DType::F32, &Device::Cpu).unwrap();
    assert_eq!(speech_mask_for_prompt(&config, 3, &flat), vec![false, false, false]);
    let mut overflowing = VibeVoiceASRConfig::default();
    overflowing.acoustic_tokenizer_config.encoder_ratios = vec![usize::MAX, 2];
    assert_eq!(speech_mask_for_prompt(&overflowing, 2, &speech), vec![false, false]);
}

#[test]
fn weight_files_follow_path_order() {
    let names = [
        "sub.b.safetensors",
        "./x.safetensors",
        "sub/a.safetensors",
        "x.safetensors",
        "../p.safetensors",
        "-q.safetensors",
        "sub//c.safetensors",
    ];
    let files = select_weight_files(Some(strings(&names)), Vec::new()).unwrap();
    let dir = std::path::Path::new("/models/asr");
    let mut expected: Vec<std::path::PathBuf> = names.iter().map(|n| dir.join(n)).collect();
    expected.sort();
    expected.dedup();
    let got: Vec<std::path::PathBuf> = files.iter().map(|n| dir.join(n)).collect();
    assert_eq!(got, expected);
    assert_eq!(files.len(), 6);
    assert_eq!(files[0], "../p.safetensors");
}
