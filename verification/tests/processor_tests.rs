use candle_core::{DType, Device, Tensor};
use tokenizers::models::wordlevel::WordLevel;
use tokenizers::pre_tokenizers::whitespace::Whitespace;
use tokenizers::processors::bert::BertProcessing;
use tokenizers::{AddedToken, Tokenizer, TruncationParams};
use vibevoice::error::VibeVoiceAsrError;
use vibevoice::processor::{
    assemble_prompt, audio_duration_centis, build_user_suffix, system_prefix, user_turn_text, VibeVoiceAsrProcessor,
    SYSTEM_PROMPT,
};

fn test_tokenizer() -> Tokenizer {
    let vocab = [
        ("[UNK]", 0u32),
        ("You", 1),
        ("are", 2),
        ("a", 3),
        ("helpful", 4),
        ("assistant", 5),
        ("that", 6),
        ("transcribes", 7),
        ("audio", 8),
        ("input", 9),
        ("into", 10),
        ("text", 11),
        ("output", 12),
        ("in", 13),
        ("JSON", 14),
        ("format.", 15),
        ("This", 16),
        ("is", 17),
        ("0.50", 18),
        ("seconds", 19),
        ("please", 20),
        ("transcribe", 21),
        ("it", 22),
        ("with", 23),
        ("these", 24),
        ("keys:", 25),
        ("Start", 26),
        ("time,", 27),
        ("End", 28),
        ("Speaker", 29),
        ("ID,", 30),
        ("Content", 31),
        ("extra", 32),
        ("info:", 33),
        ("hotword", 34),
        ("<|speech_start|>", 35),
        ("<|speech_pad|>", 36),
        ("<|speech_end|>", 37),
        ("<|im_start|>", 38),
        ("<|im_end|>", 39),
        ("system", 40),
        ("user", 41),
        ("assistant\n", 42),
    ];
    let model = WordLevel::builder()
        .vocab(vocab.iter().map(|(k, v)| (k.to_string(), *v)).collect())
        .unk_token("[UNK]".to_string())
        .build()
        .unwrap();
    let mut tokenizer = Tokenizer::new(model);
    tokenizer.with_pre_tokenizer(Some(Whitespace::default()));
    tokenizer.add_special_tokens(&[
        AddedToken::from("<|speech_start|>", true),
        AddedToken::from("<|speech_pad|>", true),
        AddedToken::from("<|speech_end|>", true),
        AddedToken::from("<|im_start|>", true),
        AddedToken::from("<|im_end|>", true),
    ]);
    tokenizer
}

#[test]
fn processor_builds_prompt_without_context() {
    let processor = VibeVoiceAsrProcessor::new(test_tokenizer(), 3200).unwrap();
    let (ids, mask) = processor.build_prompt(3, 50, None).unwrap();
    assert_eq!(ids.len(), mask.len());
    assert_eq!(mask.iter().filter(|v| **v).count(), 3);
}

#[test]
fn processor_builds_prompt_with_context() {
    let processor = VibeVoiceAsrProcessor::new(test_tokenizer(), 3200).unwrap();
    let (ids, mask) = processor.build_prompt(2, 50, Some("hotword")).unwrap();
    assert_eq!(ids.len(), mask.len());
    assert_eq!(mask.iter().filter(|v| **v).count(), 2);
}

#[test]
fn processor_validates_tensor_shape() {
    let processor = VibeVoiceAsrProcessor::new(test_tokenizer(), 3200).unwrap();
    let speech_tensor = Tensor::zeros((2, 1, 100), DType::F32, &Device::Cpu).unwrap();
    let err = processor.prepare_audio_tensor(speech_tensor, 100, None).unwrap_err();
    assert!(matches!(err, VibeVoiceAsrError::InvalidInput(_)));
}

#[test]
fn prompt_frames_speech_placeholders_between_markers() {
    let processor = VibeVoiceAsrProcessor::new(test_tokenizer(), 3200).unwrap();
    let (ids, mask) = processor.build_prompt(3, 50, None).unwrap();
    let first = mask.iter().position(|m| *m).unwrap();
    assert_eq!(ids[first - 1], 35);
    assert_eq!(&ids[first..first + 3], &[36, 36, 36]);
    assert_eq!(ids[first + 3], 37);
    assert!(mask[first..first + 3].iter().all(|m| *m));
    assert_eq!(ids[0], 38);
}

#[test]
fn prepare_audio_tensor_counts_speech_tokens() {
    let processor = VibeVoiceAsrProcessor::new(test_tokenizer(), 3200).unwrap();
    assert_eq!(processor.speech_tok_compress_ratio(), 3200);
    let speech_tensor = Tensor::zeros((1, 1, 6401), DType::F32, &Device::Cpu).unwrap();
    let inputs = processor.prepare_audio_tensor(speech_tensor, 6401, None).unwrap();
    assert_eq!(inputs.sample_rate, 24_000);
    assert_eq!(inputs.acoustic_input_mask.iter().filter(|v| **v).count(), 3);
    assert_eq!(inputs.prompt_token_ids.len(), inputs.acoustic_input_mask.len());
    assert_eq!(inputs.speech_tensor.dims(), &[1, 1, 6401]);
}

#[test]
fn prepare_audio_tensor_refuses_other_ranks() {
    let processor = VibeVoiceAsrProcessor::new(test_tokenizer(), 3200).unwrap();
    let speech_tensor = Tensor::zeros((1, 100), DType::F32, &Device::Cpu).unwrap();
    let err = processor.prepare_audio_tensor(speech_tensor, 100, None).unwrap_err();
    assert!(matches!(err, VibeVoiceAsrError::Candle(_)));
}

#[test]
fn processor_needs_speech_markers() {
    let model = WordLevel::builder()
        .vocab([("[UNK]".to_string(), 0u32)].into_iter().collect())
        .unk_token("[UNK]".to_string())
        .build()
        .unwrap();
    let tokenizer = Tokenizer::new(model);
    assert!(matches!(
        VibeVoiceAsrProcessor::new(tokenizer, 3200),
        Err(VibeVoiceAsrError::InvalidInput(_))
    ));
}

#[test]
fn user_suffix_states_duration_and_context() {
    assert_eq!(
        build_user_suffix(50, None),
        " This is a 0.50 seconds audio, please transcribe it with these keys: Start time, End time, Speaker ID, Content"
    );
    assert_eq!(
        build_user_suffix(12_345, Some("  names: Ada  ")),
        " This is a 123.45 seconds audio, with extra info: names: Ada\n\nPlease transcribe it with these keys: Start time, End time, Speaker ID, Content"
    );
    assert_eq!(build_user_suffix(7, Some(" \n ")), build_user_suffix(7, None));
    assert!(build_user_suffix(7, None).starts_with(" This is a 0.07 seconds"));
}

#[test]
fn system_prefix_wraps_system_prompt() {
    assert_eq!(
        system_prefix(),
        format!("<|im_start|>system\n{SYSTEM_PROMPT}<|im_end|>\n<|im_start|>user\n")
    );
}

#[test]
fn assemble_prompt_lays_out_blocks() {
    let (ids, mask) = assemble_prompt(vec![1, 2], 7, 8, 9, 3, vec![4]);
    assert_eq!(ids, vec![1, 2, 7, 8, 8, 8, 9, 4]);
    assert_eq!(mask, vec![false, false, false, true, true, true, false, false]);
    let (ids, mask) = assemble_prompt(vec![], 7, 8, 9, 0, vec![]);
    assert_eq!(ids, vec![7, 9]);
    assert_eq!(mask, vec![false, false]);
}

#[test]
fn user_turn_ends_with_assistant_turn() {
    assert_eq!(
        user_turn_text(50, None),
        format!("{}<|im_end|>\n<|im_start|>assistant\n", build_user_suffix(50, None))
    );
}

#[test]
fn audio_duration_is_rounded_to_hundredths() {
    assert_eq!(audio_duration_centis(0), 0);
    assert_eq!(audio_duration_centis(119), 0);
    assert_eq!(audio_duration_centis(120), 1);
    assert_eq!(audio_duration_centis(12_000), 50);
    assert_eq!(audio_duration_centis(24_000 * 3_600), 360_000);
}

fn truncating_tokenizer(max_length: usize, stride: usize) -> Tokenizer {
    let mut tokenizer = test_tokenizer();
    tokenizer
        .with_truncation(Some(TruncationParams { max_length, stride, ..Default::default() }))
        .unwrap();
    tokenizer.with_post_processor(Some(BertProcessing::new(
        ("[SEP]".to_string(), 1),
        ("[CLS]".to_string(), 2),
    )));
    tokenizer
}

#[test]
fn truncation_without_room_for_special_tokens_is_refused() {
    let processor = VibeVoiceAsrProcessor::new(truncating_tokenizer(1, 0), 3200).unwrap();
    assert!(matches!(processor.build_prompt(2, 50, None), Err(VibeVoiceAsrError::Tokenizer(_))));
    let processor = VibeVoiceAsrProcessor::new(truncating_tokenizer(4, 2), 3200).unwrap();
    assert!(matches!(processor.build_prompt(2, 50, None), Err(VibeVoiceAsrError::Tokenizer(_))));
    let speech_tensor = Tensor::zeros((1, 1, 100), DType::F32, &Device::Cpu).unwrap();
    assert!(matches!(
        processor.prepare_audio_tensor(speech_tensor, 100, None),
        Err(VibeVoiceAsrError::Tokenizer(_))
    ));
}

#[test]
fn truncation_with_room_still_builds_prompt() {
    let processor = VibeVoiceAsrProcessor::new(truncating_tokenizer(6, 1), 3200).unwrap();
    let (ids, mask) = processor.build_prompt(2, 50, None).unwrap();
    assert_eq!(ids.len(), mask.len());
    assert_eq!(mask.iter().filter(|v| **v).count(), 2);
}

#[test]
fn context_counts_only_trimmed() {
    assert_eq!(user_turn_text(50, Some("")), user_turn_text(50, None));
    assert_eq!(user_turn_text(50, Some("  \t")), user_turn_text(50, None));
    assert_eq!(user_turn_text(50, Some("  hotword \n")), user_turn_text(50, Some("hotword")));
}

#[test]
fn processor_uses_fallback_marker_names() {
    let vocab = [
        ("[UNK]", 0u32),
        ("<|object_ref_start|>", 7),
        ("<|box_start|>", 8),
        ("<|object_ref_end|>", 9),
        ("<|speech_end|>", 10),
    ];
    let model = WordLevel::builder()
        .vocab(vocab.iter().map(|(k, v)| (k.to_string(), *v)).collect())
        .unk_token("[UNK]".to_string())
        .build()
        .unwrap();
    let processor = VibeVoiceAsrProcessor::new(Tokenizer::new(model), 3200).unwrap();
    let (ids, mask) = processor.build_prompt(1, 50, None).unwrap();
    let first = mask.iter().position(|m| *m).unwrap();
    assert_eq!(&ids[first - 1..first + 2], &[7, 8, 10]);
}
