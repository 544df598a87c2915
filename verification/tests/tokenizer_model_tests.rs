use candle_core::{DType, Device, Tensor};
use vibevoice::config::{VibeVoiceConfig, default_encoder_ratios};
use vibevoice::error::{VibeVoiceTokenizerError, VibeVoiceTtsError};
use vibevoice::tokenizer_model::{check_waveform_shape, encoder_plan, encoder_plan_fits, ConvLayerSpec, TokenizerDecoder};
use vibevoice::tts::VibeVoiceTtsModel;

#[test]
fn default_encoder_plan() {
    let ratios = default_encoder_ratios();
    assert!(encoder_plan_fits(32, &ratios));
    let plan = encoder_plan(1, 32, &ratios, 64);
    assert_eq!(
        plan.stem,
        ConvLayerSpec { in_channels: 1, out_channels: 32, kernel_size: 7, stride: 1, padding: 3 }
    );
    assert_eq!(plan.downsamples.len(), 6);
    assert_eq!(
        plan.downsamples[0],
        ConvLayerSpec { in_channels: 32, out_channels: 64, kernel_size: 4, stride: 2, padding: 1 }
    );
    assert_eq!(
        plan.downsamples[5],
        ConvLayerSpec { in_channels: 1024, out_channels: 2048, kernel_size: 16, stride: 8, padding: 7 }
    );
    assert_eq!(
        plan.head,
        ConvLayerSpec { in_channels: 2048, out_channels: 64, kernel_size: 7, stride: 1, padding: 3 }
    );
    assert_eq!(plan.hop_length, 3200);
}

#[test]
fn encoder_plan_with_zero_ratio_has_no_padding() {
    let plan = encoder_plan(2, 4, &vec![0, 3], 8);
    assert_eq!(
        plan.downsamples[1],
        ConvLayerSpec { in_channels: 8, out_channels: 16, kernel_size: 0, stride: 0, padding: 0 }
    );
    assert_eq!(plan.hop_length, 0);
}

#[test]
fn encoder_plan_fits_rejects_oversized_settings() {
    assert!(!encoder_plan_fits(usize::MAX, &vec![2]));
    assert!(!encoder_plan_fits(1, &vec![usize::MAX]));
    assert!(!encoder_plan_fits(1, &vec![1; 64]));
    assert!(encoder_plan_fits(1, &vec![1; 63]));
}

#[test]
fn tokenizer_decoder_is_not_available() {
    let latents = Tensor::zeros((1, 64, 4), DType::F32, &Device::Cpu).unwrap();
    assert!(matches!(
        TokenizerDecoder.decode(&latents),
        Err(VibeVoiceTokenizerError::Unsupported(_))
    ));
}

#[test]
fn speech_synthesis_is_not_available() {
    let model = VibeVoiceTtsModel::new(VibeVoiceConfig::default());
    assert_eq!(model.config.decoder_config.hidden_size, 3584);
    assert_eq!(model.synthesize::<f32>("hello"), Err(VibeVoiceTtsError::NotImplemented));
}

#[test]
fn encoder_input_must_be_rank_three() {
    let good = Tensor::zeros((1, 1, 8), DType::F32, &Device::Cpu).unwrap();
    assert!(check_waveform_shape(&good).is_ok());
    let flat = Tensor::zeros((1, 8), DType::F32, &Device::Cpu).unwrap();
    assert!(matches!(check_waveform_shape(&flat), Err(VibeVoiceTokenizerError::InvalidShape(_))));
}
