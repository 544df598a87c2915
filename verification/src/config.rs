//! Model configuration: the integer, boolean and text settings of the
//! tokenizers and the decoder, their defaults, and the values derived from them.
use vstd::prelude::*;

use crate::error::VibeVoiceCoreError;

verus! {

/// Element type of the model weights.
#[derive(Clone, Copy, Debug, PartialEq, Eq, Structural)]
pub enum DTypeName {
    F16,
    F32,
    Bf16,
}

impl Default for DTypeName {
    fn default() -> (r: Self)
        ensures
            r == DTypeName::F32,
    {
        DTypeName::F32
    }
}

impl DTypeName {
    /// The matching element type of the tensor library.
    pub fn into_candle(self) -> (r: candle_core::DType)
        ensures
            crate::tensor::dtype_name_of(r) == self,
    {
        match self {
            DTypeName::F16 => crate::tensor::candle_f16(),
            DTypeName::F32 => crate::tensor::candle_f32(),
            DTypeName::Bf16 => crate::tensor::candle_bf16(),
        }
    }
}

pub fn default_true() -> (r: bool)
    ensures
        r,
{
    true
}

pub fn default_channels() -> (r: usize)
    ensures
        r == 1,
{
    1
}

pub fn default_acoustic_vae_dim() -> (r: usize)
    ensures
        r == 64,
{
    64
}

pub fn default_semantic_vae_dim() -> (r: usize)
    ensures
        r == 128,
{
    128
}

pub fn default_gaussian() -> (r: String)
    ensures
        r@ == "gaussian"@,
{
    String::from_str("gaussian")
}

pub fn default_depthwise_conv() -> (r: String)
    ensures
        r@ == "depthwise_conv"@,
{
    String::from_str("depthwise_conv")
}

pub fn default_none() -> (r: String)
    ensures
        r@ == "none"@,
{
    String::from_str("none")
}

pub fn default_constant() -> (r: String)
    ensures
        r@ == "constant"@,
{
    String::from_str("constant")
}

pub fn default_rmsnorm() -> (r: String)
    ensures
        r@ == "RMSNorm"@,
{
    String::from_str("RMSNorm")
}

pub fn default_filters() -> (r: usize)
    ensures
        r == 32,
{
    32
}

/// The downsampling ratios of the tokenizer encoders, first to last.
pub open spec fn spec_default_encoder_ratios() -> Seq<usize> {
    seq![8, 5, 5, 4, 2, 2]
}

pub fn default_encoder_ratios() -> (r: Vec<usize>)
    ensures
        r@ == spec_default_encoder_ratios(),
{
    let r = vec![8, 5, 5, 4, 2, 2];
    assert(r@ =~= spec_default_encoder_ratios());
    r
}

pub fn default_encoder_depths() -> (r: String)
    ensures
        r@ == "3-3-3-3-3-3-8"@,
{
    String::from_str("3-3-3-3-3-3-8")
}

pub fn default_hidden_size() -> (r: usize)
    ensures
        r == 3584,
{
    3584
}

pub fn default_head_layers() -> (r: usize)
    ensures
        r == 4,
{
    4
}

pub fn default_prediction_type() -> (r: String)
    ensures
        r@ == "v_prediction"@,
{
    String::from_str("v_prediction")
}

pub fn default_diffusion_type() -> (r: String)
    ensures
        r@ == "ddpm"@,
{
    String::from_str("ddpm")
}

pub fn default_ddpm_steps() -> (r: usize)
    ensures
        r == 1000,
{
    1000
}

pub fn default_ddpm_inference_steps() -> (r: usize)
    ensures
        r == 20,
{
    20
}

pub fn default_ddpm_schedule() -> (r: String)
    ensures
        r@ == "cosine"@,
{
    String::from_str("cosine")
}

pub fn default_ddpm_batch_mul() -> (r: usize)
    ensures
        r == 4,
{
    4
}

pub fn default_vocab_size() -> (r: usize)
    ensures
        r == 152064,
{
    152064
}

pub fn default_intermediate_size() -> (r: usize)
    ensures
        r == 18944,
{
    18944
}

pub fn default_hidden_layers() -> (r: usize)
    ensures
        r == 28,
{
    28
}

pub fn default_attention_heads() -> (r: usize)
    ensures
        r == 28,
{
    28
}

pub fn default_kv_heads() -> (r: usize)
    ensures
        r == 4,
{
    4
}

pub fn default_positions() -> (r: usize)
    ensures
        r == 32768,
{
    32768
}

pub fn default_sliding_window() -> (r: usize)
    ensures
        r == 4096,
{
    4096
}

pub fn default_max_window_layers() -> (r: usize)
    ensures
        r == 28,
{
    28
}

pub fn default_hidden_act() -> (r: String)
    ensures
        r@ == "silu"@,
{
    String::from_str("silu")
}

/// Settings of the acoustic tokenizer (its real-valued settings are held by
/// the program that reads the configuration file).
#[derive(Clone, Debug)]
pub struct VibeVoiceAcousticTokenizerConfig {
    pub channels: usize,
    pub causal: bool,
    pub vae_dim: usize,
    pub std_dist_type: String,
    pub mixer_layer: String,
    pub conv_norm: String,
    pub pad_mode: String,
    pub disable_last_norm: bool,
    pub layernorm: String,
    pub layernorm_elementwise_affine: bool,
    pub conv_bias: bool,
    pub encoder_n_filters: usize,
    pub encoder_ratios: Vec<usize>,
    pub encoder_depths: String,
    pub decoder_n_filters: usize,
    pub decoder_ratios: Option<Vec<usize>>,
    pub decoder_depths: Option<String>,
}

/// `c` holds the default settings of the acoustic tokenizer.
pub open spec fn default_acoustic_settings(c: VibeVoiceAcousticTokenizerConfig) -> bool {
    &&& c.channels == 1
    &&& c.causal
    &&& c.vae_dim == 64
    &&& c.std_dist_type@ == "gaussian"@
    &&& c.mixer_layer@ == "depthwise_conv"@
    &&& c.conv_norm@ == "none"@
    &&& c.pad_mode@ == "constant"@
    &&& c.disable_last_norm
    &&& c.layernorm@ == "RMSNorm"@
    &&& c.layernorm_elementwise_affine
    &&& c.conv_bias
    &&& c.encoder_n_filters == 32
    &&& c.encoder_ratios@ == spec_default_encoder_ratios()
    &&& c.encoder_depths@ == "3-3-3-3-3-3-8"@
    &&& c.decoder_n_filters == 32
    &&& c.decoder_ratios is None
    &&& c.decoder_depths is None
}

impl Default for VibeVoiceAcousticTokenizerConfig {
    fn default() -> (r: Self)
        ensures
            default_acoustic_settings(r),
    {
        VibeVoiceAcousticTokenizerConfig {
            channels: default_channels(),
            causal: true,
            vae_dim: default_acoustic_vae_dim(),
            std_dist_type: default_gaussian(),
            mixer_layer: default_depthwise_conv(),
            conv_norm: default_none(),
            pad_mode: default_constant(),
            disable_last_norm: true,
            layernorm: default_rmsnorm(),
            layernorm_elementwise_affine: true,
            conv_bias: true,
            encoder_n_filters: default_filters(),
            encoder_ratios: default_encoder_ratios(),
            encoder_depths: default_encoder_depths(),
            decoder_n_filters: default_filters(),
            decoder_ratios: None,
            decoder_depths: None,
        }
    }
}

/// Settings of the semantic tokenizer (real-valued settings held elsewhere,
/// as for the acoustic tokenizer).
#[derive(Clone, Debug)]
pub struct VibeVoiceSemanticTokenizerConfig {
    pub channels: usize,
    pub causal: bool,
    pub vae_dim: usize,
    pub std_dist_type: String,
    pub mixer_layer: String,
    pub conv_norm: String,
    pub pad_mode: String,
    pub disable_last_norm: bool,
    pub layernorm: String,
    pub layernorm_elementwise_affine: bool,
    pub conv_bias: bool,
    pub encoder_n_filters: usize,
    pub encoder_ratios: Vec<usize>,
    pub encoder_depths: String,
}

/// `c` holds the default settings of the semantic tokenizer.
pub open spec fn default_semantic_settings(c: VibeVoiceSemanticTokenizerConfig) -> bool {
    &&& c.channels == 1
    &&& c.causal
    &&& c.vae_dim == 128
    &&& c.std_dist_type@ == "none"@
    &&& c.mixer_layer@ == "depthwise_conv"@
    &&& c.conv_norm@ == "none"@
    &&& c.pad_mode@ == "constant"@
    &&& c.disable_last_norm
    &&& c.layernorm@ == "RMSNorm"@
    &&& c.layernorm_elementwise_affine
    &&& c.conv_bias
    &&& c.encoder_n_filters == 32
    &&& c.encoder_ratios@ == spec_default_encoder_ratios()
    &&& c.encoder_depths@ == "3-3-3-3-3-3-8"@
}

impl Default for VibeVoiceSemanticTokenizerConfig {
    fn default() -> (r: Self)
        ensures
            default_semantic_settings(r),
    {
        VibeVoiceSemanticTokenizerConfig {
            channels: default_channels(),
            causal: true,
            vae_dim: default_semantic_vae_dim(),
            std_dist_type: default_none(),
            mixer_layer: default_depthwise_conv(),
            conv_norm: default_none(),
            pad_mode: default_constant(),
            disable_last_norm: true,
            layernorm: default_rmsnorm(),
            layernorm_elementwise_affine: true,
            conv_bias: true,
            encoder_n_filters: default_filters(),
            encoder_ratios: default_encoder_ratios(),
            encoder_depths: default_encoder_depths(),
        }
    }
}

/// Settings of the diffusion head (real-valued settings held elsewhere).
#[derive(Clone, Debug)]
pub struct VibeVoiceDiffusionHeadConfig {
    pub hidden_size: usize,
    pub head_layers: usize,
    pub latent_size: usize,
    pub speech_vae_dim: Option<usize>,
    pub prediction_type: String,
    pub diffusion_type: String,
    pub ddpm_num_steps: usize,
    pub ddpm_num_inference_steps: usize,
    pub ddpm_beta_schedule: String,
    pub ddpm_batch_mul: usize,
}

/// `c` holds the default settings of the diffusion head.
pub open spec fn default_diffusion_settings(c: VibeVoiceDiffusionHeadConfig) -> bool {
    &&& c.hidden_size == 3584
    &&& c.head_layers == 4
    &&& c.latent_size == 64
    &&& c.speech_vae_dim is None
    &&& c.prediction_type@ == "v_prediction"@
    &&& c.diffusion_type@ == "ddpm"@
    &&& c.ddpm_num_steps == 1000
    &&& c.ddpm_num_inference_steps == 20
    &&& c.ddpm_beta_schedule@ == "cosine"@
    &&& c.ddpm_batch_mul == 4
}

impl Default for VibeVoiceDiffusionHeadConfig {
    fn default() -> (r: Self)
        ensures
            default_diffusion_settings(r),
    {
        VibeVoiceDiffusionHeadConfig {
            hidden_size: default_hidden_size(),
            head_layers: default_head_layers(),
            latent_size: default_acoustic_vae_dim(),
            speech_vae_dim: None,
            prediction_type: default_prediction_type(),
            diffusion_type: default_diffusion_type(),
            ddpm_num_steps: default_ddpm_steps(),
            ddpm_num_inference_steps: default_ddpm_inference_steps(),
            ddpm_beta_schedule: default_ddpm_schedule(),
            ddpm_batch_mul: default_ddpm_batch_mul(),
        }
    }
}

/// Settings of the Qwen2 text decoder (real-valued settings held elsewhere).
#[derive(Clone, Debug)]
pub struct Qwen2DecoderConfig {
    pub vocab_size: usize,
    pub hidden_size: usize,
    pub intermediate_size: usize,
    pub num_hidden_layers: usize,
    pub num_attention_heads: usize,
    pub num_key_value_heads: usize,
    pub max_position_embeddings: usize,
    pub sliding_window: Option<usize>,
    pub max_window_layers: usize,
    pub tie_word_embeddings: bool,
    pub use_sliding_window: bool,
    pub hidden_act: String,
    pub torch_dtype: Option<DTypeName>,
}

/// `c` holds the default settings of the decoder.
pub open spec fn default_decoder_settings(c: Qwen2DecoderConfig) -> bool {
    &&& c.vocab_size == 152064
    &&& c.hidden_size == 3584
    &&& c.intermediate_size == 18944
    &&& c.num_hidden_layers == 28
    &&& c.num_attention_heads == 28
    &&& c.num_key_value_heads == 4
    &&& c.max_position_embeddings == 32768
    &&& c.sliding_window == Some(4096usize)
    &&& c.max_window_layers == 28
    &&& !c.tie_word_embeddings
    &&& !c.use_sliding_window
    &&& c.hidden_act@ == "silu"@
    &&& c.torch_dtype == Some(DTypeName::Bf16)
}

impl Default for Qwen2DecoderConfig {
    fn default() -> (r: Self)
        ensures
            default_decoder_settings(r),
    {
        Qwen2DecoderConfig {
            vocab_size: default_vocab_size(),
            hidden_size: default_hidden_size(),
            intermediate_size: default_intermediate_size(),
            num_hidden_layers: default_hidden_layers(),
            num_attention_heads: default_attention_heads(),
            num_key_value_heads: default_kv_heads(),
            max_position_embeddings: default_positions(),
            sliding_window: Some(default_sliding_window()),
            max_window_layers: default_max_window_layers(),
            tie_word_embeddings: false,
            use_sliding_window: false,
            hidden_act: default_hidden_act(),
            torch_dtype: Some(DTypeName::Bf16),
        }
    }
}

/// The full model configuration.
#[derive(Clone, Debug)]
pub struct VibeVoiceConfig {
    pub acoustic_tokenizer_config: VibeVoiceAcousticTokenizerConfig,
    pub semantic_tokenizer_config: VibeVoiceSemanticTokenizerConfig,
    pub decoder_config: Qwen2DecoderConfig,
    pub diffusion_head_config: VibeVoiceDiffusionHeadConfig,
    pub acoustic_vae_dim: Option<usize>,
    pub semantic_vae_dim: Option<usize>,
    pub torch_dtype: Option<DTypeName>,
}

impl Default for VibeVoiceConfig {
    fn default() -> (r: Self)
        ensures
            default_acoustic_settings(r.acoustic_tokenizer_config),
            default_semantic_settings(r.semantic_tokenizer_config),
            default_decoder_settings(r.decoder_config),
            default_diffusion_settings(r.diffusion_head_config),
            r.acoustic_vae_dim is None,
            r.semantic_vae_dim is None,
            r.torch_dtype is None,
    {
        VibeVoiceConfig {
            acoustic_tokenizer_config: VibeVoiceAcousticTokenizerConfig::default(),
            semantic_tokenizer_config: VibeVoiceSemanticTokenizerConfig::default(),
            decoder_config: Qwen2DecoderConfig::default(),
            diffusion_head_config: VibeVoiceDiffusionHeadConfig::default(),
            acoustic_vae_dim: None,
            semantic_vae_dim: None,
            torch_dtype: None,
        }
    }
}

/// Configuration of the speech recognition model.
#[derive(Clone, Debug)]
pub struct VibeVoiceASRConfig {
    pub acoustic_tokenizer_config: VibeVoiceAcousticTokenizerConfig,
    pub semantic_tokenizer_config: VibeVoiceSemanticTokenizerConfig,
    pub decoder_config: Qwen2DecoderConfig,
    pub acoustic_vae_dim: Option<usize>,
    pub semantic_vae_dim: Option<usize>,
    pub torch_dtype: Option<DTypeName>,
}

impl Default for VibeVoiceASRConfig {
    fn default() -> (r: Self)
        ensures
            default_acoustic_settings(r.acoustic_tokenizer_config),
            default_semantic_settings(r.semantic_tokenizer_config),
            default_decoder_settings(r.decoder_config),
            r.acoustic_vae_dim is None,
            r.semantic_vae_dim is None,
            r.torch_dtype is None,
    {
        VibeVoiceASRConfig {
            acoustic_tokenizer_config: VibeVoiceAcousticTokenizerConfig::default(),
            semantic_tokenizer_config: VibeVoiceSemanticTokenizerConfig::default(),
            decoder_config: Qwen2DecoderConfig::default(),
            acoustic_vae_dim: None,
            semantic_vae_dim: None,
            torch_dtype: None,
        }
    }
}

/// Product of the first `n` ratios.
pub open spec fn prefix_product(ratios: Seq<usize>, n: int) -> int
    decreases n,
{
    if n <= 0 {
        1
    } else {
        prefix_product(ratios, n - 1) * ratios[n - 1]
    }
}

/// Multiplying the ratios one after the other never leaves the `usize` range.
pub open spec fn product_fits(ratios: Seq<usize>) -> bool {
    forall|n: int| 0 <= n <= ratios.len() ==> #[trigger] prefix_product(ratios, n) <= usize::MAX
}

impl VibeVoiceASRConfig {
    /// Width of the acoustic latents: the explicit setting, else the tokenizer's.
    pub fn acoustic_vae_dim(&self) -> (r: usize)
        ensures
            r == match self.acoustic_vae_dim {
                Some(d) => d,
                None => self.acoustic_tokenizer_config.vae_dim,
            },
    {
        match self.acoustic_vae_dim {
            Some(d) => d,
            None => self.acoustic_tokenizer_config.vae_dim,
        }
    }

    /// Width of the semantic latents: the explicit setting, else the tokenizer's.
    pub fn semantic_vae_dim(&self) -> (r: usize)
        ensures
            r == match self.semantic_vae_dim {
                Some(d) => d,
                None => self.semantic_tokenizer_config.vae_dim,
            },
    {
        match self.semantic_vae_dim {
            Some(d) => d,
            None => self.semantic_tokenizer_config.vae_dim,
        }
    }

    /// Samples per acoustic token: the product of the acoustic encoder's
    /// ratios, or `UnsupportedConfig` when multiplying them out overflows.
    pub fn encoder_ratios_product(&self) -> (r: Result<usize, VibeVoiceCoreError>)
        ensures
            r is Ok <==> product_fits(self.acoustic_tokenizer_config.encoder_ratios@),
            r matches Ok(p) ==> p == prefix_product(
                self.acoustic_tokenizer_config.encoder_ratios@,
                self.acoustic_tokenizer_config.encoder_ratios@.len() as int,
            ),
            r matches Err(e) ==> e is UnsupportedConfig,
    {
        let mut acc: usize = 1;
        let mut i: usize = 0;
        while i < self.acoustic_tokenizer_config.encoder_ratios.len()
            invariant
                i <= self.acoustic_tokenizer_config.encoder_ratios.len(),
                acc == prefix_product(self.acoustic_tokenizer_config.encoder_ratios@, i as int),
                forall|n: int| 0 <= n <= i ==> #[trigger] prefix_product(self.acoustic_tokenizer_config.encoder_ratios@, n) <= usize::MAX,
            decreases self.acoustic_tokenizer_config.encoder_ratios.len() - i,
        {
            match acc.checked_mul(self.acoustic_tokenizer_config.encoder_ratios[i]) {
                Some(next) => {
                    acc = next;
                    i = i + 1;
                },
                None => {
                    let ghost n = i + 1;
                    assert(prefix_product(self.acoustic_tokenizer_config.encoder_ratios@, n) > usize::MAX);
                    assert(!product_fits(self.acoustic_tokenizer_config.encoder_ratios@));
                    return Err(
                        VibeVoiceCoreError::UnsupportedConfig(
                            String::from_str("encoder ratio product overflowed usize"),
                        ),
                    );
                },
            }
        }
        Ok(acc)
    }

    /// Element type of the weights: the model's setting, else the decoder's,
    /// else 32-bit floats.
    pub fn weights_dtype(&self) -> (r: DTypeName)
        ensures
            r == match self.torch_dtype {
                Some(d) => d,
                None => match self.decoder_config.torch_dtype {
                    Some(d) => d,
                    None => DTypeName::F32,
                },
            },
    {
        match self.torch_dtype {
            Some(d) => d,
            None => match self.decoder_config.torch_dtype {
                Some(d) => d,
                None => DTypeName::F32,
            },
        }
    }
}

} // verus!
