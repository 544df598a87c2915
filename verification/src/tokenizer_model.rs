//! The layer geometry of the audio tokenizer encoders, and the (not yet
//! available) tokenizer decoder.
use vstd::prelude::*;

use crate::config::{prefix_product, product_fits};
use crate::error::VibeVoiceTokenizerError;
use crate::tensor::{tensor_rank, tensor_shape};

verus! {

/// The shape of a one-dimensional convolution layer.
#[derive(Clone, Copy, Debug, PartialEq, Eq, Structural)]
pub struct ConvLayerSpec {
    pub in_channels: usize,
    pub out_channels: usize,
    pub kernel_size: usize,
    pub stride: usize,
    pub padding: usize,
}

/// The layers of a tokenizer encoder: a stem, one downsampling layer per
/// ratio, and a head; and how many input samples make one output step.
#[derive(Clone, Debug)]
pub struct EncoderPlan {
    pub stem: ConvLayerSpec,
    pub downsamples: Vec<ConvLayerSpec>,
    pub head: ConvLayerSpec,
    pub hop_length: usize,
}

/// Two to the power `n`.
pub open spec fn pow2(n: nat) -> nat
    decreases n,
{
    if n == 0 {
        1
    } else {
        2 * pow2((n - 1) as nat)
    }
}

/// The `idx`-th downsampling layer: ratios are taken last first, each layer
/// doubles the channels and shrinks time by its ratio.
pub open spec fn downsample_spec(filters: int, ratios: Seq<usize>, idx: int) -> ConvLayerSpec {
    let ratio = ratios[ratios.len() - 1 - idx];
    ConvLayerSpec {
        in_channels: (filters * pow2(idx as nat)) as usize,
        out_channels: (filters * pow2((idx + 1) as nat)) as usize,
        kernel_size: (ratio * 2) as usize,
        stride: ratio,
        padding: (if ratio >= 1 { ratio - 1 } else { 0 }) as usize,
    }
}

/// The encoder's layer sizes stay in the `usize` range.
pub open spec fn plan_fits(filters: int, ratios: Seq<usize>) -> bool {
    &&& ratios.len() < 64
    &&& filters * pow2(ratios.len()) <= usize::MAX
    &&& forall|i: int| 0 <= i < ratios.len() ==> #[trigger] ratios[i] * 2 <= usize::MAX
    &&& product_fits(ratios)
}

proof fn lemma_pow2_mono(a: nat, b: nat)
    requires
        a <= b,
    ensures
        1 <= pow2(a) <= pow2(b),
    decreases b,
{
    if b > a {
        lemma_pow2_mono(a, (b - 1) as nat);
    } else if a > 0 {
        lemma_pow2_mono((a - 1) as nat, (a - 1) as nat);
    }
}

/// The encoder's layers chain up: the first downsampling layer takes the
/// stem's channels, each layer takes the channels the one before gives,
/// each doubles them, the head takes what the last gives, and each layer
/// strides by one of the ratios, the last ratio first.
pub proof fn lemma_encoder_layers_chain(filters: int, ratios: Seq<usize>)
    requires
        filters >= 0,
        plan_fits(filters, ratios),
    ensures
        ratios.len() > 0 ==> downsample_spec(filters, ratios, 0).in_channels == filters,
        ratios.len() > 0 ==> downsample_spec(filters, ratios, ratios.len() - 1).out_channels
            == filters * pow2(ratios.len()),
        forall|i: int|
            0 <= i < ratios.len() ==> #[trigger] downsample_spec(filters, ratios, i).out_channels
                == 2 * downsample_spec(filters, ratios, i).in_channels,
        forall|i: int|
            0 <= i < ratios.len() - 1 ==> #[trigger] downsample_spec(filters, ratios, i + 1).in_channels
                == downsample_spec(filters, ratios, i).out_channels,
        forall|i: int|
            0 <= i < ratios.len() ==> #[trigger] downsample_spec(filters, ratios, i).stride
                == ratios[ratios.len() - 1 - i],
{
    assert forall|i: int| 0 <= i < ratios.len() implies #[trigger] downsample_spec(
        filters,
        ratios,
        i,
    ).out_channels == 2 * downsample_spec(filters, ratios, i).in_channels by {
        lemma_pow2_mono((i + 1) as nat, ratios.len());
        lemma_pow2_mono(i as nat, (i + 1) as nat);
        assert(pow2((i + 1) as nat) == 2 * pow2(i as nat));
        assert(filters * pow2((i + 1) as nat) <= filters * pow2(ratios.len())) by (nonlinear_arith)
            requires
                pow2((i + 1) as nat) <= pow2(ratios.len()),
                filters >= 0,
        ;
        assert(filters * pow2((i + 1) as nat) == 2 * (filters * pow2(i as nat))) by (nonlinear_arith)
            requires
                pow2((i + 1) as nat) == 2 * pow2(i as nat),
        ;
        assert(filters * pow2(i as nat) >= 0) by (nonlinear_arith)
            requires
                filters >= 0,
        ;
    }
    assert(pow2(0) == 1);
    lemma_pow2_mono(0, ratios.len());
    assert(filters * pow2(0) <= filters * pow2(ratios.len())) by (nonlinear_arith)
        requires
            pow2(0) <= pow2(ratios.len()),
            filters >= 0,
    ;
    assert(filters * pow2(0) == filters);
}

/// Whether `encoder_plan` can lay out an encoder with these settings.
pub fn encoder_plan_fits(filters: usize, ratios: &Vec<usize>) -> (r: bool)
    ensures
        r == plan_fits(filters as int, ratios@),
{
    if ratios.len() >= 64 {
        return false;
    }
    let mut i: usize = 0;
    while i < ratios.len()
        invariant
            i <= ratios.len(),
            forall|k: int| 0 <= k < i ==> #[trigger] ratios@[k] * 2 <= usize::MAX,
        decreases ratios.len() - i,
    {
        if ratios[i] > usize::MAX / 2 {
            assert(ratios@[i as int] * 2 > usize::MAX);
            return false;
        }
        i = i + 1;
    }
    let mut scale: u128 = filters as u128;
    let mut j: usize = 0;
    assert(pow2(0) == 1);
    while j < ratios.len()
        invariant
            j <= ratios.len() < 64,
            scale == filters * pow2(j as nat),
            scale <= usize::MAX * 2,
        decreases ratios.len() - j,
    {
        if scale > usize::MAX as u128 {
            proof {
                lemma_pow2_mono(j as nat, ratios@.len());
                assert(filters * pow2(j as nat) <= filters * pow2(ratios@.len())) by (nonlinear_arith)
                    requires
                        pow2(j as nat) <= pow2(ratios@.len()),
                ;
            }
            return false;
        }
        proof {
            assert(pow2((j + 1) as nat) == 2 * pow2(j as nat));
            assert(filters * pow2((j + 1) as nat) == 2 * (filters * pow2(j as nat))) by (nonlinear_arith)
                requires
                    pow2((j + 1) as nat) == 2 * pow2(j as nat),
            ;
        }
        scale = scale * 2;
        j = j + 1;
    }
    if scale > usize::MAX as u128 {
        return false;
    }
    let mut acc: usize = 1;
    let mut k: usize = 0;
    while k < ratios.len()
        invariant
            k <= ratios.len(),
            acc == prefix_product(ratios@, k as int),
            forall|n: int| 0 <= n <= k ==> #[trigger] prefix_product(ratios@, n) <= usize::MAX,
        decreases ratios.len() - k,
    {
        match acc.checked_mul(ratios[k]) {
            Some(next) => {
                acc = next;
                k = k + 1;
            },
            None => {
                let ghost n = k + 1;
                assert(prefix_product(ratios@, n) > usize::MAX);
                assert(!product_fits(ratios@));
                return false;
            },
        }
    }
    true
}

/// Lays out an encoder for `channels` input channels, `filters` channels
/// after the stem, the downsampling `ratios` and `vae_dim` output channels.
pub fn encoder_plan(channels: usize, filters: usize, ratios: &Vec<usize>, vae_dim: usize) -> (r:
    EncoderPlan)
    requires
        plan_fits(filters as int, ratios@),
    ensures
        r.stem == (ConvLayerSpec {
            in_channels: channels,
            out_channels: filters,
            kernel_size: 7,
            stride: 1,
            padding: 3,
        }),
        r.downsamples.len() == ratios.len(),
        forall|i: int|
            0 <= i < ratios.len() ==> #[trigger] r.downsamples@[i] == downsample_spec(
                filters as int,
                ratios@,
                i,
            ),
        r.head == (ConvLayerSpec {
            in_channels: (filters * pow2(ratios@.len())) as usize,
            out_channels: vae_dim,
            kernel_size: 7,
            stride: 1,
            padding: 3,
        }),
        r.hop_length == prefix_product(ratios@, ratios@.len() as int),
{
    let stem = ConvLayerSpec {
        in_channels: channels,
        out_channels: filters,
        kernel_size: 7,
        stride: 1,
        padding: 3,
    };
    let n = ratios.len();
    let mut downsamples: Vec<ConvLayerSpec> = Vec::new();
    let mut scale: usize = filters;
    let mut idx: usize = 0;
    proof {
        lemma_pow2_mono(0, n as nat);
        assert(pow2(0) == 1);
    }
    while idx < n
        invariant
            n == ratios.len(),
            plan_fits(filters as int, ratios@),
            idx <= n,
            scale == filters * pow2(idx as nat),
            downsamples.len() == idx,
            forall|i: int|
                0 <= i < idx ==> #[trigger] downsamples@[i] == downsample_spec(
                    filters as int,
                    ratios@,
                    i,
                ),
        decreases n - idx,
    {
        let ratio = ratios[n - 1 - idx];
        proof {
            lemma_pow2_mono((idx + 1) as nat, n as nat);
            assert(filters * pow2((idx + 1) as nat) <= filters * pow2(n as nat)) by (nonlinear_arith)
                requires
                    pow2((idx + 1) as nat) <= pow2(n as nat),
            ;
            assert(pow2((idx + 1) as nat) == 2 * pow2(idx as nat));
            assert(filters * pow2((idx + 1) as nat) == 2 * (filters * pow2(idx as nat))) by (nonlinear_arith)
                requires
                    pow2((idx + 1) as nat) == 2 * pow2(idx as nat),
            ;
            assert(ratios@[n - 1 - idx] * 2 <= usize::MAX);
        }
        let next_scale = scale * 2;
        let padding = if ratio >= 1 { ratio - 1 } else { 0 };
        downsamples.push(
            ConvLayerSpec {
                in_channels: scale,
                out_channels: next_scale,
                kernel_size: ratio * 2,
                stride: ratio,
                padding,
            },
        );
        scale = next_scale;
        idx = idx + 1;
    }
    let head = ConvLayerSpec {
        in_channels: scale,
        out_channels: vae_dim,
        kernel_size: 7,
        stride: 1,
        padding: 3,
    };
    let mut hop: usize = 1;
    let mut k: usize = 0;
    while k < n
        invariant
            n == ratios.len(),
            plan_fits(filters as int, ratios@),
            k <= n,
            hop == prefix_product(ratios@, k as int),
        decreases n - k,
    {
        assert(prefix_product(ratios@, k + 1) <= usize::MAX);
        hop = hop * ratios[k];
        k = k + 1;
    }
    EncoderPlan { stem, downsamples, head, hop_length: hop }
}

/// Checks that a waveform handed to a tokenizer encoder is laid out as
/// `[batch, channels, time]`; `InvalidShape` when it has another rank.
pub fn check_waveform_shape(waveform: &candle_core::Tensor) -> (r: Result<(), VibeVoiceTokenizerError>)
    ensures
        r is Ok <==> tensor_shape(*waveform).len() == 3,
        r matches Err(e) ==> e is InvalidShape,
{
    if tensor_rank(waveform) != 3 {
        return Err(
            VibeVoiceTokenizerError::InvalidShape(
                String::from_str("expected [batch, channels, time]"),
            ),
        );
    }
    Ok(())
}

/// The tokenizer decoder, which turns latents back into audio. It is not
/// available yet.
#[derive(Debug, Clone, Copy, PartialEq, Eq, Structural)]
pub struct TokenizerDecoder;

impl TokenizerDecoder {
    /// Decoding latents is not supported yet: always `Unsupported`.
    pub fn decode(&self, _latents: &candle_core::Tensor) -> (r: Result<
        candle_core::Tensor,
        VibeVoiceTokenizerError,
    >)
        ensures
            r matches Err(e) && e is Unsupported,
    {
        Err(
            VibeVoiceTokenizerError::Unsupported(
                String::from_str("tokenizer decoder is not implemented yet"),
            ),
        )
    }
}

} // verus!
