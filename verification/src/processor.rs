//! The prompt that frames a stretch of speech for the model: the chat
//! layout, the run of placeholder tokens that the speech features replace,
//! and the instruction text.
use vstd::prelude::*;

use crate::error::VibeVoiceAsrError;
use crate::strings::{chars_of, lemma_trim_idempotent, string_from_chars, trim_bounds, trim_spec};
use crate::tensor::{tensor_dims3, tensor_shape};
use crate::text::{decimal, pad2, push_decimal, push_pad2};
use crate::transcription::TARGET_SAMPLE_RATE;

verus! {

/// The system prompt of the model.
pub const SYSTEM_PROMPT: &'static str =
    "You are a helpful assistant that transcribes audio input into text output in JSON format.";

/// A tokenizer of the `tokenizers` crate.
#[verifier::external_type_specification]
#[verifier::external_body]
pub struct ExTokenizer(tokenizers::Tokenizer);

/// The id that a tokenizer gives the token `token` among its added tokens,
/// else in its model's vocabulary, if it has one.
pub uninterp spec fn token_id_of(tokenizer: tokenizers::Tokenizer, token: Seq<char>) -> Option<u32>;

/// The id under which `token` stands in a tokenizer's vocabulary with its
/// added tokens, if it does.
pub uninterp spec fn vocab_entry_of(tokenizer: tokenizers::Tokenizer, token: Seq<char>) -> Option<
    u32,
>;

/// Calls `tokenizers::Tokenizer::token_to_id`: the id of `token` among the
/// added tokens, else in the model's vocabulary, if it has one there.
#[verifier::external_body]
fn token_to_id(tokenizer: &tokenizers::Tokenizer, token: &str) -> (r: Option<u32>)
    ensures
        r == token_id_of(*tokenizer, token@),
{
    tokenizer.token_to_id(token)
}

/// Calls `tokenizers::Tokenizer::get_vocab` with added tokens and looks
/// `token` up in the map it returns.
#[verifier::external_body]
fn vocab_id(tokenizer: &tokenizers::Tokenizer, token: &str) -> (r: Option<u32>)
    ensures
        r == vocab_entry_of(*tokenizer, token@),
{
    tokenizer.get_vocab(true).get(token).copied()
}

/// The id of the first of `tokens` that the tokenizer knows, looked up as
/// an added or model token, else in its vocabulary with added tokens.
pub open spec fn first_known_id(tokenizer: tokenizers::Tokenizer, tokens: Seq<Seq<char>>) -> Option<
    u32,
>
    decreases tokens.len(),
{
    if tokens.len() == 0 {
        None
    } else {
        match token_id_of(tokenizer, tokens[0]) {
            Some(id) => Some(id),
            None => match vocab_entry_of(tokenizer, tokens[0]) {
                Some(id) => Some(id),
                None => first_known_id(tokenizer, tokens.drop_first()),
            },
        }
    }
}

/// The texts of some string slices.
pub open spec fn strs_view(tokens: Seq<&str>) -> Seq<Seq<char>> {
    tokens.map_values(|t: &str| t@)
}

/// The names under which the speech start marker is looked up, in order.
pub open spec fn speech_start_names() -> Seq<Seq<char>> {
    seq!["<|speech_start|>"@, "<|object_ref_start|>"@]
}

/// The names under which the speech placeholder is looked up, in order.
pub open spec fn speech_pad_names() -> Seq<Seq<char>> {
    seq!["<|speech_pad|>"@, "<|box_start|>"@]
}

/// The names under which the speech end marker is looked up, in order.
pub open spec fn speech_end_names() -> Seq<Seq<char>> {
    seq!["<|speech_end|>"@, "<|object_ref_end|>"@]
}

/// The truncation settings of a tokenizer, when it truncates: the longest
/// encoding it keeps and the overlap (stride) between truncated pieces.
pub uninterp spec fn truncation_limits(tokenizer: tokenizers::Tokenizer) -> Option<(usize, usize)>;

/// How many special tokens a tokenizer's post-processor adds to a single
/// sequence, when the tokenizer has a post-processor.
pub uninterp spec fn special_tokens_added(tokenizer: tokenizers::Tokenizer) -> Option<usize>;

/// Calls `tokenizers::Tokenizer::get_truncation` and gives the settings'
/// `max_length` and `stride`.
#[verifier::external_body]
fn tokenizer_truncation(tokenizer: &tokenizers::Tokenizer) -> (r: Option<(usize, usize)>)
    ensures
        r == truncation_limits(*tokenizer),
{
    tokenizer.get_truncation().map(|t| (t.max_length, t.stride))
}

/// Calls `tokenizers::Tokenizer::get_post_processor` and, when there is a
/// post-processor, its `PostProcessor::added_tokens` for a single sequence.
#[verifier::external_body]
fn tokenizer_special_tokens(tokenizer: &tokenizers::Tokenizer) -> (r: Option<usize>)
    ensures
        r == special_tokens_added(*tokenizer),
{
    match tokenizer.get_post_processor() {
        Some(p) => Some(tokenizers::PostProcessor::added_tokens(p, false)),
        None => None,
    }
}

/// Encoding one sequence with special tokens stays within the arithmetic of
/// truncation: the longest encoding leaves room for the special tokens,
/// and what is left after them is either nothing or longer than the stride.
pub open spec fn truncation_fits(truncation: Option<(usize, usize)>, added: Option<usize>) -> bool {
    match truncation {
        None => true,
        Some((max_length, stride)) => {
            let n: int = match added {
                Some(k) => k as int,
                None => 0,
            };
            &&& max_length >= n
            &&& (max_length - n == 0 || stride < max_length - n)
        },
    }
}

/// The tokenizer can encode a single sequence with special tokens.
pub open spec fn safe_to_encode(tokenizer: tokenizers::Tokenizer) -> bool {
    truncation_fits(truncation_limits(tokenizer), special_tokens_added(tokenizer))
}

/// Whether the tokenizer can encode a single sequence with special tokens.
fn can_encode(tokenizer: &tokenizers::Tokenizer) -> (r: bool)
    ensures
        r == safe_to_encode(*tokenizer),
{
    let added: usize = match tokenizer_special_tokens(tokenizer) {
        Some(k) => k,
        None => 0,
    };
    match tokenizer_truncation(tokenizer) {
        None => true,
        Some((max_length, stride)) => max_length >= added && (max_length - added == 0 || stride
            < max_length - added),
    }
}

/// The tokenizer has given `ids` as an encoding of `text` with special
/// tokens. A tokenizer that samples its merges (dropout) can give one text
/// several encodings, so this says only that `ids` is one of them.
pub uninterp spec fn encodes_as(tokenizer: tokenizers::Tokenizer, text: Seq<char>, ids: Seq<u32>) -> bool;

/// Calls `tokenizers::Tokenizer::encode` on `text`, adding special tokens,
/// and gives the ids of the encoding, or the crate's error as text. Which
/// ids come back depends on the tokenizer's vocabulary and may depend on
/// chance, so the contract only records that they encode `text`. Truncation subtracts the number of special tokens from the
/// longest length and asserts that the stride is shorter than what is
/// left, so a tokenizer whose settings break that (possible for one read
/// from a file, which skips the check made when truncation is set) is left
/// out. A padding length near the largest `usize` would exhaust memory; that
/// is not excluded.
#[verifier::external_body]
fn encode_ids(tokenizer: &tokenizers::Tokenizer, text: String) -> (r: Result<Vec<u32>, String>)
    requires
        safe_to_encode(*tokenizer),
    ensures
        r matches Ok(ids) ==> encodes_as(*tokenizer, text@, ids@),
{
    tokenizer.encode(text, true).map(|e| e.get_ids().to_vec()).map_err(|e| e.to_string())
}

/// The keys the model is asked to give each segment.
pub open spec fn show_keys() -> Seq<char> {
    "Start time, End time, Speaker ID, Content"@
}

/// A duration of `centis` hundredths of a second, written with two decimals.
pub open spec fn duration_text(centis: nat) -> Seq<char> {
    decimal(centis / 100) + seq!['.'] + pad2(centis % 100)
}

/// The user's request after the speech: the duration and, when there is
/// context that is not blank, the context (trimmed).
pub open spec fn user_suffix_spec(centis: nat, context: Option<Seq<char>>) -> Seq<char> {
    match context {
        Some(c) if trim_spec(c).len() > 0 => " This is a "@ + duration_text(centis)
            + " seconds audio, with extra info: "@ + trim_spec(c)
            + "\n\nPlease transcribe it with these keys: "@ + show_keys(),
        _ => " This is a "@ + duration_text(centis) + " seconds audio, please transcribe it with these keys: "@
            + show_keys(),
    }
}

/// The text that opens every prompt.
pub open spec fn system_prefix_spec() -> Seq<char> {
    "<|im_start|>system\nYou are a helpful assistant that transcribes audio input into text output in JSON format.<|im_end|>\n<|im_start|>user\n"@
}

/// `n` copies of `x`.
pub open spec fn repeat<T>(x: T, n: nat) -> Seq<T> {
    Seq::new(n, |i: int| x)
}

/// `ids` and `mask` are a prompt framing `n` speech positions: some text
/// tokens, the start marker, `n` placeholders, the end marker, more text
/// tokens; the mask flags exactly the placeholders.
pub open spec fn prompt_layout(
    ids: Seq<u32>,
    mask: Seq<bool>,
    start: u32,
    pad: u32,
    end: u32,
    n: nat,
    prefix: Seq<u32>,
    suffix: Seq<u32>,
) -> bool {
    &&& ids == prefix + seq![start] + repeat(pad, n) + seq![end] + suffix
    &&& mask == repeat(false, prefix.len()) + seq![false] + repeat(true, n) + seq![false] + repeat(
        false,
        suffix.len(),
    )
}

/// `ids` and `mask` frame `n` speech positions between some text tokens.
pub open spec fn frames_speech(
    ids: Seq<u32>,
    mask: Seq<bool>,
    start: u32,
    pad: u32,
    end: u32,
    n: nat,
) -> bool {
    exists|prefix: Seq<u32>, suffix: Seq<u32>|
        #[trigger] prompt_layout(ids, mask, start, pad, end, n, prefix, suffix)
}

/// The text of an optional string slice.
pub open spec fn opt_str_view(o: Option<&str>) -> Option<Seq<char>> {
    match o {
        Some(c) => Some(c@),
        None => None,
    }
}

/// `ids` and `mask` are a prompt framing `n` speech positions between an
/// encoding of the system prefix and an encoding of the user's turn for
/// audio lasting `centis` hundredths of a second with the context `context`.
pub open spec fn prompt_for(
    tokenizer: tokenizers::Tokenizer,
    ids: Seq<u32>,
    mask: Seq<bool>,
    start: u32,
    pad: u32,
    end: u32,
    n: nat,
    centis: nat,
    context: Option<Seq<char>>,
) -> bool {
    exists|prefix: Seq<u32>, suffix: Seq<u32>|
        #[trigger] prompt_layout(ids, mask, start, pad, end, n, prefix, suffix) && encodes_as(
            tokenizer,
            system_prefix_spec(),
            prefix,
        ) && encodes_as(tokenizer, user_turn_spec(centis, context), suffix)
}

/// Number of set flags in `mask`.
pub open spec fn count_true(mask: Seq<bool>) -> nat
    decreases mask.len(),
{
    if mask.len() == 0 {
        0
    } else {
        count_true(mask.drop_last()) + if mask.last() {
            1nat
        } else {
            0nat
        }
    }
}

proof fn lemma_count_true_append(a: Seq<bool>, b: Seq<bool>)
    ensures
        count_true(a + b) == count_true(a) + count_true(b),
    decreases b.len(),
{
    if b.len() == 0 {
        assert(a + b =~= a);
    } else {
        lemma_count_true_append(a, b.drop_last());
        assert((a + b).drop_last() =~= a + b.drop_last());
    }
}

proof fn lemma_count_repeat(x: bool, n: nat)
    ensures
        count_true(repeat(x, n)) == if x {
            n
        } else {
            0
        },
    decreases n,
{
    if n > 0 {
        lemma_count_repeat(x, (n - 1) as nat);
        assert(repeat(x, n).drop_last() =~= repeat(x, (n - 1) as nat));
    }
}

/// A prompt framing `n` speech positions flags exactly `n` positions, and
/// has as many flags as tokens.
pub proof fn lemma_prompt_flags_speech(
    ids: Seq<u32>,
    mask: Seq<bool>,
    start: u32,
    pad: u32,
    end: u32,
    n: nat,
    prefix: Seq<u32>,
    suffix: Seq<u32>,
)
    requires
        prompt_layout(ids, mask, start, pad, end, n, prefix, suffix),
    ensures
        count_true(mask) == n,
        ids.len() == mask.len(),
{
    let f1 = repeat(false, prefix.len());
    let f2 = repeat(false, suffix.len());
    lemma_count_repeat(false, prefix.len());
    lemma_count_repeat(false, suffix.len());
    lemma_count_repeat(true, n);
    lemma_count_repeat(false, 1);
    assert(seq![false] =~= repeat(false, 1));
    lemma_count_true_append(f1, seq![false]);
    lemma_count_true_append(f1 + seq![false], repeat(true, n));
    lemma_count_true_append(f1 + seq![false] + repeat(true, n), seq![false]);
    lemma_count_true_append(f1 + seq![false] + repeat(true, n) + seq![false], f2);
}

/// Lays out a prompt: the encoded text before the speech, the start
/// marker, `n` placeholders, the end marker and the encoded text after.
pub fn assemble_prompt(
    prefix_ids: Vec<u32>,
    speech_start_id: u32,
    speech_pad_id: u32,
    speech_end_id: u32,
    n: usize,
    suffix_ids: Vec<u32>,
) -> (r: (Vec<u32>, Vec<bool>))
    ensures
        prompt_layout(
            r.0@,
            r.1@,
            speech_start_id,
            speech_pad_id,
            speech_end_id,
            n as nat,
            prefix_ids@,
            suffix_ids@,
        ),
{
    let ghost prefix = prefix_ids@;
    let ghost suffix = suffix_ids@;
    let mut ids = prefix_ids;
    let mut mask: Vec<bool> = Vec::new();
    let mut i: usize = 0;
    while i < ids.len()
        invariant
            ids@ == prefix,
            i <= ids.len(),
            mask@ == repeat(false, i as nat),
        decreases ids.len() - i,
    {
        mask.push(false);
        assert(mask@ =~= repeat(false, (i + 1) as nat));
        i = i + 1;
    }
    ids.push(speech_start_id);
    mask.push(false);
    let ghost ids1 = ids@;
    let ghost mask1 = mask@;
    let mut k: usize = 0;
    while k < n
        invariant
            k <= n,
            ids@ == ids1 + repeat(speech_pad_id, k as nat),
            mask@ == mask1 + repeat(true, k as nat),
        decreases n - k,
    {
        ids.push(speech_pad_id);
        mask.push(true);
        assert(ids@ =~= ids1 + repeat(speech_pad_id, (k + 1) as nat));
        assert(mask@ =~= mask1 + repeat(true, (k + 1) as nat));
        k = k + 1;
    }
    ids.push(speech_end_id);
    mask.push(false);
    let ghost ids2 = ids@;
    let ghost mask2 = mask@;
    let mut j: usize = 0;
    while j < suffix_ids.len()
        invariant
            suffix == suffix_ids@,
            j <= suffix_ids.len(),
            ids@ == ids2 + suffix.subrange(0, j as int),
            mask@ == mask2 + repeat(false, j as nat),
        decreases suffix_ids.len() - j,
    {
        ids.push(suffix_ids[j]);
        mask.push(false);
        assert(ids@ =~= ids2 + suffix.subrange(0, j + 1));
        assert(mask@ =~= mask2 + repeat(false, (j + 1) as nat));
        j = j + 1;
    }
    assert(suffix.subrange(0, suffix.len() as int) =~= suffix);
    assert(ids@ =~= prefix + seq![speech_start_id] + repeat(speech_pad_id, n as nat) + seq![
        speech_end_id,
    ] + suffix);
    assert(mask@ =~= repeat(false, prefix.len()) + seq![false] + repeat(true, n as nat) + seq![false]
        + repeat(false, suffix.len()));
    (ids, mask)
}

/// The text that opens every prompt.
pub fn system_prefix() -> (r: String)
    ensures
        r@ == system_prefix_spec(),
{
    String::from_str(
        "<|im_start|>system\nYou are a helpful assistant that transcribes audio input into text output in JSON format.<|im_end|>\n<|im_start|>user\n",
    )
}

/// The user's request that follows the speech, for audio lasting `centis`
/// hundredths of a second, with the optional context.
pub fn build_user_suffix(audio_duration_centis: u64, context_info: Option<&str>) -> (r: String)
    ensures
        r@ == user_suffix_spec(
            audio_duration_centis as nat,
            match context_info {
                Some(c) => Some(c@),
                None => None,
            },
        ),
{
    let mut duration = String::new();
    push_decimal(&mut duration, audio_duration_centis / 100);
    crate::strings::push_char(&mut duration, '.');
    push_pad2(&mut duration, audio_duration_centis % 100);
    assert(duration@ =~= duration_text(audio_duration_centis as nat));
    let mut out = String::from_str(" This is a ");
    out.append(duration.as_str());
    match context_info {
        Some(context) => {
            let chars = chars_of(context);
            let (a, b) = trim_bounds(&chars, 0, chars.len());
            assert(chars@.subrange(0, chars.len() as int) =~= chars@);
            if a < b {
                let trimmed = string_from_chars(&chars, a, b);
                out.append(" seconds audio, with extra info: ");
                out.append(trimmed.as_str());
                out.append("\n\nPlease transcribe it with these keys: ");
                out.append("Start time, End time, Speaker ID, Content");
                return out;
            }
        },
        None => {},
    }
    out.append(" seconds audio, please transcribe it with these keys: ");
    out.append("Start time, End time, Speaker ID, Content");
    out
}

/// The context handed with the speech counts only once trimmed: blank
/// context asks for the same as none, and context asks for the same as the
/// context trimmed.
pub proof fn lemma_context_is_trimmed(centis: nat, context: Seq<char>)
    ensures
        trim_spec(context).len() == 0 ==> user_turn_spec(centis, Some(context)) == user_turn_spec(
            centis,
            None,
        ),
        user_turn_spec(centis, Some(context)) == user_turn_spec(centis, Some(trim_spec(context))),
{
    lemma_trim_idempotent(context);
}

/// For the prompt, too, the context counts only once trimmed: a prompt
/// for blank context is exactly a prompt for none, and a prompt for some
/// context is exactly a prompt for that context trimmed.
pub proof fn lemma_prompt_context_is_trimmed(
    tokenizer: tokenizers::Tokenizer,
    ids: Seq<u32>,
    mask: Seq<bool>,
    start: u32,
    pad: u32,
    end: u32,
    n: nat,
    centis: nat,
    context: Seq<char>,
)
    ensures
        trim_spec(context).len() == 0 ==> (prompt_for(
            tokenizer,
            ids,
            mask,
            start,
            pad,
            end,
            n,
            centis,
            Some(context),
        ) <==> prompt_for(tokenizer, ids, mask, start, pad, end, n, centis, None)),
        prompt_for(tokenizer, ids, mask, start, pad, end, n, centis, Some(context)) <==> prompt_for(
            tokenizer,
            ids,
            mask,
            start,
            pad,
            end,
            n,
            centis,
            Some(trim_spec(context)),
        ),
{
    lemma_context_is_trimmed(centis, context);
}

/// The duration of `samples` samples of 24 kHz audio in hundredths of a
/// second, rounded to the nearest (halves upward): 240 samples make one.
pub fn audio_duration_centis(samples: usize) -> (c: u64)
    ensures
        c == (samples + 120) / 240,
{
    ((samples as u128 + 120) / 240) as u64
}

/// The rest of the prompt after the speech: the user's request, the end of
/// the user's turn and the start of the assistant's.
pub open spec fn user_turn_spec(centis: nat, context: Option<Seq<char>>) -> Seq<char> {
    user_suffix_spec(centis, context) + "<|im_end|>\n<|im_start|>assistant\n"@
}

/// The text of the prompt after the speech, for audio lasting `centis`
/// hundredths of a second, with the optional context.
pub fn user_turn_text(audio_duration_centis: u64, context_info: Option<&str>) -> (r: String)
    ensures
        r@ == user_turn_spec(
            audio_duration_centis as nat,
            match context_info {
                Some(c) => Some(c@),
                None => None,
            },
        ),
{
    let mut text = build_user_suffix(audio_duration_centis, context_info);
    text.append("<|im_end|>\n<|im_start|>assistant\n");
    text
}

/// Turns speech into prompts for the model.
#[derive(Debug)]
pub struct VibeVoiceAsrProcessor {
    tokenizer: tokenizers::Tokenizer,
    speech_tok_compress_ratio: usize,
    speech_start_id: u32,
    speech_pad_id: u32,
    speech_end_id: u32,
}

/// The model inputs for one stretch of speech.
#[derive(Debug)]
pub struct VibeVoiceAsrInputs {
    pub prompt_token_ids: Vec<u32>,
    pub acoustic_input_mask: Vec<bool>,
    pub speech_tensor: candle_core::Tensor,
    pub sample_rate: u32,
}

/// The id of the first of `tokens` that the tokenizer knows, looked up as
/// an added or model token, else in its vocabulary map; `InvalidInput` when
/// it knows none of them.
fn token_id_any(tokenizer: &tokenizers::Tokenizer, tokens: &[&str]) -> (r: Result<
    u32,
    VibeVoiceAsrError,
>)
    ensures
        r is Err <==> first_known_id(*tokenizer, strs_view(tokens@)) is None,
        r matches Ok(id) ==> first_known_id(*tokenizer, strs_view(tokens@)) == Some(id),
        r matches Err(e) ==> e is InvalidInput,
{
    let ghost all = strs_view(tokens@);
    let mut i: usize = 0;
    assert(all.skip(0) =~= all);
    while i < tokens.len()
        invariant
            i <= tokens.len(),
            all == strs_view(tokens@),
            first_known_id(*tokenizer, all) == first_known_id(*tokenizer, all.skip(i as int)),
        decreases tokens.len() - i,
    {
        let ghost rest = all.skip(i as int);
        assert(rest[0] == tokens@[i as int]@);
        assert(rest.drop_first() =~= all.skip(i + 1));
        match token_to_id(tokenizer, tokens[i]) {
            Some(id) => {
                return Ok(id);
            },
            None => {},
        }
        match vocab_id(tokenizer, tokens[i]) {
            Some(id) => {
                return Ok(id);
            },
            None => {},
        }
        i = i + 1;
    }
    assert(all.skip(i as int).len() == 0);
    Err(VibeVoiceAsrError::InvalidInput(String::from_str("missing tokenizer tokens")))
}

impl VibeVoiceAsrProcessor {
    pub closed spec fn spec_tokenizer(&self) -> tokenizers::Tokenizer {
        self.tokenizer
    }

    pub closed spec fn spec_ratio(&self) -> usize {
        self.speech_tok_compress_ratio
    }

    pub closed spec fn spec_start_id(&self) -> u32 {
        self.speech_start_id
    }

    pub closed spec fn spec_pad_id(&self) -> u32 {
        self.speech_pad_id
    }

    pub closed spec fn spec_end_id(&self) -> u32 {
        self.speech_end_id
    }

    /// A processor over `tokenizer`, compressing `speech_tok_compress_ratio`
    /// samples into one speech token. The tokenizer must know the speech
    /// start, placeholder and end markers (under their own or their fallback
    /// names), whose first known ids the processor keeps; otherwise
    /// `InvalidInput`.
    pub fn new(tokenizer: tokenizers::Tokenizer, speech_tok_compress_ratio: usize) -> (r: Result<
        Self,
        VibeVoiceAsrError,
    >)
        ensures
            r is Ok <==> first_known_id(tokenizer, speech_start_names()) is Some && first_known_id(
                tokenizer,
                speech_pad_names(),
            ) is Some && first_known_id(tokenizer, speech_end_names()) is Some,
            r matches Ok(p) ==> {
                &&& p.spec_ratio() == speech_tok_compress_ratio
                &&& p.spec_tokenizer() == tokenizer
                &&& first_known_id(tokenizer, speech_start_names()) == Some(p.spec_start_id())
                &&& first_known_id(tokenizer, speech_pad_names()) == Some(p.spec_pad_id())
                &&& first_known_id(tokenizer, speech_end_names()) == Some(p.spec_end_id())
            },
            r matches Err(e) ==> e is InvalidInput,
    {
        let start_names = ["<|speech_start|>", "<|object_ref_start|>"];
        let pad_names = ["<|speech_pad|>", "<|box_start|>"];
        let end_names = ["<|speech_end|>", "<|object_ref_end|>"];
        assert(strs_view(start_names@) =~= speech_start_names());
        assert(strs_view(pad_names@) =~= speech_pad_names());
        assert(strs_view(end_names@) =~= speech_end_names());
        let start = match token_id_any(&tokenizer, &start_names) {
            Ok(id) => id,
            Err(e) => {
                return Err(e);
            },
        };
        let pad = match token_id_any(&tokenizer, &pad_names) {
            Ok(id) => id,
            Err(e) => {
                return Err(e);
            },
        };
        let end = match token_id_any(&tokenizer, &end_names) {
            Ok(id) => id,
            Err(e) => {
                return Err(e);
            },
        };
        Ok(
            VibeVoiceAsrProcessor {
                tokenizer,
                speech_tok_compress_ratio,
                speech_start_id: start,
                speech_pad_id: pad,
                speech_end_id: end,
            },
        )
    }

    /// Samples per speech token.
    pub fn speech_tok_compress_ratio(&self) -> (r: usize)
        ensures
            r == self.spec_ratio(),
    {
        self.speech_tok_compress_ratio
    }

    /// The text tokenizer.
    pub fn tokenizer(&self) -> (r: &tokenizers::Tokenizer)
        ensures
            *r == self.spec_tokenizer(),
    {
        &self.tokenizer
    }

    /// The prompt for `vae_tok_len` speech tokens of audio lasting
    /// `audio_duration_centis` hundredths of a second: the encoding of
    /// `system_prefix()`, the speech block, and the encoding of
    /// `user_turn_text(..)`. Fails with `Tokenizer` when encoding fails.
    pub fn build_prompt(
        &self,
        vae_tok_len: usize,
        audio_duration_centis: u64,
        context_info: Option<&str>,
    ) -> (r: Result<(Vec<u32>, Vec<bool>), VibeVoiceAsrError>)
        ensures
            r matches Ok((ids, mask)) ==> frames_speech(
                ids@,
                mask@,
                self.spec_start_id(),
                self.spec_pad_id(),
                self.spec_end_id(),
                vae_tok_len as nat,
            ),
            r matches Ok((ids, mask)) ==> count_true(mask@) == vae_tok_len && ids.len()
                == mask.len(),
            r matches Ok((ids, mask)) ==> prompt_for(
                self.spec_tokenizer(),
                ids@,
                mask@,
                self.spec_start_id(),
                self.spec_pad_id(),
                self.spec_end_id(),
                vae_tok_len as nat,
                audio_duration_centis as nat,
                opt_str_view(context_info),
            ),
            !safe_to_encode(self.spec_tokenizer()) ==> (r matches Err(e) && e is Tokenizer),
            r matches Err(e) ==> e is Tokenizer,
    {
        if !can_encode(&self.tokenizer) {
            return Err(
                VibeVoiceAsrError::Tokenizer(
                    String::from_str("tokenizer truncation leaves no room for its special tokens"),
                ),
            );
        }
        let prefix_ids = match encode_ids(&self.tokenizer, system_prefix()) {
            Ok(ids) => ids,
            Err(msg) => {
                return Err(VibeVoiceAsrError::Tokenizer(msg));
            },
        };
        let suffix = user_turn_text(audio_duration_centis, context_info);
        assert(suffix@ == user_turn_spec(audio_duration_centis as nat, opt_str_view(context_info)));
        let suffix_ids = match encode_ids(&self.tokenizer, suffix) {
            Ok(ids) => ids,
            Err(msg) => {
                return Err(VibeVoiceAsrError::Tokenizer(msg));
            },
        };
        let ghost prefix = prefix_ids@;
        let ghost suffix_view = suffix_ids@;
        let (ids, mask) = assemble_prompt(
            prefix_ids,
            self.speech_start_id,
            self.speech_pad_id,
            self.speech_end_id,
            vae_tok_len,
            suffix_ids,
        );
        proof {
            lemma_prompt_flags_speech(
                ids@,
                mask@,
                self.speech_start_id,
                self.speech_pad_id,
                self.speech_end_id,
                vae_tok_len as nat,
                prefix,
                suffix_view,
            );
            assert(prompt_layout(
                ids@,
                mask@,
                self.spec_start_id(),
                self.spec_pad_id(),
                self.spec_end_id(),
                vae_tok_len as nat,
                prefix,
                suffix_view,
            ));
            assert(frames_speech(
                ids@,
                mask@,
                self.spec_start_id(),
                self.spec_pad_id(),
                self.spec_end_id(),
                vae_tok_len as nat,
            ));
            assert(prompt_for(
                self.spec_tokenizer(),
                ids@,
                mask@,
                self.spec_start_id(),
                self.spec_pad_id(),
                self.spec_end_id(),
                vae_tok_len as nat,
                audio_duration_centis as nat,
                opt_str_view(context_info),
            ));
        }
        Ok((ids, mask))
    }

    /// The model inputs for `speech_samples` samples of 24 kHz speech held in
    /// `speech_tensor`, which must have the shape `[1, 1, samples]`:
    /// `Candle` when it is not of rank 3, `InvalidInput` when it is but the
    /// first two dimensions are not 1. The prompt has one speech token per
    /// started group of `speech_tok_compress_ratio` samples and is the
    /// prompt that `build_prompt` makes of it with the duration
    /// `audio_duration_centis(speech_samples)`; `Tokenizer` when the prompt
    /// text cannot be encoded.
    pub fn prepare_audio_tensor(
        &self,
        speech_tensor: candle_core::Tensor,
        speech_samples: usize,
        context_info: Option<&str>,
    ) -> (r: Result<VibeVoiceAsrInputs, VibeVoiceAsrError>)
        requires
            self.spec_ratio() > 0,
        ensures
            ({
                let shape = tensor_shape(speech_tensor);
                &&& shape.len() != 3 ==> (r matches Err(e) && e is Candle)
                &&& shape.len() == 3 && (shape[0] != 1 || shape[1] != 1) ==> (r matches Err(e)
                    && e is InvalidInput)
                &&& shape.len() == 3 && shape[0] == 1 && shape[1] == 1 ==> (r is Ok || (r matches Err(
                    e,
                ) && e is Tokenizer))
                &&& shape.len() == 3 && shape[0] == 1 && shape[1] == 1 && !safe_to_encode(
                    self.spec_tokenizer(),
                ) ==> (r matches Err(e) && e is Tokenizer)
            }),
            r matches Ok(inputs) ==> {
                let n = (speech_samples + self.spec_ratio() - 1) / (self.spec_ratio() as int);
                &&& inputs.sample_rate == TARGET_SAMPLE_RATE
                &&& inputs.speech_tensor == speech_tensor
                &&& frames_speech(
                    inputs.prompt_token_ids@,
                    inputs.acoustic_input_mask@,
                    self.spec_start_id(),
                    self.spec_pad_id(),
                    self.spec_end_id(),
                    n as nat,
                )
                &&& count_true(inputs.acoustic_input_mask@) == n
                &&& inputs.prompt_token_ids.len() == inputs.acoustic_input_mask.len()
                &&& prompt_for(
                    self.spec_tokenizer(),
                    inputs.prompt_token_ids@,
                    inputs.acoustic_input_mask@,
                    self.spec_start_id(),
                    self.spec_pad_id(),
                    self.spec_end_id(),
                    n as nat,
                    ((speech_samples + 120) / 240) as nat,
                    opt_str_view(context_info),
                )
            },
    {
        let dims = match tensor_dims3(&speech_tensor) {
            Ok(d) => d,
            Err(msg) => {
                return Err(VibeVoiceAsrError::Candle(msg));
            },
        };
        let (batch, channels, _) = dims;
        if batch != 1 || channels != 1 {
            return Err(
                VibeVoiceAsrError::InvalidInput(
                    String::from_str("expected speech tensor shape [1, 1, samples]"),
                ),
            );
        }
        let vae_tok_len = crate::model::acoustic_token_count(
            speech_samples,
            Some(self.speech_tok_compress_ratio),
        );
        let centis = audio_duration_centis(speech_samples);
        let (prompt_token_ids, acoustic_input_mask) = self.build_prompt(
            vae_tok_len,
            centis,
            context_info,
        )?;
        Ok(
            VibeVoiceAsrInputs {
                prompt_token_ids,
                acoustic_input_mask,
                speech_tensor,
                sample_rate: TARGET_SAMPLE_RATE,
            },
        )
    }
}

} // verus!
