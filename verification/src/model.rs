//! The bookkeeping of the speech recognition model: where speech features
//! replace token embeddings, which prompt positions are acoustic, which
//! weight files and weight prefixes to load, and the shape of the decoder.
use vstd::prelude::*;
use vstd::arithmetic::div_mod::lemma_fundamental_div_mod_converse;

use crate::config::{Qwen2DecoderConfig, VibeVoiceASRConfig, prefix_product, product_fits};
use crate::tensor::{tensor_dims3, tensor_shape};
use crate::error::VibeVoiceAsrError;

verus! {

/// Default Hugging Face repository of the model.
pub const DEFAULT_MODEL_REPO: &'static str = "microsoft/VibeVoice-ASR-HF";

/// Number of set flags among the first `i` of `mask`.
pub open spec fn rank(mask: Seq<bool>, i: int) -> int
    decreases i,
{
    if i <= 0 {
        0
    } else {
        rank(mask, i - 1) + if mask[i - 1] {
            1int
        } else {
            0int
        }
    }
}

/// The value at flat position `p` once speech features replace token
/// embeddings: the `k`-th flagged row (counting from 0) takes speech row `k`,
/// while there are speech rows; every other row keeps its embedding.
pub open spec fn scattered<T>(
    embeddings: Seq<T>,
    mask: Seq<bool>,
    speech: Seq<T>,
    speech_len: int,
    hidden: int,
    p: int,
) -> T {
    let row = p / hidden;
    if mask[row] && rank(mask, row) < speech_len {
        speech[rank(mask, row) * hidden + p % hidden]
    } else {
        embeddings[p]
    }
}

proof fn lemma_row_index(i: int, h: int, rows: int, hidden: int)
    requires
        0 <= i < rows,
        0 <= h < hidden,
    ensures
        0 <= i * hidden + h < rows * hidden,
        (i + 1) * hidden <= rows * hidden,
        (i * hidden + h) / hidden == i,
        (i * hidden + h) % hidden == h,
{
    assert((i + 1) * hidden <= rows * hidden) by (nonlinear_arith)
        requires
            i + 1 <= rows,
            hidden >= 0,
    ;
    assert((i + 1) * hidden == i * hidden + hidden) by (nonlinear_arith);
    assert(0 <= i * hidden) by (nonlinear_arith)
        requires
            i >= 0,
            hidden >= 0,
    ;
    lemma_fundamental_div_mod_converse(i * hidden + h, hidden, i, h);
}

/// Replaces, in the `batch x seq_len x hidden` token embeddings (flat), the
/// rows flagged in `acoustic_input_mask` by the rows of the speech features
/// (`speech_len x speech_hidden`, flat), in order, while speech rows last.
/// Only one sequence at a time is supported, the mask must cover the
/// sequence, and the two widths must agree; otherwise `InvalidInput`.
pub fn apply_speech_features<T: Copy>(
    token_embeddings: Vec<T>,
    batch: usize,
    seq_len: usize,
    hidden: usize,
    acoustic_input_mask: &[bool],
    speech_values: &Vec<T>,
    speech_len: usize,
    speech_hidden: usize,
) -> (r: Result<Vec<T>, VibeVoiceAsrError>)
    requires
        token_embeddings.len() == batch * seq_len * hidden,
        speech_values.len() >= speech_len * speech_hidden,
    ensures
        r is Err <==> batch != 1 || acoustic_input_mask@.len() != seq_len || hidden
            != speech_hidden,
        r matches Err(e) ==> e is InvalidInput,
        r matches Ok(out) ==> {
            &&& out.len() == token_embeddings.len()
            &&& forall|p: int|
                0 <= p < out.len() ==> #[trigger] out@[p] == scattered(
                    token_embeddings@,
                    acoustic_input_mask@,
                    speech_values@,
                    speech_len as int,
                    hidden as int,
                    p,
                )
        },
{
    if batch != 1 {
        return Err(
            VibeVoiceAsrError::InvalidInput(
                String::from_str("only batch size 1 is supported in transcribe_inputs"),
            ),
        );
    }
    if acoustic_input_mask.len() != seq_len {
        return Err(
            VibeVoiceAsrError::InvalidInput(
                String::from_str("acoustic_input_mask length does not match sequence length"),
            ),
        );
    }
    if hidden != speech_hidden {
        return Err(
            VibeVoiceAsrError::InvalidInput(
                String::from_str("speech hidden size does not match token embedding hidden size"),
            ),
        );
    }
    let ghost emb = token_embeddings@;
    let ghost mask = acoustic_input_mask@;
    let ghost speech = speech_values@;
    assert(1 * seq_len * hidden == seq_len * hidden) by (nonlinear_arith);
    let mut out = token_embeddings;
    let mut i: usize = 0;
    let mut k: usize = 0;
    while i < seq_len
        invariant
            i <= seq_len,
            out.len() == seq_len * hidden,
            emb.len() == seq_len * hidden,
            mask == acoustic_input_mask@,
            mask.len() == seq_len,
            speech == speech_values@,
            hidden == speech_hidden,
            speech_values.len() >= speech_len * speech_hidden,
            k == rank(mask, i as int),
            k <= i,
            forall|p: int|
                0 <= p < i * hidden ==> #[trigger] out@[p] == scattered(
                    emb,
                    mask,
                    speech,
                    speech_len as int,
                    hidden as int,
                    p,
                ),
            forall|p: int| i * hidden <= p < out.len() ==> #[trigger] out@[p] == emb[p],
        decreases seq_len - i,
    {
        let copy = acoustic_input_mask[i] && k < speech_len;
        let mut h: usize = 0;
        while h < hidden
            invariant
                i < seq_len,
                h <= hidden,
                out.len() == seq_len * hidden,
                emb.len() == seq_len * hidden,
                mask == acoustic_input_mask@,
                mask.len() == seq_len,
                speech == speech_values@,
                hidden == speech_hidden,
                speech_values.len() >= speech_len * speech_hidden,
                k == rank(mask, i as int),
                copy == (mask[i as int] && k < speech_len),
                forall|p: int|
                    0 <= p < i * hidden + h ==> #[trigger] out@[p] == scattered(
                        emb,
                        mask,
                        speech,
                        speech_len as int,
                        hidden as int,
                        p,
                    ),
                forall|p: int| i * hidden + h <= p < out.len() ==> #[trigger] out@[p] == emb[p],
            decreases hidden - h,
        {
            proof {
                lemma_row_index(i as int, h as int, seq_len as int, hidden as int);
            }
            let pos = i * hidden + h;
            if copy {
                proof {
                    lemma_row_index(k as int, h as int, speech_len as int, hidden as int);
                }
                let v = speech_values[k * hidden + h];
                out.set(pos, v);
            }
            assert(out@[pos as int] == scattered(
                emb,
                mask,
                speech,
                speech_len as int,
                hidden as int,
                pos as int,
            ));
            h = h + 1;
        }
        assert((i + 1) * hidden == i * hidden + hidden) by (nonlinear_arith);
        if acoustic_input_mask[i] {
            k = k + 1;
        }
        i = i + 1;
    }
    Ok(out)
}

/// How many acoustic tokens `samples` samples give at `ratio` samples per token.
pub open spec fn acoustic_token_count_spec(samples: int, ratio: Option<usize>) -> int {
    match ratio {
        Some(r) => (samples + r - 1) / (r as int),
        None => 0,
    }
}

/// How many acoustic tokens `samples` samples give: one per started group
/// of `ratio` samples, or none when the ratio is unknown.
pub fn acoustic_token_count(samples: usize, ratio: Option<usize>) -> (r: usize)
    requires
        ratio matches Some(d) ==> d > 0,
    ensures
        r == acoustic_token_count_spec(samples as int, ratio),
{
    match ratio {
        Some(d) => {
            let q = samples / d;
            proof {
                vstd::arithmetic::div_mod::lemma_fundamental_div_mod(samples as int, d as int);
                assert((d as int) * (q as int) == (q as int) * (d as int)) by (nonlinear_arith);
                assert((q + 1) * (d as int) == (q as int) * (d as int) + d) by (nonlinear_arith);
            }
            if samples % d == 0 {
                assert((samples + d - 1) / (d as int) == q) by {
                    lemma_fundamental_div_mod_converse(samples + d - 1, d as int, q as int, d - 1);
                }
                q
            } else {
                assert((samples + d - 1) / (d as int) == q + 1) by {
                    let rem = samples % d;
                    lemma_fundamental_div_mod_converse(samples as int, d as int, q as int, rem as int);
                    lemma_fundamental_div_mod_converse(
                        samples + d - 1,
                        d as int,
                        q + 1,
                        rem - 1,
                    );
                }
                assert(q + 1 <= samples) by {
                    assert(q * d >= q) by (nonlinear_arith)
                        requires
                            d >= 1,
                            q >= 0,
                    ;
                    lemma_fundamental_div_mod_converse(
                        samples as int,
                        d as int,
                        q as int,
                        (samples % d) as int,
                    );
                }
                q + 1
            }
        },
        None => 0,
    }
}

/// The acoustic mask for a prompt of `prompt_len` tokens whose last
/// `acoustic_len` positions (all of them, if fewer) hold speech.
pub fn trailing_acoustic_mask(prompt_len: usize, acoustic_len: usize) -> (r: Vec<bool>)
    ensures
        r.len() == prompt_len,
        forall|i: int|
            0 <= i < prompt_len ==> #[trigger] r@[i] == (i >= prompt_len - acoustic_len),
{
    let take = if acoustic_len < prompt_len {
        acoustic_len
    } else {
        prompt_len
    };
    let first = prompt_len - take;
    let mut r: Vec<bool> = Vec::new();
    let mut i: usize = 0;
    while i < prompt_len
        invariant
            i <= prompt_len,
            first == prompt_len - take,
            take == if acoustic_len < prompt_len { acoustic_len } else { prompt_len },
            r.len() == i,
            forall|j: int| 0 <= j < i ==> #[trigger] r@[j] == (j >= prompt_len - acoustic_len),
        decreases prompt_len - i,
    {
        r.push(i >= first);
        i = i + 1;
    }
    r
}

/// How many trailing prompt positions hold speech for a speech tensor of
/// shape `shape` under the encoder `ratios`: one per started group of the
/// ratios' product of samples (the last dimension of a rank-3 tensor, else
/// none), or none when that product overflows.
pub open spec fn speech_positions(ratios: Seq<usize>, shape: Seq<usize>) -> int {
    let samples: int = if shape.len() == 3 {
        shape[2] as int
    } else {
        0
    };
    if product_fits(ratios) {
        acoustic_token_count_spec(samples, Some(prefix_product(ratios, ratios.len() as int) as usize))
    } else {
        0
    }
}

/// The acoustic mask for a prompt of `prompt_len` tokens followed by the
/// speech in `speech_tensor`: its last positions, one per speech token
/// that the acoustic encoder makes of the tensor's samples, are flagged.
/// An encoder whose downsampling ratios multiply to zero cannot be used.
pub fn speech_mask_for_prompt(
    config: &VibeVoiceASRConfig,
    prompt_len: usize,
    speech_tensor: &candle_core::Tensor,
) -> (r: Vec<bool>)
    requires
        product_fits(config.acoustic_tokenizer_config.encoder_ratios@) ==> prefix_product(
            config.acoustic_tokenizer_config.encoder_ratios@,
            config.acoustic_tokenizer_config.encoder_ratios@.len() as int,
        ) != 0,
    ensures
        r.len() == prompt_len,
        forall|i: int|
            0 <= i < prompt_len ==> #[trigger] r@[i] == (i >= prompt_len - speech_positions(
                config.acoustic_tokenizer_config.encoder_ratios@,
                tensor_shape(*speech_tensor),
            )),
{
    let samples = match tensor_dims3(speech_tensor) {
        Ok((_, _, n)) => n,
        Err(_) => 0,
    };
    let acoustic_len = match config.encoder_ratios_product() {
        Ok(ratio) => acoustic_token_count(samples, Some(ratio)),
        Err(_) => 0,
    };
    trailing_acoustic_mask(prompt_len, acoustic_len)
}

/// `s` is strictly increasing in lexicographic character order (which is
/// the byte order of the UTF-8 text).
pub open spec fn char_seq_less(a: Seq<char>, b: Seq<char>) -> bool
    decreases a.len(),
{
    if a.len() == 0 {
        b.len() > 0
    } else if b.len() == 0 {
        false
    } else if a[0] != b[0] {
        a[0] < b[0]
    } else {
        char_seq_less(a.drop_first(), b.drop_first())
    }
}

/// The names are in strictly increasing order.
pub open spec fn strictly_sorted(names: Seq<Seq<char>>) -> bool {
    forall|i: int, j: int|
        0 <= i < j < names.len() ==> char_seq_less(#[trigger] names[i], #[trigger] names[j])
}

/// The views of a sequence of strings.
pub open spec fn strings_view(v: Seq<String>) -> Seq<Seq<char>> {
    v.map_values(|s: String| s@)
}

/// A weight file name: its extension is `safetensors` (something before
/// the final `.safetensors`).
pub open spec fn is_weight_file_name(name: Seq<char>) -> bool {
    let ext = seq!['.', 's', 'a', 'f', 'e', 't', 'e', 'n', 's', 'o', 'r', 's'];
    name.len() > ext.len() && name.subrange(name.len() - ext.len(), name.len() as int) == ext
}

proof fn lemma_less_irreflexive(a: Seq<char>)
    ensures
        !char_seq_less(a, a),
    decreases a.len(),
{
    if a.len() > 0 {
        lemma_less_irreflexive(a.drop_first());
    }
}

proof fn lemma_less_total(a: Seq<char>, b: Seq<char>)
    ensures
        a == b || char_seq_less(a, b) || char_seq_less(b, a),
    decreases a.len(),
{
    if a.len() > 0 && b.len() > 0 && a[0] == b[0] {
        lemma_less_total(a.drop_first(), b.drop_first());
        if a.drop_first() == b.drop_first() {
            assert(a =~= seq![a[0]] + a.drop_first());
            assert(b =~= seq![b[0]] + b.drop_first());
        }
    } else if a.len() > 0 && b.len() > 0 {
        assert(a[0] != b[0]);
    } else if a.len() == 0 && b.len() == 0 {
        assert(a =~= b);
    }
}

proof fn lemma_less_transitive(a: Seq<char>, b: Seq<char>, c: Seq<char>)
    requires
        char_seq_less(a, b),
        char_seq_less(b, c),
    ensures
        char_seq_less(a, c),
    decreases a.len(),
{
    if a.len() > 0 && b.len() > 0 && c.len() > 0 && a[0] == b[0] && b[0] == c[0] {
        lemma_less_transitive(a.drop_first(), b.drop_first(), c.drop_first());
    }
}

/// Whether `a` comes before `b` in lexicographic character order.
fn chars_less(a: &Vec<char>, b: &Vec<char>) -> (r: bool)
    ensures
        r == char_seq_less(a@, b@),
{
    let mut i: usize = 0;
    assert(a@.skip(0) =~= a@);
    assert(b@.skip(0) =~= b@);
    while i < a.len() && i < b.len() && a[i] == b[i]
        invariant
            i <= a.len(),
            i <= b.len(),
            char_seq_less(a@, b@) == char_seq_less(a@.skip(i as int), b@.skip(i as int)),
        decreases a.len() - i,
    {
        assert(a@.skip(i as int).drop_first() =~= a@.skip(i + 1));
        assert(b@.skip(i as int).drop_first() =~= b@.skip(i + 1));
        i = i + 1;
    }
    if i == a.len() {
        i < b.len()
    } else if i == b.len() {
        false
    } else {
        a[i] < b[i]
    }
}

/// A path's components after one `/`-separated part has ended: empty parts
/// and `.` are not components.
pub open spec fn push_part(parts: Seq<Seq<char>>, part: Seq<char>) -> Seq<Seq<char>> {
    if part.len() == 0 || part == seq!['.'] {
        parts
    } else {
        parts.push(part)
    }
}

/// The components ended so far, and the part being read, after reading `s`.
pub open spec fn split_state(s: Seq<char>) -> (Seq<Seq<char>>, Seq<char>)
    decreases s.len(),
{
    if s.len() == 0 {
        (seq![], seq![])
    } else {
        let (parts, part) = split_state(s.drop_last());
        if s.last() == '/' {
            (push_part(parts, part), seq![])
        } else {
            (parts, part.push(s.last()))
        }
    }
}

/// The components of the relative path `s`, as a path joined to the model
/// directory has them: its `/`-separated parts but empty ones and `.`.
pub open spec fn path_parts(s: Seq<char>) -> Seq<Seq<char>> {
    push_part(split_state(s).0, split_state(s).1)
}

/// The key of one component: a parent-directory component (`..`) orders
/// before every name, so it is written as a character below all others.
pub open spec fn part_key(part: Seq<char>) -> Seq<char> {
    if part == seq!['.', '.'] {
        seq!['\0']
    } else {
        part
    }
}

/// The component keys joined with a separator that orders below every
/// character of a name.
pub open spec fn join_keys(parts: Seq<Seq<char>>) -> Seq<char>
    decreases parts.len(),
{
    if parts.len() == 0 {
        seq![]
    } else if parts.len() == 1 {
        part_key(parts[0])
    } else {
        join_keys(parts.drop_last()) + seq!['\0'] + part_key(parts.last())
    }
}

/// The key by which weight file paths are ordered and told apart: character
/// order of keys is the order of the paths by components (for names whose
/// components hold no NUL character), and two names with one key name the
/// same file.
pub open spec fn path_key(name: Seq<char>) -> Seq<char> {
    join_keys(path_parts(name))
}

/// The path keys of some names.
pub open spec fn keys_of(names: Seq<Seq<char>>) -> Seq<Seq<char>> {
    names.map_values(|n: Seq<char>| path_key(n))
}

/// Appends the key of the component `part` (if it is one) to `key`, which
/// holds the keys of `parts`; `has` says whether there are any.
fn push_part_key(key: &mut Vec<char>, has: &mut bool, part: &Vec<char>, Ghost(parts): Ghost<
    Seq<Seq<char>>,
>)
    requires
        old(key)@ == join_keys(parts),
        *old(has) == (parts.len() > 0),
    ensures
        final(key)@ == join_keys(push_part(parts, part@)),
        *final(has) == (push_part(parts, part@).len() > 0),
{
    if part.len() == 0 || (part.len() == 1 && part[0] == '.') {
        proof {
            if part@.len() == 1 {
                assert(part@ =~= seq!['.']);
            }
        }
        return;
    }
    proof {
        assert(part@ != seq!['.']) by {
            if part@ == seq!['.'] {
                assert(part@.len() == 1 && part@[0] == '.');
            }
        }
        assert(parts.push(part@).drop_last() =~= parts);
    }
    if *has {
        key.push('\0');
    }
    if part.len() == 2 && part[0] == '.' && part[1] == '.' {
        assert(part@ =~= seq!['.', '.']);
        key.push('\0');
    } else {
        assert(part@ != seq!['.', '.']) by {
            if part@ == seq!['.', '.'] {
                assert(part@.len() == 2 && part@[0] == '.' && part@[1] == '.');
            }
        }
        let mut i: usize = 0;
        let ghost base = key@;
        while i < part.len()
            invariant
                i <= part.len(),
                key@ == base + part@.take(i as int),
            decreases part.len() - i,
        {
            key.push(part[i]);
            assert(part@.take(i + 1) =~= part@.take(i as int).push(part@[i as int]));
            i = i + 1;
        }
        assert(part@.take(part.len() as int) =~= part@);
    }
    *has = true;
    assert(key@ =~= join_keys(parts.push(part@)));
}

/// The path key of `name`.
fn path_key_of(name: &String) -> (k: Vec<char>)
    ensures
        k@ == path_key(name@),
{
    let chars = crate::strings::chars_of(name.as_str());
    let mut key: Vec<char> = Vec::new();
    let mut has = false;
    let mut part: Vec<char> = Vec::new();
    let ghost mut parts: Seq<Seq<char>> = seq![];
    let mut i: usize = 0;
    assert(chars@.take(0) =~= Seq::<char>::empty());
    while i < chars.len()
        invariant
            i <= chars.len(),
            chars@ == name@,
            split_state(chars@.take(i as int)) == (parts, part@),
            key@ == join_keys(parts),
            has == (parts.len() > 0),
        decreases chars.len() - i,
    {
        let c = chars[i];
        assert(chars@.take(i + 1).drop_last() =~= chars@.take(i as int));
        assert(chars@.take(i + 1).last() == c);
        if c == '/' {
            push_part_key(&mut key, &mut has, &part, Ghost(parts));
            proof {
                parts = push_part(parts, part@);
            }
            part = Vec::new();
            assert(part@ =~= Seq::<char>::empty());
        } else {
            part.push(c);
        }
        i = i + 1;
    }
    assert(chars@.take(chars.len() as int) =~= chars@);
    push_part_key(&mut key, &mut has, &part, Ghost(parts));
    key
}

/// Adds `name` to `names`, whose path keys are strictly sorted, unless a
/// name with its key is there already.
fn insert_sorted(names: &mut Vec<String>, keys: &mut Vec<Vec<char>>, name: String)
    requires
        old(names).len() == old(keys).len(),
        forall|i: int| 0 <= i < old(names).len() ==> #[trigger] old(keys)@[i]@ == path_key(
            old(names)@[i]@,
        ),
        strictly_sorted(keys_of(strings_view(old(names)@))),
    ensures
        final(names).len() == final(keys).len(),
        forall|i: int| 0 <= i < final(names).len() ==> #[trigger] final(keys)@[i]@ == path_key(
            final(names)@[i]@,
        ),
        strictly_sorted(keys_of(strings_view(final(names)@))),
        keys_of(strings_view(final(names)@)).contains(path_key(name@)),
        forall|k: Seq<char>|
            keys_of(strings_view(old(names)@)).contains(k) ==> keys_of(
                strings_view(final(names)@),
            ).contains(k),
        forall|x: Seq<char>|
            strings_view(final(names)@).contains(x) ==> strings_view(old(names)@).contains(x) || x
                == name@,
{
    let key = path_key_of(&name);
    let ghost oldn = strings_view(names@);
    let ghost olds = keys_of(oldn);
    let mut pos: usize = 0;
    while pos < keys.len() && chars_less(&keys[pos], &key)
        invariant
            pos <= keys.len(),
            names.len() == keys.len(),
            oldn == strings_view(names@),
            olds == keys_of(oldn),
            forall|i: int| 0 <= i < names.len() ==> #[trigger] keys@[i]@ == path_key(names@[i]@),
            forall|i: int| 0 <= i < pos ==> char_seq_less(#[trigger] olds[i], key@),
        decreases keys.len() - pos,
    {
        pos = pos + 1;
    }
    if pos < keys.len() && !chars_less(&key, &keys[pos]) {
        // keys[pos] is neither before nor after: it is the same key
        proof {
            lemma_less_total(keys@[pos as int]@, key@);
            assert(olds[pos as int] == key@);
        }
        return;
    }
    proof {
        assert forall|i: int| pos <= i < olds.len() implies char_seq_less(key@, #[trigger] olds[i]) by {
            if i > pos {
                assert(char_seq_less(olds[pos as int], olds[i]));
                if pos < keys.len() {
                    lemma_less_total(key@, olds[pos as int]);
                    lemma_less_transitive(key@, olds[pos as int], olds[i]);
                }
            } else {
                lemma_less_total(key@, olds[pos as int]);
            }
        }
    }
    names.insert(pos, name);
    keys.insert(pos, key);
    proof {
        let newn = strings_view(names@);
        assert(newn =~= oldn.insert(pos as int, name@));
        let news = keys_of(newn);
        assert(news =~= olds.insert(pos as int, key@));
        assert forall|i: int, j: int| 0 <= i < j < news.len() implies char_seq_less(
            #[trigger] news[i],
            #[trigger] news[j],
        ) by {
            if j < pos {
                assert(news[i] == olds[i] && news[j] == olds[j]);
            } else if j == pos {
                assert(news[i] == olds[i]);
            } else if i == pos {
                assert(news[j] == olds[j - 1]);
            } else if i < pos {
                assert(news[i] == olds[i] && news[j] == olds[j - 1]);
                lemma_less_transitive(olds[i], key@, olds[j - 1]);
            } else {
                assert(news[i] == olds[i - 1] && news[j] == olds[j - 1]);
            }
        }
        assert(news[pos as int] == key@);
        assert forall|k: Seq<char>| olds.contains(k) implies news.contains(k) by {
            let i = choose|i: int| 0 <= i < olds.len() && olds[i] == k;
            if i < pos {
                assert(news[i] == k);
            } else {
                assert(news[i + 1] == k);
            }
        }
        assert forall|x: Seq<char>| newn.contains(x) implies oldn.contains(x) || x == name@ by {
            let i = choose|i: int| 0 <= i < newn.len() && newn[i] == x;
            if i < pos {
                assert(oldn[i] == x);
            } else if i > pos {
                assert(oldn[i - 1] == x);
            }
        }
    }
}

/// Names of `names`, one for each path key among them, in increasing key
/// order.
fn sorted_unique(names: Vec<String>) -> (r: Vec<String>)
    ensures
        strictly_sorted(keys_of(strings_view(r@))),
        forall|x: Seq<char>| strings_view(r@).contains(x) ==> strings_view(names@).contains(x),
        forall|n: Seq<char>|
            strings_view(names@).contains(n) ==> keys_of(strings_view(r@)).contains(path_key(n)),
{
    let ghost input = strings_view(names@);
    let mut rest = names;
    let mut out: Vec<String> = Vec::new();
    let mut keys: Vec<Vec<char>> = Vec::new();
    while rest.len() > 0
        invariant
            out.len() == keys.len(),
            forall|i: int| 0 <= i < out.len() ==> #[trigger] keys@[i]@ == path_key(out@[i]@),
            strictly_sorted(keys_of(strings_view(out@))),
            input.len() >= rest.len(),
            strings_view(rest@) == input.subrange(0, rest.len() as int),
            forall|x: Seq<char>| strings_view(out@).contains(x) ==> input.contains(x),
            forall|j: int|
                rest.len() <= j < input.len() ==> keys_of(strings_view(out@)).contains(
                    path_key(#[trigger] input[j]),
                ),
        decreases rest.len(),
    {
        let ghost n = rest.len() as int;
        let ghost before_rest = rest@;
        let ghost before_out = strings_view(out@);
        let name = rest.pop().unwrap();
        assert(name@ == input[n - 1]) by {
            assert(strings_view(before_rest)[n - 1] == before_rest[n - 1]@);
        }
        insert_sorted(&mut out, &mut keys, name);
        proof {
            assert forall|x: Seq<char>| strings_view(out@).contains(x) implies input.contains(x) by {
                if x == input[n - 1] {
                    assert(input[n - 1] == x);
                } else {
                    assert(before_out.contains(x));
                }
            }
            assert forall|j: int| rest.len() <= j < input.len() implies keys_of(
                strings_view(out@),
            ).contains(path_key(#[trigger] input[j])) by {
                if j > n - 1 {
                    assert(keys_of(before_out).contains(path_key(input[j])));
                }
            }
        }
        assert(strings_view(rest@) =~= input.subrange(0, rest.len() as int));
    }
    proof {
        assert forall|m: Seq<char>| input.contains(m) implies keys_of(strings_view(out@)).contains(
            path_key(m),
        ) by {
            let j = choose|j: int| 0 <= j < input.len() && input[j] == m;
            assert(keys_of(strings_view(out@)).contains(path_key(input[j])));
        }
    }
    out
}


/// Whether a file name has the `safetensors` extension.
fn is_weight_file(name: &String) -> (r: bool)
    ensures
        r == is_weight_file_name(name@),
{
    let chars = crate::strings::chars_of(name.as_str());
    let ext = crate::strings::chars_of(".safetensors");
    proof {
        reveal_strlit(".safetensors");
        assert(ext@ =~= seq!['.', 's', 'a', 'f', 'e', 't', 'e', 'n', 's', 'o', 'r', 's']);
    }
    if chars.len() <= ext.len() {
        return false;
    }
    let start = chars.len() - ext.len();
    assert(ext@.subrange(0, ext.len() as int) =~= ext@);
    crate::strings::same_chars(&chars, start, chars.len(), &ext, 0, ext.len())
}

/// The weight files to load, as names within the model directory, one for
/// each file (names with the same path key name the same file; which of
/// them is kept is left open). When the
/// directory has a weight index, the files it maps tensors to; otherwise
/// its files with the `safetensors` extension, or `InvalidInput` when there
/// is none. Either way in increasing order of their paths.
pub fn select_weight_files(index_files: Option<Vec<String>>, dir_entries: Vec<String>) -> (r:
    Result<Vec<String>, VibeVoiceAsrError>)
    ensures
        r matches Ok(files) ==> strictly_sorted(keys_of(strings_view(files@))),
        index_files matches Some(names) ==> r matches Ok(files) && (forall|x: Seq<char>|
            strings_view(files@).contains(x) ==> strings_view(names@).contains(x)) && (forall|
            n: Seq<char>,
        |
            strings_view(names@).contains(n) ==> keys_of(strings_view(files@)).contains(
                path_key(n),
            )),
        index_files is None ==> {
            let wanted = strings_view(dir_entries@).to_set().filter(
                |n: Seq<char>| is_weight_file_name(n),
            );
            &&& r is Err <==> wanted.is_empty()
            &&& r matches Err(e) ==> e is InvalidInput
            &&& r matches Ok(files) ==> (forall|x: Seq<char>|
                strings_view(files@).contains(x) ==> wanted.contains(x)) && (forall|n: Seq<char>|
                wanted.contains(n) ==> keys_of(strings_view(files@)).contains(path_key(n)))
        },
{
    match index_files {
        Some(names) => Ok(sorted_unique(names)),
        None => {
            let ghost entries = strings_view(dir_entries@);
            let mut kept: Vec<String> = Vec::new();
            let mut rest = dir_entries;
            while rest.len() > 0
                invariant
                    entries.len() >= rest.len(),
                    strings_view(rest@) == entries.subrange(0, rest.len() as int),
                    strings_view(kept@).to_set() == entries.subrange(
                        rest.len() as int,
                        entries.len() as int,
                    ).to_set().filter(|n: Seq<char>| is_weight_file_name(n)),
                decreases rest.len(),
            {
                let ghost n = rest.len() as int;
                let ghost before_rest = rest@;
                let ghost before_kept = strings_view(kept@);
                let name = rest.pop().unwrap();
                assert(name@ == entries[n - 1]) by {
                    assert(strings_view(before_rest)[n - 1] == before_rest[n - 1]@);
                }
                let keep = is_weight_file(&name);
                if keep {
                    kept.push(name);
                }
                proof {
                    let tail = entries.subrange(n, entries.len() as int);
                    let longer = entries.subrange(n - 1, entries.len() as int);
                    let f = |x: Seq<char>| is_weight_file_name(x);
                    assert forall|x: Seq<char>| #![auto] longer.to_set().contains(x) <==> (
                    tail.to_set().contains(x) || x == entries[n - 1]) by {
                        if longer.to_set().contains(x) {
                            let i = choose|i: int| 0 <= i < longer.len() && longer[i] == x;
                            if i > 0 {
                                assert(tail[i - 1] == x);
                            }
                        }
                        if tail.to_set().contains(x) {
                            let i = choose|i: int| 0 <= i < tail.len() && tail[i] == x;
                            assert(longer[i + 1] == x);
                        }
                        if x == entries[n - 1] {
                            assert(longer[0] == x);
                        }
                    }
                    if keep {
                        assert(strings_view(kept@) =~= before_kept.push(name@));
                        assert forall|x: Seq<char>| #![auto] strings_view(kept@).to_set().contains(
                            x,
                        ) <==> before_kept.to_set().contains(x) || x == name@ by {
                            if strings_view(kept@).to_set().contains(x) {
                                let i = choose|i: int|
                                    0 <= i < strings_view(kept@).len() && strings_view(kept@)[i]
                                        == x;
                                if i < before_kept.len() {
                                    assert(before_kept[i] == x);
                                }
                            }
                            if before_kept.to_set().contains(x) {
                                let i = choose|i: int| 0 <= i < before_kept.len() && before_kept[i] == x;
                                assert(strings_view(kept@)[i] == x);
                            }
                            if x == name@ {
                                assert(strings_view(kept@)[before_kept.len() as int] == x);
                            }
                        }
                        assert forall|x: Seq<char>| #![auto] strings_view(kept@).to_set().contains(
                            x,
                        ) <==> longer.to_set().filter(f).contains(x) by {
                            assert(before_kept.to_set().contains(x) <==> tail.to_set().filter(
                                f,
                            ).contains(x));
                        }
                        assert(strings_view(kept@).to_set() =~= longer.to_set().filter(f));
                    } else {
                        assert(strings_view(kept@) == before_kept);
                        assert forall|x: Seq<char>| #![auto] strings_view(kept@).to_set().contains(
                            x,
                        ) <==> longer.to_set().filter(f).contains(x) by {
                            assert(before_kept.to_set().contains(x) <==> tail.to_set().filter(
                                f,
                            ).contains(x));
                        }
                        assert(strings_view(kept@).to_set() =~= longer.to_set().filter(f));
                    }
                }
                assert(strings_view(rest@) =~= entries.subrange(0, rest.len() as int));
            }
            assert(entries.subrange(0, entries.len() as int) =~= entries);
            if kept.len() == 0 {
                proof {
                    assert(strings_view(kept@).to_set() =~= Set::<Seq<char>>::empty());
                }
                return Err(
                    VibeVoiceAsrError::InvalidInput(
                        String::from_str("no .safetensors files found in the model directory"),
                    ),
                );
            }
            let ghost kept_names = strings_view(kept@);
            let files = sorted_unique(kept);
            proof {
                let x = kept_names[0];
                assert(kept_names.to_set().contains(x));
                let wanted = entries.to_set().filter(|n: Seq<char>| is_weight_file_name(n));
                assert forall|n: Seq<char>| wanted.contains(n) implies keys_of(
                    strings_view(files@),
                ).contains(path_key(n)) by {
                    assert(kept_names.to_set().contains(n));
                }
                assert forall|y: Seq<char>| strings_view(files@).contains(y) implies wanted.contains(
                    y,
                ) by {
                    assert(kept_names.contains(y));
                    assert(kept_names.to_set().contains(y));
                }
            }
            Ok(files)
        },
    }
}

/// The tensor names that reveal weights stored under `prefix`: a speech
/// connector, a tokenizer encoder or a language model.
pub open spec fn probe_names_spec(prefix: Seq<char>) -> Seq<Seq<char>> {
    seq![
        prefix + ".fc1.weight"@,
        prefix + ".encoder.head.weight"@,
        prefix + ".model.embed_tokens.weight"@,
    ]
}

/// The tensor names to look for under `prefix`.
pub fn prefix_probes(prefix: &str) -> (r: Vec<String>)
    ensures
        strings_view(r@) == probe_names_spec(prefix@),
{
    let mut a = String::from_str(prefix);
    a.append(".fc1.weight");
    let mut b = String::from_str(prefix);
    b.append(".encoder.head.weight");
    let mut c = String::from_str(prefix);
    c.append(".model.embed_tokens.weight");
    let r = vec![a, b, c];
    assert(strings_view(r@) =~= probe_names_spec(prefix@));
    r
}

/// The first of `candidates` under which weights were found (`present[i]`
/// says whether one of the probe tensors of `candidates[i]` exists), or
/// `InvalidInput` when none was.
pub fn pick_prefix(candidates: &Vec<String>, present: &Vec<bool>) -> (r: Result<
    String,
    VibeVoiceAsrError,
>)
    requires
        present.len() == candidates.len(),
    ensures
        r is Ok <==> exists|i: int| 0 <= i < present.len() && #[trigger] present@[i],
        r matches Ok(p) ==> exists|i: int|
            0 <= i < present.len() && #[trigger] present@[i] && p@ == candidates@[i]@ && forall|
                j: int,
            |
                0 <= j < i ==> !#[trigger] present@[j],
        r matches Err(e) ==> e is InvalidInput,
{
    let mut i: usize = 0;
    while i < candidates.len()
        invariant
            present.len() == candidates.len(),
            i <= candidates.len(),
            forall|j: int| 0 <= j < i ==> !#[trigger] present@[j],
        decreases candidates.len() - i,
    {
        if present[i] {
            return Ok(candidates[i].clone());
        }
        i = i + 1;
    }
    Err(
        VibeVoiceAsrError::InvalidInput(
            String::from_str("could not resolve weight prefix from candidates"),
        ),
    )
}

/// The integer settings of the Qwen2 decoder, as the decoder consumes them.
#[derive(Clone, Copy, Debug, PartialEq, Eq, Structural)]
pub struct Qwen2Layout {
    pub vocab_size: usize,
    pub hidden_size: usize,
    pub intermediate_size: usize,
    pub num_hidden_layers: usize,
    pub num_attention_heads: usize,
    pub num_key_value_heads: usize,
    pub max_position_embeddings: usize,
    pub sliding_window: usize,
    pub max_window_layers: usize,
    pub tie_word_embeddings: bool,
    pub use_sliding_window: bool,
}

/// The decoder settings: those of the configuration, the sliding window
/// defaulting to the longest context; `Unsupported` unless the hidden
/// activation is `silu`.
pub fn to_candle_qwen2_config(cfg: &Qwen2DecoderConfig) -> (r: Result<Qwen2Layout, VibeVoiceAsrError>)
    ensures
        r is Ok <==> cfg.hidden_act@ == "silu"@,
        r matches Err(e) ==> e is Unsupported,
        r matches Ok(l) ==> l == (Qwen2Layout {
            vocab_size: cfg.vocab_size,
            hidden_size: cfg.hidden_size,
            intermediate_size: cfg.intermediate_size,
            num_hidden_layers: cfg.num_hidden_layers,
            num_attention_heads: cfg.num_attention_heads,
            num_key_value_heads: cfg.num_key_value_heads,
            max_position_embeddings: cfg.max_position_embeddings,
            sliding_window: match cfg.sliding_window {
                Some(w) => w,
                None => cfg.max_position_embeddings,
            },
            max_window_layers: cfg.max_window_layers,
            tie_word_embeddings: cfg.tie_word_embeddings,
            use_sliding_window: cfg.use_sliding_window,
        }),
{
    let silu = String::from_str("silu");
    if cfg.hidden_act != silu {
        return Err(
            VibeVoiceAsrError::Unsupported(String::from_str("unsupported qwen2 hidden activation")),
        );
    }
    Ok(
        Qwen2Layout {
            vocab_size: cfg.vocab_size,
            hidden_size: cfg.hidden_size,
            intermediate_size: cfg.intermediate_size,
            num_hidden_layers: cfg.num_hidden_layers,
            num_attention_heads: cfg.num_attention_heads,
            num_key_value_heads: cfg.num_key_value_heads,
            max_position_embeddings: cfg.max_position_embeddings,
            sliding_window: match cfg.sliding_window {
                Some(w) => w,
                None => cfg.max_position_embeddings,
            },
            max_window_layers: cfg.max_window_layers,
            tie_word_embeddings: cfg.tie_word_embeddings,
            use_sliding_window: cfg.use_sliding_window,
        },
    )
}
} // verus!
