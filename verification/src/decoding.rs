//! Control of greedy text generation: which generated tokens are kept, at
//! which position each is fed back to the decoder, and when to stop.
use vstd::prelude::*;

verus! {

/// The tokens kept from a stream of greedy choices: those before the first
/// end-of-text token, at most `max` of them.
pub open spec fn kept_tokens(stream: Seq<u32>, max: nat, eos: Option<u32>) -> Seq<u32>
    decreases stream.len(),
{
    if stream.len() == 0 || max == 0 || Some(stream[0]) == eos {
        seq![]
    } else {
        seq![stream[0]] + kept_tokens(stream.drop_first(), (max - 1) as nat, eos)
    }
}

/// Greedy generation in progress. The caller computes the decoder's choice
/// of next token and hands it to `accept`, which says whether to feed it
/// back (and at which position) or to stop.
pub struct GreedyDecoding {
    max_new_tokens: usize,
    eos_token_id: Option<u32>,
    generated: Vec<u32>,
    offset: usize,
    stopped: bool,
}

impl GreedyDecoding {
    pub closed spec fn spec_generated(&self) -> Seq<u32> {
        self.generated@
    }

    pub closed spec fn spec_offset(&self) -> nat {
        self.offset as nat
    }

    pub closed spec fn spec_stopped(&self) -> bool {
        self.stopped
    }

    pub closed spec fn spec_max(&self) -> nat {
        self.max_new_tokens as nat
    }

    pub closed spec fn spec_eos(&self) -> Option<u32> {
        self.eos_token_id
    }

    /// At most `max` tokens were kept, none of them the end-of-text token.
    pub open spec fn wf(&self) -> bool {
        &&& self.spec_generated().len() <= self.spec_max()
        &&& forall|i: int|
            0 <= i < self.spec_generated().len() ==> Some(#[trigger] self.spec_generated()[i])
                != self.spec_eos()
    }

    /// Starts generation after a prompt of `prompt_len` tokens, keeping at
    /// most `max_new_tokens` tokens and stopping at `eos_token_id`.
    pub fn new(max_new_tokens: usize, eos_token_id: Option<u32>, prompt_len: usize) -> (r: Self)
        ensures
            r.wf(),
            r.spec_generated() == Seq::<u32>::empty(),
            r.spec_offset() == prompt_len,
            !r.spec_stopped(),
            r.spec_max() == max_new_tokens,
            r.spec_eos() == eos_token_id,
    {
        GreedyDecoding {
            max_new_tokens,
            eos_token_id,
            generated: Vec::new(),
            offset: prompt_len,
            stopped: false,
        }
    }

    /// Takes the decoder's next choice. When enough tokens were kept, the
    /// choice is the end-of-text token, generation stopped earlier, or the
    /// position counter is exhausted, generation stops (`None`); otherwise the
    /// token is kept and `Some(position)` says where to feed it to the decoder.
    pub fn accept(&mut self, token: u32) -> (r: Option<usize>)
        requires
            old(self).wf(),
        ensures
            final(self).wf(),
            final(self).spec_max() == old(self).spec_max(),
            final(self).spec_eos() == old(self).spec_eos(),
            ({
                let go = !old(self).spec_stopped() && old(self).spec_generated().len()
                    < old(self).spec_max() && Some(token) != old(self).spec_eos()
                    && old(self).spec_offset() < usize::MAX;
                &&& go ==> r == Some(old(self).spec_offset() as usize) && final(self).spec_generated()
                    == old(self).spec_generated().push(token) && final(self).spec_offset()
                    == old(self).spec_offset() + 1 && !final(self).spec_stopped()
                &&& old(self).spec_offset() < usize::MAX ==> final(self).spec_generated()
                    == run_choices(
                    old(self).spec_generated(),
                    old(self).spec_stopped(),
                    seq![token],
                    old(self).spec_max(),
                    old(self).spec_eos(),
                )
                &&& !go ==> r is None && final(self).spec_generated()
                    == old(self).spec_generated() && final(self).spec_offset()
                    == old(self).spec_offset() && final(self).spec_stopped()
            }),
    {
        if self.stopped || self.generated.len() >= self.max_new_tokens || self.offset == usize::MAX {
            self.stopped = true;
            return None;
        }
        let is_eos = match self.eos_token_id {
            Some(e) => e == token,
            None => false,
        };
        if is_eos {
            self.stopped = true;
            return None;
        }
        self.generated.push(token);
        proof {
            let g = old(self).spec_generated();
            assert(seq![token].drop_first() =~= Seq::<u32>::empty());
            assert(run_choices(g.push(token), false, Seq::<u32>::empty(), self.max_new_tokens as nat, self.eos_token_id) == g.push(token));
        }
        let at = self.offset;
        self.offset = at + 1;
        Some(at)
    }

    /// Whether generation has stopped.
    pub fn is_stopped(&self) -> (r: bool)
        ensures
            r == self.spec_stopped(),
    {
        self.stopped
    }

    /// The kept tokens, ending generation.
    pub fn finish(self) -> (r: Vec<u32>)
        ensures
            r@ == self.spec_generated(),
    {
        self.generated
    }
}

/// The kept tokens after feeding `stream` to `accept`, one choice after the
/// other, starting from `generated` (stopped or not), while the position
/// counter does not run out.
pub open spec fn run_choices(
    generated: Seq<u32>,
    stopped: bool,
    stream: Seq<u32>,
    max: nat,
    eos: Option<u32>,
) -> Seq<u32>
    decreases stream.len(),
{
    if stream.len() == 0 || stopped || generated.len() >= max || Some(stream[0]) == eos {
        generated
    } else {
        run_choices(generated.push(stream[0]), false, stream.drop_first(), max, eos)
    }
}

/// Fed the decoder's choices one by one from a fresh start, greedy decoding
/// keeps exactly the choices before the first end-of-text token, and no
/// more than `max` of them.
pub proof fn lemma_run_keeps_prefix(stream: Seq<u32>, max: nat, eos: Option<u32>)
    ensures
        run_choices(seq![], false, stream, max, eos) == kept_tokens(stream, max, eos),
{
    lemma_run_from(seq![], stream, max, eos);
    assert(Seq::<u32>::empty() + kept_tokens(stream, max, eos) =~= kept_tokens(stream, max, eos));
}

proof fn lemma_run_from(generated: Seq<u32>, stream: Seq<u32>, max: nat, eos: Option<u32>)
    requires
        generated.len() <= max,
    ensures
        run_choices(generated, false, stream, max, eos) == generated + kept_tokens(
            stream,
            (max - generated.len()) as nat,
            eos,
        ),
    decreases stream.len(),
{
    let rest = (max - generated.len()) as nat;
    if stream.len() == 0 || generated.len() >= max || Some(stream[0]) == eos {
        assert(generated + Seq::<u32>::empty() =~= generated);
    } else {
        lemma_run_from(generated.push(stream[0]), stream.drop_first(), max, eos);
        assert(generated.push(stream[0]) + kept_tokens(stream.drop_first(), (rest - 1) as nat, eos)
            =~= generated + (seq![stream[0]] + kept_tokens(
            stream.drop_first(),
            (rest - 1) as nat,
            eos,
        )));
    }
}

} // verus!
