//! Generating text token by token.
use vstd::prelude::*;

use crate::lexicon::LexiconView;
use crate::tokenizer::{decoded, encoded, BpeTokenizer};

verus! {

/// The parameters of generation.
///
/// `temperature` and `top_p` are the texts that were given for these two numbers; where
/// none was given, their defaults stand.
#[derive(Debug)]
pub struct GenerateConfig {
    pub max_steps: usize,
    pub temperature: Option<String>,
    pub top_k: usize,
    pub top_p: Option<String>,
    pub max_len: usize,
}

impl Clone for GenerateConfig {
    fn clone(&self) -> (c: GenerateConfig)
        ensures
            c == *self,
    {
        GenerateConfig {
            max_steps: self.max_steps,
            temperature: self.temperature.clone(),
            top_k: self.top_k,
            top_p: self.top_p.clone(),
            max_len: self.max_len,
        }
    }
}

impl Default for GenerateConfig {
    fn default() -> (c: GenerateConfig)
        ensures
            c.max_steps == 100,
            c.temperature is None,
            c.top_k == 40,
            c.top_p is None,
            c.max_len == 128,
    {
        GenerateConfig { max_steps: 100, temperature: None, top_k: 40, top_p: None, max_len: 128 }
    }
}

/// Where a generation stands.
#[verifier::ext_equal]
pub struct Progress {
    /// The tokens of the prompt, and behind them those that were generated.
    pub ids: Seq<usize>,
    /// The number of tokens that were generated.
    pub step: nat,
    /// Whether the model has ended the text.
    pub ended: bool,
    pub max_steps: nat,
    pub max_len: nat,
    pub eos: usize,
}

impl Progress {
    /// Whether a further token is to be generated.
    pub open spec fn wants_token(self) -> bool {
        !self.ended && self.step < self.max_steps && self.ids.len() < self.max_len
    }

    /// After `id` has been drawn: it ends the text, or it is the next token.
    pub open spec fn with_token(self, id: usize) -> Progress {
        if id == self.eos {
            Progress { ended: true, ..self }
        } else {
            Progress { ids: self.ids.push(id), step: self.step + 1, ..self }
        }
    }

    /// After the tokens `drawn` have been drawn in turn, as far as they were wanted.
    pub open spec fn with_tokens(self, drawn: Seq<usize>) -> Progress
        decreases drawn.len(),
    {
        if drawn.len() == 0 || !self.wants_token() {
            self
        } else {
            self.with_token(drawn[0]).with_tokens(drawn.drop_first())
        }
    }
}

/// The tokens of a prompt: its ids, or the token that begins a text where it has none.
pub open spec fn prompt_ids(
    l: LexiconView,
    unk: usize,
    bos: usize,
    prompt: Seq<char>,
) -> Seq<usize> {
    let ids = encoded(l, unk, prompt);
    if ids.len() == 0 {
        seq![bos]
    } else {
        ids
    }
}

/// Ids as the elements of an integer tensor.
pub open spec fn id_elements(ids: Seq<usize>) -> Seq<i64> {
    Seq::new(ids.len(), |i: int| ids[i] as i64)
}

/// What became of a drawn token.
#[derive(Debug, Clone, Copy, PartialEq, Eq, Structural)]
pub enum Outcome {
    /// It ended the text.
    Ended,
    /// It was added; `report` tells that progress is to be shown.
    Added { report: bool },
}

/// A generation under way.
///
/// It hands out what the model is to be asked, and takes the token that was drawn from the
/// answer.
pub struct Generation {
    pub ids: Vec<usize>,
    pub step: usize,
    pub ended: bool,
    pub max_steps: usize,
    pub max_len: usize,
    pub eos: usize,
}

impl View for Generation {
    type V = Progress;

    open spec fn view(&self) -> Progress {
        Progress {
            ids: self.ids@,
            step: self.step as nat,
            ended: self.ended,
            max_steps: self.max_steps as nat,
            max_len: self.max_len as nat,
            eos: self.eos,
        }
    }
}

impl Generation {
    /// Begins to continue a prompt.
    pub fn start(tokenizer: &BpeTokenizer, prompt: &str, config: &GenerateConfig) -> (g: Generation)
        ensures
            g@ == (Progress {
                ids: prompt_ids(
                    tokenizer@,
                    tokenizer.unk_token,
                    tokenizer.bos_token,
                    prompt@,
                ),
                step: 0,
                ended: false,
                max_steps: config.max_steps as nat,
                max_len: config.max_len as nat,
                eos: tokenizer.eos_token,
            }),
    {
        let mut ids = tokenizer.encode(prompt);
        if ids.len() == 0 {
            ids.push(tokenizer.bos_token);
            assert(ids@ =~= seq![tokenizer.bos_token]);
        }
        Generation {
            ids,
            step: 0,
            ended: false,
            max_steps: config.max_steps,
            max_len: config.max_len,
            eos: tokenizer.eos_token,
        }
    }

    /// The input for the model, while a further token is to be generated.
    pub fn next_input(&self) -> (r: Option<Vec<i64>>)
        ensures
            match r {
                Some(input) => self@.wants_token() && input@ == id_elements(self.ids@),
                None => !self@.wants_token(),
            },
    {
        if self.ended || self.step >= self.max_steps || self.ids.len() >= self.max_len {
            return None;
        }
        let mut input: Vec<i64> = Vec::new();
        let mut i: usize = 0;
        while i < self.ids.len()
            invariant
                i <= self.ids@.len(),
                input@ =~= id_elements(self.ids@).take(i as int),
            decreases self.ids.len() - i,
        {
            input.push(
                #[verifier::truncate]
                (self.ids[i] as i64),
            );
            i += 1;
        }
        assert(id_elements(self.ids@).take(i as int) =~= id_elements(self.ids@));
        Some(input)
    }

    /// Takes the token that was drawn. Progress is to be shown at every tenth step.
    pub fn accept(&mut self, next_id: usize) -> (r: Outcome)
        requires
            old(self)@.wants_token(),
        ensures
            final(self)@ == old(self)@.with_token(next_id),
            final(self).ended == (next_id == old(self).eos),
            final(self).ids@ == if next_id == old(self).eos {
                old(self).ids@
            } else {
                old(self).ids@.push(next_id)
            },
            r == if next_id == old(self).eos {
                Outcome::Ended
            } else {
                Outcome::Added { report: old(self).step % 10 == 0 }
            },
    {
        if next_id == self.eos {
            self.ended = true;
            return Outcome::Ended;
        }
        self.ids.push(next_id);
        let report: bool = self.step % 10 == 0;
        self.step += 1;
        Outcome::Added { report }
    }

    /// The text of the prompt and what was generated.
    pub fn finish(&self, tokenizer: &BpeTokenizer) -> (text: String)
        ensures
            text@ == decoded(tokenizer@.ivocab, self@.ids),
    {
        tokenizer.decode(self.ids.as_slice())
    }
}

/// Generation keeps the prompt and adds drawn tokens behind it, in the order in which they
/// were drawn, none of them the end token. It adds at most `max_steps` tokens, and never
/// goes beyond `max_len`.
pub proof fn law_generation_extends_the_prompt(p: Progress, drawn: Seq<usize>)
    requires
        p.step <= p.max_steps,
    ensures
        ({
            let q = p.with_tokens(drawn);
            let n = p.ids.len() as int;
            let added = q.ids.len() - n;
            &&& 0 <= added <= drawn.len()
            &&& q.ids == p.ids + drawn.take(added)
            &&& forall|i: int| 0 <= i < added ==> #[trigger] drawn[i] != p.eos
            &&& q.step == p.step + added
            &&& q.step <= p.max_steps
            &&& added > 0 ==> q.ids.len() <= p.max_len
            &&& q.max_steps == p.max_steps && q.max_len == p.max_len && q.eos == p.eos
        }),
    decreases drawn.len(),
{
    if drawn.len() == 0 || !p.wants_token() {
        assert(p.ids + drawn.take(0) =~= p.ids);
    } else {
        let next = p.with_token(drawn[0]);
        let rest = drawn.drop_first();
        law_generation_extends_the_prompt(next, rest);
        let q = p.with_tokens(drawn);
        let n = p.ids.len() as int;
        let added = q.ids.len() - n;
        if drawn[0] == p.eos {
            assert(!next.wants_token());
            assert(q == next);
            assert(p.ids + drawn.take(0) =~= p.ids);
        } else {
            assert(q.ids =~= p.ids + drawn.take(added)) by {
                assert(next.ids + rest.take(added - 1) =~= p.ids + drawn.take(added));
            }
            assert forall|i: int| 0 <= i < added implies #[trigger] drawn[i] != p.eos by {
                if i > 0 {
                    assert(rest[i - 1] == drawn[i]);
                }
            }
        }
    }
}

/// Generation goes on until the model ends the text or a limit is reached, as long as
/// tokens are drawn.
pub proof fn law_generation_stops_only_at_an_end(p: Progress, drawn: Seq<usize>)
    requires
        drawn.len() >= p.max_steps,
    ensures
        !p.with_tokens(drawn).wants_token(),
{
    lemma_stops(p, drawn);
}

proof fn lemma_stops(p: Progress, drawn: Seq<usize>)
    requires
        p.step + drawn.len() >= p.max_steps,
    ensures
        !p.with_tokens(drawn).wants_token(),
    decreases drawn.len(),
{
    if drawn.len() > 0 && p.wants_token() {
        let next = p.with_token(drawn[0]);
        if drawn[0] == p.eos {
            assert(next.with_tokens(drawn.drop_first()) == next);
        } else {
            lemma_stops(next, drawn.drop_first());
        }
    }
}

} // verus!
