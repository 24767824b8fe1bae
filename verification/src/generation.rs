//! Generating text token by token.

use crate::term::F64Bits;
use vstd::prelude::*;
use vstd::string::*;

verus! {

/// How the next token is drawn from the logits.
#[derive(Clone, Copy, PartialEq, Eq, Structural, Debug)]
pub enum Sampling {
    /// The most likely one.
    ArgMax,
    /// Any one.
    All { temperature: F64Bits },
    /// One of the `k` most likely.
    TopK { k: usize, temperature: F64Bits },
    /// One of the most likely that together reach probability `p`.
    TopP { p: F64Bits, temperature: F64Bits },
    /// First the one, then the other.
    TopKThenTopP { k: usize, p: F64Bits, temperature: F64Bits },
}

/// Chooses how to sample: the most likely token where the temperature is not above
/// zero (`cold`), else by the cutoffs that are given.
pub fn sampling(
    cold: bool,
    temperature: F64Bits,
    top_k: Option<usize>,
    top_p: Option<F64Bits>,
) -> (r: Sampling)
    ensures
        r == if cold {
            Sampling::ArgMax
        } else {
            match (top_k, top_p) {
                (None, None) => Sampling::All { temperature },
                (Some(k), None) => Sampling::TopK { k, temperature },
                (None, Some(p)) => Sampling::TopP { p, temperature },
                (Some(k), Some(p)) => Sampling::TopKThenTopP { k, p, temperature },
            }
        },
{
    if cold {
        Sampling::ArgMax
    } else {
        match (top_k, top_p) {
            (None, None) => Sampling::All { temperature },
            (Some(k), None) => Sampling::TopK { k, temperature },
            (None, Some(p)) => Sampling::TopP { p, temperature },
            (Some(k), Some(p)) => Sampling::TopKThenTopP { k, p, temperature },
        }
    }
}

/// Wraps a prompt as a user's turn of a chat, to which the model answers.
pub fn chat_prompt(prompt: &str) -> (r: String)
    ensures
        r@ == "<start_of_turn>user\n"@ + prompt@ + "<end_of_turn>\n<start_of_turn>model\n"@,
{
    let mut r = "<start_of_turn>user\n".to_owned();
    r.append(prompt);
    r.append("<end_of_turn>\n<start_of_turn>model\n");
    r
}

/// The state of a generation.
#[derive(Debug)]
pub struct Generation {
    /// The prompt, and behind it what was generated.
    pub tokens: Vec<u32>,
    /// How many tokens were generated.
    pub generated: usize,
    /// How many tokens to generate at most.
    pub sample_len: usize,
    /// The token that ends the text.
    pub eos: u32,
    /// Whether the text has ended.
    pub ended: bool,
}

impl Generation {
    /// What was generated stands behind a prompt and is not too long; the text has
    /// ended just where its last generated token says so.
    pub open spec fn wf(self) -> bool {
        &&& self.generated <= self.tokens@.len()
        &&& self.generated <= self.sample_len
        &&& self.ended == (self.generated > 0 && self.tokens@.last() == self.eos)
    }

    /// Whether another token is to be generated.
    pub open spec fn going(self) -> bool {
        self.generated < self.sample_len && !self.ended
    }

    /// How many tokens the model has been fed before the next step.
    pub open spec fn fed(self) -> int {
        if self.generated > 0 {
            self.tokens@.len() - 1
        } else {
            0
        }
    }

    /// Starts a generation behind a prompt.
    pub fn new(prompt: Vec<u32>, sample_len: usize, eos: u32) -> (r: Generation)
        ensures
            r.wf(),
            r.tokens@ == prompt@,
            r.generated == 0,
            r.sample_len == sample_len,
            r.eos == eos,
            !r.ended,
    {
        Generation { tokens: prompt, generated: 0, sample_len, eos, ended: false }
    }

    /// Where the tokens to feed next begin, if another one is to be generated: at
    /// first the whole prompt is fed, and then one token at a time.
    pub fn next_context(&self) -> (r: Option<usize>)
        requires
            self.wf(),
        ensures
            (r is Some) == self.going(),
            (r is Some) == (self.generated < self.sample_len && !self.ended),
            r matches Some(start_pos) ==> start_pos == if self.generated > 0 {
                self.tokens@.len() - 1
            } else {
                0
            },
            r matches Some(start_pos) ==> start_pos == self.fed() && start_pos <= self.tokens@.len(),
    {
        if self.generated >= self.sample_len || self.ended {
            return None;
        }
        let context_size: usize = if self.generated > 0 {
            1
        } else {
            self.tokens.len()
        };
        Some(self.tokens.len().saturating_sub(context_size))
    }

    /// Where the last `repeat_last_n` tokens begin, or all where there are fewer.
    pub fn penalty_context(&self, repeat_last_n: usize) -> (r: usize)
        ensures
            r == if repeat_last_n <= self.tokens@.len() {
                self.tokens@.len() - repeat_last_n
            } else {
                0
            },
    {
        self.tokens.len().saturating_sub(repeat_last_n)
    }

    /// Takes the next token; hands back whether it is part of the text.
    pub fn accept(&mut self, token: u32) -> (r: bool)
        requires
            old(self).wf(),
            old(self).going(),
        ensures
            final(self).wf(),
            final(self).tokens@ == old(self).tokens@.push(token),
            final(self).generated == old(self).generated + 1,
            final(self).sample_len == old(self).sample_len,
            final(self).eos == old(self).eos,
            final(self).ended == (token == old(self).eos),
            r == (token != old(self).eos),
    {
        self.tokens.push(token);
        self.generated = self.generated + 1;
        self.ended = token == self.eos;
        !self.ended
    }
}

/// The first step feeds the prompt from its beginning, and what is fed in one step begins
/// where what was fed before ends, so that each token is fed once and at its own position.
pub proof fn law_contexts_follow_each_other(before: Generation, after: Generation, token: u32)
    requires
        before.wf(),
        before.going(),
        after.tokens@ == before.tokens@.push(token),
        after.generated == before.generated + 1,
    ensures
        after.fed() == before.tokens@.len(),
        before.generated == 0 ==> before.fed() == 0,
{
}

} // verus!
