//! The decisions of autoregressive name sampling.
//!
//! Sampling alternates between the model, which turns the current context into a next token,
//! and these decisions: stop at BOS, otherwise append the token's character to the name and
//! slide the context window forward; stop anyway after `MAX_NAME_LEN` tokens so that an unlucky
//! model cannot loop forever.

use vstd::prelude::*;

use crate::text::string_push;
use crate::tokenizer::Tokenizer;

verus! {

/// The most tokens one name is sampled for.
pub const MAX_NAME_LEN: usize = 32;

/// The state of sampling one name.
pub struct NameSampler {
    context: Vec<usize>,
    name: String,
    steps: usize,
    finished: bool,
}

impl NameSampler {
    /// The window of previous tokens that the model conditions on next.
    pub closed spec fn context_spec(self) -> Seq<usize> {
        self.context@
    }

    /// The characters sampled so far.
    pub closed spec fn name_spec(self) -> Seq<char> {
        self.name@
    }

    /// How many tokens have been fed so far.
    pub closed spec fn steps_spec(self) -> nat {
        self.steps as nat
    }

    /// Whether sampling has stopped.
    pub closed spec fn finished_spec(self) -> bool {
        self.finished
    }

    /// The sampler's invariant: a nonempty context, no more characters than tokens fed, at most
    /// `MAX_NAME_LEN` tokens fed, and sampling stopped once that many were fed.
    pub open spec fn wf(self) -> bool {
        &&& self.context_spec().len() > 0
        &&& self.name_spec().len() <= self.steps_spec()
        &&& self.steps_spec() <= MAX_NAME_LEN
        &&& self.steps_spec() == MAX_NAME_LEN ==> self.finished_spec()
    }

    /// Start sampling a name: the context is `block_size` BOS tokens and the name is empty.
    pub fn start(tokenizer: &Tokenizer, block_size: usize) -> (s: NameSampler)
        requires
            block_size > 0,
        ensures
            s.wf(),
            s.context_spec() == Seq::new(block_size as nat, |_i: int| tokenizer.vocab().len() as usize),
            s.name_spec() == Seq::<char>::empty(),
            s.steps_spec() == 0,
            !s.finished_spec(),
    {
        let bos = tokenizer.bos();
        let mut context: Vec<usize> = Vec::new();
        for j in 0..block_size
            invariant
                context@ == Seq::new(j as nat, |_k: int| bos),
        {
            context.push(bos);
            assert(context@ =~= Seq::new((j + 1) as nat, |_k: int| bos));
        }
        NameSampler { context, name: String::new(), steps: 0, finished: false }
    }

    /// The context window to run the model on.
    pub fn context(&self) -> (c: &Vec<usize>)
        ensures
            c@ == self.context_spec(),
    {
        &self.context
    }

    /// Whether sampling has stopped.
    pub fn is_finished(&self) -> (b: bool)
        ensures
            b == self.finished_spec(),
    {
        self.finished
    }

    /// Feed the token that the model sampled next. BOS ends the name. Any other token appends its
    /// character to the name (a token without a character appends nothing) and slides the
    /// context window forward by one; after `MAX_NAME_LEN` tokens sampling stops regardless.
    pub fn feed(&mut self, next: usize, tokenizer: &Tokenizer)
        requires
            old(self).wf(),
            !old(self).finished_spec(),
        ensures
            final(self).wf(),
            final(self).steps_spec() == old(self).steps_spec() + 1,
            next == tokenizer.vocab().len() ==> {
                &&& final(self).finished_spec()
                &&& final(self).name_spec() == old(self).name_spec()
                &&& final(self).context_spec() == old(self).context_spec()
            },
            next != tokenizer.vocab().len() ==> {
                &&& final(self).finished_spec() == (final(self).steps_spec() == MAX_NAME_LEN)
                &&& final(self).name_spec() == match tokenizer.decode_spec(next as int) {
                    Some(c) => old(self).name_spec().push(c),
                    None => old(self).name_spec(),
                }
                &&& final(self).context_spec() == old(self).context_spec().drop_first().push(next)
            },
    {
        self.steps = self.steps + 1;
        if next == tokenizer.bos() {
            self.finished = true;
            return;
        }
        match tokenizer.decode(next) {
            Some(ch) => string_push(&mut self.name, ch),
            None => {},
        }
        self.context.remove(0);
        self.context.push(next);
        if self.steps == MAX_NAME_LEN {
            self.finished = true;
        }
        assert(self.context@ =~= old(self).context@.drop_first().push(next));
    }

    /// The characters sampled so far, as a string.
    pub fn into_name(self) -> (name: String)
        ensures
            name@ == self.name_spec(),
    {
        self.name
    }
}

} // verus!
