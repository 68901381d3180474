//! The history that a token sampler keeps between selection steps.
//!
//! The numeric stages of sampling (penalty, temperature, softmax, filtering,
//! the random draw) work on floating-point scores; what they need from the
//! history is how often each token was emitted, which this module keeps and
//! proves consistent with the emission sequence.
use std::collections::HashMap;
use vstd::prelude::*;
use crate::error::EngineError;

verus! {

/// How many times `t` occurs in `s`.
pub open spec fn count_of(s: Seq<u32>, t: u32) -> nat
    decreases s.len(),
{
    if s.len() == 0 {
        0
    } else {
        count_of(s.drop_last(), t) + if s.last() == t {
            1nat
        } else {
            0nat
        }
    }
}

/// A token occurs no more often than the sequence is long.
pub proof fn lemma_count_of_bounded(s: Seq<u32>, t: u32)
    ensures
        count_of(s, t) <= s.len(),
    decreases s.len(),
{
    if s.len() > 0 {
        lemma_count_of_bounded(s.drop_last(), t);
    }
}

/// Appending `x` adds one occurrence of `x` and leaves every other count alone.
pub proof fn lemma_count_of_push(s: Seq<u32>, x: u32, t: u32)
    ensures
        count_of(s.push(x), t) == count_of(s, t) + if x == t {
            1nat
        } else {
            0nat
        },
{
    assert(s.push(x).drop_last() =~= s);
}

/// A sampler after `reset` cannot be told apart from a new one: both hold the
/// empty history, so every token's emission count is zero in both.
pub proof fn lemma_reset_matches_new(reset: Sampler, fresh: Sampler)
    requires
        reset@ == Seq::<u32>::empty(),
        fresh@ == Seq::<u32>::empty(),
    ensures
        reset@ == fresh@,
        forall|t: u32| count_of(reset@, t) == 0 && #[trigger] count_of(fresh@, t) == 0,
{
}

/// Token history of one generation session: the emitted tokens in order, and
/// the number of emissions of each token, kept in step with that sequence.
pub struct Sampler {
    generated_tokens: Vec<u32>,
    token_counts: HashMap<u32, usize>,
}

impl View for Sampler {
    type V = Seq<u32>;

    closed spec fn view(&self) -> Seq<u32> {
        self.generated_tokens@
    }
}

impl Default for Sampler {
    fn default() -> (s: Self)
        ensures
            s.wf(),
            s@ == Seq::<u32>::empty(),
    {
        Self::new()
    }
}

impl Sampler {
    /// The emission counts agree with the emission sequence.
    pub closed spec fn wf(&self) -> bool {
        forall|t: u32|
            #![trigger self.token_counts@.contains_key(t)]
            #![trigger count_of(self.generated_tokens@, t)]
            {
                &&& self.token_counts@.contains_key(t) <==> count_of(self.generated_tokens@, t) > 0
                &&& self.token_counts@.contains_key(t) ==> self.token_counts@[t] as nat == count_of(
                    self.generated_tokens@,
                    t,
                )
            }
    }

    /// A sampler with an empty history.
    pub fn new() -> (s: Self)
        ensures
            s.wf(),
            s@ == Seq::<u32>::empty(),
    {
        Sampler { generated_tokens: Vec::new(), token_counts: HashMap::new() }
    }

    /// Forgets the whole history.
    pub fn reset(&mut self)
        ensures
            final(self).wf(),
            final(self)@ == Seq::<u32>::empty(),
    {
        self.generated_tokens.clear();
        self.token_counts.clear();
    }

    /// The tokens emitted so far, oldest first.
    pub fn generated_tokens(&self) -> (tokens: &[u32])
        ensures
            tokens@ == self@,
    {
        self.generated_tokens.as_slice()
    }

    /// How many times `token` has been emitted.
    pub fn token_count(&self, token: u32) -> (n: usize)
        requires
            self.wf(),
        ensures
            n == count_of(self@, token),
    {
        match self.token_counts.get(&token) {
            Some(c) => *c,
            None => 0,
        }
    }

    /// Appends `token` to the history and counts it.
    pub fn record(&mut self, token: u32)
        requires
            old(self).wf(),
            old(self)@.len() < usize::MAX,
        ensures
            final(self).wf(),
            final(self)@ == old(self)@.push(token),
    {
        let c = self.token_count(token);
        proof {
            lemma_count_of_bounded(self.generated_tokens@, token);
        }
        let ghost old_tokens = self.generated_tokens@;
        let ghost old_counts = self.token_counts@;
        self.generated_tokens.push(token);
        self.token_counts.insert(token, c + 1);
        proof {
            assert forall|t: u32|
                #![trigger self.token_counts@.contains_key(t)]
                #![trigger count_of(self.generated_tokens@, t)]
                {
                    &&& self.token_counts@.contains_key(t) <==> count_of(self.generated_tokens@, t) > 0
                    &&& self.token_counts@.contains_key(t) ==> self.token_counts@[t] as nat
                        == count_of(self.generated_tokens@, t)
                } by {
                lemma_count_of_push(old_tokens, token, t);
                assert(old_counts.contains_key(t) <==> count_of(old_tokens, t) > 0);
            }
        }
    }

    /// Ends one selection step over a vocabulary of `vocab_size` tokens, of
    /// which the numeric stages picked `selected` (`None` when filtering
    /// left no probability mass). A failed step leaves the history as it
    /// was; a successful one appends the chosen token.
    pub fn finish_selection(&mut self, vocab_size: usize, selected: Option<usize>) -> (r: Result<u32, EngineError>)
        requires
            old(self).wf(),
            vocab_size <= u32::MAX as usize + 1,
            selected matches Some(i) ==> i < vocab_size,
            old(self)@.len() < usize::MAX,
        ensures
            final(self).wf(),
            vocab_size == 0 ==> r == Err::<u32, EngineError>(EngineError::EmptyInput) && final(self)@ == old(self)@,
            vocab_size > 0 && selected is None ==> r == Err::<u32, EngineError>(EngineError::DegenerateDistribution)
                && final(self)@ == old(self)@,
            vocab_size > 0 ==> (selected matches Some(i) ==> r == Ok::<u32, EngineError>(i as u32)
                && final(self)@ == old(self)@.push(i as u32)),
    {
        if vocab_size == 0 {
            return Err(EngineError::EmptyInput);
        }
        match selected {
            None => Err(EngineError::DegenerateDistribution),
            Some(i) => {
                let token = i as u32;
                self.record(token);
                Ok(token)
            },
        }
    }

    /// The emission count of every token below `vocab_size`, by token id.
    pub fn repeat_counts(&self, vocab_size: usize) -> (counts: Vec<usize>)
        requires
            self.wf(),
            vocab_size <= u32::MAX as usize + 1,
        ensures
            counts@.len() == vocab_size,
            forall|i: int| 0 <= i < vocab_size ==> #[trigger] counts@[i] == count_of(self@, i as u32),
    {
        let mut counts: Vec<usize> = Vec::new();
        let mut i: usize = 0;
        while i < vocab_size
            invariant
                self.wf(),
                i <= vocab_size,
                vocab_size <= u32::MAX as usize + 1,
                counts@.len() == i,
                forall|j: int| 0 <= j < i ==> #[trigger] counts@[j] == count_of(self@, j as u32),
            decreases vocab_size - i,
        {
            let c = self.token_count(i as u32);
            counts.push(c);
            i = i + 1;
        }
        counts
    }
}

} // verus!
