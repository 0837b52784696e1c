//! A generator: a trained model together with the random source that walks it.

use crate::atom::AtomView;
use crate::model::{count_of, Chain, WordFreq};
use crate::sampler::seeded;
use crate::sentence::{admits, generate_sentence, leads, rendered, GenerateError, Visit};
use rand::StdRng;
use vstd::prelude::*;

verus! {

/// A model and a random source, kept together so that one handle serves for any
/// number of sentences.
#[derive(Debug)]
pub struct LibState {
    rng: StdRng,
    counts: WordFreq,
}

impl LibState {
    /// The value of the model that this generator walks.
    pub closed spec fn model(&self) -> Chain {
        self.counts@
    }

    /// The model of a well-formed generator is well-formed.
    pub closed spec fn wf(&self) -> bool {
        self.counts.wf()
    }

    /// A generator that walks `counts`, with a random source seeded with `seed`.
    pub fn new(seed: &[usize], counts: WordFreq) -> (state: LibState)
        requires
            counts.wf(),
        ensures
            state.wf(),
            state.model() == counts@,
    {
        LibState { rng: seeded(seed), counts }
    }

    /// The model that this generator walks.
    pub fn counts(&self) -> (counts: &WordFreq)
        requires
            self.wf(),
        ensures
            counts.wf(),
            counts@ == self.model(),
    {
        &self.counts
    }

    /// Generates one sentence and advances the random source. The model stays as it is.
    pub fn generate(&mut self) -> (sentence: Result<String, GenerateError>)
        requires
            old(self).wf(),
        ensures
            final(self).wf(),
            final(self).model() == old(self).model(),
            match sentence {
                Ok(text) => exists|path: Seq<Visit>|
                    admits(old(self).model(), path) && text@ == rendered(path),
                Err(GenerateError::EmptyModel) => old(self).model().len() == 0,
                Err(GenerateError::DegenerateCommaChain) => exists|path: Seq<Visit>|
                    leads(old(self).model(), path) && path.last().comma,
            },
            old(self).model().len() == 0 ==> sentence is Err,
            old(self).model().len() != 0 && (forall|p: AtomView|
                count_of(old(self).model(), p, AtomView::Comma) == 0) ==> sentence is Ok,
    {
        generate_sentence(&mut self.rng, &self.counts)
    }
}

} // verus!
