//! Sampling sentences: a random walk through the model, from a first word to a
//! sentence break.

use crate::atom::{AtomView, SentAtom};
use crate::model::{count_of, is_chain, Chain, WordFreq};
use crate::sampler::{choose_from, weighted_choice};
use rand::StdRng;
use vstd::prelude::*;
use vstd::string::*;

verus! {

/// The number of draws in a row that end a walk when each of them fails to give
/// the word that follows a comma.
pub const MAX_REDRAWS: usize = 1048576;

/// Why no sentence was generated.
#[derive(Debug, Clone, Copy, PartialEq, Eq, Structural)]
pub enum GenerateError {
    /// The model holds no observation, so there is no word to start from.
    EmptyModel,
    /// After a comma, `MAX_REDRAWS` draws in a row gave no word to go on with.
    DegenerateCommaChain,
}

/// One word of a walk, and whether a comma was attached to it.
pub struct Visit {
    /// The text of the word.
    pub word: Seq<char>,
    /// Whether a comma was drawn after the word and attached to it.
    pub comma: bool,
}

/// The mathematical value of a [`Walk`].
pub struct WalkView {
    /// The words visited so far, in order.
    pub path: Seq<Visit>,
    /// The draws discarded since a comma was attached to the last word.
    pub redraws: nat,
}

/// The walk `walk` after `drawn` was drawn as a successor of its last word, and
/// whether that draw completed the sentence.
///
/// A word is visited next. A comma is attached to the last word, which then waits
/// for the word that follows the comma: until that word is drawn, commas and
/// sentence breaks are discarded, and the draw that would be the `MAX_REDRAWS`th
/// discarded in a row fails. A sentence break after a word without a comma
/// completes the sentence.
pub open spec fn step(walk: WalkView, drawn: AtomView) -> (WalkView, Result<bool, GenerateError>) {
    let last = walk.path.last();
    match drawn {
        AtomView::Word(w) => (
            WalkView { path: walk.path.push(Visit { word: w, comma: false }), redraws: 0 },
            Ok(false),
        ),
        _ => if last.comma {
            if walk.redraws + 1 < MAX_REDRAWS {
                (WalkView { path: walk.path, redraws: walk.redraws + 1 }, Ok(false))
            } else {
                (walk, Err(GenerateError::DegenerateCommaChain))
            }
        } else if drawn is Comma {
            (
                WalkView {
                    path: walk.path.update(
                        walk.path.len() - 1,
                        Visit { word: last.word, comma: true },
                    ),
                    redraws: 0,
                },
                Ok(false),
            )
        } else {
            (walk, Ok(true))
        },
    }
}

/// How a visited word is written: with its comma, if one was attached.
pub open spec fn token_of(visit: Visit) -> Seq<char> {
    if visit.comma {
        visit.word.push(',')
    } else {
        visit.word
    }
}

/// The words of `path` as they are written, in order.
pub open spec fn tokens_of(path: Seq<Visit>) -> Seq<Seq<char>> {
    Seq::new(path.len(), |i: int| token_of(path[i]))
}

/// `tokens` with one space between each two neighbours.
pub open spec fn joined(tokens: Seq<Seq<char>>) -> Seq<char>
    decreases tokens.len(),
{
    if tokens.len() == 0 {
        Seq::empty()
    } else if tokens.len() == 1 {
        tokens[0]
    } else {
        joined(tokens.drop_last()) + seq![' '] + tokens.last()
    }
}

/// The sentence that a walk along `path` gives.
pub open spec fn rendered(path: Seq<Visit>) -> Seq<char> {
    joined(tokens_of(path))
}

/// Whether `model` has seen the word at place `i + 1` of `path` follow the word at place `i`.
pub open spec fn linked_at(model: Chain, path: Seq<Visit>, i: int) -> bool {
    count_of(model, AtomView::Word(path[i].word), AtomView::Word(path[i + 1].word)) > 0
}

/// Whether `model` has seen a comma follow the word of `visit`, where `visit` has one.
pub open spec fn comma_seen(model: Chain, visit: Visit) -> bool {
    visit.comma ==> count_of(model, AtomView::Word(visit.word), AtomView::Comma) > 0
}

/// Whether a walk through `model` can have gone along `path` so far: it starts at a
/// predecessor of the model, each further word was seen to follow the one before
/// it, and a comma is attached only to words that a comma was seen to follow.
pub open spec fn leads(model: Chain, path: Seq<Visit>) -> bool {
    &&& path.len() > 0
    &&& model.contains_key(AtomView::Word(path[0].word))
    &&& forall|i: int| 0 <= i < path.len() - 1 ==> #[trigger] linked_at(model, path, i)
    &&& forall|i: int| 0 <= i < path.len() ==> comma_seen(model, #[trigger] path[i])
}

/// Whether `path` is a whole walk through `model`: it leads through the model and
/// ends at a word without a comma that a sentence break was seen to follow.
pub open spec fn admits(model: Chain, path: Seq<Visit>) -> bool {
    &&& leads(model, path)
    &&& !path.last().comma
    &&& count_of(model, AtomView::Word(path.last().word), AtomView::SentBreak) > 0
}

/// What is left of a walk at most, a measure of which every draw takes something
/// away: the words that a vector can still take, and then the draws that the word
/// after a comma may still fail to come.
pub open spec fn slack(walk: WalkView) -> (nat, nat) {
    (
        (usize::MAX - walk.path.len()) as nat,
        if walk.path.last().comma {
            (MAX_REDRAWS - walk.redraws) as nat
        } else {
            (MAX_REDRAWS + 1) as nat
        },
    )
}

/// A walk in progress: the words visited so far, and the commas attached to them.
#[derive(Debug)]
pub struct Walk {
    words: Vec<String>,
    commas: Vec<bool>,
    redraws: usize,
}

impl View for Walk {
    type V = WalkView;

    closed spec fn view(&self) -> WalkView {
        WalkView {
            path: Seq::new(
                self.words.len() as nat,
                |i: int| Visit { word: self.words[i]@, comma: self.commas[i] },
            ),
            redraws: self.redraws as nat,
        }
    }
}

impl Walk {
    /// The representation is sound: one comma flag for each word.
    pub closed spec fn inv(&self) -> bool {
        self.words.len() == self.commas.len()
    }

    /// A well-formed walk has visited a word, and discards are counted only while
    /// its last word waits for the word after its comma.
    pub open spec fn wf(&self) -> bool {
        &&& self.inv()
        &&& 0 < self@.path.len() <= usize::MAX
        &&& self@.redraws < MAX_REDRAWS
        &&& !self@.path.last().comma ==> self@.redraws == 0
    }

    /// A walk that starts at `word`.
    pub fn start(word: &str) -> (walk: Walk)
        ensures
            walk.wf(),
            walk@ == (WalkView { path: seq![Visit { word: word@, comma: false }], redraws: 0 }),
    {
        let mut words: Vec<String> = Vec::new();
        let mut commas: Vec<bool> = Vec::new();
        words.push(word.to_owned());
        commas.push(false);
        let walk = Walk { words, commas, redraws: 0 };
        assert(walk@.path =~= seq![Visit { word: word@, comma: false }]);
        walk
    }

    /// The number of words visited.
    pub fn len(&self) -> (n: usize)
        requires
            self.wf(),
        ensures
            n == self@.path.len(),
    {
        self.words.len()
    }

    /// The word visited last.
    pub fn last_word(&self) -> (word: &String)
        requires
            self.wf(),
        ensures
            word@ == self@.path.last().word,
    {
        &self.words[self.words.len() - 1]
    }

    /// Takes `drawn` as the next draw among the successors of the last word. Says
    /// whether the sentence is complete.
    pub fn advance(&mut self, drawn: &SentAtom) -> (done: Result<bool, GenerateError>)
        requires
            old(self).wf(),
        ensures
            final(self).wf(),
            (final(self)@, done) == step(old(self)@, drawn@),
    {
        let ghost before = self@;
        let last = self.words.len() - 1;
        match drawn {
            SentAtom::Word(w) => {
                self.words.push(w.clone());
                self.commas.push(false);
                self.redraws = 0;
                assert(self@.path =~= before.path.push(Visit { word: w@, comma: false }));
                Ok(false)
            },
            _ => {
                if self.commas[last] {
                    if self.redraws + 1 < MAX_REDRAWS {
                        self.redraws = self.redraws + 1;
                        Ok(false)
                    } else {
                        Err(GenerateError::DegenerateCommaChain)
                    }
                } else if let SentAtom::Comma = drawn {
                    self.commas.set(last, true);
                    assert(self@.path =~= before.path.update(
                        before.path.len() - 1,
                        Visit { word: before.path.last().word, comma: true },
                    ));
                    Ok(false)
                } else {
                    Ok(true)
                }
            },
        }
    }

    /// The sentence so far: the visited words with their commas, one space between
    /// each two.
    pub fn sentence(&self) -> (text: String)
        requires
            self.wf(),
        ensures
            text@ == rendered(self@.path),
    {
        let ghost tokens = tokens_of(self@.path);
        let mut text = String::new();
        let mut i: usize = 0;
        proof {
            reveal_strlit(" ");
            reveal_strlit(",");
        }
        while i < self.words.len()
            invariant
                self.inv(),
                i <= self.words.len(),
                tokens == tokens_of(self@.path),
                tokens.len() == self.words.len(),
                " "@ == seq![' '],
                ","@ == seq![','],
                text@ == joined(tokens.take(i as int)),
            decreases self.words.len() - i,
        {
            let ghost front = text@;
            if i > 0 {
                text.append(" ");
            }
            text.append(self.words[i].as_str());
            if self.commas[i] {
                text.append(",");
            }
            proof {
                let upto = tokens.take(i + 1);
                assert(upto.drop_last() =~= tokens.take(i as int));
                if self.commas[i as int] {
                    assert(self.words[i as int]@ + seq![','] =~= self.words[i as int]@.push(','));
                }
                if i == 0 {
                    assert(front + upto.last() =~= upto[0]);
                } else {
                    assert(text@ =~= front + seq![' '] + upto.last());
                }
            }
            i += 1;
        }
        assert(tokens.take(i as int) =~= tokens);
        text
    }
}

/// A walk that `step` takes on from a path through the model stays on such a path,
/// where the draw is an atom that the model has seen follow the last word.
pub proof fn lemma_step_leads(model: Chain, walk: WalkView, drawn: AtomView)
    requires
        leads(model, walk.path),
        count_of(model, AtomView::Word(walk.path.last().word), drawn) > 0,
    ensures
        leads(model, step(walk, drawn).0.path),
        step(walk, drawn).0.path[0].word == walk.path[0].word,
        step(walk, drawn).1 == Ok::<bool, GenerateError>(true) ==> admits(model, walk.path),
{
    let next = step(walk, drawn).0.path;
    let n = walk.path.len() as int;
    match drawn {
        AtomView::Word(w) => {
            assert forall|i: int| 0 <= i < next.len() - 1 implies #[trigger] linked_at(
                model,
                next,
                i,
            ) by {
                if i < n - 1 {
                    assert(linked_at(model, walk.path, i));
                }
            }
            assert forall|i: int| 0 <= i < next.len() implies comma_seen(
                model,
                #[trigger] next[i],
            ) by {
                if i < n {
                    assert(comma_seen(model, walk.path[i]));
                }
            }
        },
        _ => {
            assert forall|i: int| 0 <= i < next.len() - 1 implies #[trigger] linked_at(
                model,
                next,
                i,
            ) by {
                assert(linked_at(model, walk.path, i));
            }
            assert forall|i: int| 0 <= i < next.len() implies comma_seen(
                model,
                #[trigger] next[i],
            ) by {
                assert(comma_seen(model, walk.path[i]));
            }
        },
    }
}

/// Every word along a path through a chain is a predecessor of the chain.
pub proof fn lemma_path_words_known(model: Chain, path: Seq<Visit>, i: int)
    requires
        is_chain(model),
        leads(model, path),
        0 <= i < path.len(),
    ensures
        model.contains_key(AtomView::Word(path[i].word)),
    decreases i,
{
    if i > 0 {
        lemma_path_words_known(model, path, i - 1);
        assert(linked_at(model, path, i - 1));
    }
}

/// The sentence of a whole walk is made of words of the model and of nothing else:
/// it has one token for each visited word, each token is a word that the model has
/// as a predecessor, alone or with one comma attached to it, and the last token is
/// a word alone. No comma and no sentence break stands as a token of its own.
pub proof fn lemma_sentence_tokens(model: Chain, path: Seq<Visit>)
    requires
        is_chain(model),
        admits(model, path),
    ensures
        tokens_of(path).len() == path.len(),
        path.len() > 0,
        forall|i: int|
            0 <= i < path.len() ==> model.contains_key(AtomView::Word(path[i].word)) && (
            #[trigger] tokens_of(path)[i] == path[i].word || tokens_of(path)[i]
                == path[i].word.push(',')),
        tokens_of(path).last() == path.last().word,
{
    assert forall|i: int| 0 <= i < path.len() implies model.contains_key(
        AtomView::Word(path[i].word),
    ) by {
        lemma_path_words_known(model, path, i);
    }
}

/// Generates one sentence: a walk through `corpus` from a first word, drawn
/// uniformly among its predecessors, to a sentence break.
///
/// Whatever is drawn, a sentence that comes out is the sentence of a whole walk
/// through the model. None comes out of a model without observations, and none
/// where the word after a comma fails to come.
pub fn generate_sentence(rnd: &mut StdRng, corpus: &WordFreq) -> (sentence: Result<
    String,
    GenerateError,
>)
    requires
        corpus.wf(),
    ensures
        match sentence {
            Ok(text) => exists|path: Seq<Visit>| admits(corpus@, path) && text@ == rendered(path),
            Err(GenerateError::EmptyModel) => corpus@.len() == 0,
            Err(GenerateError::DegenerateCommaChain) => exists|path: Seq<Visit>|
                leads(corpus@, path) && path.last().comma,
        },
        corpus@.len() == 0 ==> sentence is Err,
        corpus@.len() != 0 && (forall|p: AtomView| count_of(corpus@, p, AtomView::Comma) == 0)
            ==> sentence is Ok,
{
    let keys = corpus.keys();
    match choose_from(rnd, keys.as_slice()) {
        Some(first) => {
            proof {
                let i = choose|i: int| 0 <= i < keys@.len() && keys@[i] == *first;
                assert(corpus.order().contains(first@));
                if corpus@.len() == 0 {
                    vstd::set_lib::lemma_set_empty_equivalency_len(corpus@.dom());
                }
            }
            generate_sentence_from(rnd, corpus, first)
        },
        None => Err(GenerateError::EmptyModel),
    }
}

/// Generates one sentence that starts with the word `first`: a walk through
/// `corpus` from `first`, along successors drawn by their counts, to a sentence
/// break.
///
/// A comma that is drawn is attached to the word before it, and the walk goes on
/// with the next word that is drawn among the successors of that same word.
pub fn generate_sentence_from(rnd: &mut StdRng, corpus: &WordFreq, first: &SentAtom) -> (sentence:
    Result<String, GenerateError>)
    requires
        corpus.wf(),
        corpus@.contains_key(first@),
    ensures
        match sentence {
            Ok(text) => exists|path: Seq<Visit>|
                admits(corpus@, path) && AtomView::Word(path[0].word) == first@ && text@
                    == rendered(path),
            Err(GenerateError::EmptyModel) => false,
            Err(GenerateError::DegenerateCommaChain) => exists|path: Seq<Visit>|
                leads(corpus@, path) && AtomView::Word(path[0].word) == first@
                    && path.last().comma,
        },
        (forall|p: AtomView| count_of(corpus@, p, AtomView::Comma) == 0) ==> sentence is Ok,
{
    let mut walk = Walk::start(first.word_text().unwrap().as_str());
    let mut current: &SentAtom = first;
    loop
        invariant
            corpus.wf(),
            walk.wf(),
            leads(corpus@, walk@.path),
            AtomView::Word(walk@.path[0].word) == first@,
            current@ == AtomView::Word(walk@.path.last().word),
            corpus@.contains_key(current@),
        decreases slack(walk@).0, slack(walk@).1,
    {
        let table = corpus.get(current).unwrap();
        let drawn = weighted_choice(rnd, table);
        let ghost before = walk@;
        proof {
            lemma_step_leads(corpus@, before, drawn@);
        }
        match walk.advance(drawn) {
            Err(e) => {
                return Err(e);
            },
            Ok(true) => {
                return Ok(walk.sentence());
            },
            Ok(false) => {
                if !drawn.is_not_word() {
                    current = drawn;
                }
            },
        }
    }
}

} // verus!
