//! The frequency model: one transition table for each predecessor.

use crate::atom::{distinct, holds, lemma_place_of, place_of, position, AtomView, SentAtom};
use crate::tally::{count_in, noted, tallied, WordTally};
use vstd::prelude::*;

verus! {

/// The mathematical value of a frequency model.
pub type Chain = Map<AtomView, Map<AtomView, nat>>;

/// The table that `model` keeps for `pred`; the empty table where it keeps none.
pub open spec fn row_of(model: Chain, pred: AtomView) -> Map<AtomView, nat> {
    if model.contains_key(pred) {
        model[pred]
    } else {
        Map::empty()
    }
}

/// How often `model` has seen `succ` follow `pred`.
pub open spec fn count_of(model: Chain, pred: AtomView, succ: AtomView) -> nat {
    count_in(row_of(model, pred), succ)
}

/// `model` after one more observation of `succ` following `pred`.
pub open spec fn recorded(model: Chain, pred: AtomView, succ: AtomView) -> Chain {
    model.insert(pred, tallied(row_of(model, pred), succ))
}

/// A model through which a walk never gets stuck: only words have successors, and
/// every word that follows something has successors of its own.
pub open spec fn is_chain(model: Chain) -> bool {
    &&& forall|p: AtomView| model.contains_key(p) ==> p is Word
    &&& forall|p: AtomView, s: AtomView| #[trigger]
        model.contains_key(p) && #[trigger] model[p].contains_key(s) && s is Word
            ==> model.contains_key(s)
}

/// Wherever a comma may follow a word, another word may follow it too.
pub open spec fn commas_lead_on(model: Chain) -> bool {
    forall|p: AtomView|
        model.contains_key(p) && #[trigger] model[p].contains_key(AtomView::Comma)
            ==> exists|w: Seq<char>| model[p].contains_key(AtomView::Word(w))
}

/// For each predecessor atom, how often each atom was observed to follow it.
///
/// The predecessors are kept in the order in which they were first observed.
#[derive(Debug)]
pub struct WordFreq {
    keys: Vec<SentAtom>,
    tables: Vec<WordTally>,
}

impl View for WordFreq {
    type V = Chain;

    closed spec fn view(&self) -> Chain {
        Map::new(
            |p: AtomView| holds(self.keys@, p),
            |p: AtomView| self.tables@[place_of(self.keys@, p)]@,
        )
    }
}

impl WordFreq {
    /// The representation is sound: one table for each predecessor, no predecessor
    /// twice, and every table well-formed and not empty.
    pub closed spec fn inv(&self) -> bool {
        &&& self.keys.len() == self.tables.len()
        &&& distinct(self.keys@)
        &&& forall|i: int|
            0 <= i < self.tables.len() ==> (#[trigger] self.tables[i]).wf() && self.tables[i]@.len()
                > 0
    }

    /// The predecessors in the order of their first observation.
    pub closed spec fn order(&self) -> Seq<AtomView> {
        Seq::new(self.keys.len() as nat, |i: int| self.keys[i]@)
    }

    /// The successors of `pred` in the order of their first observation after it.
    pub closed spec fn row_order(&self, pred: AtomView) -> Seq<AtomView> {
        if holds(self.keys@, pred) {
            self.tables@[place_of(self.keys@, pred)].order()
        } else {
            Seq::empty()
        }
    }

    /// A sound model has finitely many predecessors, lists each of them once in
    /// `order`, and keeps for each a table that is not empty and counts nothing
    /// zero times.
    pub open spec fn sound(&self) -> bool {
        &&& self.inv()
        &&& self@.dom().finite()
        &&& self@.len() == self.order().len()
        &&& self.order().no_duplicates()
        &&& forall|p: AtomView| self@.contains_key(p) <==> self.order().contains(p)
        &&& forall|p: AtomView|
            self@.contains_key(p) ==> (#[trigger] self@[p]).dom().finite() && self@[p].len() > 0
        &&& forall|p: AtomView, s: AtomView|
            self@.contains_key(p) && (#[trigger] self@[p].contains_key(s)) ==> 1 <= self@[p][s]
                <= usize::MAX
    }

    /// A well-formed model is sound and a chain.
    pub open spec fn wf(&self) -> bool {
        self.sound() && is_chain(self@)
    }

    /// What the view holds at each place of a sound representation.
    proof fn lemma_view(&self)
        requires
            self.inv(),
        ensures
            self.sound(),
            forall|i: int|
                0 <= i < self.keys.len() ==> self@.contains_key((#[trigger] self.keys[i])@)
                    && self@[self.keys[i]@] == self.tables[i]@ && self.row_order(self.keys[i]@)
                    == self.tables[i].order(),
            forall|p: AtomView| !self@.contains_key(p) ==> #[trigger] self.row_order(p) == Seq::<
                AtomView,
            >::empty(),
    {
        let order = self.order();
        assert forall|i: int| 0 <= i < self.keys.len() implies self.row_order(
            (#[trigger] self.keys[i])@,
        ) == self.tables[i].order() by {
            lemma_place_of(self.keys@, i);
        }
        assert forall|i: int| 0 <= i < self.keys.len() implies self@.contains_key(
            (#[trigger] self.keys[i])@,
        ) && self@[self.keys[i]@] == self.tables[i]@ by {
            lemma_place_of(self.keys@, i);
        }
        assert forall|p: AtomView| self@.contains_key(p) implies order.contains(p) by {
            let i = place_of(self.keys@, p);
            assert(order[i] == p);
        }
        assert forall|p: AtomView| order.contains(p) implies self@.contains_key(p) by {
            let i = choose|i: int| 0 <= i < order.len() && order[i] == p;
            assert(self.keys@[i]@ == p);
        }
        assert forall|p: AtomView| self@.contains_key(p) implies (#[trigger] self@[p]).dom().finite()
            && self@[p].len() > 0 by {
            let i = place_of(self.keys@, p);
            assert(self.tables[i].wf());
        }
        assert forall|p: AtomView, s: AtomView|
            self@.contains_key(p) && (#[trigger] self@[p].contains_key(s)) implies 1
            <= self@[p][s] <= usize::MAX by {
            let i = place_of(self.keys@, p);
            assert(self.tables[i].wf());
        }
        assert forall|i: int, j: int| 0 <= i < order.len() && 0 <= j < order.len() && i != j
            implies order[i] != order[j] by {
            if i < j {
                assert(self.keys@[i]@ != self.keys@[j]@);
            } else {
                assert(self.keys@[j]@ != self.keys@[i]@);
            }
        }
        assert(self@.dom() =~= order.to_set());
        vstd::seq_lib::seq_to_set_is_finite(order);
        order.unique_seq_to_set();
    }

    /// A sound model lists successors for its predecessors only.
    pub proof fn lemma_rows_of_sound(&self)
        requires
            self.sound(),
        ensures
            forall|p: AtomView| !self@.contains_key(p) ==> #[trigger] self.row_order(p) == Seq::<
                AtomView,
            >::empty(),
    {
        self.lemma_view();
    }

    /// A model without observations.
    pub fn new() -> (model: WordFreq)
        ensures
            model.wf(),
            model@ == Map::<AtomView, Map<AtomView, nat>>::empty(),
            model.order() == Seq::<AtomView>::empty(),
    {
        let model = WordFreq { keys: Vec::new(), tables: Vec::new() };
        proof {
            model.lemma_view();
        }
        model
    }

    /// The number of distinct predecessors.
    pub fn len(&self) -> (n: usize)
        requires
            self.sound(),
        ensures
            n == self@.len(),
    {
        self.keys.len()
    }

    /// Whether the model holds no observation.
    pub fn is_empty(&self) -> (empty: bool)
        requires
            self.sound(),
        ensures
            empty == (self@.len() == 0),
    {
        self.keys.len() == 0
    }

    /// The predecessors, in the order of their first observation.
    pub fn keys(&self) -> (keys: &Vec<SentAtom>)
        requires
            self.sound(),
        ensures
            keys@.len() == self.order().len(),
            forall|i: int| 0 <= i < keys@.len() ==> (#[trigger] keys@[i])@ == self.order()[i],
    {
        &self.keys
    }

    /// The transition table of `pred`, if it was observed as a predecessor.
    pub fn get(&self, pred: &SentAtom) -> (table: Option<&WordTally>)
        requires
            self.sound(),
        ensures
            match table {
                Some(t) => self@.contains_key(pred@) && t@ == self@[pred@] && t.order()
                    == self.row_order(pred@) && t.wf(),
                None => !self@.contains_key(pred@),
            },
    {
        proof {
            self.lemma_view();
        }
        match position(&self.keys, pred) {
            Some(i) => Some(&self.tables[i]),
            None => None,
        }
    }

    /// Whether `pred` was observed as a predecessor.
    pub fn contains_key(&self, pred: &SentAtom) -> (found: bool)
        requires
            self.sound(),
        ensures
            found == self@.contains_key(pred@),
    {
        self.get(pred).is_some()
    }

    /// Records one more observation of `succ` following `pred`.
    pub fn record(&mut self, pred: SentAtom, succ: SentAtom)
        requires
            old(self).sound(),
            count_of(old(self)@, pred@, succ@) < usize::MAX,
        ensures
            final(self).sound(),
            final(self)@ == recorded(old(self)@, pred@, succ@),
            final(self).order() == noted(old(self).order(), pred@),
            forall|p: AtomView| #[trigger]
                final(self).row_order(p) == if p == pred@ {
                    noted(old(self).row_order(p), succ@)
                } else {
                    old(self).row_order(p)
                },
    {
        proof {
            self.lemma_view();
        }
        let ghost before = *self;
        match position(&self.keys, &pred) {
            Some(i) => {
                self.tables[i].tally(succ);
                proof {
                    self.lemma_view();
                    assert(self@ =~= recorded(before@, pred@, succ@)) by {
                        assert forall|p: AtomView| self@.contains_key(p) implies #[trigger] self@[p]
                            == recorded(before@, pred@, succ@)[p] by {
                            let j = place_of(self.keys@, p);
                            assert(self.keys@[j]@ == p);
                        }
                    }
                    assert(before.order().contains(pred@));
                    assert forall|p: AtomView| #[trigger]
                        self.row_order(p) == if p == pred@ {
                            noted(before.row_order(p), succ@)
                        } else {
                            before.row_order(p)
                        } by {
                        if self@.contains_key(p) {
                            let j = place_of(self.keys@, p);
                            assert(self.keys@[j]@ == p);
                        }
                    }
                }
            },
            None => {
                let mut table = WordTally::new();
                table.tally(succ);
                self.keys.push(pred);
                self.tables.push(table);
                proof {
                    assert(distinct(self.keys@)) by {
                        assert forall|i: int, j: int| 0 <= i < j < self.keys.len() implies (
                        #[trigger] self.keys@[i])@ != (#[trigger] self.keys@[j])@ by {
                            if j < before.keys.len() {
                                assert(before.keys@[i]@ != before.keys@[j]@);
                            } else {
                                assert(before.keys@[i]@ != pred@);
                            }
                        }
                    }
                    assert(table@.len() > 0) by {
                        if table@.len() == 0 {
                            vstd::set_lib::lemma_set_empty_equivalency_len(table@.dom());
                        }
                    }
                    assert forall|i: int| 0 <= i < self.tables.len() implies (
                    #[trigger] self.tables[i]).wf() && self.tables[i]@.len() > 0 by {
                        if i < before.tables.len() {
                            assert(before.tables[i].wf());
                        }
                    }
                    self.lemma_view();
                    assert(self@ =~= recorded(before@, pred@, succ@)) by {
                        assert forall|p: AtomView| self@.contains_key(p) implies recorded(
                            before@,
                            pred@,
                            succ@,
                        ).contains_key(p) && #[trigger] self@[p] == recorded(
                            before@,
                            pred@,
                            succ@,
                        )[p] by {
                            let j = place_of(self.keys@, p);
                            assert(self.keys@[j]@ == p);
                            if j < before.keys.len() {
                                assert(before.keys@[j]@ == p);
                            }
                        }
                        assert forall|p: AtomView|
                            recorded(before@, pred@, succ@).contains_key(
                                p,
                            ) implies self@.contains_key(p) by {
                            if p != pred@ {
                                let j = place_of(before.keys@, p);
                                assert(self.keys@[j]@ == p);
                            } else {
                                assert(self.keys@[before.keys.len() as int]@ == p);
                            }
                        }
                    }
                    assert(self.order() =~= before.order().push(pred@));
                    assert forall|p: AtomView| #[trigger]
                        self.row_order(p) == if p == pred@ {
                            noted(before.row_order(p), succ@)
                        } else {
                            before.row_order(p)
                        } by {
                        if p == pred@ {
                            assert(Seq::<AtomView>::empty().push(succ@) =~= noted(
                                Seq::<AtomView>::empty(),
                                succ@,
                            ));
                        } else if self@.contains_key(p) {
                            let j = place_of(self.keys@, p);
                            assert(self.keys@[j]@ == p);
                        }
                    }
                }
            },
        }
    }
}

} // verus!
