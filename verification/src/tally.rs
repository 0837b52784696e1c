//! Transition tables: how often each atom was seen to follow one predecessor.

use crate::atom::{
    distinct, holds, lemma_place_of, place_of, position, values_of, AtomView, SentAtom,
};
use vstd::prelude::*;

verus! {

/// The count that `tally` records for `atom`; zero where it records none.
pub open spec fn count_in(tally: Map<AtomView, nat>, atom: AtomView) -> nat {
    if tally.contains_key(atom) {
        tally[atom]
    } else {
        0
    }
}

/// `tally` after one more observation of `atom`.
pub open spec fn tallied(tally: Map<AtomView, nat>, atom: AtomView) -> Map<AtomView, nat> {
    tally.insert(atom, count_in(tally, atom) + 1)
}

/// `order` with `atom` noted at its end, unless it stands in `order` already.
pub open spec fn noted(order: Seq<AtomView>, atom: AtomView) -> Seq<AtomView> {
    if order.contains(atom) {
        order
    } else {
        order.push(atom)
    }
}

/// The atoms of `order`, each repeated as often as `tally` counts it.
pub open spec fn repeated(order: Seq<AtomView>, tally: Map<AtomView, nat>) -> Seq<AtomView>
    decreases order.len(),
{
    if order.len() == 0 {
        Seq::empty()
    } else {
        repeated(order.drop_last(), tally) + Seq::new(
            count_in(tally, order.last()),
            |k: int| order.last(),
        )
    }
}

/// Whatever `repeated` holds is an atom of `order` with a count above zero.
pub proof fn lemma_repeated_counted(order: Seq<AtomView>, tally: Map<AtomView, nat>, k: int)
    requires
        0 <= k < repeated(order, tally).len(),
    ensures
        order.contains(repeated(order, tally)[k]),
        count_in(tally, repeated(order, tally)[k]) > 0,
    decreases order.len(),
{
    let front = repeated(order.drop_last(), tally);
    if k < front.len() {
        lemma_repeated_counted(order.drop_last(), tally, k);
        let a = front[k];
        let i = choose|i: int| 0 <= i < order.drop_last().len() && order.drop_last()[i] == a;
        assert(order[i] == a);
    } else {
        assert(order[order.len() - 1] == order.last());
    }
}

/// How often each successor atom was observed after one predecessor.
///
/// The atoms are kept in the order in which they were first observed.
#[derive(Debug)]
pub struct WordTally {
    atoms: Vec<SentAtom>,
    counts: Vec<usize>,
}

impl View for WordTally {
    type V = Map<AtomView, nat>;

    closed spec fn view(&self) -> Map<AtomView, nat> {
        Map::new(
            |a: AtomView| holds(self.atoms@, a),
            |a: AtomView| self.counts@[place_of(self.atoms@, a)] as nat,
        )
    }
}

impl WordTally {
    /// The representation is sound: one count for each atom, no atom twice, no count of zero.
    pub closed spec fn inv(&self) -> bool {
        &&& self.atoms.len() == self.counts.len()
        &&& distinct(self.atoms@)
        &&& forall|i: int| 0 <= i < self.counts.len() ==> self.counts[i] >= 1
    }

    /// The atoms in the order of their first observation.
    pub closed spec fn order(&self) -> Seq<AtomView> {
        Seq::new(self.atoms.len() as nat, |i: int| self.atoms[i]@)
    }

    /// A well-formed table counts finitely many atoms, each at least once, and
    /// `order` lists exactly those atoms, each of them once.
    pub open spec fn wf(&self) -> bool {
        &&& self.inv()
        &&& self@.dom().finite()
        &&& self@.len() == self.order().len()
        &&& self.order().no_duplicates()
        &&& forall|a: AtomView| self@.contains_key(a) <==> self.order().contains(a)
        &&& forall|a: AtomView| self@.contains_key(a) ==> 1 <= #[trigger] self@[a] <= usize::MAX
    }

    /// What the view holds at each place of a sound representation.
    proof fn lemma_view(&self)
        requires
            self.inv(),
        ensures
            self.wf(),
            forall|i: int|
                0 <= i < self.atoms.len() ==> self@.contains_key((#[trigger] self.atoms[i])@)
                    && self@[self.atoms[i]@] == self.counts[i],
    {
        let order = self.order();
        assert forall|i: int| 0 <= i < self.atoms.len() implies self@.contains_key(
            (#[trigger] self.atoms[i])@,
        ) && self@[self.atoms[i]@] == self.counts[i] by {
            lemma_place_of(self.atoms@, i);
        }
        assert forall|a: AtomView| self@.contains_key(a) implies order.contains(a) by {
            let i = place_of(self.atoms@, a);
            assert(order[i] == a);
        }
        assert forall|a: AtomView| order.contains(a) implies self@.contains_key(a) by {
            let i = choose|i: int| 0 <= i < order.len() && order[i] == a;
            assert(self.atoms@[i]@ == a);
        }
        assert forall|a: AtomView| self@.contains_key(a) implies 1 <= #[trigger] self@[a]
            <= usize::MAX by {
            let i = place_of(self.atoms@, a);
            assert(self.atoms@[i]@ == a);
        }
        assert forall|i: int, j: int| 0 <= i < order.len() && 0 <= j < order.len() && i != j
            implies order[i] != order[j] by {
            if i < j {
                assert(self.atoms@[i]@ != self.atoms@[j]@);
            } else {
                assert(self.atoms@[j]@ != self.atoms@[i]@);
            }
        }
        assert(self@.dom() =~= order.to_set());
        vstd::seq_lib::seq_to_set_is_finite(order);
        order.unique_seq_to_set();
    }

    /// A table without observations.
    pub fn new() -> (tally: WordTally)
        ensures
            tally.wf(),
            tally@ == Map::<AtomView, nat>::empty(),
            tally.order() == Seq::<AtomView>::empty(),
    {
        let tally = WordTally { atoms: Vec::new(), counts: Vec::new() };
        proof {
            tally.lemma_view();
        }
        tally
    }

    /// The number of distinct atoms observed.
    pub fn len(&self) -> (n: usize)
        requires
            self.wf(),
        ensures
            n == self@.len(),
    {
        self.atoms.len()
    }

    /// Whether nothing was observed.
    pub fn is_empty(&self) -> (empty: bool)
        requires
            self.wf(),
        ensures
            empty == (self@.len() == 0),
    {
        self.atoms.len() == 0
    }

    /// The count recorded for `atom`, if it was observed.
    pub fn get(&self, atom: &SentAtom) -> (count: Option<&usize>)
        requires
            self.wf(),
        ensures
            match count {
                Some(c) => self@.contains_key(atom@) && *c == self@[atom@],
                None => !self@.contains_key(atom@),
            },
    {
        proof {
            self.lemma_view();
        }
        match position(&self.atoms, atom) {
            Some(i) => Some(&self.counts[i]),
            None => None,
        }
    }

    /// Whether `atom` was observed.
    pub fn contains_key(&self, atom: &SentAtom) -> (found: bool)
        requires
            self.wf(),
        ensures
            found == self@.contains_key(atom@),
    {
        self.get(atom).is_some()
    }

    /// Every observed atom, repeated as often as it was observed, in the order of
    /// first observation: a uniform draw from the result is a draw weighted by the counts.
    pub fn expand(&self) -> (all: Vec<&SentAtom>)
        requires
            self.wf(),
        ensures
            values_of(all@) == repeated(self.order(), self@),
    {
        proof {
            self.lemma_view();
        }
        let ghost order = self.order();
        let mut all: Vec<&SentAtom> = Vec::new();
        let mut i: usize = 0;
        while i < self.atoms.len()
            invariant
                self.inv(),
                order == self.order(),
                i <= self.atoms.len(),
                values_of(all@) == repeated(order.take(i as int), self@),
                forall|j: int|
                    0 <= j < self.atoms.len() ==> self@.contains_key((#[trigger] self.atoms[j])@)
                        && self@[self.atoms[j]@] == self.counts[j],
            decreases self.atoms.len() - i,
        {
            let atom = &self.atoms[i];
            let count = self.counts[i];
            let ghost front = values_of(all@);
            let mut k: usize = 0;
            while k < count
                invariant
                    k <= count,
                    values_of(all@) == front + Seq::new(k as nat, |n: int| atom@),
                decreases count - k,
            {
                let ghost before = values_of(all@);
                all.push(atom);
                k += 1;
                assert(values_of(all@) =~= before.push(atom@));
            }
            proof {
                let next = order.take(i + 1);
                assert(next.drop_last() =~= order.take(i as int));
                assert(Seq::new(count as nat, |n: int| atom@) =~= Seq::new(
                    count_in(self@, next.last()),
                    |n: int| next.last(),
                ));
            }
            i += 1;
        }
        assert(order.take(i as int) =~= order);
        all
    }

    /// Records one more observation of `atom`.
    pub fn tally(&mut self, atom: SentAtom)
        requires
            old(self).wf(),
            count_in(old(self)@, atom@) < usize::MAX,
        ensures
            final(self).wf(),
            final(self)@ == tallied(old(self)@, atom@),
            final(self).order() == noted(old(self).order(), atom@),
    {
        proof {
            self.lemma_view();
        }
        let ghost before = *self;
        match position(&self.atoms, &atom) {
            Some(i) => {
                let c = self.counts[i];
                self.counts.set(i, c + 1);
                proof {
                    self.lemma_view();
                    assert(self@ =~= tallied(before@, atom@)) by {
                        assert forall|a: AtomView| self@.contains_key(a) implies #[trigger] self@[a]
                            == tallied(before@, atom@)[a] by {
                            let j = place_of(self.atoms@, a);
                            assert(self.atoms@[j]@ == a);
                        }
                    }
                }
            },
            None => {
                self.atoms.push(atom);
                self.counts.push(1);
                proof {
                    assert(distinct(self.atoms@)) by {
                        assert forall|i: int, j: int| 0 <= i < j < self.atoms.len() implies (
                        #[trigger] self.atoms@[i])@ != (#[trigger] self.atoms@[j])@ by {
                            if j < before.atoms.len() {
                                assert(before.atoms@[i]@ != before.atoms@[j]@);
                            } else {
                                assert(before.atoms@[i]@ != atom@);
                            }
                        }
                    }
                    self.lemma_view();
                    assert(self@ =~= tallied(before@, atom@)) by {
                        assert forall|a: AtomView| self@.contains_key(a) implies tallied(
                            before@,
                            atom@,
                        ).contains_key(a) && #[trigger] self@[a] == tallied(before@, atom@)[a] by {
                            let j = place_of(self.atoms@, a);
                            if j < before.atoms.len() {
                                assert(before.atoms@[j]@ == a);
                            }
                        }
                        assert forall|a: AtomView|
                            tallied(before@, atom@).contains_key(a) implies self@.contains_key(
                            a,
                        ) by {
                            if a != atom@ {
                                let j = place_of(before.atoms@, a);
                                assert(self.atoms@[j]@ == a);
                            } else {
                                assert(self.atoms@[before.atoms.len() as int]@ == a);
                            }
                        }
                    }
                }
            },
        }
    }
}

} // verus!
