//! The atoms of the chain: words, commas and sentence breaks.

use vstd::prelude::*;
use vstd::std_specs::cmp::PartialEqSpecImpl;

verus! {

/// One unit of the chain.
#[derive(Debug, Eq, Hash)]
pub enum SentAtom {
    /// The preceding word was directly followed by a comma.
    Comma,
    /// The preceding word ended its sentence.
    SentBreak,
    /// A word, without its trailing comma.
    Word(String),
}

/// The mathematical value of a [`SentAtom`]: a word is the sequence of its characters.
pub enum AtomView {
    /// The value of [`SentAtom::Comma`].
    Comma,
    /// The value of [`SentAtom::SentBreak`].
    SentBreak,
    /// The value of a word with these characters.
    Word(Seq<char>),
}

impl View for SentAtom {
    type V = AtomView;

    open spec fn view(&self) -> AtomView {
        match self {
            SentAtom::Comma => AtomView::Comma,
            SentAtom::SentBreak => AtomView::SentBreak,
            SentAtom::Word(w) => AtomView::Word(w@),
        }
    }
}

impl PartialEq for SentAtom {
    /// Atoms are equal when they are the same variant and, for words, spell the same text.
    fn eq(&self, other: &SentAtom) -> (same: bool) {
        match (self, other) {
            (SentAtom::Comma, SentAtom::Comma) => true,
            (SentAtom::SentBreak, SentAtom::SentBreak) => true,
            (SentAtom::Word(a), SentAtom::Word(b)) => *a == *b,
            _ => false,
        }
    }
}

impl PartialEqSpecImpl for SentAtom {
    open spec fn obeys_eq_spec() -> bool {
        true
    }

    open spec fn eq_spec(&self, other: &SentAtom) -> bool {
        self@ == other@
    }
}

impl SentAtom {
    /// The text of a word; nothing for a marker.
    pub fn word_text(&self) -> (text: Option<&String>)
        ensures
            match text {
                Some(w) => self@ == AtomView::Word(w@),
                None => !(self@ is Word),
            },
    {
        match self {
            SentAtom::Word(w) => Some(w),
            _ => None,
        }
    }

    /// Whether this atom is a marker (comma or sentence break) rather than a word.
    pub fn is_not_word(&self) -> (marker: bool)
        ensures
            marker == !(self@ is Word),
    {
        match self {
            SentAtom::Word(_) => false,
            _ => true,
        }
    }
}

/// The values of the atoms that `atoms` refers to, in order.
pub open spec fn values_of(atoms: Seq<&SentAtom>) -> Seq<AtomView> {
    Seq::new(atoms.len(), |k: int| atoms[k]@)
}

/// Whether some atom of `atoms` has the value `a`.
pub open spec fn holds(atoms: Seq<SentAtom>, a: AtomView) -> bool {
    exists|i: int| 0 <= i < atoms.len() && (#[trigger] atoms[i])@ == a
}

/// A place at which `atoms` has the value `a`, where there is one.
pub open spec fn place_of(atoms: Seq<SentAtom>, a: AtomView) -> int {
    choose|i: int| 0 <= i < atoms.len() && (#[trigger] atoms[i])@ == a
}

/// No two atoms of `atoms` have the same value.
pub open spec fn distinct(atoms: Seq<SentAtom>) -> bool {
    forall|i: int, j: int|
        0 <= i < j < atoms.len() ==> (#[trigger] atoms[i])@ != (#[trigger] atoms[j])@
}

/// In a sequence without repetition, the place of a value is the place where it stands.
pub proof fn lemma_place_of(atoms: Seq<SentAtom>, i: int)
    requires
        distinct(atoms),
        0 <= i < atoms.len(),
    ensures
        holds(atoms, atoms[i]@),
        place_of(atoms, atoms[i]@) == i,
{
    let j = place_of(atoms, atoms[i]@);
    assert(0 <= j < atoms.len() && atoms[j]@ == atoms[i]@);
}

/// The first place at which `atoms` holds an atom equal to `atom`.
pub fn position(atoms: &Vec<SentAtom>, atom: &SentAtom) -> (found: Option<usize>)
    ensures
        match found {
            Some(i) => i < atoms.len() && atoms[i as int]@ == atom@
                && forall|j: int| 0 <= j < i ==> (#[trigger] atoms[j])@ != atom@,
            None => !holds(atoms@, atom@),
        },
{
    let mut i: usize = 0;
    while i < atoms.len()
        invariant
            i <= atoms.len(),
            forall|j: int| 0 <= j < i ==> (#[trigger] atoms[j])@ != atom@,
        decreases atoms.len() - i,
    {
        if atoms[i] == *atom {
            return Some(i);
        }
        i += 1;
    }
    None
}

} // verus!
