//! Building the frequency model from a corpus.

use crate::atom::{AtomView, SentAtom};
use crate::model::{commas_lead_on, count_of, is_chain, recorded, row_of, Chain, WordFreq};
use crate::tally::{count_in, noted, tallied};
use crate::token::{
    ends_with_comma, has_trailing_comma, lemma_line_len_is, lemma_words_count, lines_of, texts,
    to_chars, trim_comma, trimcomma, words_between, words_of,
};
use vstd::prelude::*;

verus! {

/// One observation: the second atom was seen to follow the first.
pub type Edge = (AtomView, AtomView);

/// The atom for the word that `token` spells: the token without its trailing comma.
pub open spec fn word_atom(token: Seq<char>) -> AtomView {
    AtomView::Word(trim_comma(token))
}

/// What the neighbours `words[i]` and `words[i + 1]` tell: the second word follows
/// the first, and so does a comma where the first token ends with one.
pub open spec fn pair_edges(words: Seq<Seq<char>>, i: int) -> Seq<Edge> {
    let pred = word_atom(words[i]);
    let succ = word_atom(words[i + 1]);
    if ends_with_comma(words[i]) {
        seq![(pred, AtomView::Comma), (pred, succ)]
    } else {
        seq![(pred, succ)]
    }
}

/// What the first `n` pairs of neighbours in `words` tell, in order.
pub open spec fn pairs_edges(words: Seq<Seq<char>>, n: nat) -> Seq<Edge>
    decreases n,
{
    if n == 0 {
        Seq::empty()
    } else {
        pairs_edges(words, (n - 1) as nat) + pair_edges(words, n - 1)
    }
}

/// What one line with the tokens `words` tells: nothing where it has fewer than two
/// tokens; otherwise what each pair of neighbours tells, and that a sentence break
/// follows the last word.
pub open spec fn line_edges(words: Seq<Seq<char>>) -> Seq<Edge> {
    if words.len() < 2 {
        Seq::empty()
    } else {
        pairs_edges(words, (words.len() - 1) as nat).push(
            (word_atom(words.last()), AtomView::SentBreak),
        )
    }
}

/// What the lines `lines` tell, in order.
pub open spec fn corpus_edges(lines: Seq<Seq<char>>) -> Seq<Edge>
    decreases lines.len(),
{
    if lines.len() == 0 {
        Seq::empty()
    } else {
        corpus_edges(lines.drop_last()) + line_edges(words_of(lines.last()))
    }
}

/// How often `edges` holds the observation that `succ` follows `pred`.
pub open spec fn occurrences(edges: Seq<Edge>, pred: AtomView, succ: AtomView) -> nat {
    edges.to_multiset().count((pred, succ))
}

/// The transition table of `pred` after the observations `edges`.
pub open spec fn successors(edges: Seq<Edge>, pred: AtomView) -> Map<AtomView, nat> {
    Map::new(
        |succ: AtomView| occurrences(edges, pred, succ) > 0,
        |succ: AtomView| occurrences(edges, pred, succ),
    )
}

/// The model after the observations `edges`: it counts for every pair of atoms how
/// often the pair was observed, and keeps no entry for a pair never observed.
pub open spec fn trained(edges: Seq<Edge>) -> Chain {
    Map::new(
        |pred: AtomView| exists|succ: AtomView| occurrences(edges, pred, succ) > 0,
        |pred: AtomView| successors(edges, pred),
    )
}

/// `model` after the observations `edges` were recorded, one after the other.
pub open spec fn absorbed(model: Chain, edges: Seq<Edge>) -> Chain
    decreases edges.len(),
{
    if edges.len() == 0 {
        model
    } else {
        recorded(absorbed(model, edges.drop_last()), edges.last().0, edges.last().1)
    }
}

/// `order` after the predecessors in `edges` were noted, one after the other.
pub open spec fn preds_noted(order: Seq<AtomView>, edges: Seq<Edge>) -> Seq<AtomView>
    decreases edges.len(),
{
    if edges.len() == 0 {
        order
    } else {
        noted(preds_noted(order, edges.drop_last()), edges.last().0)
    }
}

/// `order` after the successors of `pred` in `edges` were noted, one after the other.
pub open spec fn succs_noted(order: Seq<AtomView>, edges: Seq<Edge>, pred: AtomView) -> Seq<
    AtomView,
>
    decreases edges.len(),
{
    if edges.len() == 0 {
        order
    } else if edges.last().0 == pred {
        noted(succs_noted(order, edges.drop_last(), pred), edges.last().1)
    } else {
        succs_noted(order, edges.drop_last(), pred)
    }
}

/// The predecessors in `edges`, each once, in the order of their first observation.
pub open spec fn pred_order(edges: Seq<Edge>) -> Seq<AtomView> {
    preds_noted(Seq::empty(), edges)
}

/// The successors of `pred` in `edges`, each once, in the order of their first
/// observation after `pred`.
pub open spec fn succ_order(edges: Seq<Edge>, pred: AtomView) -> Seq<AtomView> {
    succs_noted(Seq::empty(), edges, pred)
}

/// Whether `model` holds exactly what the observations `edges` tell: their counts,
/// and predecessors and successors in the order in which they were first observed.
pub open spec fn holds_exactly(model: WordFreq, edges: Seq<Edge>) -> bool {
    &&& model@ == trained(edges)
    &&& model.order() == pred_order(edges)
    &&& forall|p: AtomView| #[trigger] model.row_order(p) == succ_order(edges, p)
}

/// Whether `after` is `before` grown by the observations `edges`: their counts are
/// added, and predecessors and successors not yet known take their places behind
/// the known ones, in the order in which they were first observed.
pub open spec fn grown(before: WordFreq, after: WordFreq, edges: Seq<Edge>) -> bool {
    &&& after@ == absorbed(before@, edges)
    &&& after.order() == preds_noted(before.order(), edges)
    &&& forall|p: AtomView| #[trigger]
        after.row_order(p) == succs_noted(before.row_order(p), edges, p)
}

/// One more observation adds one to its own count and leaves the others.
pub proof fn lemma_occurrences_push(edges: Seq<Edge>, e: Edge, pred: AtomView, succ: AtomView)
    ensures
        occurrences(edges.push(e), pred, succ) == occurrences(edges, pred, succ) + if e == (
            pred,
            succ,
        ) {
            1nat
        } else {
            0nat
        },
{
    vstd::seq_lib::to_multiset_build(edges, e);
    vstd::multiset::lemma_insert_increases_count_by_1(edges.to_multiset(), e);
    vstd::multiset::lemma_insert_other_elements_unchanged(edges.to_multiset(), e, (pred, succ));
}

/// Nothing was observed more often than there are observations.
pub proof fn lemma_occurrences_bound(edges: Seq<Edge>, pred: AtomView, succ: AtomView)
    ensures
        occurrences(edges, pred, succ) <= edges.len(),
    decreases edges.len(),
{
    if edges.len() == 0 {
        vstd::seq_lib::to_multiset_len(edges);
        vstd::seq_lib::to_multiset_contains(edges, (pred, succ));
    } else {
        lemma_occurrences_bound(edges.drop_last(), pred, succ);
        lemma_occurrences_push(edges.drop_last(), edges.last(), pred, succ);
        assert(edges.drop_last().push(edges.last()) =~= edges);
    }
}

/// The count that the trained model keeps for a pair is the number of its observations.
pub proof fn lemma_trained_counts(edges: Seq<Edge>, pred: AtomView, succ: AtomView)
    ensures
        count_of(trained(edges), pred, succ) == occurrences(edges, pred, succ),
{
}

/// A model grown by the observations `edges` is grown by one more after `record`.
proof fn lemma_grown_push(
    before: WordFreq,
    mid: WordFreq,
    after: WordFreq,
    edges: Seq<Edge>,
    pred: AtomView,
    succ: AtomView,
)
    requires
        grown(before, mid, edges),
        after@ == recorded(mid@, pred, succ),
        after.order() == noted(mid.order(), pred),
        forall|p: AtomView| #[trigger]
            after.row_order(p) == if p == pred {
                noted(mid.row_order(p), succ)
            } else {
                mid.row_order(p)
            },
    ensures
        grown(before, after, edges.push((pred, succ))),
{
    let more = edges.push((pred, succ));
    assert(more.drop_last() =~= edges);
    assert forall|p: AtomView| #[trigger]
        after.row_order(p) == succs_noted(before.row_order(p), more, p) by {
        assert(mid.row_order(p) == succs_noted(before.row_order(p), edges, p));
    }
}

/// The counts of a grown model are the counts it had and the numbers of the new
/// observations.
pub proof fn lemma_absorbed_counts(model: Chain, edges: Seq<Edge>, pred: AtomView, succ: AtomView)
    ensures
        count_of(absorbed(model, edges), pred, succ) == count_of(model, pred, succ) + occurrences(
            edges,
            pred,
            succ,
        ),
    decreases edges.len(),
{
    if edges.len() == 0 {
        vstd::seq_lib::to_multiset_contains(edges, (pred, succ));
    } else {
        lemma_absorbed_counts(model, edges.drop_last(), pred, succ);
        lemma_occurrences_push(edges.drop_last(), edges.last(), pred, succ);
        assert(edges.drop_last().push(edges.last()) =~= edges);
    }
}

/// What a grown model knows is what it knew and what the new observations tell.
pub proof fn lemma_absorbed_dom(model: Chain, edges: Seq<Edge>)
    ensures
        forall|p: AtomView| #[trigger]
            absorbed(model, edges).contains_key(p) <==> model.contains_key(p) || exists|
                s: AtomView,
            |
                edges.contains((p, s)),
        forall|p: AtomView, s: AtomView| #[trigger]
            row_of(absorbed(model, edges), p).contains_key(s) <==> row_of(model, p).contains_key(s)
                || edges.contains((p, s)),
    decreases edges.len(),
{
    if edges.len() > 0 {
        let front = edges.drop_last();
        let last = edges.last();
        let mid = absorbed(model, front);
        lemma_absorbed_dom(model, front);
        assert(front.push(last) =~= edges);
        assert forall|e: Edge| edges.contains(e) <==> front.contains(e) || e == last by {
            lemma_contains_add(front, seq![last], e);
            if e == last {
                assert(seq![last][0] == e);
            }
        }
        assert forall|p: AtomView| #[trigger]
            absorbed(model, edges).contains_key(p) <==> model.contains_key(p) || exists|
                s: AtomView,
            |
                edges.contains((p, s)) by {
            if mid.contains_key(p) && !model.contains_key(p) {
                let s = choose|s: AtomView| front.contains((p, s));
                assert(edges.contains((p, s)));
            }
            if p == last.0 {
                assert(edges.contains((p, last.1)));
            }
            if exists|s: AtomView| edges.contains((p, s)) {
                let s = choose|s: AtomView| edges.contains((p, s));
                if (p, s) != last {
                    assert(front.contains((p, s)));
                }
            }
        }
        assert forall|p: AtomView, s: AtomView| #[trigger]
            row_of(absorbed(model, edges), p).contains_key(s) <==> row_of(model, p).contains_key(s)
                || edges.contains((p, s)) by {
            assert(row_of(mid, p).contains_key(s) <==> row_of(model, p).contains_key(s)
                || front.contains((p, s)));
        }
    }
}

/// A chain grown by linked observations is a chain, and commas still lead on in it
/// where they did.
pub proof fn lemma_absorbed_linked(model: Chain, edges: Seq<Edge>)
    requires
        linked(edges),
    ensures
        is_chain(model) ==> is_chain(absorbed(model, edges)),
        commas_lead_on(model) ==> commas_lead_on(absorbed(model, edges)),
{
    let more = absorbed(model, edges);
    lemma_absorbed_dom(model, edges);
    if is_chain(model) {
        assert forall|p: AtomView| more.contains_key(p) implies p is Word by {
            if !model.contains_key(p) {
                let s = choose|s: AtomView| edges.contains((p, s));
                assert(edges.contains((p, s)));
            }
        }
        assert forall|p: AtomView, s: AtomView| #[trigger]
            more.contains_key(p) && #[trigger] more[p].contains_key(s) && s is Word implies more.contains_key(
            s,
        ) by {
            assert(row_of(more, p).contains_key(s));
            if row_of(model, p).contains_key(s) {
                assert(model.contains_key(p) && model[p].contains_key(s));
            } else {
                let t = choose|t: AtomView| edges.contains((s, t));
                assert(edges.contains((s, t)));
            }
        }
    }
    if commas_lead_on(model) {
        assert forall|p: AtomView|
            more.contains_key(p) && #[trigger] more[p].contains_key(
                AtomView::Comma,
            ) implies exists|w: Seq<char>| more[p].contains_key(AtomView::Word(w)) by {
            if row_of(model, p).contains_key(AtomView::Comma) {
                let w = choose|w: Seq<char>| model[p].contains_key(AtomView::Word(w));
                assert(row_of(more, p).contains_key(AtomView::Word(w)));
            } else {
                let w = choose|w: Seq<char>| edges.contains((p, AtomView::Word(w)));
                assert(row_of(more, p).contains_key(AtomView::Word(w)));
            }
        }
    }
}

/// A model that holds the observations `a` and is grown by the observations `b`
/// holds the observations `a` and then `b`.
pub proof fn lemma_holds_grown(before: WordFreq, after: WordFreq, a: Seq<Edge>, b: Seq<Edge>)
    requires
        holds_exactly(before, a),
        grown(before, after, b),
    ensures
        holds_exactly(after, a + b),
{
    lemma_trained_add(a, b);
    lemma_preds_noted_add(a, b);
    assert forall|p: AtomView| #[trigger] after.row_order(p) == succ_order(a + b, p) by {
        lemma_succs_noted_add(a, b, p);
    }
}

/// Training on two runs of observations is training on the first and growing by the second.
pub proof fn lemma_trained_add(a: Seq<Edge>, b: Seq<Edge>)
    ensures
        trained(a + b) == absorbed(trained(a), b),
    decreases b.len(),
{
    if b.len() == 0 {
        assert(a + b =~= a);
    } else {
        lemma_trained_add(a, b.drop_last());
        lemma_trained_push(a + b.drop_last(), b.last().0, b.last().1);
        assert((a + b.drop_last()).push(b.last()) =~= a + b);
    }
}

/// Noting the predecessors of two runs of observations is noting those of the
/// first and then those of the second.
proof fn lemma_preds_noted_add(a: Seq<Edge>, b: Seq<Edge>)
    ensures
        pred_order(a + b) == preds_noted(pred_order(a), b),
    decreases b.len(),
{
    if b.len() == 0 {
        assert(a + b =~= a);
    } else {
        lemma_preds_noted_add(a, b.drop_last());
        assert((a + b).drop_last() =~= a + b.drop_last());
    }
}

/// Noting the successors of `pred` in two runs of observations is noting those in
/// the first and then those in the second.
proof fn lemma_succs_noted_add(a: Seq<Edge>, b: Seq<Edge>, pred: AtomView)
    ensures
        succ_order(a + b, pred) == succs_noted(succ_order(a, pred), b, pred),
    decreases b.len(),
{
    if b.len() == 0 {
        assert(a + b =~= a);
    } else {
        lemma_succs_noted_add(a, b.drop_last(), pred);
        assert((a + b).drop_last() =~= a + b.drop_last());
    }
}

/// The first `n` pairs of a line tell no one thing more than `n` times.
proof fn lemma_pairs_occurrences(words: Seq<Seq<char>>, n: nat, pred: AtomView, succ: AtomView)
    ensures
        occurrences(pairs_edges(words, n), pred, succ) <= n,
    decreases n,
{
    if n == 0 {
        vstd::seq_lib::to_multiset_contains(pairs_edges(words, n), (pred, succ));
    } else {
        let front = pairs_edges(words, (n - 1) as nat);
        let p = word_atom(words[n - 1]);
        let s = word_atom(words[n as int]);
        lemma_pairs_occurrences(words, (n - 1) as nat, pred, succ);
        if ends_with_comma(words[n - 1]) {
            lemma_occurrences_push(front, (p, AtomView::Comma), pred, succ);
            lemma_occurrences_push(front.push((p, AtomView::Comma)), (p, s), pred, succ);
            assert(front.push((p, AtomView::Comma)).push((p, s)) =~= pairs_edges(words, n));
        } else {
            lemma_occurrences_push(front, (p, s), pred, succ);
            assert(front.push((p, s)) =~= pairs_edges(words, n));
        }
    }
}

/// Training on one more observation records that observation.
pub proof fn lemma_trained_push(edges: Seq<Edge>, pred: AtomView, succ: AtomView)
    ensures
        trained(edges.push((pred, succ))) == recorded(trained(edges), pred, succ),
{
    let more = edges.push((pred, succ));
    let left = trained(more);
    let right = recorded(trained(edges), pred, succ);
    assert forall|p: AtomView, s: AtomView|
        occurrences(more, p, s) == occurrences(edges, p, s) + if (pred, succ) == (p, s) {
            1nat
        } else {
            0nat
        } by {
        lemma_occurrences_push(edges, (pred, succ), p, s);
    }
    assert forall|p: AtomView| left.contains_key(p) <==> right.contains_key(p) by {
        if left.contains_key(p) {
            let s = choose|s: AtomView| occurrences(more, p, s) > 0;
            if p != pred {
                assert(occurrences(edges, p, s) > 0);
            }
        }
        if right.contains_key(p) {
            if p == pred {
                assert(occurrences(more, p, succ) > 0);
            } else {
                let s = choose|s: AtomView| occurrences(edges, p, s) > 0;
                assert(occurrences(more, p, s) > 0);
            }
        }
    }
    assert forall|p: AtomView| left.contains_key(p) implies left[p] =~= right[p] by {
        if p == pred {
            let row = row_of(trained(edges), pred);
            assert forall|s: AtomView| count_in(row, s) == occurrences(edges, pred, s) by {}
        } else {
            assert(left[p] =~= successors(edges, p));
        }
    }
}

/// Observations among which every walk can go on: only words are followed by
/// anything, a word that follows something is itself followed by something, and a
/// word that a comma follows is also followed by a word.
pub open spec fn linked(edges: Seq<Edge>) -> bool {
    forall|p: AtomView, s: AtomView| #[trigger]
        edges.contains((p, s)) ==> {
            &&& p is Word
            &&& s is Word ==> exists|t: AtomView| edges.contains((s, t))
            &&& s is Comma ==> exists|w: Seq<char>| edges.contains((p, AtomView::Word(w)))
        }
}

/// What the first `n` pairs of a line tell is linked, but for the word that ends
/// the last of these pairs.
proof fn lemma_pairs_linked(words: Seq<Seq<char>>, n: nat)
    requires
        n < words.len(),
    ensures
        forall|p: AtomView, s: AtomView| #[trigger]
            pairs_edges(words, n).contains((p, s)) ==> {
                &&& p is Word
                &&& s is Word ==> s == word_atom(words[n as int]) || exists|t: AtomView|
                    pairs_edges(words, n).contains((s, t))
                &&& s is Comma ==> exists|w: Seq<char>|
                    pairs_edges(words, n).contains((p, AtomView::Word(w)))
            },
    decreases n,
{
    if n > 0 {
        let front = pairs_edges(words, (n - 1) as nat);
        let back = pair_edges(words, n - 1);
        let all = pairs_edges(words, n);
        let pred = word_atom(words[n - 1]);
        let succ = word_atom(words[n as int]);
        lemma_pairs_linked(words, (n - 1) as nat);
        assert forall|e: Edge| all.contains(e) <==> front.contains(e) || back.contains(e) by {
            lemma_contains_add(front, back, e);
        }
        assert(back.contains((pred, succ))) by {
            assert(back[back.len() - 1] == (pred, succ));
        }
        assert forall|p: AtomView, s: AtomView| #[trigger] all.contains((p, s)) implies {
            &&& p is Word
            &&& s is Word ==> s == succ || exists|t: AtomView| all.contains((s, t))
            &&& s is Comma ==> exists|w: Seq<char>| all.contains((p, AtomView::Word(w)))
        } by {
            if front.contains((p, s)) {
                if s is Word {
                    if s == pred {
                        assert(all.contains((s, succ)));
                    } else {
                        let t = choose|t: AtomView| front.contains((s, t));
                        assert(all.contains((s, t)));
                    }
                }
                if s is Comma {
                    let w = choose|w: Seq<char>| front.contains((p, AtomView::Word(w)));
                    assert(all.contains((p, AtomView::Word(w))));
                }
            } else {
                let k = choose|k: int| 0 <= k < back.len() && back[k] == (p, s);
                if s is Comma {
                    assert(all.contains((p, AtomView::Word(trim_comma(words[n as int])))));
                }
            }
        }
    }
}

/// An observation is among two runs of observations exactly if it is in one of them.
pub proof fn lemma_contains_add(a: Seq<Edge>, b: Seq<Edge>, e: Edge)
    ensures
        (a + b).contains(e) <==> a.contains(e) || b.contains(e),
{
    if a.contains(e) {
        let i = choose|i: int| 0 <= i < a.len() && a[i] == e;
        assert((a + b)[i] == e);
    }
    if b.contains(e) {
        let i = choose|i: int| 0 <= i < b.len() && b[i] == e;
        assert((a + b)[a.len() + i] == e);
    }
    if (a + b).contains(e) {
        let i = choose|i: int| 0 <= i < (a + b).len() && (a + b)[i] == e;
        if i < a.len() {
            assert(a[i] == e);
        } else {
            assert(b[i - a.len()] == e);
        }
    }
}

/// What one line tells is linked.
pub proof fn lemma_line_linked(words: Seq<Seq<char>>)
    ensures
        linked(line_edges(words)),
{
    if words.len() >= 2 {
        let n = (words.len() - 1) as nat;
        let front = pairs_edges(words, n);
        let last = (word_atom(words.last()), AtomView::SentBreak);
        let all = line_edges(words);
        lemma_pairs_linked(words, n);
        assert(all =~= front + seq![last]);
        assert forall|e: Edge| all.contains(e) <==> front.contains(e) || e == last by {
            lemma_contains_add(front, seq![last], e);
            if e == last {
                assert(seq![last][0] == e);
            }
        }
        assert forall|p: AtomView, s: AtomView| #[trigger] all.contains((p, s)) implies {
            &&& p is Word
            &&& s is Word ==> exists|t: AtomView| all.contains((s, t))
            &&& s is Comma ==> exists|w: Seq<char>| all.contains((p, AtomView::Word(w)))
        } by {
            if front.contains((p, s)) {
                if s is Word {
                    if s == word_atom(words.last()) {
                        assert(all.contains((s, AtomView::SentBreak)));
                    } else {
                        let t = choose|t: AtomView| front.contains((s, t));
                        assert(all.contains((s, t)));
                    }
                }
                if s is Comma {
                    let w = choose|w: Seq<char>| front.contains((p, AtomView::Word(w)));
                    assert(all.contains((p, AtomView::Word(w))));
                }
            }
        }
    }
}

/// A pair of neighbours tells one thing or two.
proof fn lemma_pairs_len(words: Seq<Seq<char>>, n: nat)
    ensures
        pairs_edges(words, n).len() <= 2 * n,
    decreases n,
{
    if n > 0 {
        lemma_pairs_len(words, (n - 1) as nat);
    }
}

/// A line tells less than two things for each of its words.
pub proof fn lemma_line_edges_len(words: Seq<Seq<char>>)
    ensures
        line_edges(words).len() <= 2 * words.len(),
        words.len() > 0 ==> line_edges(words).len() < 2 * words.len(),
{
    if words.len() >= 2 {
        lemma_pairs_len(words, (words.len() - 1) as nat);
    }
}

impl WordFreq {
    /// Records what one line with the tokens `words` tells.
    ///
    /// A line of at least two tokens tells, for each pair of neighbours, that the
    /// second word follows the first, and also that a comma follows the first where
    /// its token ends with one; and it tells that a sentence break follows its last
    /// word. A line of fewer tokens tells nothing.
    pub fn add_line(&mut self, words: &Vec<String>)
        requires
            old(self).sound(),
            forall|p: AtomView, s: AtomView|
                count_of(old(self)@, p, s) + words.len() <= usize::MAX,
        ensures
            final(self).sound(),
            grown(*old(self), *final(self), line_edges(texts(words@))),
            is_chain(old(self)@) ==> is_chain(final(self)@),
            commas_lead_on(old(self)@) ==> commas_lead_on(final(self)@),
    {
        let n = words.len();
        let ghost line = texts(words@);
        let ghost start = *self;
        if n < 2 {
            return;
        }
        let ghost mut seen: Seq<Edge> = Seq::empty();
        let mut i: usize = 0;
        while i < n - 1
            invariant
                n == words.len(),
                n >= 2,
                i <= n - 1,
                line == texts(words@),
                self.sound(),
                grown(start, *self, seen),
                seen == pairs_edges(line, i as nat),
                forall|p: AtomView, s: AtomView| count_of(start@, p, s) + n <= usize::MAX,
            decreases n - i,
        {
            let comma = has_trailing_comma(words[i].as_str());
            let pred = trimcomma(words[i].as_str());
            let succ = trimcomma(words[i + 1].as_str());
            let ghost before = seen;
            let ghost p = word_atom(line[i as int]);
            let ghost s = word_atom(line[i + 1]);
            if comma {
                let ghost mid = *self;
                proof {
                    lemma_absorbed_counts(start@, seen, p, AtomView::Comma);
                    lemma_pairs_occurrences(line, i as nat, p, AtomView::Comma);
                }
                self.record(SentAtom::Word(pred.to_owned()), SentAtom::Comma);
                proof {
                    lemma_grown_push(start, mid, *self, seen, p, AtomView::Comma);
                    lemma_occurrences_push(seen, (p, AtomView::Comma), p, s);
                    seen = seen.push((p, AtomView::Comma));
                }
            }
            let ghost mid = *self;
            proof {
                lemma_absorbed_counts(start@, seen, p, s);
                lemma_pairs_occurrences(line, i as nat, p, s);
            }
            self.record(SentAtom::Word(pred.to_owned()), SentAtom::Word(succ.to_owned()));
            proof {
                lemma_grown_push(start, mid, *self, seen, p, s);
                seen = seen.push((p, s));
            }
            i += 1;
        }
        let last = trimcomma(words[n - 1].as_str());
        let ghost mid = *self;
        let ghost p = word_atom(line.last());
        proof {
            lemma_absorbed_counts(start@, seen, p, AtomView::SentBreak);
            lemma_pairs_occurrences(line, (n - 1) as nat, p, AtomView::SentBreak);
        }
        self.record(SentAtom::Word(last.to_owned()), SentAtom::SentBreak);
        proof {
            lemma_grown_push(start, mid, *self, seen, p, AtomView::SentBreak);
            lemma_line_linked(line);
            lemma_absorbed_linked(start@, line_edges(line));
        }
    }
}

/// Trains a model on `text`, one sentence to a line.
///
/// The text is cut into lines at its line feeds and each line into words at its
/// whitespace; the model then holds what the lines tell, one after the other.
pub fn read_corpus(text: &str) -> (model: WordFreq)
    ensures
        model.wf(),
        commas_lead_on(model@),
        holds_exactly(model, corpus_edges(lines_of(text@))),
{
    let chars = to_chars(text);
    let mut model = WordFreq::new();
    let ghost mut done: Seq<Seq<char>> = Seq::empty();
    let mut start: usize = 0;
    proof {
        assert(chars@.skip(0) =~= chars@);
        assert(trained(corpus_edges(done)) =~= Map::<AtomView, Map<AtomView, nat>>::empty()) by {
            assert forall|p: AtomView, s: AtomView| occurrences(corpus_edges(done), p, s) == 0 by {
                vstd::seq_lib::to_multiset_contains(corpus_edges(done), (p, s));
            }
        }
        model.lemma_rows_of_sound();
    }
    while start < chars.len()
        invariant
            start <= chars.len(),
            model.wf(),
            commas_lead_on(model@),
            holds_exactly(model, corpus_edges(done)),
            corpus_edges(done).len() <= start,
            done + lines_of(chars@.skip(start as int)) == lines_of(chars@),
        decreases chars.len() - start,
    {
        let mut end: usize = start;
        while end < chars.len() && chars[end] != '\n'
            invariant
                start <= end <= chars.len(),
                forall|k: int| start <= k < end ==> #[trigger] chars[k] != '\n',
            decreases chars.len() - end,
        {
            end += 1;
        }
        let words = words_between(&chars, start, end);
        let ghost rest = chars@.skip(start as int);
        let ghost line = chars@.subrange(start as int, end as int);
        let ghost before = model;
        proof {
            lemma_line_len_is(rest, (end - start) as nat);
            assert(rest.take(end - start) =~= line);
            lemma_words_count(line);
            lemma_line_edges_len(words_of(line));
            assert forall|p: AtomView, s: AtomView|
                count_of(model@, p, s) + words.len() <= usize::MAX by {
                lemma_occurrences_bound(corpus_edges(done), p, s);
            }
        }
        model.add_line(&words);
        proof {
            lemma_holds_grown(before, model, corpus_edges(done), line_edges(words_of(line)));
            assert(done.push(line).drop_last() =~= done);
            if end < chars.len() {
                assert(rest.skip(end - start + 1) =~= chars@.skip(end + 1));
            } else {
                assert(done.push(line) + lines_of(chars@.skip(end as int)) =~= done + lines_of(
                    rest,
                ));
            }
            done = done.push(line);
        }
        if end < chars.len() {
            start = end + 1;
        } else {
            start = end;
        }
    }
    proof {
        assert(lines_of(chars@.skip(start as int)) =~= Seq::<Seq<char>>::empty());
    }
    model
}

} // verus!
