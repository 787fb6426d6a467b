//! The space of frames a game can pass through. It is finite, which is what makes the
//! cycle detector end every game.
use vstd::prelude::*;
use vstd::set_lib::{lemma_len_subset, lemma_set_subset_finite};

use crate::card::Card;
use crate::model::{cards_in, frame_of, Frame, GameState};

verus! {

/// Hands of at most `n` cards, each drawn from `cards`.
pub open spec fn hands_within(cards: Set<Card>, n: nat) -> Set<Seq<Card>> {
    Set::new(|h: Seq<Card>| h.len() <= n && forall|i: int| 0 <= i < h.len() ==> cards.contains(#[trigger] h[i]))
}

/// Frames whose hands both lie in `hands_within(cards, n)`.
pub open spec fn frames_within(cards: Set<Card>, n: nat) -> Set<Frame> {
    Set::new(|f: Frame| hands_within(cards, n).contains(f.hand1) && hands_within(cards, n).contains(f.hand2))
}

spec fn extend(cards: Set<Card>, h: Seq<Card>) -> Set<Seq<Card>> {
    cards.map(|c: Card| h.push(c))
}

spec fn both_turns(h1: Seq<Card>, h2: Seq<Card>) -> Set<Frame> {
    Set::empty().insert(Frame { hand1: h1, hand2: h2, turn: true }).insert(Frame { hand1: h1, hand2: h2, turn: false })
}

spec fn row(hands: Set<Seq<Card>>, h1: Seq<Card>) -> Set<Frame> {
    hands.map(|h2: Seq<Card>| both_turns(h1, h2)).flatten()
}

proof fn lemma_flatten_map_finite<A, B>(s: Set<A>, f: spec_fn(A) -> Set<B>)
    requires
        s.finite(),
        forall|x: A| s.contains(x) ==> #[trigger] f(x).finite(),
    ensures
        s.map(f).flatten().finite(),
{
    s.lemma_map_finite(f);
    assert forall|t: Set<B>| s.map(f).contains(t) implies #[trigger] t.finite() by {
        let x = choose|x: A| s.contains(x) && f(x) == t;
    }
    s.map(f).lemma_flatten_finite();
}

proof fn lemma_hands_within_finite(cards: Set<Card>, n: nat)
    requires
        cards.finite(),
    ensures
        hands_within(cards, n).finite(),
    decreases n,
{
    if n == 0 {
        assert forall|h: Seq<Card>| hands_within(cards, 0).contains(h) implies h =~= Seq::<Card>::empty() by {}
        assert(hands_within(cards, 0) =~= Set::empty().insert(Seq::<Card>::empty()));
    } else {
        let prev = hands_within(cards, (n - 1) as nat);
        lemma_hands_within_finite(cards, (n - 1) as nat);
        let ext = |h: Seq<Card>| extend(cards, h);
        assert forall|h: Seq<Card>| prev.contains(h) implies #[trigger] ext(h).finite() by {
            cards.lemma_map_finite(|c: Card| h.push(c));
        }
        lemma_flatten_map_finite(prev, ext);
        let big = prev.union(prev.map(ext).flatten());
        assert forall|h: Seq<Card>| hands_within(cards, n).contains(h) implies big.contains(h) by {
            if h.len() == n {
                let p = h.drop_last();
                assert(prev.contains(p));
                assert(h =~= p.push(h.last()));
                assert(cards.contains(h[h.len() - 1]));
                assert(extend(cards, p).contains(h));
                assert(prev.map(ext).contains(ext(p)));
            }
        }
        lemma_set_subset_finite(big, hands_within(cards, n));
    }
}

/// The frame space is finite.
pub proof fn lemma_frames_within_finite(cards: Set<Card>, n: nat)
    requires
        cards.finite(),
    ensures
        frames_within(cards, n).finite(),
{
    let hands = hands_within(cards, n);
    lemma_hands_within_finite(cards, n);
    let g = |h1: Seq<Card>| row(hands, h1);
    assert forall|h1: Seq<Card>| hands.contains(h1) implies #[trigger] g(h1).finite() by {
        let f = |h2: Seq<Card>| both_turns(h1, h2);
        assert forall|h2: Seq<Card>| hands.contains(h2) implies #[trigger] f(h2).finite() by {}
        lemma_flatten_map_finite(hands, f);
    }
    lemma_flatten_map_finite(hands, g);
    let all = hands.map(g).flatten();
    assert forall|fr: Frame| frames_within(cards, n).contains(fr) implies all.contains(fr) by {
        assert(both_turns(fr.hand1, fr.hand2).contains(fr));
        assert(hands.map(|h2: Seq<Card>| both_turns(fr.hand1, h2)).contains(both_turns(fr.hand1, fr.hand2)));
        assert(row(hands, fr.hand1).contains(fr));
        assert(hands.map(g).contains(g(fr.hand1)));
    }
    lemma_set_subset_finite(all, frames_within(cards, n));
}

/// A state that holds exactly the cards of `deck` has its frame in the frame space of `deck`.
pub proof fn lemma_frame_within(deck: Seq<Card>, s: GameState)
    requires
        cards_in(s) == deck.to_multiset(),
    ensures
        frames_within(deck.to_set(), deck.len()).contains(frame_of(s)),
{
    broadcast use {vstd::multiset::group_multiset_axioms, vstd::seq_lib::group_to_multiset_ensures};

    assert forall|i: int| 0 <= i < s.hand1.len() implies deck.to_set().contains(#[trigger] s.hand1[i]) by {
        assert(s.hand1.contains(s.hand1[i]));
        assert(deck.to_multiset().count(s.hand1[i]) > 0);
    }
    assert forall|i: int| 0 <= i < s.hand2.len() implies deck.to_set().contains(#[trigger] s.hand2[i]) by {
        assert(s.hand2.contains(s.hand2[i]));
        assert(deck.to_multiset().count(s.hand2[i]) > 0);
    }
    assert(s.hand1.to_multiset().len() == s.hand1.len());
    assert(s.hand2.to_multiset().len() == s.hand2.len());
    assert(s.centre.to_multiset().len() == s.centre.len());
    assert(deck.to_multiset().len() == deck.len());
}

/// Distinct frames of a finite space are no more than the space holds.
pub proof fn lemma_distinct_frames_bounded(seen: Seq<Frame>, space: Set<Frame>)
    requires
        space.finite(),
        seen.no_duplicates(),
        forall|i: int| 0 <= i < seen.len() ==> space.contains(#[trigger] seen[i]),
    ensures
        seen.len() <= space.len(),
{
    broadcast use vstd::seq_lib::group_seq_properties;

    seen.unique_seq_to_set();
    assert(seen.to_set().subset_of(space));
    lemma_len_subset(seen.to_set(), space);
}

} // verus!
