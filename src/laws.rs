//! What holds of every game: cards are conserved, a game has one outcome, and each outcome
//! is backed by the states that led to it.
use vstd::prelude::*;

use crate::card::{penalty_of, Card};
use crate::model::{
    after_play, cards_in, ends_at, frame_of, game_outcome, initial, lemma_initial_cards, lemma_play_conserves,
    play, play_states, lemma_play_states_conserve, repeated_at, state_at, verdict_at, war, ExitStates, GameState, Play,
};

verus! {

/// The state in which the game ends at play `j`: the state itself when a hand is already
/// empty, else the state in which its play stopped.
pub open spec fn end_state(s0: GameState, j: nat) -> GameState {
    let s = state_at(s0, j);
    if s.hand1.len() == 0 || s.hand2.len() == 0 {
        s
    } else {
        after_play(s)
    }
}

/// Card conservation: before every play of a game that is still going, and in the state in
/// which it ends, the hands and the centre pile hold exactly the cards of the deck, so their
/// sizes add up to the size of the deck.
pub proof fn lemma_card_conservation(deck: Seq<Card>, j: nat)
    requires
        forall|i: nat| i < j ==> #[trigger] verdict_at(initial(deck), i) is None,
    ensures
        cards_in(state_at(initial(deck), j)) == deck.to_multiset(),
        cards_in(end_state(initial(deck), j)) == deck.to_multiset(),
        ({
            let s = state_at(initial(deck), j);
            s.hand1.len() + s.hand2.len() + s.centre.len() == deck.len()
        }),
        ({
            let s = end_state(initial(deck), j);
            s.hand1.len() + s.hand2.len() + s.centre.len() == deck.len()
        }),
    decreases j,
{
    broadcast use {vstd::multiset::group_multiset_axioms, vstd::seq_lib::group_to_multiset_ensures};

    let s0 = initial(deck);
    if j == 0 {
        lemma_initial_cards(deck);
    } else {
        lemma_card_conservation(deck, (j - 1) as nat);
        let p = state_at(s0, (j - 1) as nat);
        assert(verdict_at(s0, (j - 1) as nat) is None);
        lemma_play_conserves(p);
    }
    let s = state_at(s0, j);
    if s.hand1.len() > 0 && s.hand2.len() > 0 {
        lemma_play_conserves(s);
    }
    let e = end_state(s0, j);
    assert(cards_in(s).len() == s.hand1.len() + s.hand2.len() + s.centre.len());
    assert(cards_in(e).len() == e.hand1.len() + e.hand2.len() + e.centre.len());
}

/// Card conservation inside a play: every state that the play before play `j` passes through,
/// each card paid in a war chain included, holds exactly the cards of the deck, so the sizes
/// of the hands and the centre pile add up to the size of the deck.
pub proof fn lemma_card_conservation_in_play(deck: Seq<Card>, j: nat)
    requires
        forall|i: nat| i < j ==> #[trigger] verdict_at(initial(deck), i) is None,
        state_at(initial(deck), j).hand1.len() > 0,
        state_at(initial(deck), j).hand2.len() > 0,
    ensures
        forall|i: int|
            0 <= i < play_states(state_at(initial(deck), j)).len() ==> {
                let s = #[trigger] play_states(state_at(initial(deck), j))[i];
                &&& cards_in(s) == deck.to_multiset()
                &&& s.hand1.len() + s.hand2.len() + s.centre.len() == deck.len()
            },
{
    broadcast use {vstd::multiset::group_multiset_axioms, vstd::seq_lib::group_to_multiset_ensures};

    lemma_card_conservation(deck, j);
    let p = play_states(state_at(initial(deck), j));
    lemma_play_states_conserve(state_at(initial(deck), j));
    assert forall|i: int| 0 <= i < p.len() implies {
        let s = #[trigger] p[i];
        &&& cards_in(s) == deck.to_multiset()
        &&& s.hand1.len() + s.hand2.len() + s.centre.len() == deck.len()
    } by {
        let s = p[i];
        assert(cards_in(s).len() == s.hand1.len() + s.hand2.len() + s.centre.len());
    }
}

/// The outcome of a game is unique: the same deck never leads to two outcomes. With the
/// fact that `handle_game` ends with an outcome on every deck it accepts, exactly one of the
/// three outcomes is the result for each such deck, and equal decks give equal results.
pub proof fn lemma_outcome_unique(deck: Seq<Card>, r1: ExitStates, r2: ExitStates)
    requires
        game_outcome(deck, r1),
        game_outcome(deck, r2),
    ensures
        r1 == r2,
{
    let s0 = initial(deck);
    let j1 = choose|j: nat| ends_at(s0, j, r1);
    let j2 = choose|j: nat| ends_at(s0, j, r2);
    if j1 < j2 {
        assert(verdict_at(s0, j1) is None);
    } else if j2 < j1 {
        assert(verdict_at(s0, j2) is None);
    }
}

/// A game that is classified as a cycle went through the same frame twice: before play `i`
/// and before play `j`, for some `i < j`, with both hands non-empty each time.
pub proof fn lemma_loop_sound(s0: GameState, j: nat)
    requires
        ends_at(s0, j, ExitStates::Looping),
    ensures
        exists|i: nat|
            i < j && #[trigger] frame_of(state_at(s0, i)) == frame_of(state_at(s0, j))
                && state_at(s0, i).hand1.len() > 0 && state_at(s0, i).hand2.len() > 0,
        state_at(s0, j).hand1.len() > 0,
        state_at(s0, j).hand2.len() > 0,
{
    let s = state_at(s0, j);
    if s.hand1.len() > 0 && s.hand2.len() > 0 {
        lemma_play_ends_sound(s);
    }
    assert(repeated_at(s0, j));
    let i = choose|i: nat| i < j && #[trigger] frame_of(state_at(s0, i)) == frame_of(state_at(s0, j));
    assert(verdict_at(s0, i) is None);
}

/// A war chain entered with cards in some hand and in the centre ends the game only when a
/// hand is empty and the other is not, and otherwise leaves cards in some hand.
proof fn lemma_war_ends_sound(count: nat, turn: bool, hand1: Seq<Card>, hand2: Seq<Card>, centre: Seq<Card>)
    requires
        hand1.len() + hand2.len() > 0,
        centre.len() > 0,
    ensures
        match war(count, turn, hand1, hand2, centre) {
            Play::Ended(ExitStates::P1Win, t) => t.hand2.len() == 0 && t.hand1.len() > 0,
            Play::Ended(ExitStates::P2Win, t) => t.hand1.len() == 0 && t.hand2.len() > 0,
            Play::Ended(ExitStates::Looping, _) => false,
            Play::Continue(t) => t.hand1.len() + t.hand2.len() > 0,
        },
    decreases hand1.len() + hand2.len(),
{
    if count > 0 && hand1.len() > 0 && hand2.len() > 0 {
        let card = if turn { hand2[0] } else { hand1[0] };
        let h1 = if turn { hand1 } else { hand1.drop_first() };
        let h2 = if turn { hand2.drop_first() } else { hand2 };
        if penalty_of(card) == 0 {
            lemma_war_ends_sound((count - 1) as nat, turn, h1, h2, centre.push(card));
        } else {
            lemma_war_ends_sound(penalty_of(card), !turn, h1, h2, centre.push(card));
        }
    }
}

/// A play from a state with cards in both hands ends the game only when a hand is empty and
/// the other is not, and otherwise leaves cards in some hand.
proof fn lemma_play_ends_sound(s: GameState)
    requires
        s.hand1.len() > 0,
        s.hand2.len() > 0,
    ensures
        match play(s) {
            Play::Ended(ExitStates::P1Win, t) => t.hand2.len() == 0 && t.hand1.len() > 0,
            Play::Ended(ExitStates::P2Win, t) => t.hand1.len() == 0 && t.hand2.len() > 0,
            Play::Ended(ExitStates::Looping, _) => false,
            Play::Continue(t) => t.hand1.len() + t.hand2.len() > 0,
        },
{
    let card = if s.turn { s.hand1[0] } else { s.hand2[0] };
    let h1 = if s.turn { s.hand1.drop_first() } else { s.hand1 };
    let h2 = if s.turn { s.hand2 } else { s.hand2.drop_first() };
    if penalty_of(card) != 0 {
        lemma_war_ends_sound(penalty_of(card), s.turn, h1, h2, s.centre.push(card));
    }
}

/// Before every play of a game that is still going, some hand holds cards.
proof fn lemma_hands_not_both_empty(s0: GameState, j: nat)
    requires
        s0.hand1.len() + s0.hand2.len() > 0,
        forall|i: nat| i < j ==> #[trigger] verdict_at(s0, i) is None,
    ensures
        state_at(s0, j).hand1.len() + state_at(s0, j).hand2.len() > 0,
    decreases j,
{
    if j > 0 {
        lemma_hands_not_both_empty(s0, (j - 1) as nat);
        assert(verdict_at(s0, (j - 1) as nat) is None);
        lemma_play_ends_sound(state_at(s0, (j - 1) as nat));
    }
}

/// Win soundness: when a game dealt from a non-empty deck is won, the loser's hand is empty
/// and the winner's is not in the state in which the game ends.
pub proof fn lemma_win_sound(deck: Seq<Card>, j: nat, r: ExitStates)
    requires
        deck.len() > 0,
        ends_at(initial(deck), j, r),
        r != ExitStates::Looping,
    ensures
        r == ExitStates::P1Win ==> end_state(initial(deck), j).hand2.len() == 0 && end_state(initial(deck), j).hand1.len() > 0,
        r == ExitStates::P2Win ==> end_state(initial(deck), j).hand1.len() == 0 && end_state(initial(deck), j).hand2.len() > 0,
{
    let s0 = initial(deck);
    assert(s0.hand1 + s0.hand2 =~= deck);
    lemma_hands_not_both_empty(s0, j);
    let s = state_at(s0, j);
    if s.hand1.len() > 0 && s.hand2.len() > 0 {
        lemma_play_ends_sound(s);
    }
}

} // verus!
