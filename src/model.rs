//! The mathematical model of a game: hands as sequences, one play as a function on game
//! states, and the verdict that ends a game.
use vstd::multiset::Multiset;
use vstd::prelude::*;
use vstd::seq_lib::{lemma_multiset_commutative, lemma_seq_union_to_multiset_commutative, to_multiset_build};

use crate::card::{penalty_of, Card};

verus! {

/// How a game ends.
#[derive(Clone, Copy, Debug, PartialEq, Eq, Structural)]
pub enum ExitStates {
    /// A frame came back: the game was classified as a cycle.
    Looping,
    /// Player 2 ran out of cards.
    P1Win,
    /// Player 1 ran out of cards.
    P2Win,
}

/// Everything a game carries between two plays.
pub struct GameState {
    pub hand1: Seq<Card>,
    pub hand2: Seq<Card>,
    /// `true` when player 1 plays next.
    pub turn: bool,
    pub centre: Seq<Card>,
}

/// The fingerprint used to detect a cycle: both hands and the turn, not the centre pile.
pub struct Frame {
    pub hand1: Seq<Card>,
    pub hand2: Seq<Card>,
    pub turn: bool,
}

/// What one play leads to: the game goes on from a new state, or it ends in a state.
pub enum Play {
    Continue(GameState),
    Ended(ExitStates, GameState),
}

pub open spec fn frame_of(s: GameState) -> Frame {
    Frame { hand1: s.hand1, hand2: s.hand2, turn: s.turn }
}

/// The state in which a game starts: the first half of the deck for player 1, the rest for
/// player 2, player 1 to play.
pub open spec fn initial(deck: Seq<Card>) -> GameState {
    GameState {
        hand1: deck.take(deck.len() as int / 2),
        hand2: deck.skip(deck.len() as int / 2),
        turn: true,
        centre: Seq::empty(),
    }
}

/// The centre pile goes to the back of the hand of the player that `turn` names.
pub open spec fn award(turn: bool, hand1: Seq<Card>, hand2: Seq<Card>, centre: Seq<Card>) -> GameState {
    if turn {
        GameState { hand1: hand1 + centre, hand2, turn, centre: Seq::empty() }
    } else {
        GameState { hand1, hand2: hand2 + centre, turn, centre: Seq::empty() }
    }
}

/// A war chain: the player opposite to `turn` still owes `count` cards. A paid penalty card
/// starts a new obligation for the other side, which replaces what was left of this one.
pub open spec fn war(count: nat, turn: bool, hand1: Seq<Card>, hand2: Seq<Card>, centre: Seq<Card>) -> Play
    decreases hand1.len() + hand2.len(),
{
    if count == 0 {
        Play::Continue(award(turn, hand1, hand2, centre))
    } else if hand1.len() == 0 {
        Play::Ended(ExitStates::P2Win, GameState { hand1, hand2, turn, centre })
    } else if hand2.len() == 0 {
        Play::Ended(ExitStates::P1Win, GameState { hand1, hand2, turn, centre })
    } else {
        let card = if turn { hand2[0] } else { hand1[0] };
        let h1 = if turn { hand1 } else { hand1.drop_first() };
        let h2 = if turn { hand2.drop_first() } else { hand2 };
        if penalty_of(card) == 0 {
            war((count - 1) as nat, turn, h1, h2, centre.push(card))
        } else {
            war(penalty_of(card), !turn, h1, h2, centre.push(card))
        }
    }
}

/// One top-level play: the player to move puts their top card on the centre pile; a penalty
/// card starts a war chain.
pub open spec fn play(s: GameState) -> Play {
    let card = if s.turn { s.hand1[0] } else { s.hand2[0] };
    let h1 = if s.turn { s.hand1.drop_first() } else { s.hand1 };
    let h2 = if s.turn { s.hand2 } else { s.hand2.drop_first() };
    if penalty_of(card) == 0 {
        Play::Continue(GameState { hand1: h1, hand2: h2, turn: !s.turn, centre: s.centre.push(card) })
    } else {
        war(penalty_of(card), s.turn, h1, h2, s.centre.push(card))
    }
}

pub open spec fn after_war(p: Play) -> GameState {
    match p {
        Play::Continue(t) => t,
        Play::Ended(_, t) => t,
    }
}

pub open spec fn after_play(s: GameState) -> GameState {
    match play(s) {
        Play::Continue(t) => t,
        Play::Ended(_, t) => t,
    }
}

/// The state before the play numbered `i` (counting from 0).
pub open spec fn state_at(s0: GameState, i: nat) -> GameState
    decreases i,
{
    if i == 0 {
        s0
    } else {
        after_play(state_at(s0, (i - 1) as nat))
    }
}

/// The frame before play `j` was already seen before an earlier play.
pub open spec fn repeated_at(s0: GameState, j: nat) -> bool {
    exists|i: nat| i < j && #[trigger] frame_of(state_at(s0, i)) == frame_of(state_at(s0, j))
}

/// How the game ends at a state, if it does: an empty hand first, then a repeated frame,
/// then a hand that runs out during the play.
pub open spec fn verdict(s: GameState, repeated: bool) -> Option<ExitStates> {
    if s.hand1.len() == 0 {
        Some(ExitStates::P2Win)
    } else if s.hand2.len() == 0 {
        Some(ExitStates::P1Win)
    } else if repeated {
        Some(ExitStates::Looping)
    } else {
        match play(s) {
            Play::Ended(w, _) => Some(w),
            Play::Continue(_) => None,
        }
    }
}

pub open spec fn verdict_at(s0: GameState, i: nat) -> Option<ExitStates> {
    verdict(state_at(s0, i), repeated_at(s0, i))
}

/// The game from `s0` goes on through plays `0 .. j` and ends with `r` at play `j`.
pub open spec fn ends_at(s0: GameState, j: nat, r: ExitStates) -> bool {
    &&& forall|i: nat| i < j ==> #[trigger] verdict_at(s0, i) is None
    &&& verdict_at(s0, j) == Some(r)
}

/// The game dealt from `deck` ends with `r`.
pub open spec fn game_outcome(deck: Seq<Card>, r: ExitStates) -> bool {
    exists|j: nat| ends_at(initial(deck), j, r)
}

/// A war chain that does not end the game hands out the whole centre pile.
pub proof fn lemma_war_empties_centre(count: nat, turn: bool, hand1: Seq<Card>, hand2: Seq<Card>, centre: Seq<Card>)
    ensures
        war(count, turn, hand1, hand2, centre) is Continue ==> war(count, turn, hand1, hand2, centre)->Continue_0.centre.len() == 0,
    decreases hand1.len() + hand2.len(),
{
    if count > 0 && hand1.len() > 0 && hand2.len() > 0 {
        let card = if turn { hand2[0] } else { hand1[0] };
        let h1 = if turn { hand1 } else { hand1.drop_first() };
        let h2 = if turn { hand2.drop_first() } else { hand2 };
        if penalty_of(card) == 0 {
            lemma_war_empties_centre((count - 1) as nat, turn, h1, h2, centre.push(card));
        } else {
            lemma_war_empties_centre(penalty_of(card), !turn, h1, h2, centre.push(card));
        }
    }
}

/// Every state a war chain passes through: the state it starts in, the state after each
/// card paid, and, when the chain is paid in full, the state after the award.
pub open spec fn war_states(count: nat, turn: bool, hand1: Seq<Card>, hand2: Seq<Card>, centre: Seq<Card>) -> Seq<GameState>
    decreases hand1.len() + hand2.len(),
{
    let here = GameState { hand1, hand2, turn, centre };
    if count == 0 {
        seq![here, award(turn, hand1, hand2, centre)]
    } else if hand1.len() == 0 || hand2.len() == 0 {
        seq![here]
    } else {
        let card = if turn { hand2[0] } else { hand1[0] };
        let h1 = if turn { hand1 } else { hand1.drop_first() };
        let h2 = if turn { hand2.drop_first() } else { hand2 };
        if penalty_of(card) == 0 {
            seq![here] + war_states((count - 1) as nat, turn, h1, h2, centre.push(card))
        } else {
            seq![here] + war_states(penalty_of(card), !turn, h1, h2, centre.push(card))
        }
    }
}

/// Every state one top-level play passes through: the state before it, the state after the
/// top card is played, and then each state of the war chain the card starts, if any.
pub open spec fn play_states(s: GameState) -> Seq<GameState> {
    let card = if s.turn { s.hand1[0] } else { s.hand2[0] };
    let h1 = if s.turn { s.hand1.drop_first() } else { s.hand1 };
    let h2 = if s.turn { s.hand2 } else { s.hand2.drop_first() };
    if penalty_of(card) == 0 {
        seq![s, GameState { hand1: h1, hand2: h2, turn: !s.turn, centre: s.centre.push(card) }]
    } else {
        seq![s] + war_states(penalty_of(card), s.turn, h1, h2, s.centre.push(card))
    }
}

/// All the cards of a state, wherever they lie.
pub open spec fn cards_in(s: GameState) -> Multiset<Card> {
    s.hand1.to_multiset().add(s.hand2.to_multiset()).add(s.centre.to_multiset())
}

/// Taking the top card off a hand leaves the other cards.
pub proof fn lemma_take_top(h: Seq<Card>)
    requires
        h.len() > 0,
    ensures
        h.to_multiset() == h.drop_first().to_multiset().insert(h[0]),
{
    let d = h.drop_first();
    assert(h =~= seq![h[0]] + d);
    lemma_seq_union_to_multiset_commutative(seq![h[0]], d);
    assert(d + seq![h[0]] =~= d.push(h[0]));
    to_multiset_build(d, h[0]);
}

/// The cards dealt are the cards of the deck.
pub proof fn lemma_initial_cards(deck: Seq<Card>)
    ensures
        cards_in(initial(deck)) == deck.to_multiset(),
{
    broadcast use {vstd::multiset::group_multiset_axioms, vstd::multiset::group_multiset_properties, vstd::seq_lib::group_to_multiset_ensures};

    let s = initial(deck);
    assert(deck =~= s.hand1 + s.hand2);
    lemma_multiset_commutative(s.hand1, s.hand2);
    assert(s.centre.to_multiset() =~= Multiset::empty());
    assert(cards_in(s) =~= deck.to_multiset());
}

/// A war chain moves cards but never makes or loses one.
pub proof fn lemma_war_conserves(count: nat, turn: bool, hand1: Seq<Card>, hand2: Seq<Card>, centre: Seq<Card>)
    ensures
        cards_in(after_war(war(count, turn, hand1, hand2, centre)))
            == cards_in(GameState { hand1, hand2, turn, centre }),
    decreases hand1.len() + hand2.len(),
{
    broadcast use {vstd::multiset::group_multiset_axioms, vstd::multiset::group_multiset_properties, vstd::seq_lib::group_to_multiset_ensures};

    let s = GameState { hand1, hand2, turn, centre };
    if count == 0 {
        lemma_multiset_commutative(hand1, centre);
        lemma_multiset_commutative(hand2, centre);
        assert(Seq::<Card>::empty().to_multiset() =~= Multiset::empty());
        assert(cards_in(after_war(war(count, turn, hand1, hand2, centre))) =~= cards_in(s));
    } else if hand1.len() > 0 && hand2.len() > 0 {
        let card = if turn { hand2[0] } else { hand1[0] };
        let h1 = if turn { hand1 } else { hand1.drop_first() };
        let h2 = if turn { hand2.drop_first() } else { hand2 };
        let t = GameState { hand1: h1, hand2: h2, turn, centre: centre.push(card) };
        lemma_take_top(hand1);
        lemma_take_top(hand2);
        to_multiset_build(centre, card);
        assert(cards_in(t) =~= cards_in(s));
        if penalty_of(card) == 0 {
            lemma_war_conserves((count - 1) as nat, turn, h1, h2, centre.push(card));
        } else {
            lemma_war_conserves(penalty_of(card), !turn, h1, h2, centre.push(card));
        }
    }
}

/// A play moves cards but never makes or loses one.
pub proof fn lemma_play_conserves(s: GameState)
    requires
        s.hand1.len() > 0,
        s.hand2.len() > 0,
    ensures
        cards_in(after_play(s)) == cards_in(s),
{
    broadcast use {vstd::multiset::group_multiset_axioms, vstd::multiset::group_multiset_properties, vstd::seq_lib::group_to_multiset_ensures};

    let card = if s.turn { s.hand1[0] } else { s.hand2[0] };
    let h1 = if s.turn { s.hand1.drop_first() } else { s.hand1 };
    let h2 = if s.turn { s.hand2 } else { s.hand2.drop_first() };
    lemma_take_top(s.hand1);
    lemma_take_top(s.hand2);
    to_multiset_build(s.centre, card);
    let t = GameState { hand1: h1, hand2: h2, turn: !s.turn, centre: s.centre.push(card) };
    assert(cards_in(t) =~= cards_in(s));
    if penalty_of(card) != 0 {
        lemma_war_conserves(penalty_of(card), s.turn, h1, h2, s.centre.push(card));
        assert(cards_in(GameState { turn: s.turn, ..t }) == cards_in(t));
    }
}

/// Every state of a war chain holds the cards it started with.
pub proof fn lemma_war_states_conserve(count: nat, turn: bool, hand1: Seq<Card>, hand2: Seq<Card>, centre: Seq<Card>)
    ensures
        forall|i: int|
            0 <= i < war_states(count, turn, hand1, hand2, centre).len() ==> cards_in(
                #[trigger] war_states(count, turn, hand1, hand2, centre)[i],
            ) == cards_in(GameState { hand1, hand2, turn, centre }),
    decreases hand1.len() + hand2.len(),
{
    broadcast use {vstd::multiset::group_multiset_axioms, vstd::multiset::group_multiset_properties, vstd::seq_lib::group_to_multiset_ensures};

    let s = GameState { hand1, hand2, turn, centre };
    let w = war_states(count, turn, hand1, hand2, centre);
    if count == 0 {
        lemma_multiset_commutative(hand1, centre);
        lemma_multiset_commutative(hand2, centre);
        assert(Seq::<Card>::empty().to_multiset() =~= Multiset::empty());
        assert(cards_in(award(turn, hand1, hand2, centre)) =~= cards_in(s));
        assert(w[1] == award(turn, hand1, hand2, centre));
    } else if hand1.len() > 0 && hand2.len() > 0 {
        let card = if turn { hand2[0] } else { hand1[0] };
        let h1 = if turn { hand1 } else { hand1.drop_first() };
        let h2 = if turn { hand2.drop_first() } else { hand2 };
        let t = GameState { hand1: h1, hand2: h2, turn, centre: centre.push(card) };
        lemma_take_top(hand1);
        lemma_take_top(hand2);
        to_multiset_build(centre, card);
        assert(cards_in(t) =~= cards_in(s));
        let nt = if penalty_of(card) == 0 { turn } else { !turn };
        let nc: nat = if penalty_of(card) == 0 { (count - 1) as nat } else { penalty_of(card) };
        lemma_war_states_conserve(nc, nt, h1, h2, centre.push(card));
        let rest = war_states(nc, nt, h1, h2, centre.push(card));
        assert(w == seq![s] + rest);
        assert(cards_in(GameState { turn: nt, ..t }) == cards_in(t));
        assert forall|i: int| 0 <= i < w.len() implies cards_in(#[trigger] w[i]) == cards_in(s) by {
            if i > 0 {
                assert(w[i] == rest[i - 1]);
            }
        }
    }
}

/// Every state one play passes through holds the cards of the state before it.
pub proof fn lemma_play_states_conserve(s: GameState)
    requires
        s.hand1.len() > 0,
        s.hand2.len() > 0,
    ensures
        forall|i: int| 0 <= i < play_states(s).len() ==> cards_in(#[trigger] play_states(s)[i]) == cards_in(s),
{
    broadcast use {vstd::multiset::group_multiset_axioms, vstd::seq_lib::group_to_multiset_ensures};

    let card = if s.turn { s.hand1[0] } else { s.hand2[0] };
    let h1 = if s.turn { s.hand1.drop_first() } else { s.hand1 };
    let h2 = if s.turn { s.hand2 } else { s.hand2.drop_first() };
    lemma_take_top(s.hand1);
    lemma_take_top(s.hand2);
    to_multiset_build(s.centre, card);
    let t = GameState { hand1: h1, hand2: h2, turn: s.turn, centre: s.centre.push(card) };
    assert(cards_in(t) =~= cards_in(s));
    let p = play_states(s);
    if penalty_of(card) != 0 {
        lemma_war_states_conserve(penalty_of(card), s.turn, h1, h2, s.centre.push(card));
        let rest = war_states(penalty_of(card), s.turn, h1, h2, s.centre.push(card));
        assert forall|i: int| 0 <= i < p.len() implies cards_in(#[trigger] p[i]) == cards_in(s) by {
            if i > 0 {
                assert(p[i] == rest[i - 1]);
            }
        }
    } else {
        assert(cards_in(GameState { turn: !s.turn, ..t }) == cards_in(t));
    }
}

} // verus!
