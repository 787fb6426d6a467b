//! The game engine: the top-level turn loop, the war resolver and the cycle detector.
use vstd::prelude::*;

use std::collections::VecDeque;

use crate::card::{penalty_of, Card};
use crate::model::{
    award, cards_in, ends_at, frame_of, game_outcome, initial, lemma_initial_cards, lemma_play_conserves,
    lemma_war_empties_centre, play, repeated_at, state_at, verdict_at, war, ExitStates, Frame, GameState,
    Play,
};
use crate::space::{frames_within, lemma_distinct_frames_bounded, lemma_frame_within, lemma_frames_within_finite};

verus! {

/// Takes the top card of a hand and returns its penalty class with it.
pub fn check_penalty_card(deck: &mut VecDeque<Card>) -> (r: (u8, Card))
    requires
        old(deck)@.len() > 0,
    ensures
        r.1 == old(deck)@[0],
        r.0 as nat == penalty_of(r.1),
        final(deck)@ == old(deck)@.drop_first(),
{
    let card = deck.pop_front().unwrap();
    (card.penalty(), card)
}

/// Moves the centre pile to the back of the hand of the player that `turn` names.
fn award_centre(turn: bool, p1: &mut VecDeque<Card>, p2: &mut VecDeque<Card>, centre: &mut VecDeque<Card>)
    ensures
        award(turn, old(p1)@, old(p2)@, old(centre)@) == (GameState {
            hand1: final(p1)@,
            hand2: final(p2)@,
            turn,
            centre: final(centre)@,
        }),
{
    if turn {
        p1.append(centre);
    } else {
        p2.append(centre);
    }
}

/// Resolves a war chain: `card_count` cards are owed by the player that `turn` names, who did
/// not play the penalty card. Returns the winner as an error when a hand runs out on the way.
pub fn handle_penalty(
    card_count: u8,
    turn: &mut bool,
    p1: &mut VecDeque<Card>,
    p2: &mut VecDeque<Card>,
    centre: &mut VecDeque<Card>,
) -> (r: Result<(), ExitStates>)
    ensures
            war(card_count as nat, !*old(turn), old(p1)@, old(p2)@, old(centre)@) == match r {
            Ok(_) => Play::Continue(
                GameState { hand1: final(p1)@, hand2: final(p2)@, turn: *final(turn), centre: final(centre)@ },
            ),
            Err(w) => Play::Ended(
                w,
                GameState { hand1: final(p1)@, hand2: final(p2)@, turn: *final(turn), centre: final(centre)@ },
            ),
        },
    decreases old(p1)@.len() + old(p2)@.len(),
{
    *turn = !*turn;
    let ghost total = p1@.len() + p2@.len();
    let ghost goal = war(card_count as nat, *turn, p1@, p2@, centre@);
    let mut i: u8 = 0;
    while i < card_count
        invariant
            i <= card_count,
            p1@.len() + p2@.len() + i == total,
            total == old(p1)@.len() + old(p2)@.len(),
            goal == war(card_count as nat, !*old(turn), old(p1)@, old(p2)@, old(centre)@),
            war((card_count - i) as nat, *turn, p1@, p2@, centre@) == goal,
        decreases card_count - i,
    {
        if p1.len() == 0 {
            return Err(ExitStates::P2Win);
        }
        if p2.len() == 0 {
            return Err(ExitStates::P1Win);
        }
        let ghost (h1, h2, c) = (p1@, p2@, centre@);
        let (penalty, centre_card) = if *turn {
            check_penalty_card(p2)
        } else {
            check_penalty_card(p1)
        };
        centre.push_back(centre_card);
        if penalty != 0 {
            assert(war((card_count - i) as nat, *turn, h1, h2, c) == war(penalty as nat, !*turn, p1@, p2@, centre@));
            let ghost (t1, q1, q2, qc) = (*turn, p1@, p2@, centre@);
            let res = handle_penalty(penalty, turn, p1, p2, centre);
            match res {
                Err(e) => {
                    return Err(e);
                },
                Ok(()) => {},
            }
            proof {
                lemma_war_empties_centre(penalty as nat, !t1, q1, q2, qc);
            }
            let ghost (a1, a2, ac) = (p1@, p2@, centre@);
            award_centre(*turn, p1, p2, centre);
            assert(p1@ =~= a1 && p2@ =~= a2 && centre@ =~= ac);
            return Ok(());
        }
        i += 1;
    }
    award_centre(*turn, p1, p2, centre);
    Ok(())
}

/// The frame of a game as the cycle detector stores it.
pub struct GameFrame {
    pub hand1: VecDeque<Card>,
    pub hand2: VecDeque<Card>,
    pub turn: bool,
}

impl View for GameFrame {
    type V = Frame;

    open spec fn view(&self) -> Frame {
        Frame { hand1: self.hand1@, hand2: self.hand2@, turn: self.turn }
    }
}

/// The cards `from .. to` of the deck, as a hand.
fn deal(cards: &[Card], from: usize, to: usize) -> (r: VecDeque<Card>)
    requires
        from <= to <= cards@.len(),
    ensures
        r@ == cards@.subrange(from as int, to as int),
{
    let mut r: VecDeque<Card> = VecDeque::new();
    let mut i: usize = from;
    while i < to
        invariant
            from <= i <= to,
            to <= cards@.len(),
            r@ == cards@.subrange(from as int, i as int),
        decreases to - i,
    {
        r.push_back(cards[i]);
        i += 1;
        assert(r@ =~= cards@.subrange(from as int, i as int));
    }
    r
}

/// A copy of a hand.
fn copy_hand(h: &VecDeque<Card>) -> (r: VecDeque<Card>)
    ensures
        r@ == h@,
{
    let mut r: VecDeque<Card> = VecDeque::new();
    let mut i: usize = 0;
    while i < h.len()
        invariant
            i <= h@.len(),
            r@ == h@.subrange(0, i as int),
        decreases h@.len() - i,
    {
        r.push_back(h[i]);
        i += 1;
        assert(r@ =~= h@.subrange(0, i as int));
    }
    assert(r@ =~= h@);
    r
}

/// Whether two hands hold the same cards in the same order.
fn same_hand(a: &VecDeque<Card>, b: &VecDeque<Card>) -> (r: bool)
    ensures
        r == (a@ == b@),
{
    if a.len() != b.len() {
        return false;
    }
    let mut i: usize = 0;
    while i < a.len()
        invariant
            a@.len() == b@.len(),
            i <= a@.len(),
            forall|j: int| 0 <= j < i ==> a@[j] == b@[j],
        decreases a@.len() - i,
    {
        if !(a[i] == b[i]) {
            return false;
        }
        i += 1;
    }
    assert(a@ =~= b@);
    true
}

/// Whether a frame is among the frames seen so far.
fn frame_seen(frames: &Vec<GameFrame>, f: &GameFrame) -> (r: bool)
    ensures
        r == exists|i: int| 0 <= i < frames@.len() && #[trigger] frames@[i]@ == f@,
{
    let mut i: usize = 0;
    while i < frames.len()
        invariant
            i <= frames@.len(),
            forall|j: int| 0 <= j < i ==> #[trigger] frames@[j]@ != f@,
        decreases frames@.len() - i,
    {
        let g = &frames[i];
        if g.turn == f.turn && same_hand(&g.hand1, &f.hand1) && same_hand(&g.hand2, &f.hand2) {
            assert(frames@[i as int]@ == f@);
            return true;
        }
        i += 1;
    }
    false
}

/// Plays the game dealt from `cards` (first half to player 1, the rest to player 2) to its end.
/// The deck must split into two non-empty hands of equal size; `simulate` checks that first.
pub fn handle_game(cards: &[Card]) -> (r: ExitStates)
    requires
        cards@.len() >= 2,
        cards@.len() % 2 == 0,
    ensures
        game_outcome(cards@, r),
{
    let half = cards.len() / 2;
    let mut p1 = deal(cards, 0, half);
    let mut p2 = deal(cards, half, cards.len());
    let mut turn = true;
    let mut centre: VecDeque<Card> = VecDeque::new();
    let mut game_frames: Vec<GameFrame> = Vec::new();
    let ghost s0 = initial(cards@);
    let ghost space = frames_within(cards@.to_set(), cards@.len());
    proof {
        broadcast use vstd::seq_lib::seq_to_set_is_finite;

        lemma_initial_cards(cards@);
        lemma_frames_within_finite(cards@.to_set(), cards@.len());
        assert(p1@ =~= s0.hand1);
        assert(p2@ =~= s0.hand2);
        assert(centre@ =~= s0.centre);
    }
    loop
        invariant
            space == frames_within(cards@.to_set(), cards@.len()),
            space.finite(),
            s0 == initial(cards@),
            state_at(s0, game_frames@.len() as nat) == (GameState { hand1: p1@, hand2: p2@, turn, centre: centre@ }),
            cards_in(GameState { hand1: p1@, hand2: p2@, turn, centre: centre@ }) == cards@.to_multiset(),
            forall|i: int| 0 <= i < game_frames@.len() ==> #[trigger] game_frames@[i]@ == frame_of(state_at(s0, i as nat)),
            forall|i: int| 0 <= i < game_frames@.len() ==> space.contains(#[trigger] game_frames@[i]@),
            forall|i: int, j: int| 0 <= i < j < game_frames@.len() ==> game_frames@[i]@ != game_frames@[j]@,
            forall|i: nat| i < game_frames@.len() ==> #[trigger] verdict_at(s0, i) is None,
        decreases space.len() - game_frames@.len(),
    {
        let ghost k = game_frames@.len() as nat;
        let ghost s = state_at(s0, k);
        if p1.len() == 0 {
            assert(ends_at(s0, k, ExitStates::P2Win));
            return ExitStates::P2Win;
        }
        if p2.len() == 0 {
            assert(ends_at(s0, k, ExitStates::P1Win));
            return ExitStates::P1Win;
        }
        let current_frame = GameFrame { hand1: copy_hand(&p1), hand2: copy_hand(&p2), turn };
        if frame_seen(&game_frames, &current_frame) {
            proof {
                let i = choose|i: int| 0 <= i < game_frames@.len() && #[trigger] game_frames@[i]@ == current_frame@;
                assert(frame_of(state_at(s0, i as nat)) == frame_of(state_at(s0, k)));
                assert(repeated_at(s0, k));
                assert(ends_at(s0, k, ExitStates::Looping));
            }
            return ExitStates::Looping;
        }
        proof {
            assert forall|i: nat| i < k implies #[trigger] frame_of(state_at(s0, i)) != frame_of(state_at(s0, k)) by {
                assert(game_frames@[i as int]@ == frame_of(state_at(s0, i)));
            }
            assert(!repeated_at(s0, k));
            lemma_frame_within(cards@, s);
        }
        let ghost before = game_frames@;
        game_frames.push(current_frame);
        proof {
            let seen = Seq::new(game_frames@.len(), |i: int| game_frames@[i]@);
            assert forall|i: int| 0 <= i < seen.len() implies space.contains(#[trigger] seen[i]) by {
                assert(space.contains(game_frames@[i]@));
            }
            assert(seen.no_duplicates()) by {
                assert forall|i: int, j: int| 0 <= i < seen.len() && 0 <= j < seen.len() && i != j implies seen[i] != seen[j] by {
                    if i < j {
                        assert(game_frames@[i]@ != game_frames@[j]@);
                    } else {
                        assert(game_frames@[j]@ != game_frames@[i]@);
                    }
                }
            }
            lemma_distinct_frames_bounded(seen, space);
        }
        let (penalty, card) = if turn {
            check_penalty_card(&mut p1)
        } else {
            check_penalty_card(&mut p2)
        };
        turn = !turn;
        centre.push_back(card);
        if penalty != 0 {
            match handle_penalty(penalty, &mut turn, &mut p1, &mut p2, &mut centre) {
                Err(e) => {
                    assert(ends_at(s0, k, e));
                    return e;
                },
                Ok(()) => {},
            }
        }
        proof {
            lemma_play_conserves(s);
            assert(state_at(s0, k + 1) == (GameState { hand1: p1@, hand2: p2@, turn, centre: centre@ }));
        }
    }
}

/// Why a deck was refused.
#[derive(Clone, Copy, Debug, PartialEq, Eq, Structural)]
pub enum DeckError {
    /// The deck does not split into two non-empty hands of equal size.
    Unsplittable,
}

/// Plays the game dealt from `cards`, after checking that the deck splits into two non-empty
/// hands of equal size.
pub fn simulate(cards: &[Card]) -> (r: Result<ExitStates, DeckError>)
    ensures
        r is Err <==> (cards@.len() < 2 || cards@.len() % 2 == 1),
        r is Err ==> r == Err::<ExitStates, DeckError>(DeckError::Unsplittable),
        r is Ok ==> game_outcome(cards@, r->Ok_0),
{
    if cards.len() < 2 || cards.len() % 2 == 1 {
        return Err(DeckError::Unsplittable);
    }
    Ok(handle_game(cards))
}

} // verus!
