use std::collections::VecDeque;

use war_sim::card::{Card, Rank, Suit};
use war_sim::engine::{check_penalty_card, handle_game, handle_penalty, simulate, DeckError};
use war_sim::model::ExitStates;
use war_sim::model::ExitStates::{Looping, P1Win, P2Win};
use war_sim::stats::RunStats;

fn rank_of(c: char) -> Rank {
    match c {
        '2' => Rank::Two,
        '3' => Rank::Three,
        '4' => Rank::Four,
        '5' => Rank::Five,
        '6' => Rank::Six,
        '7' => Rank::Seven,
        '8' => Rank::Eight,
        '9' => Rank::Nine,
        'T' => Rank::Ten,
        'J' => Rank::Jack,
        'Q' => Rank::Queen,
        'K' => Rank::King,
        'A' => Rank::Ace,
        _ => panic!("bad rank {c}"),
    }
}

fn suit_of(c: char) -> Suit {
    match c {
        'C' => Suit::Clubs,
        'D' => Suit::Diamonds,
        'H' => Suit::Hearts,
        'S' => Suit::Spades,
        _ => panic!("bad suit {c}"),
    }
}

/// Cards written as rank then suit, for instance "JS2S" for the jack and the two of spades.
fn cards(text: &str) -> Vec<Card> {
    let chars: Vec<char> = text.chars().collect();
    assert!(chars.len() % 2 == 0);
    chars.chunks(2).map(|p| Card::new(rank_of(p[0]), suit_of(p[1]))).collect()
}

fn full_deck() -> Vec<Card> {
    let ranks = "23456789TJQKA";
    let mut out = Vec::new();
    for s in ['C', 'D', 'H', 'S'] {
        for r in ranks.chars() {
            out.push(Card::new(rank_of(r), suit_of(s)));
        }
    }
    out
}

fn hand(text: &str) -> VecDeque<Card> {
    cards(text).into_iter().collect()
}

#[test]
fn test_looping_simple() {
    let deck = cards("JS2S2S2SJS2S");
    let result = handle_game(&deck);
    assert_eq!(result, Looping);
}

#[test]
fn test_looping_complex() {
    let deck = cards("2D2D2DKD2D2D2DQD2DKDQDADJD2D2D2D2D2DADADJD2D2DJD2D2D2D2D2D2D2D2D2D2D2D2DQS2S2S2S2SKSQS2SJS2S2S2S2S2SKSAS");
    let result = handle_game(&deck);
    assert_eq!(result, Looping);
}

#[test]
fn forced_loop_with_clubs() {
    let deck = cards("JC2C2C2CJC2C");
    assert_eq!(handle_game(&deck), Looping);
    assert_eq!(simulate(&deck), Ok(Looping));
}

#[test]
fn player_one_wins_after_a_war() {
    // Player 1 plays the jack, player 2 pays the three, player 1 takes the pile, then player 2
    // plays the four, its last card.
    let deck = cards("JC2C3C4C");
    assert_eq!(handle_game(&deck), P1Win);
}

#[test]
fn player_two_wins_when_player_one_runs_out() {
    assert_eq!(handle_game(&cards("2C3C")), P2Win);
    assert_eq!(handle_game(&cards("2C3CJC4C")), P2Win);
}

#[test]
fn jack_played_with_last_card_loses() {
    // Player 1 plays its only card, a jack, and has nothing left when the war starts.
    assert_eq!(handle_game(&cards("JS2S")), P2Win);
}

#[test]
fn empty_and_odd_decks_are_rejected() {
    assert_eq!(simulate(&[]), Err(DeckError::Unsplittable));
    assert_eq!(simulate(&cards("AS")), Err(DeckError::Unsplittable));
    assert_eq!(simulate(&cards("2C3C4C")), Err(DeckError::Unsplittable));
    assert_eq!(simulate(&cards("2C3C")), Ok(P2Win));
}

#[test]
fn same_deck_same_outcome() {
    let mut deck = full_deck();
    deck.rotate_left(7);
    let first = handle_game(&deck);
    let second = handle_game(&deck);
    assert_eq!(first, second);
    assert_eq!(simulate(&deck), Ok(first));
}

#[test]
fn every_ordered_deck_ends() {
    let mut deck = full_deck();
    for _ in 0..13 {
        let r: ExitStates = handle_game(&deck);
        assert!(r == Looping || r == P1Win || r == P2Win);
        deck.rotate_left(4);
    }
}

#[test]
fn penalty_classes() {
    let expect = [0u8, 0, 0, 0, 0, 0, 0, 0, 0, 1, 2, 3, 4];
    for (i, r) in "23456789TJQKA".chars().enumerate() {
        assert_eq!(Card::new(rank_of(r), Suit::Hearts).penalty(), expect[i]);
    }
}

#[test]
fn top_card_is_taken() {
    let mut h = hand("QH5D");
    let (p, c) = check_penalty_card(&mut h);
    assert_eq!(p, 2);
    assert_eq!(c, Card::new(Rank::Queen, Suit::Hearts));
    assert_eq!(h, hand("5D"));
}

#[test]
fn war_paid_in_full_goes_to_attacker() {
    // Player 1 played a king (turn now names player 2); player 2 pays three number cards.
    let mut turn = false;
    let mut p1 = hand("2C");
    let mut p2 = hand("3C4C5C6C");
    let mut centre = hand("KC");
    assert_eq!(handle_penalty(3, &mut turn, &mut p1, &mut p2, &mut centre), Ok(()));
    assert!(turn);
    assert_eq!(p1, hand("2CKC3C4C5C"));
    assert_eq!(p2, hand("6C"));
    assert!(centre.is_empty());
}

#[test]
fn nested_war_goes_to_last_penalty() {
    // Player 1 played a queen; player 2 pays a jack, so player 1 now owes one card.
    let mut turn = false;
    let mut p1 = hand("2C3C");
    let mut p2 = hand("JD4D");
    let mut centre = hand("QC");
    assert_eq!(handle_penalty(2, &mut turn, &mut p1, &mut p2, &mut centre), Ok(()));
    assert!(!turn);
    assert_eq!(p1, hand("3C"));
    assert_eq!(p2, hand("4DQCJD2C"));
    assert!(centre.is_empty());
    assert_eq!(p1.len() + p2.len() + centre.len(), 5);
}

#[test]
fn war_stops_when_a_hand_runs_out() {
    let mut turn = false;
    let mut p1 = hand("2C");
    let mut p2 = hand("3D");
    let mut centre = hand("AC");
    assert_eq!(handle_penalty(4, &mut turn, &mut p1, &mut p2, &mut centre), Err(P1Win));
    assert!(p2.is_empty());
    assert_eq!(p1, hand("2C"));
    assert_eq!(centre, hand("AC3D"));
}

#[test]
fn run_stats_count_outcomes() {
    let mut stats = RunStats::new();
    stats.record(P1Win);
    stats.record(P2Win);
    stats.record(Looping);
    stats.record(P1Win);
    assert_eq!((stats.wins, stats.games, stats.loops), (2, 4, 1));
}

#[test]
fn results_log_lines() {
    let mut stats = RunStats::new();
    assert!(stats.restore_line(b"JS2S2S2SJS2SP1"));
    assert!(stats.restore_line(b"2C3CP2"));
    assert!(!stats.restore_line(b"2C3C"));
    assert!(!stats.restore_line(b"P"));
    assert!(!stats.restore_line(b""));
    assert!(!stats.restore_line(b"XP3"));
    assert_eq!((stats.wins, stats.games, stats.loops), (1, 2, 0));
}
