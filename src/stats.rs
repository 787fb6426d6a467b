//! Tallies of a run of many games, and the reading of a saved results log.
use vstd::prelude::*;

use crate::model::ExitStates;

verus! {

/// The bytes `P`, `1` and `2`, which tag a line of the results log.
pub const LETTER_P: u8 = 80;
pub const DIGIT_1: u8 = 49;
pub const DIGIT_2: u8 = 50;

/// Counts over a run of games.
pub struct RunStats {
    pub wins: u128,
    pub games: u128,
    pub loops: u128,
}

/// The outcome that a line of the results log records: it ends in `P1` or in `P2`.
pub open spec fn logged_outcome(line: Seq<u8>) -> Option<ExitStates> {
    if line.len() >= 2 && line[line.len() - 2] == LETTER_P && line[line.len() - 1] == DIGIT_1 {
        Some(ExitStates::P1Win)
    } else if line.len() >= 2 && line[line.len() - 2] == LETTER_P && line[line.len() - 1] == DIGIT_2 {
        Some(ExitStates::P2Win)
    } else {
        None
    }
}

impl RunStats {
    pub fn new() -> (r: RunStats)
        ensures
            r.wins == 0,
            r.games == 0,
            r.loops == 0,
    {
        RunStats { wins: 0, games: 0, loops: 0 }
    }

    /// Counts one finished game.
    pub fn record(&mut self, outcome: ExitStates)
        requires
            old(self).games < u128::MAX,
            old(self).wins < u128::MAX,
            old(self).loops < u128::MAX,
        ensures
            final(self).games == old(self).games + 1,
            final(self).wins == old(self).wins + if outcome == ExitStates::P1Win { 1int } else { 0int },
            final(self).loops == old(self).loops + if outcome == ExitStates::Looping { 1int } else { 0int },
    {
        self.games = self.games + 1;
        match outcome {
            ExitStates::P1Win => {
                self.wins = self.wins + 1;
            },
            ExitStates::Looping => {
                self.loops = self.loops + 1;
            },
            ExitStates::P2Win => {},
        }
    }

    /// Reads one line of a saved results log. A line that records a win is counted and
    /// kept (`true`); any other line is dropped (`false`) and changes nothing.
    pub fn restore_line(&mut self, line: &[u8]) -> (kept: bool)
        requires
            old(self).games < u128::MAX,
            old(self).wins < u128::MAX,
        ensures
            kept == (logged_outcome(line@) is Some),
            kept ==> final(self).games == old(self).games + 1,
            !kept ==> final(self).games == old(self).games,
            final(self).wins == old(self).wins + if logged_outcome(line@) == Some(ExitStates::P1Win) { 1int } else { 0int },
            final(self).loops == old(self).loops,
    {
        let n = line.len();
        if n < 2 || line[n - 2] != LETTER_P {
            return false;
        }
        if line[n - 1] == DIGIT_1 {
            self.wins = self.wins + 1;
        } else if line[n - 1] != DIGIT_2 {
            return false;
        }
        self.games = self.games + 1;
        true
    }
}

} // verus!
