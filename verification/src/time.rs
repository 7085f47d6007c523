//! The game timer: how much of a game session is left.

use vstd::prelude::*;

verus! {

/// Keeps track of the time that a game session has left. All times are in
/// milliseconds since the program started.
#[derive(Debug, Clone, Copy, PartialEq, Eq, Structural)]
pub struct GameTimer {
    pub start_time: u64,
    pub session_length: u64,
}

impl GameTimer {
    /// The time that the session has left at `now`: what is left until its
    /// end, and nothing once the end has passed.
    pub open spec fn remaining(self, now: u64) -> int {
        if self.start_time + self.session_length >= now {
            self.start_time + self.session_length - now
        } else {
            0
        }
    }

    /// Creates a new timer with the given start time and session length.
    pub fn new(start_time: u64, session_length: u64) -> (timer: GameTimer)
        ensures
            timer.start_time == start_time,
            timer.session_length == session_length,
    {
        GameTimer { start_time, session_length }
    }

    /// Returns the remaining game time at `now`.
    pub fn time_remaining(&self, now: u64) -> (left: u64)
        requires
            self.start_time + self.session_length <= u64::MAX,
        ensures
            left == self.remaining(now),
    {
        let end: u64 = self.start_time + self.session_length;
        if end >= now {
            end - now
        } else {
            0
        }
    }

    /// Returns true if less than a full second of game time remains at
    /// `now`.
    pub fn has_game_ended(&self, now: u64) -> (ended: bool)
        requires
            self.start_time + self.session_length <= u64::MAX,
        ensures
            ended == (self.remaining(now) < 1000),
    {
        self.time_remaining(now) / 1000 == 0
    }
}

} // verus!
