//! Scoring a rock-paper-scissors strategy guide.
//!
//! Each round names the opponent's play and a one-letter instruction; the
//! score of a round is the value of the chosen shape plus the value of the
//! outcome.  Two readings of the instruction letter exist: as the shape to
//! play, or as the outcome to force.

use vstd::prelude::*;
use vstd::string::StringSliceAdditionalSpecFns;

verus! {

#[derive(Copy, Clone, Debug, PartialEq, Eq, Structural)]
pub enum RPS {
    Rock,
    Paper,
    Scissor,
}

#[derive(Copy, Clone, Debug, PartialEq, Eq, Structural)]
pub enum Outcome {
    Lose,
    Draw,
    Win,
}

impl RPS {
    /// The score value of the shape.
    pub open spec fn spec_value(self) -> int {
        match self {
            RPS::Rock => 1,
            RPS::Paper => 2,
            RPS::Scissor => 3,
        }
    }

    pub fn value(self) -> (r: i32)
        ensures
            r == self.spec_value(),
    {
        match self {
            RPS::Rock => 1,
            RPS::Paper => 2,
            RPS::Scissor => 3,
        }
    }

    /// The shape of a (possibly shifted) shape value; the values one past
    /// either end wrap around.
    pub open spec fn spec_from_int(val: int) -> Option<RPS> {
        if val == 1 || val == 4 {
            Some(RPS::Rock)
        } else if val == 2 {
            Some(RPS::Paper)
        } else if val == 3 || val == 0 {
            Some(RPS::Scissor)
        } else {
            None
        }
    }

    pub fn from_int(val: i32) -> (r: Option<RPS>)
        ensures
            r == Self::spec_from_int(val as int),
    {
        if val == 1 || val == 4 {
            Some(RPS::Rock)
        } else if val == 2 {
            Some(RPS::Paper)
        } else if val == 3 || val == 0 {
            Some(RPS::Scissor)
        } else {
            None
        }
    }
}

impl Outcome {
    /// The score value of the outcome.
    pub open spec fn spec_value(self) -> int {
        match self {
            Outcome::Lose => 0,
            Outcome::Draw => 3,
            Outcome::Win => 6,
        }
    }

    pub fn value(self) -> (r: i32)
        ensures
            r == self.spec_value(),
    {
        match self {
            Outcome::Lose => 0,
            Outcome::Draw => 3,
            Outcome::Win => 6,
        }
    }
}

/// The shape named by an instruction letter `A`/`B`/`C` or `X`/`Y`/`Z`.
pub open spec fn rps_of_byte(b: u8) -> Option<RPS> {
    if b == 65 || b == 88 {
        Some(RPS::Rock)
    } else if b == 66 || b == 89 {
        Some(RPS::Paper)
    } else if b == 67 || b == 90 {
        Some(RPS::Scissor)
    } else {
        None
    }
}

/// The outcome named by an instruction letter `X`/`Y`/`Z`.
pub open spec fn outcome_of_byte(b: u8) -> Option<Outcome> {
    if b == 88 {
        Some(Outcome::Lose)
    } else if b == 89 {
        Some(Outcome::Draw)
    } else if b == 90 {
        Some(Outcome::Win)
    } else {
        None
    }
}

/// The outcome of playing `mine` against `opponent`.
pub open spec fn spec_outcome_v1(opponent: RPS, mine: RPS) -> Outcome {
    if opponent == mine {
        Outcome::Draw
    } else if opponent == RPS::Scissor && mine == RPS::Rock {
        Outcome::Win
    } else if opponent == RPS::Rock && mine == RPS::Scissor {
        Outcome::Lose
    } else if mine.spec_value() > opponent.spec_value() {
        Outcome::Win
    } else {
        Outcome::Lose
    }
}

/// Scores a round reading the instruction letter as the shape to play.
pub fn score_v1(opponent_play: RPS, instructions: &str) -> (r: i32)
    requires
        instructions.spec_bytes().len() == 1,
        rps_of_byte(instructions.spec_bytes()[0]) is Some,
    ensures
        ({
            let my = rps_of_byte(instructions.spec_bytes()[0])->0;
            r == my.spec_value() + spec_outcome_v1(opponent_play, my).spec_value()
        }),
{
    let b = instructions.as_bytes();
    let c = b[0];
    let my_play = if c == 65 || c == 88 {
        RPS::Rock
    } else if c == 66 || c == 89 {
        RPS::Paper
    } else {
        RPS::Scissor
    };
    let outcome = if opponent_play == my_play {
        Outcome::Draw
    } else if opponent_play == RPS::Scissor && my_play == RPS::Rock {
        Outcome::Win
    } else if opponent_play == RPS::Rock && my_play == RPS::Scissor {
        Outcome::Lose
    } else if my_play.value() > opponent_play.value() {
        Outcome::Win
    } else {
        Outcome::Lose
    };
    my_play.value() + outcome.value()
}

/// The shape that forces `outcome` against `opponent`.
pub open spec fn spec_play_for_outcome(opponent: RPS, outcome: Outcome) -> RPS {
    match outcome {
        Outcome::Draw => opponent,
        Outcome::Win => RPS::spec_from_int(opponent.spec_value() + 1)->0,
        Outcome::Lose => RPS::spec_from_int(opponent.spec_value() - 1)->0,
    }
}

/// Scores a round reading the instruction letter as the outcome to force.
pub fn score_v2(opponent_play: RPS, instructions: &str) -> (r: i32)
    requires
        instructions.spec_bytes().len() == 1,
        outcome_of_byte(instructions.spec_bytes()[0]) is Some,
    ensures
        ({
            let outcome = outcome_of_byte(instructions.spec_bytes()[0])->0;
            r == spec_play_for_outcome(opponent_play, outcome).spec_value()
                + outcome.spec_value()
        }),
{
    let b = instructions.as_bytes();
    let c = b[0];
    let outcome = if c == 88 {
        Outcome::Lose
    } else if c == 89 {
        Outcome::Draw
    } else {
        Outcome::Win
    };
    let my_play = match outcome {
        Outcome::Draw => Some(opponent_play),
        Outcome::Win => RPS::from_int(opponent_play.value() + 1),
        Outcome::Lose => RPS::from_int(opponent_play.value() - 1),
    };
    let my_play = match my_play {
        Some(p) => p,
        None => RPS::Rock,
    };
    my_play.value() + outcome.value()
}

} // verus!
