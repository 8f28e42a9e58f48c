use crate::plate::LetterState;
use vstd::prelude::*;

verus! {

/// One letter for a state in plain-text output: green, yellow, red, or unknown.
pub open spec fn state_char(state: LetterState) -> char {
    match state {
        LetterState::Correct => 'G',
        LetterState::Occurred => 'Y',
        LetterState::Redundant => 'R',
        LetterState::Unknown => 'X',
    }
}

pub fn state_to_char(state: &LetterState) -> (r: char)
    ensures
        r == state_char(*state),
{
    match state {
        LetterState::Correct => 'G',
        LetterState::Occurred => 'Y',
        LetterState::Redundant => 'R',
        LetterState::Unknown => 'X',
    }
}

/// Plain-text, line-based presentation, for scripts and pipes.
pub struct Cmd;

impl Cmd {
    pub fn new() -> Self {
        Cmd
    }
}

/// Coloured presentation for a terminal.
pub struct Tty;

impl Tty {
    pub fn new() -> Self {
        Tty
    }
}

} // verus!
