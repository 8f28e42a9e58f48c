use crate::error::Error;
use crate::plate::{parse_word, word_from_str, Word};
use vstd::prelude::*;

verus! {

/// Where the goal words come from.
#[derive(Debug, Clone, Copy)]
pub enum WordSrc {
    /// Asked of the player before each round.
    Ask,
    /// The one word given on the command line.
    Select(Word),
    /// A list shuffled by a seed, starting on a given day: `Random(seed, day)`.
    Random(u64, u32),
}

/// The word source that the command-line choices ask for: a given word
/// excludes random mode, a seed and a day; random mode defaults to seed 0 and
/// day 1; with neither, the player is asked.
pub fn pick_word_src(
    word: Option<&str>,
    random: bool,
    seed: Option<u64>,
    day: Option<u32>,
) -> (r: Result<WordSrc, Error>)
    ensures
        word is None && !random ==> r == Ok::<WordSrc, Error>(WordSrc::Ask),
        word is None && random ==> r == Ok::<WordSrc, Error>(
            WordSrc::Random(
                if seed is Some {
                    seed->0
                } else {
                    0
                },
                if day is Some {
                    day->0
                } else {
                    1
                },
            ),
        ),
        word is Some && !random && seed is None && day is None ==> match parse_word(word->0@) {
            Some(w) => r matches Ok(WordSrc::Select(x)) && x@ == w,
            None => r == Err::<WordSrc, Error>(Error::InvalidWord),
        },
        word is Some && (random || seed is Some || day is Some) ==> r == Err::<WordSrc, Error>(
            Error::ArgumentConflict,
        ),
{
    match word {
        None => {
            if random {
                let s = match seed {
                    Some(s) => s,
                    None => 0,
                };
                let d = match day {
                    Some(d) => d,
                    None => 1,
                };
                Ok(WordSrc::Random(s, d))
            } else {
                Ok(WordSrc::Ask)
            }
        },
        Some(s) => {
            if random || seed.is_some() || day.is_some() {
                return Err(Error::ArgumentConflict);
            }
            match word_from_str(s) {
                Ok(w) => Ok(WordSrc::Select(w)),
                Err(e) => Err(e),
            }
        },
    }
}

} // verus!
