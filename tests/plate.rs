use wordle::error::Error;
use wordle::plate::{word_eq, word_from_str, word_to_str, LetterState, Plate, Word};

use LetterState::{Correct, Occurred, Redundant, Unknown};

fn w(s: &str) -> Word {
    word_from_str(s).unwrap()
}

#[test]
fn word_round_trip() {
    for s in ["ABCDE", "HELLO", "ZZZZZ", "CRANE"] {
        let word = w(s);
        assert_eq!(word_to_str(&word), s);
        assert_eq!(word_from_str(&word_to_str(&word)), Ok(word));
    }
}

#[test]
fn word_from_str_uppercases() {
    assert_eq!(word_from_str("crane"), Ok(['C', 'R', 'A', 'N', 'E']));
    assert_eq!(word_from_str("CrAnE"), Ok(['C', 'R', 'A', 'N', 'E']));
}

#[test]
fn word_from_str_rejects_wrong_length() {
    assert_eq!(word_from_str(""), Err(Error::InvalidWord));
    assert_eq!(word_from_str("ABCD"), Err(Error::InvalidWord));
    assert_eq!(word_from_str("ABCDEF"), Err(Error::InvalidWord));
}

#[test]
fn word_from_str_rejects_non_letters() {
    assert_eq!(word_from_str("AB1DE"), Err(Error::InvalidWord));
    assert_eq!(word_from_str("AB DE"), Err(Error::InvalidWord));
    assert_eq!(word_from_str("ABCD\n"), Err(Error::InvalidWord));
    assert_eq!(word_from_str("ABCDÉ"), Err(Error::InvalidWord));
}

#[test]
fn word_eq_is_positional() {
    assert!(word_eq(&w("ABCDE"), &w("abcde")));
    assert!(!word_eq(&w("ABCDE"), &w("ABCED")));
}

#[test]
fn or_picks_the_more_specific_state() {
    let all = [Correct, Occurred, Redundant, Unknown];
    for (i, &a) in all.iter().enumerate() {
        for (j, &b) in all.iter().enumerate() {
            let expected = all[i.min(j)];
            assert_eq!(LetterState::or(a, b), expected);
            assert_eq!(LetterState::or(b, a), expected);
        }
    }
    assert_eq!(LetterState::default(), Unknown);
}

#[test]
fn duplicate_letter_tie_break() {
    let mut plate = Plate::new(&w("ABCDE"), false);
    let st = plate.guess(&w("AABCX")).unwrap();
    assert_eq!(st, [Correct, Redundant, Occurred, Occurred, Redundant]);
}

#[test]
fn exact_match_claims_letter_before_earlier_misplaced_copy() {
    // goal has one E, at the end; the guess has E at 0 and at 4
    let mut plate = Plate::new(&w("CRANE"), false);
    let st = plate.guess(&w("EERIE")).unwrap();
    assert_eq!(st, [Redundant, Redundant, Occurred, Redundant, Correct]);
}

#[test]
fn exact_match_and_earlier_copy_share_two_goal_copies() {
    // goal has two Es; the exact match takes one, the first misplaced E the other
    let mut plate = Plate::new(&w("LEVEL"), false);
    let st = plate.guess(&w("EXEEX")).unwrap();
    assert_eq!(st, [Occurred, Redundant, Redundant, Correct, Redundant]);
}

#[test]
fn two_copies_in_goal_give_two_occurrences() {
    let mut plate = Plate::new(&w("LEVEL"), false);
    let st = plate.guess(&w("EEXXX")).unwrap();
    assert_eq!(st, [Occurred, Correct, Redundant, Redundant, Redundant]);
    let st = plate.guess(&w("XXEXE")).unwrap();
    assert_eq!(st, [Redundant, Redundant, Occurred, Redundant, Occurred]);
}

#[test]
fn new_plate_is_empty() {
    let plate = Plate::new(&w("CRANE"), true);
    assert_eq!(plate.count(), 0);
    assert!(!plate.is_win());
    assert!(plate.history().is_empty());
    assert_eq!(*plate.goal(), w("CRANE"));
    assert!(plate.keyboard().as_arr().iter().all(|&s| s == Unknown));
}

#[test]
fn win_detection() {
    let mut plate = Plate::new(&w("CRANE"), false);
    plate.guess(&w("SLATE")).unwrap();
    assert!(!plate.is_win());
    let st = plate.guess(&w("CRANE")).unwrap();
    assert_eq!(st, [Correct; 5]);
    assert!(plate.is_win());
    plate.guess(&w("SLATE")).unwrap();
    assert!(plate.is_win());
    assert_eq!(plate.count(), 3);
}

#[test]
fn goal_is_accepted_in_hard_mode() {
    let mut plate = Plate::new(&w("CRANE"), true);
    plate.guess(&w("TRACE")).unwrap();
    plate.guess(&w("CRATE")).unwrap();
    assert!(plate.guess(&w("CRANE")).is_ok());
    assert!(plate.is_win());
}

#[test]
fn hard_mode_rejects_changed_correct_letter() {
    let mut plate = Plate::new(&w("ABCDE"), true);
    plate.guess(&w("AXXXX")).unwrap();
    let history_before = plate.history().clone();
    let keyboard_before = *plate.keyboard().as_arr();
    assert_eq!(plate.guess(&w("BXXXX")), Err(Error::Incompatible));
    assert_eq!(*plate.history(), history_before);
    assert_eq!(*plate.keyboard().as_arr(), keyboard_before);
    assert_eq!(plate.count(), 1);
    assert!(plate.guess(&w("AYYYY")).is_ok());
}

#[test]
fn hard_mode_requires_occurring_letters() {
    let mut plate = Plate::new(&w("ABCDE"), true);
    // B occurs, elsewhere
    assert_eq!(plate.guess(&w("BXXXX")).unwrap()[0], Occurred);
    assert_eq!(plate.guess(&w("XXXXX")), Err(Error::Incompatible));
    assert!(plate.guess(&w("XBXXX")).is_ok());
}

#[test]
fn hard_mode_checks_every_round_separately() {
    let mut plate = Plate::new(&w("ABCDE"), true);
    plate.guess(&w("AXXXX")).unwrap();
    plate.guess(&w("AXXXB")).unwrap();
    // keeps A but drops B from the second round
    assert_eq!(plate.guess(&w("AXXXX")), Err(Error::Incompatible));
    // keeps B but drops A from the first round
    assert_eq!(plate.guess(&w("XBXXX")), Err(Error::Incompatible));
    assert!(plate.guess(&w("ABXXX")).is_ok());
}

#[test]
fn hard_mode_counts_correct_before_occurred() {
    let mut plate = Plate::new(&w("AABXX"), true);
    // first A correct, second A occurred elsewhere
    let st = plate.guess(&w("AYAYY")).unwrap();
    assert_eq!(st, [Correct, Redundant, Occurred, Redundant, Redundant]);
    // one A alone does not satisfy both marks
    assert_eq!(plate.guess(&w("AZZZZ")), Err(Error::Incompatible));
    assert!(plate.guess(&w("AZZAZ")).is_ok());
}

#[test]
fn easy_mode_accepts_anything() {
    let mut plate = Plate::new(&w("ABCDE"), false);
    plate.guess(&w("AXXXX")).unwrap();
    assert!(plate.guess(&w("BXXXX")).is_ok());
}

#[test]
fn keyboard_never_downgrades() {
    let mut plate = Plate::new(&w("ABCDE"), false);
    plate.guess(&w("AXXXX")).unwrap();
    assert_eq!(plate.keyboard().get('A'), Correct);
    assert_eq!(plate.keyboard().get('X'), Redundant);
    plate.guess(&w("XAXXX")).unwrap();
    assert_eq!(plate.keyboard().get('A'), Correct);
    plate.guess(&w("YYBYY")).unwrap();
    assert_eq!(plate.keyboard().get('B'), Occurred);
    assert_eq!(plate.keyboard().get('Y'), Redundant);
    plate.guess(&w("YBYYY")).unwrap();
    assert_eq!(plate.keyboard().get('B'), Correct);
    plate.guess(&w("BYYYY")).unwrap();
    assert_eq!(plate.keyboard().get('B'), Correct);
    assert_eq!(plate.keyboard().get('Z'), Unknown);
}

#[test]
fn keyboard_ranks_never_decrease_over_a_game() {
    fn rank(s: LetterState) -> u8 {
        match s {
            Correct => 3,
            Occurred => 2,
            Redundant => 1,
            Unknown => 0,
        }
    }
    let mut plate = Plate::new(&w("SPEED"), false);
    let mut prev = *plate.keyboard().as_arr();
    for g in ["ERASE", "DEEPS", "SPEEP", "PESTS", "SPEED"] {
        plate.guess(&w(g)).unwrap();
        let now = *plate.keyboard().as_arr();
        for k in 0..26 {
            assert!(rank(now[k]) >= rank(prev[k]));
        }
        prev = now;
    }
}

#[test]
fn guess_is_deterministic() {
    let mut a = Plate::new(&w("CRANE"), true);
    let mut b = Plate::new(&w("CRANE"), true);
    for g in ["TRACE", "CRATE"] {
        assert_eq!(a.guess(&w(g)), b.guess(&w(g)));
    }
    assert_eq!(a.history(), b.history());
    assert_eq!(a.keyboard().as_arr(), b.keyboard().as_arr());
    assert_eq!(a.is_win(), b.is_win());
}

#[test]
fn history_records_rounds_in_order() {
    let mut plate = Plate::new(&w("CRANE"), false);
    plate.guess(&w("SLATE")).unwrap();
    plate.guess(&w("CRONE")).unwrap();
    let h = plate.history();
    assert_eq!(h.len(), 2);
    assert_eq!(h[0].0, w("SLATE"));
    assert_eq!(h[0].1, [Redundant, Redundant, Correct, Redundant, Correct]);
    assert_eq!(h[1].0, w("CRONE"));
    assert_eq!(h[1].1, [Correct, Correct, Redundant, Correct, Correct]);
}
