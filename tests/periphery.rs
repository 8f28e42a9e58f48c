use wordle::config::{pick_word_src, WordSrc};
use wordle::error::Error;
use wordle::interactor::{state_to_char, Cmd, Tty};
use wordle::plate::{LetterState, Word};
use wordle::util::LetterMap;
use wordle::word_gen::{rand_words, RepeatReader};

fn words(n: usize) -> Vec<Word> {
    (0..n)
        .map(|i| {
            let a = (b'A' + (i / 26) as u8) as char;
            let b = (b'A' + (i % 26) as u8) as char;
            [a, b, 'X', 'Y', 'Z']
        })
        .collect()
}

#[test]
fn rand_words_is_a_permutation_from_the_day() {
    let list = words(40);
    let mut r = rand_words(&list, 42, 1);
    let mut drawn = Vec::new();
    while let Ok(w) = r.next_word() {
        drawn.push(w);
    }
    assert_eq!(drawn.len(), 40);
    assert_ne!(drawn, list);
    let mut sorted = drawn.clone();
    sorted.sort();
    assert_eq!(sorted, list);
    assert_eq!(r.next_word(), Err(Error::EndOfList));
}

#[test]
fn rand_words_is_reproducible_and_skips_days() {
    let list = words(30);
    let mut a = rand_words(&list, 7, 1);
    let mut b = rand_words(&list, 7, 4);
    let first: Vec<Word> = (0..30).map(|_| a.next_word().unwrap()).collect();
    let later: Vec<Word> = (0..27).map(|_| b.next_word().unwrap()).collect();
    assert_eq!(&first[3..], &later[..]);
    assert_eq!(b.next_word(), Err(Error::EndOfList));
}

#[test]
fn rand_words_past_the_end() {
    let list = words(3);
    let mut r = rand_words(&list, 0, 5);
    assert_eq!(r.next_word(), Err(Error::EndOfList));
}

#[test]
fn repeat_reader_asks_after_first_round() {
    let mut r = RepeatReader::new(|| 0u32);
    assert!(!r.needs_answer());
    assert!(r.next_round(""));
    assert!(r.needs_answer());
    assert!(r.next_round("Y\n"));
    assert!(!r.next_round("N\n"));
    assert!(!r.next_round("Y"));
    assert!(!r.next_round("y\n"));
    assert_eq!((r.reader_mut())(), 0);
}

#[test]
fn word_source_choices() {
    assert!(matches!(pick_word_src(None, false, None, None), Ok(WordSrc::Ask)));
    assert!(matches!(pick_word_src(None, true, None, None), Ok(WordSrc::Random(0, 1))));
    assert!(matches!(
        pick_word_src(None, true, Some(9), Some(3)),
        Ok(WordSrc::Random(9, 3))
    ));
    match pick_word_src(Some("crane"), false, None, None) {
        Ok(WordSrc::Select(w)) => assert_eq!(w, ['C', 'R', 'A', 'N', 'E']),
        other => panic!("unexpected {:?}", other),
    }
    assert_eq!(
        pick_word_src(Some("cran"), false, None, None).err(),
        Some(Error::InvalidWord)
    );
    assert_eq!(
        pick_word_src(Some("crane"), true, None, None).err(),
        Some(Error::ArgumentConflict)
    );
    assert_eq!(
        pick_word_src(Some("crane"), false, Some(1), None).err(),
        Some(Error::ArgumentConflict)
    );
    assert_eq!(
        pick_word_src(Some("crane"), false, None, Some(2)).err(),
        Some(Error::ArgumentConflict)
    );
}

#[test]
fn state_letters() {
    assert_eq!(state_to_char(&LetterState::Correct), 'G');
    assert_eq!(state_to_char(&LetterState::Occurred), 'Y');
    assert_eq!(state_to_char(&LetterState::Redundant), 'R');
    assert_eq!(state_to_char(&LetterState::Unknown), 'X');
    let _ = (Cmd::new(), Tty::new());
}

#[test]
fn letter_map_slots() {
    let mut m = LetterMap::filled(0u32);
    m.set('A', 3);
    m.set('Z', 7);
    assert_eq!(m.get('A'), 3);
    assert_eq!(m.get('Z'), 7);
    assert_eq!(m.get('M'), 0);
    assert_eq!(m.as_arr()[0], 3);
    assert_eq!(m.as_arr()[25], 7);
    m.as_mut_arr()[1] = 5;
    assert_eq!(m.get('B'), 5);
}
