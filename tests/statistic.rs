use wordle::error::Error;
use wordle::plate::{word_from_str, Plate};
use wordle::statistic::{Statistic, StatisticGame, WordCnt};

fn play(goal: &str, guesses: &[&str]) -> Plate {
    let mut plate = Plate::new(&word_from_str(goal).unwrap(), false);
    for g in guesses {
        plate.guess(&word_from_str(g).unwrap()).unwrap();
    }
    plate
}

fn pairs(v: &[WordCnt]) -> Vec<(String, u64)> {
    v.iter().map(|e| (e.str.clone(), e.cnt)).collect()
}

fn game(answer: &str, guesses: &[&str]) -> StatisticGame {
    StatisticGame {
        answer: answer.to_string(),
        guesses: guesses.iter().map(|s| s.to_string()).collect(),
    }
}

#[test]
fn fresh_statistic_is_empty() {
    let s = Statistic::new();
    assert_eq!(s.success_cnt(), 0);
    assert_eq!(s.fail_cnt(), 0);
    assert_eq!(s.success_attempt_cnt(), 0);
    assert_eq!(s.total_rounds(), 0);
    assert!(s.top5_words().is_empty());
    assert!(s.games().is_empty());
}

#[test]
fn add_plate_counts_wins_and_losses() {
    let mut s = Statistic::new();
    s.add_plate(&play("CRANE", &["SLATE", "CRANE"]));
    s.add_plate(&play("CRANE", &["SLATE", "TRACE", "CRATE", "GRATE", "PLATE", "STATE"]));
    s.add_plate(&play("HELLO", &["HELLO"]));
    assert_eq!(s.success_cnt(), 2);
    assert_eq!(s.fail_cnt(), 1);
    assert_eq!(s.success_attempt_cnt(), 3);
    assert_eq!(s.total_rounds(), 3);
}

#[test]
fn win_is_judged_by_last_guess() {
    // a plate that kept guessing after the goal is recorded as lost
    let mut s = Statistic::new();
    s.add_plate(&play("CRANE", &["CRANE", "SLATE"]));
    assert_eq!(s.success_cnt(), 0);
    assert_eq!(s.fail_cnt(), 1);
}

#[test]
fn every_guess_counts_towards_the_ranking() {
    let mut s = Statistic::new();
    s.add_plate(&play("CRANE", &["SLATE", "SLATE", "CRANE"]));
    s.add_plate(&play("HELLO", &["SLATE", "HELLO"]));
    assert_eq!(
        pairs(&s.top5_words()),
        vec![
            ("SLATE".to_string(), 3),
            ("CRANE".to_string(), 1),
            ("HELLO".to_string(), 1)
        ]
    );
}

#[test]
fn top5_ties_are_alphabetical() {
    let mut s = Statistic::new();
    s.add_plate(&play("ZEBRA", &["MOUSE", "ZEBRA"]));
    s.add_plate(&play("APPLE", &["BREAD", "APPLE"]));
    s.add_plate(&play("MOUSE", &["MOUSE"]));
    assert_eq!(
        pairs(&s.top5_words()),
        vec![
            ("MOUSE".to_string(), 2),
            ("APPLE".to_string(), 1),
            ("BREAD".to_string(), 1),
            ("ZEBRA".to_string(), 1)
        ]
    );
}

#[test]
fn top5_keeps_five() {
    let mut s = Statistic::new();
    s.add_plate(&play("AAAAA", &["FFFFF", "EEEEE", "DDDDD", "CCCCC", "BBBBB", "AAAAA"]));
    s.add_plate(&play("FFFFF", &["FFFFF"]));
    let top = pairs(&s.top5_words());
    assert_eq!(
        top,
        vec![
            ("FFFFF".to_string(), 2),
            ("AAAAA".to_string(), 1),
            ("BBBBB".to_string(), 1),
            ("CCCCC".to_string(), 1),
            ("DDDDD".to_string(), 1)
        ]
    );
}

#[test]
fn replayed_log_matches_live_statistics() {
    let mut live = Statistic::new();
    live.add_plate(&play("CRANE", &["SLATE", "TRACE", "CRANE"]));
    live.add_plate(&play("HELLO", &["WORLD", "HOLLY", "SLATE", "TRACE", "WORLD", "HALLO"]));
    live.add_plate(&play("WORLD", &["WORLD"]));
    let stored: Vec<StatisticGame> = live
        .games()
        .iter()
        .map(|g| StatisticGame {
            answer: g.answer.clone(),
            guesses: g.guesses.clone(),
        })
        .collect();
    let loaded = Statistic::from_games(Some(stored)).unwrap();
    assert_eq!(loaded.success_cnt(), live.success_cnt());
    assert_eq!(loaded.fail_cnt(), live.fail_cnt());
    assert_eq!(loaded.success_attempt_cnt(), live.success_attempt_cnt());
    assert_eq!(loaded.total_rounds(), 3);
    assert_eq!(pairs(&loaded.top5_words()), pairs(&live.top5_words()));
    assert_eq!(
        pairs(&loaded.top5_words()),
        vec![
            ("WORLD".to_string(), 3),
            ("SLATE".to_string(), 2),
            ("TRACE".to_string(), 2),
            ("CRANE".to_string(), 1),
            ("HALLO".to_string(), 1)
        ]
    );
}

#[test]
fn no_log_gives_empty_statistics() {
    let s = Statistic::from_games(None).unwrap();
    assert_eq!(s.success_cnt(), 0);
    assert_eq!(s.fail_cnt(), 0);
    assert!(s.top5_words().is_empty());
    let s = Statistic::from_games(Some(vec![])).unwrap();
    assert_eq!(s.total_rounds(), 0);
}

#[test]
fn replay_rejects_malformed_games() {
    let bad = [
        game("CRANE", &[]),
        game("CRAN", &["CRANE"]),
        game("CRANE", &["SLATE", "crane"]),
        game("CRANE", &["SLAT3"]),
    ];
    for g in bad {
        let r = Statistic::from_games(Some(vec![game("HELLO", &["HELLO"]), g]));
        assert_eq!(r.err(), Some(Error::PersistenceFormat));
    }
}

#[test]
fn has_room_for_more_games() {
    let s = Statistic::new();
    assert!(s.has_room_for(6));
    assert!(!s.has_room_for(usize::MAX));
}
