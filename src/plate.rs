use crate::error::Error;
use crate::util::{is_letter, letter_index, LetterMap};
use vstd::prelude::*;
use vstd::string::StrSliceExecFns;

verus! {

pub type Letter = char;

/// Five letters; a valid word holds uppercase ASCII letters only.
pub type Word = [Letter; 5];

/// Feedback for each position of a guess.
pub type WordState = [LetterState; 5];

/// Five uppercase ASCII letters.
pub open spec fn valid_word(w: Seq<char>) -> bool {
    w.len() == 5 && forall|i: int| 0 <= i < 5 ==> is_letter(#[trigger] w[i])
}

/// ASCII uppercase of one character; any other character is kept.
pub open spec fn upper(c: char) -> char {
    if 'a' <= c <= 'z' {
        (c as int - 32) as char
    } else {
        c
    }
}

/// The word that a string spells, ignoring ASCII case, if it spells one.
pub open spec fn parse_word(s: Seq<char>) -> Option<Seq<char>> {
    let u = s.map_values(|c: char| upper(c));
    if valid_word(u) {
        Some(u)
    } else {
        None
    }
}

/// Relies on `String::push`: it appends one character.
pub assume_specification[ String::push ](s: &mut String, ch: char)
    ensures
        final(s)@ == old(s)@.push(ch),
;

fn ascii_upper(c: char) -> (r: char)
    ensures
        r == upper(c),
{
    if 'a' <= c && c <= 'z' {
        ((c as u8) - 32) as char
    } else {
        c
    }
}

/// Reads a word from `s`, ignoring ASCII case; fails unless `s` is exactly five
/// ASCII letters.
pub fn word_from_str(s: &str) -> (r: Result<Word, Error>)
    ensures
        r matches Ok(w) ==> parse_word(s@) == Some(w@),
        r matches Err(e) ==> parse_word(s@) is None && e == Error::InvalidWord,
{
    let n = s.unicode_len();
    if n != 5 {
        return Err(Error::InvalidWord);
    }
    let ghost u = s@.map_values(|c: char| upper(c));
    let mut w: Word = ['A'; 5];
    for i in 0..5usize
        invariant
            s@.len() == 5,
            u == s@.map_values(|c: char| upper(c)),
            forall|j: int| 0 <= j < i ==> w[j] == u[j] && is_letter(w[j]),
    {
        let c = ascii_upper(s.get_char(i));
        if !('A' <= c && c <= 'Z') {
            assert(!is_letter(u[i as int]));
            return Err(Error::InvalidWord);
        }
        w[i] = c;
    }
    assert(w@ =~= u);
    Ok(w)
}

/// The five letters of `s` as a string.
pub fn word_to_str(s: &Word) -> (r: String)
    ensures
        r@ == s@,
{
    let mut r = String::new();
    for i in 0..5usize
        invariant
            r@ == s@.take(i as int),
    {
        r.push(s[i]);
        assert(s@.take(i + 1) =~= s@.take(i as int).push(s@[i as int]));
    }
    assert(s@.take(5) =~= s@);
    r
}

/// Positional equality of two words.
pub fn word_eq(lhs: &Word, rhs: &Word) -> (r: bool)
    ensures
        r == (lhs@ == rhs@),
{
    for i in 0..5usize
        invariant
            forall|j: int| 0 <= j < i ==> lhs[j] == rhs[j],
    {
        if lhs[i] != rhs[i] {
            return false;
        }
    }
    assert(lhs@ =~= rhs@);
    true
}

/// Feedback for one letter of a guess.
#[derive(Debug, Clone, Copy, PartialEq, Eq, Structural)]
pub enum LetterState {
    /// The letter is at this position in the goal.
    Correct,
    /// The letter is in the goal, at another position.
    Occurred,
    /// The goal holds no further copy of this letter.
    Redundant,
    /// Nothing is known yet.
    Unknown,
}

/// How specific a state is: `Correct > Occurred > Redundant > Unknown`.
pub open spec fn rank(s: LetterState) -> nat {
    match s {
        LetterState::Correct => 3,
        LetterState::Occurred => 2,
        LetterState::Redundant => 1,
        LetterState::Unknown => 0,
    }
}

/// The more specific of two states.
pub open spec fn or_spec(a: LetterState, b: LetterState) -> LetterState {
    if rank(a) >= rank(b) {
        a
    } else {
        b
    }
}

impl Default for LetterState {
    fn default() -> (r: Self)
        ensures
            r == LetterState::Unknown,
    {
        LetterState::Unknown
    }
}

impl LetterState {
    /// The more specific of `lhs` and `rhs`.
    pub fn or(lhs: LetterState, rhs: LetterState) -> (r: LetterState)
        ensures
            r == or_spec(lhs, rhs),
    {
        match (lhs, rhs) {
            (LetterState::Correct, _) => LetterState::Correct,
            (_, LetterState::Correct) => LetterState::Correct,
            (LetterState::Occurred, _) => LetterState::Occurred,
            (_, LetterState::Occurred) => LetterState::Occurred,
            (LetterState::Redundant, _) => LetterState::Redundant,
            (_, LetterState::Redundant) => LetterState::Redundant,
            (LetterState::Unknown, LetterState::Unknown) => LetterState::Unknown,
        }
    }
}


/// Occurrences of `c` among the first `n` letters of `s`.
pub open spec fn count_prefix(s: Seq<char>, c: char, n: int) -> nat
    decreases n,
{
    if n <= 0 {
        0
    } else {
        count_prefix(s, c, n - 1) + if s[n - 1] == c {
            1nat
        } else {
            0nat
        }
    }
}

/// Positions below `n` where both `guess` and `goal` hold `c`.
pub open spec fn exact_prefix(goal: Seq<char>, guess: Seq<char>, c: char, n: int) -> nat
    decreases n,
{
    if n <= 0 {
        0
    } else {
        exact_prefix(goal, guess, c, n - 1) + if guess[n - 1] == c && goal[n - 1] == c {
            1nat
        } else {
            0nat
        }
    }
}

/// Positions below `n` where `guess` holds `c` and `goal` holds another letter.
pub open spec fn misplaced_prefix(goal: Seq<char>, guess: Seq<char>, c: char, n: int) -> nat
    decreases n,
{
    if n <= 0 {
        0
    } else {
        misplaced_prefix(goal, guess, c, n - 1) + if guess[n - 1] == c && goal[n - 1] != c {
            1nat
        } else {
            0nat
        }
    }
}

/// Feedback at position `i`. Exact matches claim their copy of a letter first;
/// the remaining copies go, left to right, to the misplaced positions that hold
/// the letter, and misplaced positions beyond them are redundant.
pub open spec fn state_at(goal: Seq<char>, guess: Seq<char>, i: int) -> LetterState {
    let c = guess[i];
    if c == goal[i] {
        LetterState::Correct
    } else if misplaced_prefix(goal, guess, c, i) + exact_prefix(goal, guess, c, 5)
        < count_prefix(goal, c, 5) {
        LetterState::Occurred
    } else {
        LetterState::Redundant
    }
}

/// Feedback for a whole guess against `goal`.
pub open spec fn feedback(goal: Seq<char>, guess: Seq<char>) -> Seq<LetterState> {
    Seq::new(5, |i: int| state_at(goal, guess, i))
}

/// Positions below `n` where the earlier round marked letter `c` with state `s`.
pub open spec fn marked_prefix(
    prev: Seq<char>,
    states: Seq<LetterState>,
    s: LetterState,
    c: char,
    n: int,
) -> nat
    decreases n,
{
    if n <= 0 {
        0
    } else {
        marked_prefix(prev, states, s, c, n - 1) + if states[n - 1] == s && prev[n - 1] == c {
            1nat
        } else {
            0nat
        }
    }
}

/// `guess` keeps every letter that an earlier round `prev` marked correct in its
/// place, and holds a further copy for each letter marked as occurring, counted
/// left to right after the correct ones.
pub open spec fn compatible(guess: Seq<char>, prev: Seq<char>, states: Seq<LetterState>) -> bool {
    &&& forall|i: int|
        0 <= i < 5 && states[i] == LetterState::Correct ==> #[trigger] guess[i] == prev[i]
    &&& forall|i: int|
        0 <= i < 5 && #[trigger] states[i] == LetterState::Occurred ==> marked_prefix(
            prev,
            states,
            LetterState::Correct,
            prev[i],
            5,
        ) + marked_prefix(prev, states, LetterState::Occurred, prev[i], i) < count_prefix(
            guess,
            prev[i],
            5,
        )
}

/// `guess` is compatible with every round of `history`.
pub open spec fn compatible_all(
    history: Seq<(Seq<char>, Seq<LetterState>)>,
    guess: Seq<char>,
) -> bool {
    forall|k: int|
        0 <= k < history.len() ==> compatible(guess, #[trigger] history[k].0, history[k].1)
}

/// The most specific state that the first `n` positions of one round give to
/// the letter in slot `k`.
pub open spec fn best_prefix(guess: Seq<char>, states: Seq<LetterState>, k: int, n: int) -> LetterState
    decreases n,
{
    if n <= 0 {
        LetterState::Unknown
    } else {
        or_spec(
            best_prefix(guess, states, k, n - 1),
            if letter_index(guess[n - 1]) == k {
                states[n - 1]
            } else {
                LetterState::Unknown
            },
        )
    }
}

/// The keyboard after folding one round into `kb`.
pub open spec fn fold_round(kb: Seq<LetterState>, guess: Seq<char>, states: Seq<LetterState>) -> Seq<LetterState> {
    Seq::new(26, |k: int| or_spec(kb[k], best_prefix(guess, states, k, 5)))
}

/// The keyboard that a history of rounds gives.
pub open spec fn keyboard_of(history: Seq<(Seq<char>, Seq<LetterState>)>) -> Seq<LetterState>
    decreases history.len(),
{
    if history.len() == 0 {
        Seq::new(26, |_k: int| LetterState::Unknown)
    } else {
        fold_round(keyboard_of(history.drop_last()), history.last().0, history.last().1)
    }
}

/// Views of the rounds stored in a plate.
pub open spec fn rounds_view(h: Seq<(Word, WordState)>) -> Seq<(Seq<char>, Seq<LetterState>)> {
    h.map_values(|e: (Word, WordState)| (e.0@, e.1@))
}

/// What a plate holds, as mathematical values.
pub struct PlateView {
    pub goal: Seq<char>,
    pub history: Seq<(Seq<char>, Seq<LetterState>)>,
    pub keyboard: Seq<LetterState>,
    pub is_win: bool,
    pub difficult: bool,
}

impl PlateView {
    /// Every round was a valid word with the feedback the goal gives it, the
    /// keyboard folds all rounds, and the game is won once a round hit the goal.
    pub open spec fn valid(&self) -> bool {
        &&& valid_word(self.goal)
        &&& forall|k: int|
            0 <= k < self.history.len() ==> valid_word(#[trigger] self.history[k].0)
                && self.history[k].1 == feedback(self.goal, self.history[k].0)
        &&& self.keyboard == keyboard_of(self.history)
        &&& self.is_win == exists|k: int|
            0 <= k < self.history.len() && #[trigger] self.history[k].0 == self.goal
        &&& self.history.len() <= u32::MAX
    }
}

/// The outcome of a guess: an incompatible hard-mode guess is refused and
/// changes nothing; any other guess gets its feedback, which is appended to the
/// history and folded into the keyboard.
pub open spec fn guess_post(
    before: PlateView,
    guess: Seq<char>,
    r: Result<WordState, Error>,
    after: PlateView,
) -> bool {
    if before.difficult && !compatible_all(before.history, guess) {
        r == Err::<WordState, Error>(Error::Incompatible) && after == before
    } else {
        let st = feedback(before.goal, guess);
        &&& r matches Ok(s) && s@ == st
        &&& after == PlateView {
            goal: before.goal,
            history: before.history.push((guess, st)),
            keyboard: fold_round(before.keyboard, guess, st),
            is_win: before.is_win || guess == before.goal,
            difficult: before.difficult,
        }
    }
}

/// One game against one goal word.
pub struct Plate {
    goal: Word,
    letter_cnt: LetterMap<u32>,
    keyboard: LetterMap<LetterState>,
    is_win: bool,
    history: Vec<(Word, WordState)>,
    difficult: bool,
}

impl View for Plate {
    type V = PlateView;

    closed spec fn view(&self) -> PlateView {
        PlateView {
            goal: self.goal@,
            history: rounds_view(self.history@),
            keyboard: self.keyboard@,
            is_win: self.is_win,
            difficult: self.difficult,
        }
    }
}

proof fn lemma_count_mono(s: Seq<char>, c: char, n: int, m: int)
    requires
        0 <= n <= m,
    ensures
        count_prefix(s, c, n) <= count_prefix(s, c, m),
    decreases m - n,
{
    if n < m {
        lemma_count_mono(s, c, n, m - 1);
    }
}

proof fn lemma_exact_le_count(goal: Seq<char>, guess: Seq<char>, c: char, n: int)
    ensures
        exact_prefix(goal, guess, c, n) <= count_prefix(goal, c, n),
    decreases n,
{
    if n > 0 {
        lemma_exact_le_count(goal, guess, c, n - 1);
    }
}

proof fn lemma_correct_le_count(
    guess: Seq<char>,
    prev: Seq<char>,
    states: Seq<LetterState>,
    c: char,
    n: int,
)
    requires
        forall|j: int| 0 <= j < n && states[j] == LetterState::Correct ==> guess[j] == prev[j],
    ensures
        marked_prefix(prev, states, LetterState::Correct, c, n) <= count_prefix(guess, c, n),
    decreases n,
{
    if n > 0 {
        lemma_correct_le_count(guess, prev, states, c, n - 1);
    }
}

proof fn lemma_or_assoc(a: LetterState, b: LetterState, c: LetterState)
    ensures
        or_spec(or_spec(a, b), c) == or_spec(a, or_spec(b, c)),
        or_spec(a, LetterState::Unknown) == a,
{
}

/// Occurrences of every letter in a valid word.
fn letter_counts(w: &Word) -> (r: LetterMap<u32>)
    requires
        valid_word(w@),
    ensures
        r@.len() == 26,
        forall|c: char| is_letter(c) ==> #[trigger] r.at(c) == count_prefix(w@, c, 5),
        forall|c: char| is_letter(c) ==> #[trigger] r.at(c) <= 5,
{
    let mut r: LetterMap<u32> = LetterMap::filled(0u32);
    for i in 0..5usize
        invariant
            valid_word(w@),
            r@.len() == 26,
            forall|c: char| is_letter(c) ==> #[trigger] r.at(c) == count_prefix(w@, c, i as int),
            forall|c: char| is_letter(c) ==> #[trigger] r.at(c) <= i,
    {
        let c = w[i];
        assert(is_letter(w@[i as int]));
        let v = r.get(c);
        let ghost r0 = r;
        r.set(c, v + 1);
        assert forall|d: char| is_letter(d) implies #[trigger] r.at(d) == count_prefix(w@, d, i + 1)
            && r.at(d) <= i + 1 by {
            assert(r0.at(d) == count_prefix(w@, d, i as int) && r0.at(d) <= i);
            if d != c {
                assert(letter_index(d) != letter_index(c));
            }
        }
    }
    r
}

impl Plate {
    /// The stored counts are the goal's letter counts.
    pub closed spec fn counts_ok(&self) -> bool {
        &&& self.letter_cnt@.len() == 26
        &&& self.keyboard@.len() == 26
        &&& forall|c: char|
            is_letter(c) ==> #[trigger] self.letter_cnt.at(c) == count_prefix(self.goal@, c, 5)
    }

    pub open spec fn wf(&self) -> bool {
        self@.valid() && self.counts_ok()
    }

    /// A new game against `word`, in hard mode when `difficult` is set.
    pub fn new(word: &Word, difficult: bool) -> (r: Plate)
        requires
            valid_word(word@),
        ensures
            r.wf(),
            r@.goal == word@,
            r@.history.len() == 0,
            r@.keyboard == Seq::new(26, |_k: int| LetterState::Unknown),
            !r@.is_win,
            r@.difficult == difficult,
    {
        let letter_cnt = letter_counts(word);
        let r = Plate {
            goal: *word,
            letter_cnt,
            keyboard: LetterMap::filled(LetterState::Unknown),
            is_win: false,
            history: Vec::new(),
            difficult,
        };
        assert(r@.history =~= Seq::empty());
        r
    }

    pub fn goal(&self) -> (r: &Word)
        ensures
            r@ == self@.goal,
    {
        &self.goal
    }

    pub fn is_win(&self) -> (r: bool)
        ensures
            r == self@.is_win,
    {
        self.is_win
    }

    /// Number of rounds played.
    pub fn count(&self) -> (r: u32)
        requires
            self.wf(),
        ensures
            r == self@.history.len(),
    {
        self.history.len() as u32
    }

    /// Every round so far with its feedback, oldest first.
    pub fn history(&self) -> (r: &Vec<(Word, WordState)>)
        ensures
            rounds_view(r@) == self@.history,
    {
        &self.history
    }

    /// The most specific state seen so far for each letter.
    pub fn keyboard(&self) -> (r: &LetterMap<LetterState>)
        ensures
            r@ == self@.keyboard,
    {
        &self.keyboard
    }

    /// Checks `word` against every earlier round, as hard mode demands.
    fn is_compatible(&self, word: &Word) -> (r: Result<(), Error>)
        requires
            self.wf(),
            valid_word(word@),
        ensures
            r is Ok <==> compatible_all(self@.history, word@),
            r matches Err(e) ==> e == Error::Incompatible,
    {
        let ghost h = self@.history;
        let ghost w = word@;
        for k in 0..self.history.len()
            invariant
                self.wf(),
                h == self@.history,
                h.len() == self.history@.len(),
                w == word@,
                valid_word(w),
                forall|j: int| 0 <= j < k ==> compatible(w, #[trigger] h[j].0, h[j].1),
        {
            let prev: Word = self.history[k].0;
            let states: WordState = self.history[k].1;
            assert(h[k as int] == (prev@, states@));
            assert(valid_word(h[k as int].0));
            let ghost p = prev@;
            let ghost st = states@;
            let mut cnt = letter_counts(word);

            // every letter marked correct stays in place and uses up one copy
            for i in 0..5usize
                invariant
                    valid_word(w),
                    valid_word(p),
                    w == word@,
                    p == prev@,
                    st == states@,
                    h == self@.history,
                    0 <= k < h.len(),
                    h[k as int] == (p, st),
                    cnt@.len() == 26,
                    forall|j: int| 0 <= j < i && st[j] == LetterState::Correct ==> w[j] == p[j],
                    forall|c: char|
                        is_letter(c) ==> #[trigger] cnt.at(c) + marked_prefix(
                            p,
                            st,
                            LetterState::Correct,
                            c,
                            i as int,
                        ) == count_prefix(w, c, 5),
            {
                if states[i] == LetterState::Correct {
                    if word[i] != prev[i] {
                        assert(st[i as int] == LetterState::Correct && w[i as int] != p[i as int]);
                        assert(!compatible(w, h[k as int].0, h[k as int].1));
                        return Err(Error::Incompatible);
                    }
                    let c = word[i];
                    assert(is_letter(w[i as int]));
                    proof {
                        lemma_correct_le_count(w, p, st, c, i + 1);
                        lemma_count_mono(w, c, i + 1, 5);
                    }
                    let v = cnt.get(c);
                    let ghost c0 = cnt;
                    cnt.set(c, v - 1);
                    assert forall|d: char| is_letter(d) implies #[trigger] cnt.at(d)
                        + marked_prefix(p, st, LetterState::Correct, d, i + 1) == count_prefix(
                        w,
                        d,
                        5,
                    ) by {
                        assert(c0.at(d) + marked_prefix(p, st, LetterState::Correct, d, i as int)
                            == count_prefix(w, d, 5));
                        if d != c {
                            assert(letter_index(d) != letter_index(c));
                        }
                    }
                }
            }

            // every letter marked as occurring needs one more copy
            for i in 0..5usize
                invariant
                    valid_word(w),
                    valid_word(p),
                    w == word@,
                    p == prev@,
                    st == states@,
                    h == self@.history,
                    0 <= k < h.len(),
                    h[k as int] == (p, st),
                    cnt@.len() == 26,
                    forall|j: int| 0 <= j < 5 && st[j] == LetterState::Correct ==> w[j] == p[j],
                    forall|j: int|
                        0 <= j < i && #[trigger] st[j] == LetterState::Occurred ==> marked_prefix(
                            p,
                            st,
                            LetterState::Correct,
                            p[j],
                            5,
                        ) + marked_prefix(p, st, LetterState::Occurred, p[j], j) < count_prefix(
                            w,
                            p[j],
                            5,
                        ),
                    forall|c: char|
                        is_letter(c) ==> #[trigger] cnt.at(c) + marked_prefix(
                            p,
                            st,
                            LetterState::Correct,
                            c,
                            5,
                        ) + marked_prefix(p, st, LetterState::Occurred, c, i as int)
                            == count_prefix(w, c, 5),
            {
                if states[i] == LetterState::Occurred {
                    let c = prev[i];
                    assert(is_letter(p[i as int]));
                    let v = cnt.get(c);
                    if v == 0 {
                        assert(st[i as int] == LetterState::Occurred);
                        assert(marked_prefix(p, st, LetterState::Correct, p[i as int], 5) + marked_prefix(p, st, LetterState::Occurred, p[i as int], i as int) >= count_prefix(w, p[i as int], 5));
                        assert(!compatible(w, h[k as int].0, h[k as int].1));
                        return Err(Error::Incompatible);
                    }
                    let ghost c0 = cnt;
                    cnt.set(c, v - 1);
                    assert forall|d: char| is_letter(d) implies #[trigger] cnt.at(d)
                        + marked_prefix(p, st, LetterState::Correct, d, 5) + marked_prefix(
                        p,
                        st,
                        LetterState::Occurred,
                        d,
                        i + 1,
                    ) == count_prefix(w, d, 5) by {
                        assert(c0.at(d) + marked_prefix(p, st, LetterState::Correct, d, 5)
                            + marked_prefix(p, st, LetterState::Occurred, d, i as int)
                            == count_prefix(w, d, 5));
                        if d != c {
                            assert(letter_index(d) != letter_index(c));
                        }
                    }
                }
            }
            assert(compatible(w, h[k as int].0, h[k as int].1));
        }
        Ok(())
    }


    /// Scores `word` against the goal and records the round. In hard mode a
    /// word that contradicts an earlier round is refused and nothing changes.
    pub fn guess(&mut self, word: &Word) -> (r: Result<WordState, Error>)
        requires
            old(self).wf(),
            valid_word(word@),
            old(self)@.history.len() < u32::MAX,
        ensures
            final(self).wf(),
            guess_post(old(self)@, word@, r, final(self)@),
    {
        if self.difficult {
            match self.is_compatible(word) {
                Err(e) => return Err(e),
                Ok(()) => {},
            }
        }
        let ghost before = self@;
        let ghost w = word@;
        let st = score(&self.goal, self.letter_cnt, word);
        fold_keyboard(&mut self.keyboard, word, &st);
        if word_eq(word, &self.goal) {
            self.is_win = true;
        }
        self.history.push((*word, st));
        proof {
            let g = before.goal;
            let h0 = before.history;
            let h1 = self@.history;
            assert(h1 =~= h0.push((w, st@)));
            assert(h1.drop_last() =~= h0);
            assert(h1[h0.len() as int].0 == w);
            if before.is_win {
                let k = choose|k: int| 0 <= k < h0.len() && #[trigger] h0[k].0 == g;
                assert(h1[k].0 == g);
            }
            assert forall|k: int| 0 <= k < h1.len() implies valid_word(#[trigger] h1[k].0)
                && h1[k].1 == feedback(g, h1[k].0) by {
                if k < h0.len() {
                    assert(h1[k] == h0[k]);
                }
            }
        }
        Ok(st)
    }
}

/// Feedback for `word` against `goal`, whose letter counts are `letter_cnt`.
fn score(goal: &Word, letter_cnt: LetterMap<u32>, word: &Word) -> (st: WordState)
    requires
        valid_word(goal@),
        valid_word(word@),
        letter_cnt@.len() == 26,
        forall|c: char| is_letter(c) ==> #[trigger] letter_cnt.at(c) == count_prefix(goal@, c, 5),
    ensures
        st@ == feedback(goal@, word@),
{
    let ghost g = goal@;
    let ghost w = word@;
    let mut st: WordState = [LetterState::Unknown; 5];
    let mut cnt: LetterMap<u32> = letter_cnt;

    // exact matches claim their letters first
    for i in 0..5usize
        invariant
            valid_word(g),
            valid_word(w),
            g == goal@,
            w == word@,
            cnt@.len() == 26,
            forall|c: char|
                is_letter(c) ==> #[trigger] cnt.at(c) + exact_prefix(g, w, c, i as int)
                    == count_prefix(g, c, 5),
            forall|j: int| 0 <= j < i && w[j] == g[j] ==> st[j] == LetterState::Correct,
    {
        if word[i] == goal[i] {
            let c = word[i];
            assert(is_letter(w[i as int]));
            proof {
                lemma_exact_le_count(g, w, c, i + 1);
                lemma_count_mono(g, c, i + 1, 5);
            }
            let v = cnt.get(c);
            let ghost c0 = cnt;
            cnt.set(c, v - 1);
            st[i] = LetterState::Correct;
            assert forall|d: char| is_letter(d) implies #[trigger] cnt.at(d) + exact_prefix(
                g,
                w,
                d,
                i + 1,
            ) == count_prefix(g, d, 5) by {
                assert(c0.at(d) + exact_prefix(g, w, d, i as int) == count_prefix(g, d, 5));
                if d != c {
                    assert(letter_index(d) != letter_index(c));
                }
            }
        }
    }
    assert forall|c: char| is_letter(c) implies #[trigger] cnt.at(c) as int == count_prefix(g, c, 5)
        - exact_prefix(g, w, c, 5) - misplaced_prefix(g, w, c, 0) && exact_prefix(g, w, c, 5)
        <= count_prefix(g, c, 5) by {
        lemma_exact_le_count(g, w, c, 5);
    }

    // the remaining copies go to misplaced letters, left to right
    for i in 0..5usize
        invariant
            valid_word(g),
            valid_word(w),
            g == goal@,
            w == word@,
            cnt@.len() == 26,
            forall|c: char|
                is_letter(c) ==> #[trigger] cnt.at(c) as int == spare(g, w, c, i as int),
            forall|j: int| 0 <= j < i ==> st[j] == state_at(g, w, j),
            forall|j: int| i <= j < 5 && w[j] == g[j] ==> st[j] == LetterState::Correct,
    {
        if word[i] != goal[i] {
            let c = word[i];
            assert(is_letter(w[i as int]));
            let v = cnt.get(c);
            let ghost c0 = cnt;
            if v > 0 {
                cnt.set(c, v - 1);
                st[i] = LetterState::Occurred;
            } else {
                st[i] = LetterState::Redundant;
            }
            assert forall|d: char| is_letter(d) implies #[trigger] cnt.at(d) as int == spare(
                g,
                w,
                d,
                i + 1,
            ) by {
                assert(c0.at(d) as int == spare(g, w, d, i as int));
                if d != c {
                    assert(letter_index(d) != letter_index(c));
                }
            }
        }
    }
    assert(st@ =~= feedback(g, w));
    st
}

/// Copies of `c` in the goal not yet claimed after the first `i` positions:
/// exact matches take theirs first, then misplaced positions in order.
spec fn spare(goal: Seq<char>, guess: Seq<char>, c: char, i: int) -> int {
    let used = misplaced_prefix(goal, guess, c, i) + exact_prefix(goal, guess, c, 5);
    if used < count_prefix(goal, c, 5) {
        count_prefix(goal, c, 5) - used
    } else {
        0
    }
}

/// Folds one round into the keyboard.
fn fold_keyboard(kb: &mut LetterMap<LetterState>, word: &Word, st: &WordState)
    requires
        valid_word(word@),
        old(kb)@.len() == 26,
    ensures
        final(kb)@ == fold_round(old(kb)@, word@, st@),
{
    let ghost kb0 = kb@;
    let ghost w = word@;
    for i in 0..5usize
        invariant
            valid_word(w),
            w == word@,
            kb@.len() == 26,
            kb0.len() == 26,
            forall|k: int|
                0 <= k < 26 ==> #[trigger] kb@[k] == or_spec(kb0[k], best_prefix(w, st@, k, i as int)),
    {
        let c = word[i];
        assert(is_letter(w[i as int]));
        let cur = kb.get(c);
        let ghost k0 = kb@;
        kb.set(c, LetterState::or(cur, st[i]));
        assert forall|k: int| 0 <= k < 26 implies #[trigger] kb@[k] == or_spec(
            kb0[k],
            best_prefix(w, st@, k, i + 1),
        ) by {
            assert(k0[k] == or_spec(kb0[k], best_prefix(w, st@, k, i as int)));
            lemma_or_assoc(kb0[k], best_prefix(w, st@, k, i as int), st@[i as int]);
            lemma_or_assoc(kb0[k], best_prefix(w, st@, k, i as int), LetterState::Unknown);
            lemma_or_assoc(best_prefix(w, st@, k, i as int), LetterState::Unknown, LetterState::Unknown);
        }
    }
    assert(kb@ =~= fold_round(kb0, w, st@));
}

/// An ASCII letter of either case.
pub open spec fn is_ascii_letter(c: char) -> bool {
    ('A' <= c <= 'Z') || ('a' <= c <= 'z')
}

/// Reading back the string of a word gives the word again.
pub proof fn lemma_word_round_trip(w: Seq<char>)
    requires
        valid_word(w),
    ensures
        parse_word(w) == Some(w),
{
    assert(w.map_values(|c: char| upper(c)) =~= w);
}

/// A string is read as a word exactly when it has five characters, all ASCII
/// letters.
pub proof fn lemma_parse_word_accepts(s: Seq<char>)
    ensures
        parse_word(s) is Some <==> (s.len() == 5 && forall|i: int|
            0 <= i < 5 ==> is_ascii_letter(#[trigger] s[i])),
{
    let u = s.map_values(|c: char| upper(c));
    assert forall|i: int| 0 <= i < s.len() implies is_letter(#[trigger] u[i]) <==> is_ascii_letter(
        s[i],
    ) by {
        let c = s[i];
        if 'a' <= c <= 'z' {
            assert(is_letter(upper(c)));
        }
    }
    if s.len() == 5 {
        if forall|i: int| 0 <= i < 5 ==> is_ascii_letter(#[trigger] s[i]) {
            assert forall|i: int| 0 <= i < 5 implies is_letter(#[trigger] u[i]) by {
                assert(is_ascii_letter(s[i]));
            }
        }
        if valid_word(u) {
            assert forall|i: int| 0 <= i < 5 implies is_ascii_letter(#[trigger] s[i]) by {
                assert(is_letter(u[i]));
            }
        }
    }
}

/// The goal always passes the hard-mode check against its own feedback.
proof fn lemma_goal_compatible(goal: Seq<char>, prev: Seq<char>)
    requires
        valid_word(goal),
        valid_word(prev),
    ensures
        compatible(goal, prev, feedback(goal, prev)),
{
    let st = feedback(goal, prev);
    assert forall|i: int| 0 <= i < 5 && #[trigger] st[i] == LetterState::Occurred implies marked_prefix(
        prev,
        st,
        LetterState::Correct,
        prev[i],
        5,
    ) + marked_prefix(prev, st, LetterState::Occurred, prev[i], i) < count_prefix(
        goal,
        prev[i],
        5,
    ) by {
        lemma_marked_correct(goal, prev, prev[i], 5);
        lemma_marked_occurred(goal, prev, prev[i], i);
    }
}

proof fn lemma_marked_correct(goal: Seq<char>, prev: Seq<char>, c: char, n: int)
    requires
        n <= 5,
    ensures
        marked_prefix(prev, feedback(goal, prev), LetterState::Correct, c, n) == exact_prefix(
            goal,
            prev,
            c,
            n,
        ),
    decreases n,
{
    if n > 0 {
        lemma_marked_correct(goal, prev, c, n - 1);
    }
}

proof fn lemma_marked_occurred(goal: Seq<char>, prev: Seq<char>, c: char, n: int)
    requires
        n <= 5,
    ensures
        marked_prefix(prev, feedback(goal, prev), LetterState::Occurred, c, n)
            <= misplaced_prefix(goal, prev, c, n),
    decreases n,
{
    if n > 0 {
        lemma_marked_occurred(goal, prev, c, n - 1);
    }
}

/// A guess on equal plates gives equal feedback and leaves equal plates.
pub proof fn lemma_guess_deterministic(
    before1: PlateView,
    before2: PlateView,
    guess: Seq<char>,
    r1: Result<WordState, Error>,
    r2: Result<WordState, Error>,
    after1: PlateView,
    after2: PlateView,
)
    requires
        before1 == before2,
        guess_post(before1, guess, r1, after1),
        guess_post(before2, guess, r2, after2),
    ensures
        r1 == r2,
        after1 == after2,
{
    if r1 is Ok {
        assert(r1->Ok_0 =~= r2->Ok_0);
    }
}

/// A guess never makes the keyboard state of any letter less specific.
pub proof fn lemma_keyboard_monotone(
    before: PlateView,
    guess: Seq<char>,
    r: Result<WordState, Error>,
    after: PlateView,
    k: int,
)
    requires
        before.valid(),
        guess_post(before, guess, r, after),
        0 <= k < 26,
    ensures
        rank(after.keyboard[k]) >= rank(before.keyboard[k]),
{
    if before.history.len() > 0 {
        assert(before.keyboard.len() == 26);
    }
}

/// A guess equal to the goal is accepted, in hard mode too, and wins; a won
/// game stays won.
pub proof fn lemma_win_detection(
    before: PlateView,
    guess: Seq<char>,
    r: Result<WordState, Error>,
    after: PlateView,
)
    requires
        before.valid(),
        guess_post(before, guess, r, after),
    ensures
        guess == before.goal ==> r is Ok && after.is_win,
        before.is_win ==> after.is_win,
{
    if guess == before.goal {
        assert forall|k: int| 0 <= k < before.history.len() implies compatible(
            guess,
            #[trigger] before.history[k].0,
            before.history[k].1,
        ) by {
            lemma_goal_compatible(before.goal, before.history[k].0);
        }
    }
}

/// In hard mode, once a round has marked position `i` correct, a guess with
/// another letter there is refused with `Incompatible` and changes nothing.
pub proof fn lemma_hard_mode_keeps_correct(
    before: PlateView,
    guess: Seq<char>,
    r: Result<WordState, Error>,
    after: PlateView,
    k: int,
    i: int,
)
    requires
        guess_post(before, guess, r, after),
        before.difficult,
        0 <= k < before.history.len(),
        0 <= i < 5,
        before.history[k].1[i] == LetterState::Correct,
        guess[i] != before.history[k].0[i],
    ensures
        r == Err::<WordState, Error>(Error::Incompatible),
        after == before,
{
    assert(!compatible(guess, before.history[k].0, before.history[k].1));
}

} // verus!
