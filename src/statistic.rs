use crate::error::Error;
use crate::plate::{rounds_view, valid_word, word_to_str, LetterState, Plate, Word, WordState};
use vstd::prelude::*;
use vstd::string::StrSliceExecFns;

verus! {

/// Lexicographic order on strings, by character.
pub open spec fn lex_lt(a: Seq<char>, b: Seq<char>) -> bool
    decreases a.len(),
{
    if a.len() == 0 {
        b.len() > 0
    } else if b.len() == 0 {
        false
    } else if a[0] != b[0] {
        a[0] < b[0]
    } else {
        lex_lt(a.drop_first(), b.drop_first())
    }
}

/// Ranking order of counted words: more guesses first, then alphabetical.
pub open spec fn ranks_before(a: (Seq<char>, u64), b: (Seq<char>, u64)) -> bool {
    a.1 > b.1 || (a.1 == b.1 && lex_lt(a.0, b.0))
}

proof fn lemma_lex_irreflexive(a: Seq<char>)
    ensures
        !lex_lt(a, a),
    decreases a.len(),
{
    if a.len() > 0 {
        lemma_lex_irreflexive(a.drop_first());
    }
}

proof fn lemma_lex_asymmetric(a: Seq<char>, b: Seq<char>)
    ensures
        lex_lt(a, b) ==> !lex_lt(b, a),
    decreases a.len(),
{
    if a.len() > 0 && b.len() > 0 && a[0] == b[0] {
        lemma_lex_asymmetric(a.drop_first(), b.drop_first());
    }
}

proof fn lemma_lex_transitive(a: Seq<char>, b: Seq<char>, c: Seq<char>)
    ensures
        lex_lt(a, b) && lex_lt(b, c) ==> lex_lt(a, c),
    decreases a.len(),
{
    if a.len() > 0 && b.len() > 0 && c.len() > 0 {
        lemma_lex_transitive(a.drop_first(), b.drop_first(), c.drop_first());
    }
}

proof fn lemma_lex_total(a: Seq<char>, b: Seq<char>)
    ensures
        a != b ==> lex_lt(a, b) || lex_lt(b, a),
    decreases a.len(),
{
    if a.len() > 0 && b.len() > 0 {
        lemma_lex_total(a.drop_first(), b.drop_first());
        if a[0] == b[0] && a.drop_first() == b.drop_first() {
            assert(a =~= seq![a[0]] + a.drop_first());
            assert(b =~= seq![b[0]] + b.drop_first());
        }
    } else if a.len() == 0 && b.len() == 0 {
        assert(a =~= b);
    }
}

/// `ranks_before` is a strict total order on entries of distinct words.
proof fn lemma_rank_order(a: (Seq<char>, u64), b: (Seq<char>, u64), c: (Seq<char>, u64))
    ensures
        !ranks_before(a, a),
        ranks_before(a, b) ==> !ranks_before(b, a),
        ranks_before(a, b) && ranks_before(b, c) ==> ranks_before(a, c),
        a.0 != b.0 ==> ranks_before(a, b) || ranks_before(b, a),
{
    lemma_lex_irreflexive(a.0);
    lemma_lex_asymmetric(a.0, b.0);
    lemma_lex_transitive(a.0, b.0, c.0);
    lemma_lex_total(a.0, b.0);
}

/// Whether `a` comes before `b` alphabetically.
fn str_lt(a: &str, b: &str) -> (r: bool)
    ensures
        r == lex_lt(a@, b@),
{
    let na = a.unicode_len();
    let nb = b.unicode_len();
    let mut i: usize = 0;
    assert(a@.skip(0) =~= a@ && b@.skip(0) =~= b@);
    while i < na && i < nb
        invariant
            na == a@.len(),
            nb == b@.len(),
            i <= na,
            i <= nb,
            lex_lt(a@, b@) == lex_lt(a@.skip(i as int), b@.skip(i as int)),
        decreases na - i,
    {
        let ca = a.get_char(i);
        let cb = b.get_char(i);
        if ca != cb {
            return ca < cb;
        }
        assert(a@.skip(i as int).drop_first() =~= a@.skip(i + 1));
        assert(b@.skip(i as int).drop_first() =~= b@.skip(i + 1));
        i = i + 1;
    }
    i < nb
}

/// What one game records: the answer and each guess in order.
pub type GameView = (Seq<char>, Seq<Seq<char>>);

/// A game is won when its last guess is the answer.
pub open spec fn is_won(g: GameView) -> bool {
    g.1.len() > 0 && g.1.last() == g.0
}

pub open spec fn won_games(log: Seq<GameView>) -> nat
    decreases log.len(),
{
    if log.len() == 0 {
        0
    } else {
        won_games(log.drop_last()) + if is_won(log.last()) {
            1nat
        } else {
            0nat
        }
    }
}

pub open spec fn lost_games(log: Seq<GameView>) -> nat
    decreases log.len(),
{
    if log.len() == 0 {
        0
    } else {
        lost_games(log.drop_last()) + if is_won(log.last()) {
            0nat
        } else {
            1nat
        }
    }
}

/// Guesses spent on won games.
pub open spec fn won_attempts(log: Seq<GameView>) -> nat
    decreases log.len(),
{
    if log.len() == 0 {
        0
    } else {
        won_attempts(log.drop_last()) + if is_won(log.last()) {
            log.last().1.len()
        } else {
            0nat
        }
    }
}

/// Guesses over all games.
pub open spec fn guess_total(log: Seq<GameView>) -> nat
    decreases log.len(),
{
    if log.len() == 0 {
        0
    } else {
        guess_total(log.drop_last()) + log.last().1.len()
    }
}

/// How often `w` occurs in `gs`.
pub open spec fn occurrences(gs: Seq<Seq<char>>, w: Seq<char>) -> nat
    decreases gs.len(),
{
    if gs.len() == 0 {
        0
    } else {
        occurrences(gs.drop_last(), w) + if gs.last() == w {
            1nat
        } else {
            0nat
        }
    }
}

/// How often `w` was guessed over all games of `log`.
pub open spec fn times_guessed(log: Seq<GameView>, w: Seq<char>) -> nat
    decreases log.len(),
{
    if log.len() == 0 {
        0
    } else {
        times_guessed(log.drop_last(), w) + occurrences(log.last().1, w)
    }
}

/// Games plus guesses: every counter of a statistic is at most this.
pub open spec fn log_size(log: Seq<GameView>) -> nat {
    log.len() + guess_total(log)
}

proof fn lemma_occurrences_le(gs: Seq<Seq<char>>, w: Seq<char>)
    ensures
        occurrences(gs, w) <= gs.len(),
    decreases gs.len(),
{
    if gs.len() > 0 {
        lemma_occurrences_le(gs.drop_last(), w);
    }
}

proof fn lemma_log_bounds(log: Seq<GameView>, w: Seq<char>)
    ensures
        times_guessed(log, w) <= guess_total(log),
        won_attempts(log) <= guess_total(log),
        won_games(log) + lost_games(log) == log.len(),
    decreases log.len(),
{
    if log.len() > 0 {
        lemma_log_bounds(log.drop_last(), w);
        lemma_occurrences_le(log.last().1, w);
    }
}

/// A word with the number of times it was guessed.
#[derive(Debug)]
pub struct WordCnt {
    pub str: String,
    pub cnt: u64,
}

impl View for WordCnt {
    type V = (Seq<char>, u64);

    open spec fn view(&self) -> (Seq<char>, u64) {
        (self.str@, self.cnt)
    }
}

pub open spec fn entries_view(v: Seq<WordCnt>) -> Seq<(Seq<char>, u64)> {
    v.map_values(|e: WordCnt| e@)
}

/// How often `w` was guessed over `log` and then over `extra`.
pub open spec fn guessed(log: Seq<GameView>, extra: Seq<Seq<char>>, w: Seq<char>) -> nat {
    times_guessed(log, w) + occurrences(extra, w)
}

/// Entries in strictly increasing ranking order.
pub open spec fn sorted_ranking(top: Seq<(Seq<char>, u64)>) -> bool {
    forall|i: int, j: int| 0 <= i < j < top.len() ==> ranks_before(#[trigger] top[i], #[trigger] top[j])
}

/// `top` lists, in ranking order, each word guessed over `log` and then over
/// `extra`, once, with the number of times it was guessed.
pub open spec fn is_ranking(
    top: Seq<(Seq<char>, u64)>,
    log: Seq<GameView>,
    extra: Seq<Seq<char>>,
) -> bool {
    &&& sorted_ranking(top)
    &&& forall|i: int|
        0 <= i < top.len() ==> #[trigger] top[i].1 == guessed(log, extra, top[i].0) && top[i].1 > 0
    &&& forall|w: Seq<char>|
        #[trigger] guessed(log, extra, w) > 0 ==> exists|i: int| 0 <= i < top.len() && #[trigger] top[i].0 == w
}

fn ranks_before_exec(a: &WordCnt, b: &WordCnt) -> (r: bool)
    ensures
        r == ranks_before(a@, b@),
{
    a.cnt > b.cnt || (a.cnt == b.cnt && str_lt(a.str.as_str(), b.str.as_str()))
}

/// Inserts `e` where the ranking order puts it, returning its position.
fn insert_ranked(top: &mut Vec<WordCnt>, e: WordCnt) -> (p: usize)
    requires
        sorted_ranking(entries_view(old(top)@)),
        forall|j: int| 0 <= j < old(top)@.len() ==> (#[trigger] old(top)@[j]).str@ != e.str@,
    ensures
        p <= old(top)@.len(),
        entries_view(final(top)@) == entries_view(old(top)@).insert(p as int, e@),
        sorted_ranking(entries_view(final(top)@)),
{
    let ghost v0 = entries_view(top@);
    let mut p: usize = 0;
    while p < top.len() && !ranks_before_exec(&e, &top[p])
        invariant
            v0 == entries_view(top@),
            p <= top@.len(),
            forall|j: int| 0 <= j < p ==> !ranks_before(e@, #[trigger] v0[j]),
        decreases top@.len() - p,
    {
        p = p + 1;
    }
    top.insert(p, e);
    let ghost v1 = entries_view(top@);
    assert(v1 =~= v0.insert(p as int, e@));
    assert forall|i: int, j: int| 0 <= i < j < v1.len() implies ranks_before(
        #[trigger] v1[i],
        #[trigger] v1[j],
    ) by {
        if i < p && j == p {
            lemma_rank_order(v0[i], e@, e@);
            assert(v0[i].0 != e@.0);
        } else if i == p && j > p {
            lemma_rank_order(e@, v0[p as int], v0[j - 1]);
            if j - 1 > p {
                assert(ranks_before(v0[p as int], v0[j - 1]));
            }
        } else if i < p && j > p {
            assert(ranks_before(v0[i], v0[j - 1]));
        } else if i > p {
            assert(ranks_before(v0[i - 1], v0[j - 1]));
        }
    }
    p
}

proof fn lemma_guessed_push(log: Seq<GameView>, extra: Seq<Seq<char>>, w: Seq<char>, x: Seq<char>)
    ensures
        guessed(log, extra.push(w), x) == guessed(log, extra, x) + if x == w {
            1nat
        } else {
            0nat
        },
{
    assert(extra.push(w).drop_last() =~= extra);
}

/// Counts one more guess of `word` in the ranking.
fn add_word(
    top: &mut Vec<WordCnt>,
    word: &String,
    Ghost(log): Ghost<Seq<GameView>>,
    Ghost(extra): Ghost<Seq<Seq<char>>>,
)
    requires
        is_ranking(entries_view(old(top)@), log, extra),
        guess_total(log) + extra.len() < u64::MAX,
    ensures
        is_ranking(entries_view(final(top)@), log, extra.push(word@)),
{
    let ghost w = word@;
    let ghost v0 = entries_view(top@);
    let ghost extra2 = extra.push(w);
    let mut i: usize = 0;
    while i < top.len() && !(top[i].str == *word)
        invariant
            v0 == entries_view(top@),
            i <= top@.len(),
            w == word@,
            forall|j: int| 0 <= j < i ==> (#[trigger] v0[j]).0 != w,
        decreases top@.len() - i,
    {
        i = i + 1;
    }
    assert forall|x: Seq<char>| #[trigger] guessed(log, extra2, x) == guessed(log, extra, x) + if x == w {
        1nat
    } else {
        0nat
    } by {
        lemma_guessed_push(log, extra, w, x);
    }
    if i == top.len() {
        // a new word
        assert(guessed(log, extra, w) == 0) by {
            if guessed(log, extra, w) > 0 {
                let k = choose|k: int| 0 <= k < v0.len() && #[trigger] v0[k].0 == w;
            }
        }
        assert forall|j: int| 0 <= j < top@.len() implies (#[trigger] top@[j]).str@ != w by {
            assert(v0[j] == top@[j]@);
        }
        let p = insert_ranked(top, WordCnt { str: word.clone(), cnt: 1 });
        let ghost v1 = entries_view(top@);
        assert forall|k: int| 0 <= k < v1.len() implies #[trigger] v1[k].1 == guessed(
            log,
            extra2,
            v1[k].0,
        ) && v1[k].1 > 0 by {
            if k < p {
                assert(v1[k] == v0[k]);
            } else if k > p {
                assert(v1[k] == v0[k - 1]);
            }
        }
        assert forall|x: Seq<char>| #[trigger] guessed(log, extra2, x) > 0 implies exists|k: int|
            0 <= k < v1.len() && #[trigger] v1[k].0 == x by {
            if x == w {
                assert(v1[p as int].0 == x);
            } else {
                assert(guessed(log, extra, x) > 0);
                let k = choose|k: int| 0 <= k < v0.len() && #[trigger] v0[k].0 == x;
                if k < p {
                    assert(v1[k].0 == x);
                } else {
                    assert(v1[k + 1].0 == x);
                }
            }
        }
    } else {
        // a word seen before moves up by one count
        proof {
            lemma_log_bounds(log, w);
            lemma_occurrences_le(extra, w);
        }
        let old_e = top.remove(i);
        let ghost vr = entries_view(top@);
        assert(vr =~= v0.remove(i as int));
        assert(old_e@ == v0[i as int]);
        assert forall|a: int, b: int| 0 <= a < b < vr.len() implies ranks_before(
            #[trigger] vr[a],
            #[trigger] vr[b],
        ) by {
            let a0 = if a < i {
                a
            } else {
                a + 1
            };
            let b0 = if b < i {
                b
            } else {
                b + 1
            };
            assert(vr[a] == v0[a0] && vr[b] == v0[b0]);
        }
        assert forall|j: int| 0 <= j < top@.len() implies (#[trigger] top@[j]).str@ != w by {
            let j0 = if j < i {
                j
            } else {
                j + 1
            };
            assert(vr[j] == v0[j0]);
            if v0[j0].0 == w {
                lemma_rank_order(v0[i as int], v0[j0], v0[j0]);
                lemma_lex_irreflexive(w);
                assert(v0[j0].1 == v0[i as int].1);
            }
        }
        let p = insert_ranked(top, WordCnt { str: old_e.str, cnt: old_e.cnt + 1 });
        let ghost v1 = entries_view(top@);
        assert forall|k: int| 0 <= k < v1.len() implies #[trigger] v1[k].1 == guessed(
            log,
            extra2,
            v1[k].0,
        ) && v1[k].1 > 0 by {
            if k < p {
                assert(v1[k] == vr[k]);
            } else if k > p {
                assert(v1[k] == vr[k - 1]);
            }
            if k != p {
                let k0 = if k < p {
                    k
                } else {
                    k - 1
                };
                let k1 = if k0 < i {
                    k0
                } else {
                    k0 + 1
                };
                assert(vr[k0] == v0[k1]);
            }
        }
        assert forall|x: Seq<char>| #[trigger] guessed(log, extra2, x) > 0 implies exists|k: int|
            0 <= k < v1.len() && #[trigger] v1[k].0 == x by {
            if x == w {
                assert(v1[p as int].0 == x);
            } else {
                assert(guessed(log, extra, x) > 0);
                let k = choose|k: int| 0 <= k < v0.len() && #[trigger] v0[k].0 == x;
                let kr = if k < i {
                    k
                } else {
                    k - 1
                };
                assert(k != i);
                assert(vr[kr].0 == x);
                if kr < p {
                    assert(v1[kr].0 == x);
                } else {
                    assert(v1[kr + 1].0 == x);
                }
            }
        }
    }
}

/// One recorded game: the answer and the guesses in order.
pub struct StatisticGame {
    pub answer: String,
    pub guesses: Vec<String>,
}

pub open spec fn strings_view(v: Seq<String>) -> Seq<Seq<char>> {
    v.map_values(|s: String| s@)
}

pub open spec fn game_view(g: StatisticGame) -> GameView {
    (g.answer@, strings_view(g.guesses@))
}

pub open spec fn games_view(v: Seq<StatisticGame>) -> Seq<GameView> {
    v.map_values(|g: StatisticGame| game_view(g))
}

/// A game that can be replayed: a valid answer and at least one guess, each
/// a valid word.
pub open spec fn game_ok(g: GameView) -> bool {
    &&& valid_word(g.0)
    &&& g.1.len() > 0
    &&& forall|i: int| 0 <= i < g.1.len() ==> valid_word(#[trigger] g.1[i])
}

/// A log that can be replayed, with counters that fit in 64 bits.
pub open spec fn log_ok(log: Seq<GameView>) -> bool {
    &&& forall|k: int| 0 <= k < log.len() ==> game_ok(#[trigger] log[k])
    &&& log_size(log) <= u64::MAX
}

/// What a statistic holds, as mathematical values: the log of games and the
/// ranking of guessed words.
pub struct StatisticView {
    pub games: Seq<GameView>,
    pub top_words: Seq<(Seq<char>, u64)>,
}

impl StatisticView {
    pub open spec fn valid(&self) -> bool {
        &&& is_ranking(self.top_words, self.games, seq![])
        &&& log_ok(self.games)
    }
}

/// Results over many games.
pub struct Statistic {
    success_cnt: u64,
    fail_cnt: u64,
    success_attempt_cnt: u64,
    guess_cnt: u64,
    top_words: Vec<WordCnt>,
    games: Vec<StatisticGame>,
}

impl View for Statistic {
    type V = StatisticView;

    closed spec fn view(&self) -> StatisticView {
        StatisticView { games: games_view(self.games@), top_words: entries_view(self.top_words@) }
    }
}

proof fn lemma_guess_total_prefix(log: Seq<GameView>, k: int, m: int)
    requires
        0 <= k <= m <= log.len(),
    ensures
        guess_total(log.take(k)) <= guess_total(log.take(m)),
    decreases m - k,
{
    if k < m {
        lemma_guess_total_prefix(log, k, m - 1);
        assert(log.take(m).drop_last() =~= log.take(m - 1));
    }
}

/// Whether `s` is five uppercase ASCII letters.
fn is_word_str(s: &String) -> (r: bool)
    ensures
        r == valid_word(s@),
{
    let t = s.as_str();
    if t.unicode_len() != 5 {
        return false;
    }
    for i in 0..5usize
        invariant
            t@ == s@,
            s@.len() == 5,
            forall|j: int| 0 <= j < i ==> 'A' <= #[trigger] s@[j] <= 'Z',
    {
        let c = t.get_char(i);
        if !('A' <= c && c <= 'Z') {
            return false;
        }
    }
    true
}

impl Statistic {
    /// The counters are those of the log.
    pub closed spec fn counters_ok(&self) -> bool {
        let log = self@.games;
        &&& self.success_cnt == won_games(log)
        &&& self.fail_cnt == lost_games(log)
        &&& self.success_attempt_cnt == won_attempts(log)
        &&& self.guess_cnt == guess_total(log)
    }

    pub open spec fn wf(&self) -> bool {
        self@.valid() && self.counters_ok()
    }

    /// No games yet.
    pub fn new() -> (r: Self)
        ensures
            r.wf(),
            r@.games.len() == 0,
            r@.top_words.len() == 0,
    {
        let r = Statistic {
            success_cnt: 0,
            fail_cnt: 0,
            success_attempt_cnt: 0,
            guess_cnt: 0,
            top_words: Vec::new(),
            games: Vec::new(),
        };
        assert(r@.games =~= Seq::<GameView>::empty());
        assert(r@.top_words =~= Seq::<(Seq<char>, u64)>::empty());
        r
    }

    /// Games won.
    pub fn success_cnt(&self) -> (r: u64)
        requires
            self.wf(),
        ensures
            r == won_games(self@.games),
    {
        self.success_cnt
    }

    /// Games lost.
    pub fn fail_cnt(&self) -> (r: u64)
        requires
            self.wf(),
        ensures
            r == lost_games(self@.games),
    {
        self.fail_cnt
    }

    /// Guesses spent on won games.
    pub fn success_attempt_cnt(&self) -> (r: u64)
        requires
            self.wf(),
        ensures
            r == won_attempts(self@.games),
    {
        self.success_attempt_cnt
    }

    /// Games recorded, won or lost.
    pub fn total_rounds(&self) -> (r: u64)
        requires
            self.wf(),
        ensures
            r == self@.games.len(),
    {
        proof {
            lemma_log_bounds(self@.games, seq![]);
        }
        self.success_cnt + self.fail_cnt
    }

    /// The log of games, oldest first.
    pub fn games(&self) -> (r: &Vec<StatisticGame>)
        ensures
            games_view(r@) == self@.games,
    {
        &self.games
    }

    /// Whether one more game of `n_guesses` guesses keeps every counter in range.
    pub fn has_room_for(&self, n_guesses: usize) -> (r: bool)
        requires
            self.wf(),
        ensures
            r == (log_size(self@.games) + 1 + n_guesses <= u64::MAX),
    {
        let used = self.total_rounds() as u128 + self.guess_cnt as u128;
        used + 1 + n_guesses as u128 <= u64::MAX as u128
    }

    /// The five most guessed words, or fewer when fewer were guessed, in
    /// ranking order.
    pub fn top5_words(&self) -> (r: Vec<WordCnt>)
        requires
            self.wf(),
        ensures
            entries_view(r@) == self@.top_words.take(
                if self@.top_words.len() < 5 {
                    self@.top_words.len() as int
                } else {
                    5
                },
            ),
    {
        let ghost top = self@.top_words;
        let n = if self.top_words.len() < 5 {
            self.top_words.len()
        } else {
            5
        };
        let mut r: Vec<WordCnt> = Vec::new();
        for i in 0..n
            invariant
                n <= self.top_words@.len(),
                top == entries_view(self.top_words@),
                entries_view(r@) == top.take(i as int),
        {
            let e = &self.top_words[i];
            let c = WordCnt { str: e.str.clone(), cnt: e.cnt };
            assert(c@ == top[i as int]);
            let ghost r0 = r@;
            r.push(c);
            assert(r@ == r0.push(c));
            assert(top.len() == self.top_words@.len());
            assert(entries_view(r0).len() == r0.len());
            assert(r0.len() == i);
            assert forall|j: int| 0 <= j < i implies #[trigger] entries_view(r@)[j] == top[j] by {
                assert(entries_view(r0)[j] == r0[j]@);
                assert(r@[j] == r0[j]);
                assert(entries_view(r0)[j] == top.take(i as int)[j]);
            }
            assert(entries_view(r@) =~= top.take(i + 1));
        }
        r
    }

    /// Records one game: a win when the last guess is the answer; every guess
    /// counts towards the ranking.
    fn add_game(&mut self, answer: String, guesses: Vec<String>)
        requires
            old(self).wf(),
            game_ok((answer@, strings_view(guesses@))),
            log_size(old(self)@.games) + 1 + guesses@.len() <= u64::MAX,
        ensures
            final(self).wf(),
            final(self)@.games == old(self)@.games.push((answer@, strings_view(guesses@))),
    {
        let ghost log = self@.games;
        let ghost gv = strings_view(guesses@);
        let ghost log2 = log.push((answer@, gv));
        let ghost games0 = self.games@;
        let n = guesses.len();
        proof {
            lemma_log_bounds(log, seq![]);
            assert(log2.drop_last() =~= log);
        }
        if guesses[n - 1] == answer {
            self.success_cnt = self.success_cnt + 1;
            self.success_attempt_cnt = self.success_attempt_cnt + n as u64;
        } else {
            self.fail_cnt = self.fail_cnt + 1;
        }
        self.guess_cnt = self.guess_cnt + n as u64;
        assert(gv.take(0) =~= Seq::<Seq<char>>::empty());
        let ghost counters = (self.success_cnt, self.fail_cnt, self.success_attempt_cnt, self.guess_cnt);
        for k in 0..n
            invariant
                n == guesses@.len(),
                gv == strings_view(guesses@),
                self.games@ == games0,
                counters == (self.success_cnt, self.fail_cnt, self.success_attempt_cnt, self.guess_cnt),
                is_ranking(entries_view(self.top_words@), log, gv.take(k as int)),
                guess_total(log) + n < u64::MAX,
        {
            add_word(&mut self.top_words, &guesses[k], Ghost(log), Ghost(gv.take(k as int)));
            assert(gv.take(k + 1) =~= gv.take(k as int).push(gv[k as int]));
        }
        assert(gv.take(n as int) =~= gv);
        assert forall|x: Seq<char>| #[trigger] guessed(log2, seq![], x) == guessed(log, gv, x) by {}
        self.games.push(StatisticGame { answer, guesses });
        assert(self@.games =~= log2);
        assert forall|k: int| 0 <= k < log2.len() implies game_ok(#[trigger] log2[k]) by {
            if k < log.len() {
                assert(log2[k] == log[k]);
            }
        }
    }

    /// Records a finished game.
    pub fn add_plate(&mut self, plate: &Plate)
        requires
            old(self).wf(),
            plate.wf(),
            plate@.history.len() > 0,
            log_size(old(self)@.games) + 1 + plate@.history.len() <= u64::MAX,
        ensures
            final(self).wf(),
            final(self)@.games == old(self)@.games.push(
                (plate@.goal, plate@.history.map_values(|e: (Seq<char>, Seq<LetterState>)| e.0)),
            ),
    {
        let goal = word_to_str(plate.goal());
        let h = plate.history();
        let ghost hv = plate@.history.map_values(|e: (Seq<char>, Seq<LetterState>)| e.0);
        let mut guesses: Vec<String> = Vec::new();
        for k in 0..h.len()
            invariant
                rounds_view(h@) == plate@.history,
                hv == plate@.history.map_values(|e: (Seq<char>, Seq<LetterState>)| e.0),
                strings_view(guesses@) == hv.take(k as int),
        {
            let (w, _st): (Word, WordState) = h[k];
            assert(rounds_view(h@)[k as int] == (h@[k as int].0@, h@[k as int].1@));
            assert(w@ == hv[k as int]);
            let ws = word_to_str(&w);
            let ghost g0 = guesses@;
            guesses.push(ws);
            assert(guesses@ == g0.push(ws));
            assert(hv.len() == h@.len());
            assert(strings_view(g0).len() == g0.len());
            assert(g0.len() == k);
            assert forall|j: int| 0 <= j < k implies #[trigger] strings_view(guesses@)[j] == hv[j] by {
                assert(strings_view(g0)[j] == g0[j]@);
                assert(guesses@[j] == g0[j]);
                assert(strings_view(g0)[j] == hv.take(k as int)[j]);
            }
            assert(strings_view(guesses@) =~= hv.take(k + 1));
        }
        assert(hv.take(h@.len() as int) =~= hv);
        assert forall|i: int| 0 <= i < hv.len() implies valid_word(#[trigger] hv[i]) by {
            assert(hv[i] == plate@.history[i].0);
        }
        self.add_game(goal, guesses);
    }

    /// Rebuilds statistics by replaying a log of games; no log means no games.
    /// A log with a game that cannot be replayed, or too large for the
    /// counters, is refused.
    pub fn from_games(games: Option<Vec<StatisticGame>>) -> (r: Result<Statistic, Error>)
        ensures
            games is None ==> (r matches Ok(s) && s.wf() && s@.games.len() == 0),
            games matches Some(gs) ==> (r is Ok <==> log_ok(games_view(gs@))),
            games matches Some(gs) ==> (r matches Ok(s) ==> s.wf() && s@.games == games_view(gs@)),
            r matches Err(e) ==> e == Error::PersistenceFormat,
    {
        let mut rest = match games {
            None => return Ok(Statistic::new()),
            Some(gs) => gs,
        };
        let ghost all = games_view(rest@);
        let n_games = rest.len();
        let ghost n = n_games as nat;
        let mut result = Statistic::new();
        let mut k: usize = 0;
        while rest.len() > 0
            invariant
                games matches Some(gs) && all == games_view(gs@),
                n <= usize::MAX,
                all.len() == n,
                k + rest@.len() == n,
                games_view(rest@) == all.subrange(k as int, n as int),
                result.wf(),
                result@.games == all.take(k as int),
                log_ok(all.take(k as int)),
            decreases rest@.len(),
        {
            let ghost rest0 = rest@;
            let game = rest.remove(0);
            let ghost g = game_view(game);
            assert(games_view(rest0)[0] == all[k as int]);
            assert(g == all[k as int]);
            assert(rest@ =~= rest0.subrange(1, rest0.len() as int));
            assert forall|j: int| 0 <= j < rest@.len() implies #[trigger] games_view(rest@)[j]
                == all[k + 1 + j] by {
                assert(games_view(rest0)[j + 1] == all.subrange(k as int, n as int)[j + 1]);
            }
            assert(games_view(rest@) =~= all.subrange(k + 1, n as int));
            assert(all.take(k + 1) =~= all.take(k as int).push(g));
            assert(all.take(k + 1).drop_last() =~= all.take(k as int));
            let ok = is_word_str(&game.answer) && game.guesses.len() > 0 && result.has_room_for(
                game.guesses.len(),
            );
            if !ok {
                proof {
                    if n > k && !game_ok(g) {
                        assert(!game_ok(all[k as int]));
                    } else {
                        lemma_guess_total_prefix(all, k + 1, n as int);
                        assert(all.take(n as int) =~= all);
                    }
                }
                return Err(Error::PersistenceFormat);
            }
            let mut i: usize = 0;
            while i < game.guesses.len()
                invariant
                    i <= game.guesses@.len(),
                    g == game_view(game),
                    games matches Some(gs) && all == games_view(gs@),
                    k < n,
                    all.len() == n,
                    all[k as int] == g,
                    forall|j: int| 0 <= j < i ==> valid_word(#[trigger] game.guesses@[j]@),
                decreases game.guesses@.len() - i,
            {
                if !is_word_str(&game.guesses[i]) {
                    proof {
                        assert(!valid_word(g.1[i as int]));
                        assert(!game_ok(all[k as int]));
                    }
                    return Err(Error::PersistenceFormat);
                }
                i = i + 1;
            }
            assert(game_ok(g));
            result.add_game(game.answer, game.guesses);
            k = k + 1;
        }
        assert(all.take(n as int) =~= all);
        assert(games_view(rest@) =~= Seq::<GameView>::empty());
        Ok(result)
    }
}

/// Two rankings in strict ranking order with the same entries are equal.
proof fn lemma_sorted_unique(a: Seq<(Seq<char>, u64)>, b: Seq<(Seq<char>, u64)>)
    requires
        sorted_ranking(a),
        sorted_ranking(b),
        forall|i: int| 0 <= i < a.len() ==> b.contains(#[trigger] a[i]),
        forall|j: int| 0 <= j < b.len() ==> a.contains(#[trigger] b[j]),
    ensures
        a == b,
    decreases a.len(),
{
    if a.len() == 0 {
        if b.len() > 0 {
            assert(a.contains(b[0]));
        }
        assert(a =~= b);
    } else {
        assert(b.contains(a[0]));
        assert(b.len() > 0);
        let j = choose|j: int| 0 <= j < b.len() && b[j] == a[0];
        assert(a.contains(b[0]));
        let i = choose|i: int| 0 <= i < a.len() && a[i] == b[0];
        lemma_rank_order(a[0], b[0], a[0]);
        if j > 0 && i > 0 {
            assert(ranks_before(b[0], b[j]));
            assert(ranks_before(a[0], a[i]));
        } else if j > 0 {
            assert(ranks_before(b[0], b[j]));
        } else if i > 0 {
            assert(ranks_before(a[0], a[i]));
        }
        assert(a[0] == b[0]);
        let a1 = a.drop_first();
        let b1 = b.drop_first();
        assert forall|k: int| 0 <= k < a1.len() implies b1.contains(#[trigger] a1[k]) by {
            assert(b.contains(a[k + 1]));
            let m = choose|m: int| 0 <= m < b.len() && b[m] == a[k + 1];
            assert(ranks_before(a[0], a[k + 1]));
            lemma_rank_order(a[0], a[k + 1], a[0]);
            assert(m != 0);
            assert(b1[m - 1] == a1[k]);
        }
        assert forall|k: int| 0 <= k < b1.len() implies a1.contains(#[trigger] b1[k]) by {
            assert(a.contains(b[k + 1]));
            let m = choose|m: int| 0 <= m < a.len() && a[m] == b[k + 1];
            assert(ranks_before(b[0], b[k + 1]));
            lemma_rank_order(b[0], b[k + 1], b[0]);
            assert(m != 0);
            assert(a1[m - 1] == b1[k]);
        }
        lemma_sorted_unique(a1, b1);
        assert(a =~= seq![a[0]] + a1);
        assert(b =~= seq![b[0]] + b1);
    }
}

/// Statistics are a function of their log: two statistics that recorded the
/// same games, whether live or by replaying a stored log, have the same
/// ranking, and their counters (`won_games`, `lost_games`, `won_attempts` of
/// the log) agree. A stored log can always be replayed.
pub proof fn lemma_same_log_same_statistics(a: StatisticView, b: StatisticView)
    requires
        a.valid(),
        b.valid(),
        a.games == b.games,
    ensures
        a == b,
        log_ok(a.games),
{
    let (ta, tb) = (a.top_words, b.top_words);
    assert forall|i: int| 0 <= i < ta.len() implies tb.contains(#[trigger] ta[i]) by {
        assert(ta[i].1 == guessed(a.games, seq![], ta[i].0) && ta[i].1 > 0);
        let j = choose|j: int| 0 <= j < tb.len() && #[trigger] tb[j].0 == ta[i].0;
        assert(tb[j] == ta[i]);
    }
    assert forall|j: int| 0 <= j < tb.len() implies ta.contains(#[trigger] tb[j]) by {
        assert(tb[j].1 == guessed(b.games, seq![], tb[j].0) && tb[j].1 > 0);
        let i = choose|i: int| 0 <= i < ta.len() && #[trigger] ta[i].0 == tb[j].0;
        assert(ta[i] == tb[j]);
    }
    lemma_sorted_unique(ta, tb);
}

/// Words guessed equally often are ranked alphabetically, and a word guessed
/// more often ranks higher.
pub proof fn lemma_ranking_order(s: StatisticView, i: int, j: int)
    requires
        s.valid(),
        0 <= i < j < s.top_words.len(),
    ensures
        s.top_words[i].1 >= s.top_words[j].1,
        s.top_words[i].1 == s.top_words[j].1 ==> lex_lt(s.top_words[i].0, s.top_words[j].0),
{
    assert(ranks_before(s.top_words[i], s.top_words[j]));
}

} // verus!
