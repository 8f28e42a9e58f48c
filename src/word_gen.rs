use crate::error::Error;
use crate::plate::Word;
use rand::SeedableRng;
use vstd::prelude::*;
use vstd::string::StrSliceExecFns;

verus! {

/// Relies on `rand`'s `SliceRandom::shuffle`, driven by a `StdRng` from
/// `seed_from_u64`: it swaps elements in place, so the result is a
/// permutation of the list.
#[verifier::external_body]
fn shuffle_seeded(list: &mut Vec<Word>, seed: u64)
    ensures
        final(list)@.len() == old(list)@.len(),
        final(list)@.to_multiset() == old(list)@.to_multiset(),
{
    let mut rng = rand::rngs::StdRng::seed_from_u64(seed);
    rand::seq::SliceRandom::shuffle(list.as_mut_slice(), &mut rng);
}

/// Goal words taken in turn from a shuffled list.
pub struct RandWords {
    words: Vec<Word>,
    next: usize,
}

impl View for RandWords {
    /// The words in the order they are handed out, and the position of the next one.
    type V = (Seq<Word>, int);

    closed spec fn view(&self) -> (Seq<Word>, int) {
        (self.words@, self.next as int)
    }
}

/// The words of `list` shuffled by `seed`, starting with the `date`-th one
/// (counting from 1).
pub fn rand_words(list: &Vec<Word>, seed: u64, date: u32) -> (r: RandWords)
    requires
        date >= 1,
    ensures
        r@.0.to_multiset() == list@.to_multiset(),
        r@.0.len() == list@.len(),
        r@.1 == date - 1,
{
    let mut words: Vec<Word> = Vec::new();
    for i in 0..list.len()
        invariant
            words@ == list@.take(i as int),
    {
        words.push(list[i]);
        assert(words@ =~= list@.take(i + 1));
    }
    assert(list@.take(list@.len() as int) =~= list@);
    shuffle_seeded(&mut words, seed);
    RandWords { words, next: (date - 1) as usize }
}

impl RandWords {
    /// The next word, or `EndOfList` once the list is used up.
    pub fn next_word(&mut self) -> (r: Result<Word, Error>)
        ensures
            old(self)@.1 < old(self)@.0.len() ==> r == Ok::<Word, Error>(old(self)@.0[old(self)@.1])
                && final(self)@ == (old(self)@.0, old(self)@.1 + 1),
            old(self)@.1 >= old(self)@.0.len() ==> r == Err::<Word, Error>(Error::EndOfList)
                && final(self)@ == old(self)@,
    {
        if self.next < self.words.len() {
            let w = self.words[self.next];
            self.next = self.next + 1;
            Ok(w)
        } else {
            Err(Error::EndOfList)
        }
    }
}

/// Whether a reply to "another round?" is a yes: exactly `Y` and a newline.
pub open spec fn is_yes(answer: Seq<char>) -> bool {
    answer == seq!['Y', '\n']
}

/// Hands out goal words round after round: the first round always, each
/// later round only when the player answers yes.
pub struct RepeatReader<F> {
    first_time: bool,
    reader: F,
}

impl<F> RepeatReader<F> {
    /// Whether the first round is still to come.
    pub closed spec fn is_first(&self) -> bool {
        self.first_time
    }

    /// A reader that draws words with `reader`.
    pub fn new(reader: F) -> (r: Self)
        ensures
            r.is_first(),
    {
        RepeatReader { first_time: true, reader }
    }

    /// Whether the player must be asked before the next round.
    pub fn needs_answer(&self) -> (r: bool)
        ensures
            r == !self.is_first(),
    {
        !self.first_time
    }

    /// Decides whether another round is played; `answer` is the player's
    /// reply, ignored before the first round.
    pub fn next_round(&mut self, answer: &str) -> (r: bool)
        ensures
            r == (old(self).is_first() || is_yes(answer@)),
            !final(self).is_first(),
    {
        if self.first_time {
            self.first_time = false;
            return true;
        }
        let yes = answer.unicode_len() == 2 && answer.get_char(0) == 'Y' && answer.get_char(1)
            == '\n';
        proof {
            if yes {
                assert(answer@ =~= seq!['Y', '\n']);
            }
            if is_yes(answer@) {
                assert(answer@.len() == 2 && answer@[0] == 'Y' && answer@[1] == '\n');
            }
        }
        yes
    }

    /// The word source, to draw the next goal with.
    pub fn reader_mut(&mut self) -> (r: &mut F)
        ensures
            final(self).is_first() == old(self).is_first(),
    {
        &mut self.reader
    }
}

} // verus!
