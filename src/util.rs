use vstd::prelude::*;

verus! {

/// An uppercase ASCII letter, `A` to `Z`.
pub open spec fn is_letter(c: char) -> bool {
    'A' <= c <= 'Z'
}

/// Slot of a letter in a [`LetterMap`].
pub open spec fn letter_index(c: char) -> int {
    c as int - 'A' as int
}

/// A map with one slot for each of the 26 uppercase letters.
#[derive(Clone, Copy)]
pub struct LetterMap<T> {
    data: [T; 26],
}

impl<T> View for LetterMap<T> {
    type V = Seq<T>;

    closed spec fn view(&self) -> Seq<T> {
        self.data@
    }
}

impl<T> LetterMap<T> {
    /// The value stored for letter `c`.
    pub open spec fn at(&self, c: char) -> T {
        self@[letter_index(c)]
    }

    pub fn as_arr(&self) -> (r: &[T; 26])
        ensures
            r@ == self@,
    {
        &self.data
    }

    pub fn as_mut_arr(&mut self) -> (r: &mut [T; 26])
        ensures
            r@ == old(self)@,
            final(self)@ == final(r)@,
    {
        &mut self.data
    }
}

impl<T: Copy> LetterMap<T> {
    /// A map holding `v` for every letter.
    pub fn filled(v: T) -> (r: Self)
        ensures
            r@ == Seq::new(26, |_i: int| v),
    {
        let r = LetterMap { data: [v; 26] };
        assert(r@ =~= Seq::new(26, |_i: int| v));
        r
    }

    pub fn get(&self, c: char) -> (r: T)
        requires
            is_letter(c),
        ensures
            r == self.at(c),
    {
        self.data[c as usize - 'A' as usize]
    }

    pub fn set(&mut self, c: char, v: T)
        requires
            is_letter(c),
        ensures
            final(self)@ == old(self)@.update(letter_index(c), v),
    {
        self.data[c as usize - 'A' as usize] = v;
    }
}

} // verus!
