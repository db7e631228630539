//! The dictionary that a spelling rule consults, and a dictionary that is a
//! plain list of words.

use crate::text::str_eq;
use vstd::prelude::*;
use vstd::string::*;

verus! {

/// A recognition oracle: says whether a word is correctly spelled.
///
/// The answer is a function of the word alone, so a word that was looked up
/// once need not be looked up again. Case and normalization are the
/// dictionary's own business.
pub trait Dictionary {
    /// Whether the dictionary recognizes the word.
    spec fn recognizes(&self, word: Seq<char>) -> bool;

    /// Looks the word up.
    fn check(&self, word: &str) -> (known: bool)
        ensures
            known == self.recognizes(word@),
    ;
}

/// What a dictionary is to a rule: the set of the words it recognizes, as a
/// predicate.
pub type Oracle = spec_fn(Seq<char>) -> bool;

/// The predicate of a dictionary.
pub open spec fn oracle<D: Dictionary>(dict: D) -> Oracle {
    |word: Seq<char>| dict.recognizes(word)
}

/// The predicate of a dictionary that may be missing.
pub open spec fn oracle_of<D: Dictionary>(dict: Option<D>) -> Option<Oracle> {
    match dict {
        Some(dict) => Some(oracle(dict)),
        None => None,
    }
}

/// A dictionary that recognizes the words it was given, letter for letter,
/// and no others.
pub struct WordList {
    words: Vec<String>,
}

impl View for WordList {
    type V = Seq<Seq<char>>;

    closed spec fn view(&self) -> Seq<Seq<char>> {
        Seq::new(self.words@.len(), |i: int| self.words@[i]@)
    }
}

impl WordList {
    /// A dictionary that recognizes nothing.
    pub fn new() -> (list: Self)
        ensures
            list@ == Seq::<Seq<char>>::empty(),
    {
        let list = WordList { words: Vec::new() };
        assert(list@ =~= Seq::<Seq<char>>::empty());
        list
    }

    /// Makes the dictionary recognize `word` as well.
    pub fn add(&mut self, word: &str)
        ensures
            final(self)@ == old(self)@.push(word@),
    {
        self.words.push(word.to_owned());
        assert(self@ =~= old(self)@.push(word@));
    }
}

impl Dictionary for WordList {
    open spec fn recognizes(&self, word: Seq<char>) -> bool {
        self@.contains(word)
    }

    fn check(&self, word: &str) -> (known: bool) {
        let mut i: usize = 0;
        while i < self.words.len()
            invariant
                i <= self.words@.len(),
                forall|j: int| 0 <= j < i ==> self@[j] != word@,
            decreases self.words@.len() - i,
        {
            if str_eq(self.words[i].as_str(), word) {
                assert(self@[i as int] == word@);
                return true;
            }
            i += 1;
        }
        false
    }
}

} // verus!
