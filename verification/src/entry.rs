//! One message of a catalog.

use vstd::prelude::*;
use vstd::string::*;

verus! {

/// A source text with its translation, and the format of the two: `c` where
/// they hold printf-style conversion specifiers, empty otherwise.
#[derive(Debug)]
pub struct Entry {
    pub msgid: String,
    pub msgstr: String,
    pub format: String,
}

impl Entry {
    /// An entry that holds copies of the three texts.
    pub fn new(msgid: &str, msgstr: &str, format: &str) -> (entry: Self)
        ensures
            entry.msgid@ == msgid@,
            entry.msgstr@ == msgstr@,
            entry.format@ == format@,
    {
        Entry { msgid: msgid.to_owned(), msgstr: msgstr.to_owned(), format: format.to_owned() }
    }
}

} // verus!
