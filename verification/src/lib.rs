//! Linting core for translation catalogs: word tokenization that is aware of
//! printf-style conversion specifiers, and spelling rules that report the
//! byte positions of every misspelled word.

pub mod c_format;
pub mod checker;
pub mod diagnostic;
pub mod dict;
pub mod entry;
pub mod rules;
pub mod text;
pub mod words;
