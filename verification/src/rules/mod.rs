//! The rules that check one message of a catalog.

pub mod rule;
pub mod spelling;
