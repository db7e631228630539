//! What a rule reports of an entry.

use crate::entry::Entry;
use crate::words::spans;
use vstd::prelude::*;
use vstd::string::*;

verus! {

/// How grave a finding is, from the least to the most.
#[derive(Clone, Copy, Debug, PartialEq, Eq, PartialOrd, Ord, Hash, Structural)]
pub enum Severity {
    Info,
    Warning,
    Error,
}

impl Severity {
    /// The place of a severity in the order from the least to the most grave.
    pub open spec fn spec_rank(self) -> u8 {
        match self {
            Severity::Info => 0,
            Severity::Warning => 1,
            Severity::Error => 2,
        }
    }

    /// The place of the severity in the order from the least to the most
    /// grave: 0 for `Info`, 1 for `Warning`, 2 for `Error`.
    #[verifier::when_used_as_spec(spec_rank)]
    pub fn rank(self) -> (rank: u8)
        ensures
            rank == self.spec_rank(),
    {
        match self {
            Severity::Info => 0,
            Severity::Warning => 1,
            Severity::Error => 2,
        }
    }
}

/// No severity is less grave than `Info`, and none more grave than `Error`.
pub proof fn lemma_severity_bounds(severity: Severity)
    ensures
        Severity::Info.rank() <= severity.rank() <= Severity::Error.rank(),
{
}

/// A finding on one entry: a message, the two texts that were checked, and
/// in each of them the positions to highlight.
#[derive(Debug)]
pub struct Diagnostic<'a> {
    pub severity: Severity,
    pub message: String,
    pub entry: &'a Entry,
    pub msgid: String,
    pub msgid_positions: Vec<(usize, usize)>,
    pub msgstr: String,
    pub msgstr_positions: Vec<(usize, usize)>,
}

/// A diagnostic as its contents.
pub struct Report {
    pub severity: Severity,
    pub message: Seq<char>,
    pub entry: Entry,
    pub msgid: Seq<char>,
    pub msgid_positions: Seq<(int, int)>,
    pub msgstr: Seq<char>,
    pub msgstr_positions: Seq<(int, int)>,
}

impl<'a> View for Diagnostic<'a> {
    type V = Report;

    open spec fn view(&self) -> Report {
        Report {
            severity: self.severity,
            message: self.message@,
            entry: *self.entry,
            msgid: self.msgid@,
            msgid_positions: spans(self.msgid_positions@),
            msgstr: self.msgstr@,
            msgstr_positions: spans(self.msgstr_positions@),
        }
    }
}

} // verus!
