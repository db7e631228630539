//! The checker: the dictionaries that the rules consult, and the
//! diagnostics that they have reported.

use crate::diagnostic::{Diagnostic, Report, Severity};
use crate::dict::{oracle_of, Dictionary};
use crate::entry::Entry;
use crate::rules::rule::{reports_of, RuleChecker};
use crate::words::spans;
use vstd::prelude::*;
use vstd::string::*;

verus! {

/// Runs rules on entries and collects what they report.
///
/// Either dictionary may be missing: a rule that needs a missing one does
/// nothing.
pub struct Checker<'a, D: Dictionary> {
    /// Dictionary for the source texts.
    pub dict_id: Option<D>,
    /// Dictionary for the translations.
    pub dict_str: Option<D>,
    /// Severity of the rule that is running.
    pub severity: Severity,
    /// What has been reported so far, oldest first.
    pub diagnostics: Vec<Diagnostic<'a>>,
}

impl<'a, D: Dictionary> Checker<'a, D> {
    /// The diagnostics reported so far, as their contents.
    pub open spec fn reports(&self) -> Seq<Report> {
        self.diagnostics@.map_values(|d: Diagnostic<'a>| d@)
    }

    /// A checker that has reported nothing yet.
    pub fn new(dict_id: Option<D>, dict_str: Option<D>) -> (checker: Self)
        ensures
            checker.dict_id == dict_id,
            checker.dict_str == dict_str,
            checker.severity == Severity::Info,
            checker.reports() == Seq::<Report>::empty(),
    {
        let checker = Checker { dict_id, dict_str, severity: Severity::Info, diagnostics: Vec::new() };
        assert(checker.reports() =~= Seq::<Report>::empty());
        checker
    }

    /// Records one diagnostic on `entry`, with the severity of the rule that
    /// is running: the message, the two texts that were checked, and the
    /// positions to highlight in each.
    pub fn report_msg(
        &mut self,
        entry: &'a Entry,
        message: String,
        msgid: &str,
        msgid_positions: Vec<(usize, usize)>,
        msgstr: &str,
        msgstr_positions: Vec<(usize, usize)>,
    )
        ensures
            final(self).dict_id == old(self).dict_id,
            final(self).dict_str == old(self).dict_str,
            final(self).severity == old(self).severity,
            final(self).reports() == old(self).reports().push(
                (Report {
                    severity: old(self).severity,
                    message: message@,
                    entry: *entry,
                    msgid: msgid@,
                    msgid_positions: spans(msgid_positions@),
                    msgstr: msgstr@,
                    msgstr_positions: spans(msgstr_positions@),
                }),
            ),
    {
        let diagnostic = Diagnostic {
            severity: self.severity,
            message,
            entry,
            msgid: msgid.to_owned(),
            msgid_positions,
            msgstr: msgstr.to_owned(),
            msgstr_positions,
        };
        self.diagnostics.push(diagnostic);
        assert(self.reports() =~= old(self).reports().push(diagnostic@));
    }

    /// Runs one rule on one entry, on its source text and its translation:
    /// what the rule finds is reported with the rule's own severity.
    pub fn check_entry<R: RuleChecker>(&mut self, rule: &R, entry: &'a Entry)
        ensures
            final(self).dict_id == old(self).dict_id,
            final(self).dict_str == old(self).dict_str,
            final(self).severity == rule.identity().severity,
            final(self).reports() == old(self).reports() + reports_of(
                rule.findings(
                    oracle_of(old(self).dict_id),
                    oracle_of(old(self).dict_str),
                    entry.format@,
                    entry.msgid@,
                    entry.msgstr@,
                ),
                rule.identity().severity,
                *entry,
                entry.msgid@,
                entry.msgstr@,
            ),
    {
        self.severity = rule.severity();
        rule.check_msg(self, entry, entry.msgid.as_str(), entry.msgstr.as_str());
    }
}

} // verus!
