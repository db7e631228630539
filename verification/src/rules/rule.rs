//! What every rule offers.

use crate::checker::Checker;
use crate::diagnostic::{Report, Severity};
use crate::dict::{oracle_of, Dictionary, Oracle};
use crate::entry::Entry;
use vstd::prelude::*;
use vstd::string::*;

verus! {

/// What a rule finds in one message: what it has to say, and the positions
/// to highlight in the source text and in the translation.
pub struct Finding {
    pub message: Seq<char>,
    pub msgid_positions: Seq<(int, int)>,
    pub msgstr_positions: Seq<(int, int)>,
}

/// The diagnostics that findings on one message make.
pub open spec fn reports_of(
    findings: Seq<Finding>,
    severity: Severity,
    entry: Entry,
    msgid: Seq<char>,
    msgstr: Seq<char>,
) -> Seq<Report> {
    findings.map_values(
        |finding: Finding|
            Report {
                severity,
                message: finding.message,
                entry,
                msgid,
                msgid_positions: finding.msgid_positions,
                msgstr,
                msgstr_positions: finding.msgstr_positions,
            },
    )
}

/// What tells a rule from the others: its name, whether it runs without
/// being asked for, and the severity it reports at. None of them ever
/// changes.
pub struct RuleIdentity {
    pub name: Seq<char>,
    pub is_default: bool,
    pub severity: Severity,
}

/// A name in lower case, its words joined by hyphens.
pub open spec fn is_kebab_case(name: Seq<char>) -> bool {
    &&& name.len() > 0
    &&& name[0] != '-'
    &&& name.last() != '-'
    &&& forall|i: int|
        0 <= i < name.len() ==> 'a' <= #[trigger] name[i] <= 'z' || '0' <= name[i] <= '9'
            || name[i] == '-'
}

/// A named check on one message, which can be switched on by itself and
/// reports at a fixed severity.
pub trait RuleChecker {
    /// What the rule is.
    spec fn identity(&self) -> RuleIdentity;

    /// What the rule finds in a message, given the two dictionaries, the
    /// format of the message, its source text and its translation.
    spec fn findings(
        &self,
        dict_id: Option<Oracle>,
        dict_str: Option<Oracle>,
        format: Seq<char>,
        msgid: Seq<char>,
        msgstr: Seq<char>,
    ) -> Seq<Finding>;

    /// The name of the rule, in lower case with hyphens.
    fn name(&self) -> (name: &'static str)
        ensures
            name@ == self.identity().name,
    ;

    /// Whether the rule runs without being asked for.
    fn is_default(&self) -> (yes: bool)
        ensures
            yes == self.identity().is_default,
    ;

    /// The severity that the rule reports at.
    fn severity(&self) -> (severity: Severity)
        ensures
            severity == self.identity().severity,
    ;

    /// Checks one message and reports what it finds to the checker.
    fn check_msg<'a, D: Dictionary>(
        &self,
        checker: &mut Checker<'a, D>,
        entry: &'a Entry,
        msgid: &str,
        msgstr: &str,
    )
        ensures
            final(checker).dict_id == old(checker).dict_id,
            final(checker).dict_str == old(checker).dict_str,
            final(checker).severity == old(checker).severity,
            final(checker).reports() == old(checker).reports() + reports_of(
                self.findings(
                    oracle_of(old(checker).dict_id),
                    oracle_of(old(checker).dict_str),
                    entry.format@,
                    msgid@,
                    msgstr@,
                ),
                old(checker).severity,
                *entry,
                msgid@,
                msgstr@,
            ),
    ;
}

} // verus!
