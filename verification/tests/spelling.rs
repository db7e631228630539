use polint::checker::Checker;
use polint::diagnostic::{Diagnostic, Severity};
use polint::dict::{Dictionary, WordList};
use polint::entry::Entry;
use polint::rules::rule::RuleChecker;
use polint::rules::spelling::{
    check_spelling, find_misspelled, join_words, sort_words, write_spelling_message,
    SpellingIdRule, SpellingStrRule,
};

fn word_list(words: &[&str]) -> WordList {
    let mut list = WordList::new();
    for word in words {
        list.add(word);
    }
    list
}

fn unquote(text: &str) -> String {
    text.trim().trim_matches('"').replace("\\n", "\n")
}

/// Reads the messages of a catalog, the header apart.
fn read_entries(content: &str) -> Vec<Entry> {
    let mut entries = Vec::new();
    let mut msgid: Option<String> = None;
    for line in content.lines() {
        if let Some(rest) = line.strip_prefix("msgid ") {
            msgid = Some(unquote(rest));
        } else if let Some(rest) = line.strip_prefix("msgstr ") {
            if let Some(id) = msgid.take() {
                if !id.is_empty() {
                    entries.push(Entry::new(&id, &unquote(rest), ""));
                }
            }
        }
    }
    entries
}

fn check_spelling_of(content: &str) -> Vec<Diagnostic<'static>> {
    let entries: &'static [Entry] = Box::leak(read_entries(content).into_boxed_slice());
    let dict_id = word_list(&["tested", "typo"]);
    let dict_str = word_list(&["testé", "faute"]);
    let mut checker = Checker::new(Some(dict_id), Some(dict_str));
    for entry in entries {
        checker.check_entry(&SpellingIdRule {}, entry);
        checker.check_entry(&SpellingStrRule {}, entry);
    }
    checker.diagnostics
}

#[test]
fn test_spelling_ok() {
    let diags = check_spelling_of(
        r#"
msgid ""
msgstr "Language: fr\n"

msgid "tested"
msgstr "testé"
"#,
    );
    assert!(diags.is_empty());
}

#[test]
fn test_spelling_error() {
    let diags = check_spelling_of(
        r#"
msgid ""
msgstr "Language: fr\n"

msgid "this is a tyypo"
msgstr "ceci est une fôte"
"#,
    );
    assert_eq!(diags.len(), 2);
    let diag = &diags[0];
    assert_eq!(diag.severity, Severity::Info);
    assert_eq!(
        diag.message,
        "misspelled words in source: a, is, this, tyypo"
    );
    let diag = &diags[1];
    assert_eq!(diag.severity, Severity::Info);
    assert_eq!(
        diag.message,
        "misspelled words in translation: ceci, est, fôte, une"
    );
}

#[test]
fn test_spelling_error_positions() {
    let diags = check_spelling_of(
        r#"
msgid "this is a tyypo"
msgstr "ceci est une fôte"
"#,
    );
    assert_eq!(diags.len(), 2);
    let diag = &diags[0];
    assert_eq!(diag.msgid, "this is a tyypo");
    assert_eq!(diag.msgstr, "ceci est une fôte");
    assert_eq!(diag.msgid_positions, vec![(0, 4), (5, 7), (8, 9), (10, 15)]);
    assert!(diag.msgstr_positions.is_empty());
    assert_eq!(diag.entry.msgid, "this is a tyypo");
    let diag = &diags[1];
    assert_eq!(diag.msgid, "this is a tyypo");
    assert_eq!(diag.msgstr, "ceci est une fôte");
    assert!(diag.msgid_positions.is_empty());
    assert_eq!(diag.msgstr_positions, vec![(0, 4), (5, 8), (9, 12), (13, 18)]);
    assert_eq!(&diag.msgstr[13..18], "fôte");
}

#[test]
fn test_source_and_translation_are_independent() {
    let entry = Entry::new("this is a typo", "ceci est une fôte", "");
    let dict_id = word_list(&["this", "is", "a", "typo"]);
    let dict_str = word_list(&["ceci", "est", "une", "faute"]);
    let mut checker = Checker::new(Some(dict_id), Some(dict_str));
    checker.check_entry(&SpellingIdRule {}, &entry);
    assert!(checker.diagnostics.is_empty());
    checker.check_entry(&SpellingStrRule {}, &entry);
    assert_eq!(checker.diagnostics.len(), 1);
    assert_eq!(checker.diagnostics[0].message, "misspelled words in translation: fôte");
    assert_eq!(checker.diagnostics[0].msgstr_positions, vec![(13, 18)]);
}

#[test]
fn test_repeated_word_is_listed_once() {
    let entry = Entry::new("tyypo and tyypo and more tyypo", "", "");
    let dict_id = word_list(&["and", "more"]);
    let mut checker = Checker::new(Some(dict_id), None);
    checker.check_entry(&SpellingIdRule {}, &entry);
    assert_eq!(checker.diagnostics.len(), 1);
    let diag = &checker.diagnostics[0];
    assert_eq!(diag.message, "misspelled words in source: tyypo");
    assert_eq!(diag.msgid_positions, vec![(0, 5), (10, 15), (25, 30)]);
}

#[test]
fn test_repeated_word_twice() {
    let dict = word_list(&[]);
    let found = find_misspelled(&dict, "bad bad", "");
    assert_eq!(found.words, vec!["bad"]);
    assert_eq!(found.positions, vec![(0, 3), (4, 7)]);
}

#[test]
fn test_no_dictionary_no_diagnostic() {
    let entry = Entry::new("this is a tyypo", "ceci est une fôte", "");
    let mut checker: Checker<WordList> = Checker::new(None, None);
    checker.check_entry(&SpellingIdRule {}, &entry);
    checker.check_entry(&SpellingStrRule {}, &entry);
    assert!(checker.diagnostics.is_empty());
}

#[test]
fn test_one_dictionary_only() {
    let entry = Entry::new("tyypo", "fôte", "");
    let mut checker = Checker::new(None, Some(word_list(&[])));
    checker.check_entry(&SpellingIdRule {}, &entry);
    assert!(checker.diagnostics.is_empty());
    checker.check_entry(&SpellingStrRule {}, &entry);
    assert_eq!(checker.diagnostics.len(), 1);
    assert_eq!(checker.diagnostics[0].message, "misspelled words in translation: fôte");

    let mut checker = Checker::new(Some(word_list(&[])), None);
    checker.check_entry(&SpellingStrRule {}, &entry);
    assert!(checker.diagnostics.is_empty());
    checker.check_entry(&SpellingIdRule {}, &entry);
    assert_eq!(checker.diagnostics.len(), 1);
    assert_eq!(checker.diagnostics[0].message, "misspelled words in source: tyypo");
}

#[test]
fn test_empty_text_no_diagnostic() {
    let entry = Entry::new("", "", "");
    let mut checker = Checker::new(Some(word_list(&[])), Some(word_list(&[])));
    checker.check_entry(&SpellingIdRule {}, &entry);
    checker.check_entry(&SpellingStrRule {}, &entry);
    assert!(checker.diagnostics.is_empty());
}

#[test]
fn test_format_of_entry_is_used() {
    let dict = word_list(&["file", "files"]);
    let plain = Entry::new("%d files, %05ld file", "", "");
    let mut checker = Checker::new(Some(dict), None);
    checker.check_entry(&SpellingIdRule {}, &plain);
    assert_eq!(checker.diagnostics.len(), 1);
    assert_eq!(checker.diagnostics[0].message, "misspelled words in source: 05ld, d");
    assert_eq!(checker.diagnostics[0].msgid_positions, vec![(1, 2), (11, 15)]);

    let dict = word_list(&["file", "files"]);
    let with_format = Entry::new("%d files, %05ld file", "", "c");
    let mut checker = Checker::new(Some(dict), None);
    checker.check_entry(&SpellingIdRule {}, &with_format);
    assert!(checker.diagnostics.is_empty());
}

#[test]
fn test_check_msg_uses_the_texts_it_is_given() {
    let entry = Entry::new("entry text", "texte", "");
    let mut checker = Checker::new(Some(word_list(&[])), Some(word_list(&[])));
    checker.severity = Severity::Warning;
    SpellingIdRule {}.check_msg(&mut checker, &entry, "other words", "autres mots");
    SpellingStrRule {}.check_msg(&mut checker, &entry, "other words", "autres mots");
    assert_eq!(checker.diagnostics.len(), 2);
    assert_eq!(checker.diagnostics[0].message, "misspelled words in source: other, words");
    assert_eq!(checker.diagnostics[0].severity, Severity::Warning);
    assert_eq!(checker.diagnostics[0].msgid, "other words");
    assert_eq!(checker.diagnostics[0].msgstr, "autres mots");
    assert_eq!(checker.diagnostics[0].entry.msgid, "entry text");
    assert_eq!(checker.diagnostics[1].message, "misspelled words in translation: autres, mots");
    assert_eq!(checker.diagnostics[1].msgstr_positions, vec![(0, 6), (7, 11)]);
}

#[test]
fn test_diagnostics_accumulate_in_order() {
    let first = Entry::new("aaa", "", "");
    let second = Entry::new("bbb", "", "");
    let mut checker = Checker::new(Some(word_list(&[])), None);
    checker.check_entry(&SpellingIdRule {}, &first);
    checker.check_entry(&SpellingIdRule {}, &second);
    assert_eq!(checker.diagnostics.len(), 2);
    assert_eq!(checker.diagnostics[0].message, "misspelled words in source: aaa");
    assert_eq!(checker.diagnostics[1].message, "misspelled words in source: bbb");
}

#[test]
fn test_rule_identity() {
    let rule = SpellingIdRule {};
    assert_eq!(rule.name(), "spelling-id");
    assert!(!rule.is_default());
    assert_eq!(rule.severity(), Severity::Info);
    let rule = SpellingStrRule {};
    assert_eq!(rule.name(), "spelling-str");
    assert!(!rule.is_default());
    assert_eq!(rule.severity(), Severity::Info);
}

#[test]
fn test_severity_order() {
    assert!(Severity::Info < Severity::Warning);
    assert!(Severity::Warning < Severity::Error);
    assert_eq!(Severity::Info.rank(), 0);
    assert_eq!(Severity::Warning.rank(), 1);
    assert_eq!(Severity::Error.rank(), 2);
    let all = [Severity::Info, Severity::Warning, Severity::Error];
    for a in all {
        for b in all {
            assert_eq!(a < b, a.rank() < b.rank());
            assert_eq!(a == b, a.rank() == b.rank());
        }
    }
}

#[test]
fn test_new_checker() {
    let checker = Checker::new(Some(word_list(&["a"])), None);
    assert!(checker.dict_id.is_some());
    assert!(checker.dict_str.is_none());
    assert_eq!(checker.severity, Severity::Info);
    assert!(checker.diagnostics.is_empty());
}

#[test]
fn test_report_msg() {
    let entry = Entry::new("source", "translation", "c");
    let mut checker: Checker<WordList> = Checker::new(None, None);
    checker.severity = Severity::Error;
    checker.report_msg(
        &entry,
        "something".to_string(),
        "source",
        vec![(0, 6)],
        "translation",
        vec![(0, 5), (5, 11)],
    );
    assert_eq!(checker.diagnostics.len(), 1);
    let diag = &checker.diagnostics[0];
    assert_eq!(diag.severity, Severity::Error);
    assert_eq!(diag.message, "something");
    assert_eq!(diag.entry.format, "c");
    assert_eq!(diag.msgid, "source");
    assert_eq!(diag.msgid_positions, vec![(0, 6)]);
    assert_eq!(diag.msgstr, "translation");
    assert_eq!(diag.msgstr_positions, vec![(0, 5), (5, 11)]);
}

#[test]
fn test_word_list() {
    let mut list = WordList::new();
    assert!(!list.check("word"));
    assert!(!list.check(""));
    list.add("word");
    list.add("été");
    assert!(list.check("word"));
    assert!(list.check("été"));
    assert!(!list.check("Word"));
    assert!(!list.check("wor"));
    assert!(!list.check("words"));
    assert!(!list.check("ete"));
}

#[test]
fn test_find_misspelled_order_of_first_occurrence() {
    let dict = word_list(&["is"]);
    let found = find_misspelled(&dict, "zulu is alpha, zulu is mike", "");
    assert_eq!(found.words, vec!["zulu", "alpha", "mike"]);
    assert_eq!(found.positions, vec![(0, 4), (8, 13), (15, 19), (23, 27)]);
}

#[test]
fn test_find_misspelled_nothing() {
    let dict = word_list(&["all", "good"]);
    let found = find_misspelled(&dict, "all good, all", "");
    assert!(found.words.is_empty());
    assert!(found.positions.is_empty());
}

#[test]
fn test_sort_words_by_code_point() {
    let words = vec!["b", "a", "B", "é", "e", "ab", "", "z", "10", "9"];
    assert_eq!(sort_words(&words), vec!["", "10", "9", "B", "a", "ab", "b", "e", "z", "é"]);
    let mut expected = words.clone();
    expected.sort_unstable();
    assert_eq!(sort_words(&words), expected);
}

#[test]
fn test_sort_words_beyond_the_basic_plane() {
    // The order is that of the code points: U+FF5E comes before U+10330.
    let words = vec!["𐌰", "～", "z"];
    assert_eq!(sort_words(&words), vec!["z", "～", "𐌰"]);
}

#[test]
fn test_join_words() {
    assert_eq!(join_words(&vec![], ", "), "");
    assert_eq!(join_words(&vec!["one"], ", "), "one");
    assert_eq!(join_words(&vec!["one", "two", "three"], ", "), "one, two, three");
    assert_eq!(join_words(&vec!["a", "", "b"], "-"), "a--b");
}

#[test]
fn test_write_spelling_message() {
    let words = vec!["tyypo", "this", "a", "is"];
    assert_eq!(
        write_spelling_message("misspelled words in source: ", &words),
        "misspelled words in source: a, is, this, tyypo"
    );
}

#[test]
fn test_check_spelling() {
    let dict = Some(word_list(&["ceci", "est"]));
    let found = check_spelling(&dict, "", "ceci est une fôte", "misspelled words in translation: ");
    assert_eq!(
        found,
        Some(("misspelled words in translation: fôte, une".to_string(), vec![(9, 12), (13, 18)]))
    );
    let found = check_spelling(&dict, "", "ceci est", "misspelled words in translation: ");
    assert_eq!(found, None);
    let none: Option<WordList> = None;
    let found = check_spelling(&none, "", "ceci est une fôte", "misspelled words in translation: ");
    assert_eq!(found, None);
}
