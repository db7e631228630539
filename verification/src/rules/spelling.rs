//! Spelling rules: one for the source text of a message, one for its
//! translation. Each looks up every word of its text in its dictionary and
//! reports the words that the dictionary does not recognize.

use crate::checker::Checker;
use crate::diagnostic::{Report, Severity};
use crate::dict::{oracle, oracle_of, Dictionary, Oracle};
use crate::entry::Entry;
use crate::rules::rule::{is_kebab_case, reports_of, Finding, RuleChecker, RuleIdentity};
use crate::text::{
    bytes_left, lemma_precedes_irreflexive, lemma_precedes_total, lemma_precedes_transitive,
    precedes, str_eq, str_lt, substring, text_between,
};
use crate::words::{spans, words_of, WordPos};
use vstd::prelude::*;
use vstd::relations::*;
use vstd::seq_lib::*;
use vstd::string::*;
use vstd::utf8::*;

verus! {

/// The text of a word.
pub open spec fn word_text(bytes: Seq<u8>, word: (int, int)) -> Seq<char> {
    text_between(bytes, word.0, word.1)
}

/// The test that picks out the misspelled words: those whose text the
/// dictionary does not recognize.
pub open spec fn is_misspelled(known: Oracle, bytes: Seq<u8>) -> spec_fn((int, int)) -> bool {
    |word: (int, int)| !known(word_text(bytes, word))
}

/// The words among `words` that the dictionary does not recognize, each as
/// often as it occurs.
pub open spec fn misspelled_positions(
    known: Oracle,
    bytes: Seq<u8>,
    words: Seq<(int, int)>,
) -> Seq<(int, int)> {
    words.filter(is_misspelled(known, bytes))
}

/// The texts of the words among `words` that the dictionary does not
/// recognize, each once, in the order in which they first occur.
pub open spec fn misspelled_words(
    known: Oracle,
    bytes: Seq<u8>,
    words: Seq<(int, int)>,
) -> Seq<Seq<char>>
    decreases words.len(),
{
    if words.len() == 0 {
        Seq::empty()
    } else {
        let before = misspelled_words(known, bytes, words.drop_last());
        let text = word_text(bytes, words.last());
        if known(text) || before.contains(text) {
            before
        } else {
            before.push(text)
        }
    }
}

/// A list of strings as the texts they hold.
pub open spec fn texts(words: Seq<&str>) -> Seq<Seq<char>> {
    words.map_values(|word: &str| word@)
}

/// The misspelled words of one text: each word once, in the order in which
/// they first occur, and the position of every occurrence.
pub struct Misspelled<'a> {
    pub words: Vec<&'a str>,
    pub positions: Vec<(usize, usize)>,
}

impl<'a> Misspelled<'a> {
    /// No word is listed twice, and there are at least as many positions as
    /// words.
    pub open spec fn well_formed(&self) -> bool {
        &&& texts(self.words@).no_duplicates()
        &&& self.words@.len() <= self.positions@.len()
    }
}

/// Every text in the list of misspelled words is one that the dictionary
/// does not recognize, and no text is in the list twice.
pub proof fn lemma_misspelled_words_distinct(
    known: Oracle,
    bytes: Seq<u8>,
    words: Seq<(int, int)>,
)
    ensures
        misspelled_words(known, bytes, words).no_duplicates(),
        forall|i: int|
            0 <= i < misspelled_words(known, bytes, words).len() ==> !known(
                #[trigger] misspelled_words(known, bytes, words)[i],
            ),
    decreases words.len(),
{
    if words.len() > 0 {
        lemma_misspelled_words_distinct(known, bytes, words.drop_last());
    }
}

/// The list of misspelled words holds a text if and only if the dictionary
/// does not recognize it and one of the words has it.
pub proof fn lemma_misspelled_words_complete(
    known: Oracle,
    bytes: Seq<u8>,
    words: Seq<(int, int)>,
    text: Seq<char>,
)
    ensures
        misspelled_words(known, bytes, words).contains(text) <==> !known(text) && exists|i: int|
            0 <= i < words.len() && word_text(bytes, #[trigger] words[i]) == text,
    decreases words.len(),
{
    if words.len() > 0 {
        let front = words.drop_last();
        let before = misspelled_words(known, bytes, front);
        let all = misspelled_words(known, bytes, words);
        lemma_misspelled_words_complete(known, bytes, front, text);
        lemma_misspelled_words_distinct(known, bytes, words);
        let last = word_text(bytes, words.last());
        if all.contains(text) {
            if before.contains(text) {
                let i = choose|i: int|
                    0 <= i < front.len() && word_text(bytes, #[trigger] front[i]) == text;
                assert(words[i] == front[i]);
            } else {
                assert(all == before.push(last));
                let k = choose|k: int| 0 <= k < all.len() && all[k] == text;
                assert(k == before.len());
                assert(word_text(bytes, words[words.len() - 1]) == text);
            }
        }
        if !known(text) && exists|i: int|
            0 <= i < words.len() && word_text(bytes, #[trigger] words[i]) == text {
            let i = choose|i: int|
                0 <= i < words.len() && word_text(bytes, #[trigger] words[i]) == text;
            if i < front.len() {
                assert(front[i] == words[i]);
                assert(before.contains(text));
                let k = choose|k: int| 0 <= k < before.len() && before[k] == text;
                if all != before {
                    assert(all[k] == before[k]);
                }
            } else {
                if !before.contains(text) {
                    assert(all == before.push(text));
                    assert(all[before.len() as int] == text);
                }
            }
        }
    }
}

/// Every occurrence of a misspelled word has its position recorded, so there
/// are at least as many positions as there are misspelled words.
pub proof fn lemma_misspelled_positions_cover_words(
    known: Oracle,
    bytes: Seq<u8>,
    words: Seq<(int, int)>,
)
    ensures
        misspelled_words(known, bytes, words).len() <= misspelled_positions(
            known,
            bytes,
            words,
        ).len() <= words.len(),
        forall|i: int|
            0 <= i < words.len() && !known(word_text(bytes, #[trigger] words[i]))
                ==> misspelled_positions(known, bytes, words).contains(words[i]),
        forall|k: int|
            0 <= k < misspelled_positions(known, bytes, words).len() ==> {
                let word = #[trigger] misspelled_positions(known, bytes, words)[k];
                words.contains(word) && !known(word_text(bytes, word))
            },
    decreases words.len(),
{
    let test = is_misspelled(known, bytes);
    let positions = misspelled_positions(known, bytes, words);
    words.lemma_filter_len(test);
    assert forall|i: int|
        0 <= i < words.len() && !known(
            word_text(bytes, #[trigger] words[i]),
        ) implies positions.contains(words[i]) by {
        words.lemma_filter_contains(test, i);
    }
    assert forall|k: int| 0 <= k < positions.len() implies {
        let word = #[trigger] positions[k];
        words.contains(word) && !known(word_text(bytes, word))
    } by {
        words.lemma_filter_pred(test, k);
        words.lemma_filter_contains_rev(test, positions[k]);
    }
    if words.len() > 0 {
        let front = words.drop_last();
        lemma_misspelled_positions_cover_words(known, bytes, front);
        assert(front.push(words.last()) =~= words);
        front.lemma_filter_push(words.last(), test);
    } else {
        reveal(Seq::filter);
    }
}

fn contains_word(words: &Vec<&str>, word: &str) -> (found: bool)
    ensures
        found == texts(words@).contains(word@),
{
    let mut i: usize = 0;
    while i < words.len()
        invariant
            i <= words@.len(),
            forall|j: int| 0 <= j < i ==> texts(words@)[j] != word@,
        decreases words@.len() - i,
    {
        if str_eq(words[i], word) {
            assert(texts(words@)[i as int] == word@);
            return true;
        }
        i += 1;
    }
    false
}

/// Finds the misspelled words of `text`: tokenizes it as its format asks,
/// and looks up in `dict` every word that is not yet known to be misspelled.
pub fn find_misspelled<'a, D: Dictionary>(dict: &D, text: &'a str, format: &str) -> (found:
    Misspelled<'a>)
    ensures
        texts(found.words@) == misspelled_words(
            oracle(*dict),
            text.spec_bytes(),
            words_of(text.spec_bytes(), format@ == "c"@),
        ),
        spans(found.positions@) == misspelled_positions(
            oracle(*dict),
            text.spec_bytes(),
            words_of(text.spec_bytes(), format@ == "c"@),
        ),
        found.well_formed(),
{
    let ghost bytes = text.spec_bytes();
    let ghost skip = format@ == "c"@;
    let ghost known = oracle(*dict);
    let ghost all = words_of(bytes, skip);
    let ghost mut done: Seq<(int, int)> = Seq::empty();
    let mut tokens = WordPos::new(text, format);
    let mut words: Vec<&'a str> = Vec::new();
    let mut positions: Vec<(usize, usize)> = Vec::new();
    assert(all =~= done + tokens@.remaining());
    assert(texts(words@) =~= misspelled_words(known, bytes, done));
    assert(spans(positions@) =~= misspelled_positions(known, bytes, done)) by {
        reveal(Seq::filter);
    }
    loop
        invariant
            known == oracle(*dict),
            bytes == text.spec_bytes(),
            tokens@.bytes == bytes,
            tokens@.skip_c_format == skip,
            0 <= tokens@.pos <= bytes.len(),
            all == done + tokens@.remaining(),
            texts(words@) == misspelled_words(known, bytes, done),
            spans(positions@) == misspelled_positions(known, bytes, done),
        ensures
            texts(words@) == misspelled_words(known, bytes, all),
            spans(positions@) == misspelled_positions(known, bytes, all),
        decreases bytes_left(bytes, tokens@.pos),
    {
        let ghost before = tokens@;
        let ghost old_words = words@;
        let ghost old_positions = positions@;
        match tokens.next() {
            Some((start, end)) => {
                let word = substring(text, start, end);
                if contains_word(&words, word) {
                    positions.push((start, end));
                } else if !dict.check(word) {
                    words.push(word);
                    positions.push((start, end));
                }
                proof {
                    let span = (start as int, end as int);
                    lemma_misspelled_words_distinct(known, bytes, done);
                    done.lemma_filter_push(span, is_misspelled(known, bytes));
                    assert(before.remaining() =~= seq![span] + tokens@.remaining());
                    assert(done.push(span) + tokens@.remaining() =~= done + before.remaining());
                    assert(done.push(span).drop_last() =~= done);
                    assert(word@ == word_text(bytes, span));
                    if texts(old_words).contains(word@) {
                        assert(spans(positions@) =~= spans(old_positions).push(span));
                    } else if !dict.recognizes(word@) {
                        assert(texts(words@) =~= texts(old_words).push(word@));
                        assert(spans(positions@) =~= spans(old_positions).push(span));
                    }
                    done = done.push(span);
                }
            },
            None => {
                assert(done + before.remaining() =~= done);
                break ;
            },
        }
    }
    proof {
        lemma_misspelled_words_distinct(known, bytes, all);
        lemma_misspelled_positions_cover_words(known, bytes, all);
    }
    Misspelled { words, positions }
}

/// Where `word` goes into a sorted list: before the first text that comes
/// after it.
pub open spec fn insertion_point(sorted: Seq<Seq<char>>, word: Seq<char>) -> int
    decreases sorted.len(),
{
    if sorted.len() == 0 || precedes(word, sorted[0]) {
        0
    } else {
        1 + insertion_point(sorted.drop_first(), word)
    }
}

/// The texts in ascending order of their code points.
pub open spec fn sorted_words(words: Seq<Seq<char>>) -> Seq<Seq<char>>
    decreases words.len(),
{
    if words.len() == 0 {
        Seq::empty()
    } else {
        let before = sorted_words(words.drop_last());
        before.insert(insertion_point(before, words.last()), words.last())
    }
}

/// The texts in one, with `separator` between each two.
pub open spec fn joined(words: Seq<Seq<char>>, separator: Seq<char>) -> Seq<char>
    decreases words.len(),
{
    if words.len() == 0 {
        Seq::empty()
    } else if words.len() == 1 {
        words[0]
    } else {
        joined(words.drop_last(), separator) + separator + words.last()
    }
}

/// The message on misspelled words: `intro`, then the words in ascending
/// order, with a comma and a space between each two.
pub open spec fn spelling_message(intro: Seq<char>, words: Seq<Seq<char>>) -> Seq<char> {
    intro + joined(sorted_words(words), ", "@)
}

/// A list in which no text comes before one that stands earlier.
pub open spec fn ascending(words: Seq<Seq<char>>) -> bool {
    forall|i: int, j: int| 0 <= i < j < words.len() ==> !precedes(words[j], words[i])
}

/// A list in which every text comes before all that stand later.
pub open spec fn strictly_ascending(words: Seq<Seq<char>>) -> bool {
    forall|i: int, j: int| 0 <= i < j < words.len() ==> precedes(words[i], words[j])
}

/// The insertion point is the first place in the list whose text comes
/// after the word.
pub proof fn lemma_insertion_point(sorted: Seq<Seq<char>>, word: Seq<char>)
    ensures
        0 <= insertion_point(sorted, word) <= sorted.len(),
        forall|k: int| 0 <= k < insertion_point(sorted, word) ==> !precedes(word, sorted[k]),
        insertion_point(sorted, word) < sorted.len() ==> precedes(
            word,
            sorted[insertion_point(sorted, word)],
        ),
    decreases sorted.len(),
{
    if !(sorted.len() == 0 || precedes(word, sorted[0])) {
        let rest = sorted.drop_first();
        lemma_insertion_point(rest, word);
        assert forall|k: int| 0 <= k < insertion_point(sorted, word) implies !precedes(
            word,
            sorted[k],
        ) by {
            if k > 0 {
                assert(sorted[k] == rest[k - 1]);
            }
        }
    }
}

/// Sorting keeps every text, as often as it occurs, and puts the texts in
/// ascending order; texts that are all different come out in strictly
/// ascending order.
pub proof fn lemma_sorted_words(words: Seq<Seq<char>>)
    ensures
        sorted_words(words).to_multiset() == words.to_multiset(),
        sorted_words(words).len() == words.len(),
        ascending(sorted_words(words)),
        words.no_duplicates() ==> strictly_ascending(sorted_words(words)),
    decreases words.len(),
{
    broadcast use {to_multiset_build, to_multiset_insert, to_multiset_len};

    let sorted = sorted_words(words);
    if words.len() > 0 {
        let front = words.drop_last();
        let word = words.last();
        let before = sorted_words(front);
        let p = insertion_point(before, word);
        lemma_sorted_words(front);
        lemma_insertion_point(before, word);
        assert(front.push(word) =~= words);
        assert(sorted.to_multiset() == words.to_multiset());
        assert forall|i: int, j: int| 0 <= i < j < sorted.len() implies !precedes(
            sorted[j],
            sorted[i],
        ) by {
            if j == p {
            } else if i == p {
                lemma_precedes_total(word, before[p]);
                if j - 1 > p && precedes(before[j - 1], word) {
                    lemma_precedes_transitive(before[j - 1], word, before[p]);
                }
            } else {
            }
        }
    } else {
        assert(sorted =~= words);
    }
    if words.no_duplicates() {
        words.lemma_multiset_has_no_duplicates();
        sorted.lemma_multiset_has_no_duplicates_conv();
        assert forall|i: int, j: int| 0 <= i < j < sorted.len() implies precedes(
            sorted[i],
            sorted[j],
        ) by {
            lemma_precedes_total(sorted[i], sorted[j]);
        }
    }
}

/// The order of the texts as a relation: `a` stands at or before `b`.
pub open spec fn not_after() -> spec_fn(Seq<char>, Seq<char>) -> bool {
    |a: Seq<char>, b: Seq<char>| !precedes(b, a)
}

/// There is one way only to put texts in ascending order: every ascending
/// list of the same texts, each as often as it occurs, is the sorted list.
pub proof fn lemma_sorted_words_unique(words: Seq<Seq<char>>, other: Seq<Seq<char>>)
    requires
        other.to_multiset() == words.to_multiset(),
        ascending(other),
    ensures
        other == sorted_words(words),
{
    let order = not_after();
    assert(total_ordering(order)) by {
        assert forall|a: Seq<char>| #[trigger] order(a, a) by {
            lemma_precedes_irreflexive(a);
        }
        assert forall|a: Seq<char>, b: Seq<char>| #[trigger]
            order(a, b) && #[trigger] order(b, a) implies a == b by {
            lemma_precedes_total(a, b);
        }
        assert forall|a: Seq<char>, b: Seq<char>, c: Seq<char>| #[trigger]
            order(a, b) && #[trigger] order(b, c) implies order(a, c) by {
            lemma_precedes_total(a, b);
            if precedes(c, a) && precedes(a, b) {
                lemma_precedes_transitive(c, a, b);
            }
        }
        assert forall|a: Seq<char>, b: Seq<char>| #[trigger]
            order(a, b) || #[trigger] order(b, a) by {
            lemma_precedes_total(a, b);
        }
    }
    lemma_sorted_words(words);
    let sorted = sorted_words(words);
    assert(sorted_by(sorted, order));
    assert(sorted_by(other, order));
    lemma_sorted_unique(other, sorted, order);
}

fn find_insertion_point(sorted: &Vec<&str>, word: &str) -> (index: usize)
    ensures
        index == insertion_point(texts(sorted@), word@),
        index <= sorted@.len(),
{
    let ghost all = texts(sorted@);
    let mut i: usize = 0;
    assert(all.skip(0) =~= all);
    while i < sorted.len()
        invariant
            all == texts(sorted@),
            i <= sorted@.len(),
            insertion_point(all, word@) == i + insertion_point(all.skip(i as int), word@),
        decreases sorted@.len() - i,
    {
        assert(all.skip(i as int)[0] == sorted@[i as int]@);
        if str_lt(word, sorted[i]) {
            return i;
        }
        assert(all.skip(i as int).drop_first() =~= all.skip(i + 1));
        i += 1;
    }
    i
}

/// Sorts the words in ascending order of their code points.
pub fn sort_words<'a>(words: &Vec<&'a str>) -> (sorted: Vec<&'a str>)
    ensures
        texts(sorted@) == sorted_words(texts(words@)),
{
    let mut sorted: Vec<&'a str> = Vec::new();
    let mut i: usize = 0;
    assert(texts(words@).take(0) =~= Seq::<Seq<char>>::empty());
    assert(texts(sorted@) =~= Seq::<Seq<char>>::empty());
    while i < words.len()
        invariant
            i <= words@.len(),
            texts(sorted@) == sorted_words(texts(words@).take(i as int)),
        decreases words@.len() - i,
    {
        let ghost before = sorted@;
        let index = find_insertion_point(&sorted, words[i]);
        sorted.insert(index, words[i]);
        proof {
            let upto = texts(words@).take(i + 1);
            assert(upto.drop_last() =~= texts(words@).take(i as int));
            assert(upto.last() == words@[i as int]@);
            assert(texts(sorted@) =~= texts(before).insert(index as int, words@[i as int]@));
        }
        i += 1;
    }
    assert(texts(words@).take(i as int) =~= texts(words@));
    sorted
}

/// Joins the words into one string, with `separator` between each two.
pub fn join_words(words: &Vec<&str>, separator: &str) -> (text: String)
    ensures
        text@ == joined(texts(words@), separator@),
{
    let mut text = String::new();
    let mut i: usize = 0;
    assert(texts(words@).take(0) =~= Seq::<Seq<char>>::empty());
    while i < words.len()
        invariant
            i <= words@.len(),
            text@ == joined(texts(words@).take(i as int), separator@),
        decreases words@.len() - i,
    {
        let ghost before = text@;
        if i > 0 {
            text.append(separator);
        }
        text.append(words[i]);
        proof {
            let upto = texts(words@).take(i + 1);
            assert(upto.drop_last() =~= texts(words@).take(i as int));
            assert(upto.last() == words@[i as int]@);
            if i == 0 {
                assert(text@ =~= words@[0]@);
                assert(upto[0] == words@[0]@);
            }
        }
        i += 1;
    }
    assert(texts(words@).take(i as int) =~= texts(words@));
    text
}

/// Writes the message on misspelled words.
pub fn write_spelling_message(intro: &str, words: &Vec<&str>) -> (message: String)
    ensures
        message@ == spelling_message(intro@, texts(words@)),
{
    let sorted = sort_words(words);
    let list = join_words(&sorted, ", ");
    let mut message = intro.to_owned();
    message.append(list.as_str());
    message
}

/// What a spelling rule finds in `text`: nothing without a dictionary, and
/// nothing where the dictionary recognizes every word; else the message
/// that lists the misspelled words, and the position of each of their
/// occurrences.
pub open spec fn spelling_finding(
    dict: Option<Oracle>,
    format: Seq<char>,
    text: Seq<char>,
    intro: Seq<char>,
) -> Option<(Seq<char>, Seq<(int, int)>)> {
    match dict {
        None => None,
        Some(known) => {
            let bytes = encode_utf8(text);
            let words = words_of(bytes, format == "c"@);
            let misspelled = misspelled_words(known, bytes, words);
            if misspelled.len() == 0 {
                None
            } else {
                Some(
                    (
                        spelling_message(intro, misspelled),
                        misspelled_positions(known, bytes, words),
                    ),
                )
            }
        },
    }
}

/// The two spelling rules have names of their own, in lower case with
/// hyphens, run only when asked for, and report at the lowest severity.
pub proof fn lemma_spelling_rules_identity()
    ensures
        is_kebab_case((SpellingIdRule {  }).identity().name),
        is_kebab_case((SpellingStrRule {  }).identity().name),
        (SpellingIdRule {  }).identity().name != (SpellingStrRule {  }).identity().name,
        !(SpellingIdRule {  }).identity().is_default,
        !(SpellingStrRule {  }).identity().is_default,
        (SpellingIdRule {  }).identity().severity == Severity::Info,
        (SpellingStrRule {  }).identity().severity == Severity::Info,
        forall|severity: Severity| Severity::Info.rank() <= #[trigger] severity.rank(),
{
    reveal_strlit("spelling-id");
    reveal_strlit("spelling-str");
    assert("spelling-id"@.len() != "spelling-str"@.len());
}

/// Without a dictionary a spelling rule finds nothing, whatever the texts
/// hold.
pub proof fn lemma_no_dictionary_no_finding(
    other: Option<Oracle>,
    format: Seq<char>,
    msgid: Seq<char>,
    msgstr: Seq<char>,
)
    ensures
        (SpellingIdRule {  }).findings(None, other, format, msgid, msgstr) == Seq::<
            Finding,
        >::empty(),
        (SpellingStrRule {  }).findings(other, None, format, msgid, msgstr) == Seq::<
            Finding,
        >::empty(),
{
}

/// Each spelling rule goes by its own text and its own dictionary alone:
/// what one of them finds does not depend on the text or the dictionary of
/// the other.
pub proof fn lemma_spelling_rules_independent(
    dict_id: Option<Oracle>,
    dict_str: Option<Oracle>,
    format: Seq<char>,
    msgid: Seq<char>,
    msgstr: Seq<char>,
    other_dict: Option<Oracle>,
    other_text: Seq<char>,
)
    ensures
        (SpellingIdRule {  }).findings(dict_id, dict_str, format, msgid, msgstr) == (
        SpellingIdRule {  }).findings(dict_id, other_dict, format, msgid, other_text),
        (SpellingStrRule {  }).findings(dict_id, dict_str, format, msgid, msgstr) == (
        SpellingStrRule {  }).findings(other_dict, dict_str, format, other_text, msgstr),
{
}

/// With a dictionary a spelling rule finds nothing if and only if the
/// dictionary recognizes every word of the text. What it finds otherwise is
/// a message that lists, in strictly ascending order and so each once, the
/// texts of the words that the dictionary does not recognize, and the
/// position of every occurrence of such a word, in the order of the text.
pub proof fn lemma_spelling_finding(
    known: Oracle,
    format: Seq<char>,
    text: Seq<char>,
    intro: Seq<char>,
)
    ensures
        ({
            let bytes = encode_utf8(text);
            let words = words_of(bytes, format == "c"@);
            let listed = sorted_words(misspelled_words(known, bytes, words));
            match spelling_finding(Some(known), format, text, intro) {
                Some((message, positions)) => {
                    &&& message == intro + joined(listed, ", "@)
                    &&& strictly_ascending(listed)
                    &&& forall|word: Seq<char>|
                        listed.contains(word) <==> !known(word) && exists|i: int|
                            0 <= i < words.len() && word_text(bytes, #[trigger] words[i]) == word
                    &&& positions == words.filter(is_misspelled(known, bytes))
                    &&& 0 < listed.len() <= positions.len()
                },
                None => forall|i: int|
                    0 <= i < words.len() ==> known(word_text(bytes, #[trigger] words[i])),
            }
        }),
{
    let bytes = encode_utf8(text);
    let words = words_of(bytes, format == "c"@);
    let misspelled = misspelled_words(known, bytes, words);
    let listed = sorted_words(misspelled);
    lemma_misspelled_words_distinct(known, bytes, words);
    lemma_misspelled_positions_cover_words(known, bytes, words);
    lemma_sorted_words(misspelled);
    assert forall|word: Seq<char>|
        listed.contains(word) <==> !known(word) && exists|i: int|
            0 <= i < words.len() && word_text(bytes, #[trigger] words[i]) == word by {
        lemma_misspelled_words_complete(known, bytes, words, word);
        to_multiset_contains(listed, word);
        to_multiset_contains(misspelled, word);
    }
    if misspelled.len() == 0 {
        assert forall|i: int| 0 <= i < words.len() implies known(
            word_text(bytes, #[trigger] words[i]),
        ) by {
            lemma_misspelled_words_complete(known, bytes, words, word_text(bytes, words[i]));
            if !known(word_text(bytes, words[i])) {
                assert(misspelled.contains(word_text(bytes, words[i])));
            }
        }
    }
}

/// Checks the spelling of `text` against `dict`, if there is one.
pub fn check_spelling<D: Dictionary>(dict: &Option<D>, format: &str, text: &str, intro: &str) -> (found:
    Option<(String, Vec<(usize, usize)>)>)
    ensures
        match spelling_finding(oracle_of(*dict), format@, text@, intro@) {
            Some((message, positions)) => found matches Some((m, p)) && m@ == message && spans(p@)
                == positions,
            None => found is None,
        },
{
    match dict {
        Some(dict) => {
            let found = find_misspelled(dict, text, format);
            if found.words.len() > 0 {
                Some((write_spelling_message(intro, &found.words), found.positions))
            } else {
                None
            }
        },
        None => None,
    }
}

/// Checks the spelling of the source text, against the checker's
/// dictionary for source texts.
pub struct SpellingIdRule {}

impl RuleChecker for SpellingIdRule {
    open spec fn identity(&self) -> RuleIdentity {
        RuleIdentity { name: "spelling-id"@, is_default: false, severity: Severity::Info }
    }

    open spec fn findings(
        &self,
        dict_id: Option<Oracle>,
        dict_str: Option<Oracle>,
        format: Seq<char>,
        msgid: Seq<char>,
        msgstr: Seq<char>,
    ) -> Seq<Finding> {
        match spelling_finding(dict_id, format, msgid, "misspelled words in source: "@) {
            Some((message, positions)) => seq![
                Finding { message, msgid_positions: positions, msgstr_positions: Seq::empty() },
            ],
            None => Seq::empty(),
        }
    }

    fn name(&self) -> (name: &'static str) {
        "spelling-id"
    }

    fn is_default(&self) -> (yes: bool) {
        false
    }

    fn severity(&self) -> (severity: Severity) {
        Severity::Info
    }

    fn check_msg<'a, D: Dictionary>(
        &self,
        checker: &mut Checker<'a, D>,
        entry: &'a Entry,
        msgid: &str,
        msgstr: &str,
    ) {
        let found = check_spelling(
            &checker.dict_id,
            entry.format.as_str(),
            msgid,
            "misspelled words in source: ",
        );
        match found {
            Some((message, positions)) => {
                let nowhere: Vec<(usize, usize)> = Vec::new();
                assert(spans(nowhere@) =~= Seq::<(int, int)>::empty());
                checker.report_msg(entry, message, msgid, positions, msgstr, nowhere);
                assert(final(checker).reports() =~= old(checker).reports() + reports_of(
                    self.findings(
                        oracle_of(old(checker).dict_id),
                        oracle_of(old(checker).dict_str),
                        entry.format@,
                        msgid@,
                        msgstr@,
                    ),
                    old(checker).severity,
                    *entry,
                    msgid@,
                    msgstr@,
                ));
            },
            None => {
                assert(final(checker).reports() =~= old(checker).reports() + Seq::<
                    Report,
                >::empty());
            },
        }
    }
}

/// Checks the spelling of the translation, against the checker's
/// dictionary for translations.
pub struct SpellingStrRule {}

impl RuleChecker for SpellingStrRule {
    open spec fn identity(&self) -> RuleIdentity {
        RuleIdentity { name: "spelling-str"@, is_default: false, severity: Severity::Info }
    }

    open spec fn findings(
        &self,
        dict_id: Option<Oracle>,
        dict_str: Option<Oracle>,
        format: Seq<char>,
        msgid: Seq<char>,
        msgstr: Seq<char>,
    ) -> Seq<Finding> {
        match spelling_finding(dict_str, format, msgstr, "misspelled words in translation: "@) {
            Some((message, positions)) => seq![
                Finding { message, msgid_positions: Seq::empty(), msgstr_positions: positions },
            ],
            None => Seq::empty(),
        }
    }

    fn name(&self) -> (name: &'static str) {
        "spelling-str"
    }

    fn is_default(&self) -> (yes: bool) {
        false
    }

    fn severity(&self) -> (severity: Severity) {
        Severity::Info
    }

    fn check_msg<'a, D: Dictionary>(
        &self,
        checker: &mut Checker<'a, D>,
        entry: &'a Entry,
        msgid: &str,
        msgstr: &str,
    ) {
        let found = check_spelling(
            &checker.dict_str,
            entry.format.as_str(),
            msgstr,
            "misspelled words in translation: ",
        );
        match found {
            Some((message, positions)) => {
                let nowhere: Vec<(usize, usize)> = Vec::new();
                assert(spans(nowhere@) =~= Seq::<(int, int)>::empty());
                checker.report_msg(entry, message, msgid, nowhere, msgstr, positions);
                assert(final(checker).reports() =~= old(checker).reports() + reports_of(
                    self.findings(
                        oracle_of(old(checker).dict_id),
                        oracle_of(old(checker).dict_str),
                        entry.format@,
                        msgid@,
                        msgstr@,
                    ),
                    old(checker).severity,
                    *entry,
                    msgid@,
                    msgstr@,
                ));
            },
            None => {
                assert(final(checker).reports() =~= old(checker).reports() + Seq::<
                    Report,
                >::empty());
            },
        }
    }
}

} // verus!
