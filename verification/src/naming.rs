//! Naming through a chat model: the prompt, reading an identifier out of the
//! model's reply, and the decisions of the retry loop.

use vstd::prelude::*;
use vstd::string::StringExecFns;
use vstd::utf8::encode_utf8;
use crate::pattern::{
    find_all, is_match, is_pascal_letters, lemma_runs_count_breaks, lemma_runs_occur, lemma_runs_well_formed, runs,
    views, well_formed_run, WordShape, CAPITALIZED_RUN, CAPITALIZED_WORD, PASCAL_LETTERS,
    count_breaks, starts, continues,
};
use crate::text::{
    lemma_first_line_has_no_line_feed, lemma_occurs_in_part, lemma_trim_is_part, occurs_in, chars_of, count_upper, decimal, first_line, first_line_bounds, is_ascii_letter,
    push_decimal, string_of, trim, trim_str, Trim,
};

verus! {

/// The model that names things.
pub const MODEL: &'static str = "nomi-namer";

/// How many replies the search reads before it gives up.
pub const MAX_ATTEMPTS: u8 = 5;

pub open spec fn option_view(o: Option<String>) -> Option<Seq<char>> {
    match o {
        Some(s) => Some(s@),
        None => None,
    }
}

// ---------------------------------------------------------------------------
// The prompt
// ---------------------------------------------------------------------------

/// The items joined by the separator.
pub open spec fn join(items: Seq<Seq<char>>, sep: Seq<char>) -> Seq<char>
    decreases items.len(),
{
    if items.len() == 0 {
        seq![]
    } else if items.len() == 1 {
        items[0]
    } else {
        join(items.drop_last(), sep) + sep + items.last()
    }
}

/// `Phrase: {phrase}\nWords: {word_count}`, then, when there are previous
/// names, `\nAvoid (do not repeat): ` and the names separated by `, `.
pub open spec fn prompt_text(phrase: Seq<char>, word_count: nat, previous: Seq<Seq<char>>) -> Seq<char> {
    let head = "Phrase: "@ + phrase + "\nWords: "@ + decimal(word_count);
    if previous.len() == 0 {
        head
    } else {
        head + "\nAvoid (do not repeat): "@ + join(previous, ", "@)
    }
}

/// Appends `items` joined by `sep` to `s`.
pub fn push_joined(s: &mut String, items: &[String], sep: &str)
    ensures
        final(s)@ == old(s)@ + join(views(items@), sep@),
{
    let ghost items_v = views(items@);
    let mut i: usize = 0;
    while i < items.len()
        invariant
            i <= items.len(),
            items_v == views(items@),
            s@ == old(s)@ + join(items_v.take(i as int), sep@),
        decreases items.len() - i,
    {
        assert(items_v.take(i + 1).drop_last() == items_v.take(i as int));
        assert(items_v.take(i + 1).last() == items@[i as int]@);
        if i == 0 {
            s.append(items[i].as_str());
            assert(join(items_v.take(1), sep@) == items@[0]@);
        } else {
            s.append(sep);
            s.append(items[i].as_str());
        }
        i += 1;
    }
    assert(items_v.take(items.len() as int) == items_v);
}

/// The prompt that asks the model for a name of `word_count` words for
/// `phrase`, avoiding the `previous` names.
pub fn build_prompt(phrase: &str, word_count: u8, previous: &[String]) -> (s: String)
    ensures
        s@ == prompt_text(phrase@, word_count as nat, views(previous@)),
{
    let mut s = String::from_str("Phrase: ");
    s.append(phrase);
    s.append("\nWords: ");
    push_decimal(&mut s, word_count as u64);
    if previous.len() > 0 {
        s.append("\nAvoid (do not repeat): ");
        push_joined(&mut s, previous, ", ");
    }
    s
}

// ---------------------------------------------------------------------------
// Reading the reply
// ---------------------------------------------------------------------------

/// What `str::len` reports: the length in bytes of the UTF-8 encoding.
pub open spec fn byte_len(s: Seq<char>) -> usize {
    encode_utf8(s).len() as usize
}

/// The longest text, by bytes; of several equally long, the last
/// (`Iterator::max_by_key`).
pub open spec fn longest_last(texts: Seq<Seq<char>>) -> Option<Seq<char>>
    decreases texts.len(),
{
    if texts.len() == 0 {
        None
    } else {
        match longest_last(texts.drop_last()) {
            None => Some(texts.last()),
            Some(best) => if byte_len(texts.last()) >= byte_len(best) {
                Some(texts.last())
            } else {
                Some(best)
            },
        }
    }
}

/// The identifier in a reply: its first line, trimmed, stripped of whatever is
/// not alphanumeric at either end, when that is a whole PascalCase identifier;
/// else the longest capitalised run of letters in that line.
pub open spec fn candidate_of(raw: Seq<char>) -> Option<Seq<char>> {
    match first_line(trim(raw, Trim::WhiteSpace)) {
        None => None,
        Some(line) => {
            let line = trim(line, Trim::WhiteSpace);
            let cleaned = trim(line, Trim::NonAlphanumeric);
            if is_pascal_letters(cleaned) {
                Some(cleaned)
            } else {
                longest_last(runs(line, WordShape::CapitalizedRun))
            }
        },
    }
}

/// The longest of the texts, the last of equals (see `longest_last`).
pub fn pick_longest(texts: Vec<String>) -> (r: Option<String>)
    ensures
        option_view(r) == longest_last(views(texts@)),
{
    let ghost tv = views(texts@);
    let mut best: Option<usize> = None;
    let mut best_len: usize = 0;
    let mut i: usize = 0;
    while i < texts.len()
        invariant
            i <= texts.len(),
            tv == views(texts@),
            match best {
                None => i == 0 && longest_last(tv.take(0)) is None,
                Some(b) => b < i && longest_last(tv.take(i as int)) == Some(texts@[b as int]@)
                    && best_len == byte_len(texts@[b as int]@),
            },
        decreases texts.len() - i,
    {
        let len = texts[i].as_str().len();
        assert(tv.take(i + 1).drop_last() == tv.take(i as int));
        assert(tv.take(i + 1).last() == texts@[i as int]@);
        match best {
            None => {
                best = Some(i);
                best_len = len;
            },
            Some(_) => {
                if len >= best_len {
                    best = Some(i);
                    best_len = len;
                }
            },
        }
        i += 1;
    }
    assert(tv.take(texts.len() as int) == tv);
    match best {
        None => None,
        Some(b) => Some(texts[b].clone()),
    }
}

/// The identifier that a raw model reply holds, if any (see `candidate_of`).
pub fn extract_candidate(raw: &str) -> (c: Option<String>)
    ensures
        option_view(c) == candidate_of(raw@),
        // a candidate is a PascalCase identifier taken from the first line of the reply
        c matches Some(x) ==> (first_line(trim(raw@, Trim::WhiteSpace)) matches Some(line)
            && occurs_in(x@, line)),
        c matches Some(x) ==> is_pascal_letters(x@),
{
    proof {
        lemma_candidate_in_first_line(raw@);
        lemma_candidate_is_pascal(raw@);
    }
    let trimmed = trim_str(raw, Trim::WhiteSpace);
    let chars = chars_of(trimmed.as_str());
    let end = match first_line_bounds(&chars) {
        None => return None,
        Some(end) => end,
    };
    let line = string_of(&chars, 0, end);
    assert(line@ == chars@.take(end as int));
    let line = trim_str(line.as_str(), Trim::WhiteSpace);
    let cleaned = trim_str(line.as_str(), Trim::NonAlphanumeric);
    if is_match(PASCAL_LETTERS, cleaned.as_str()).unwrap() {
        return Some(cleaned);
    }
    let found = find_all(CAPITALIZED_RUN, line.as_str()).unwrap();
    pick_longest(found)
}

/// The number of capitalised words (`[A-Z][a-z]*`) in an identifier.
pub fn count_words(identifier: &str) -> (n: usize)
    ensures
        n == runs(identifier@, WordShape::Capitalized).len(),
{
    let words = find_all(CAPITALIZED_WORD, identifier).unwrap();
    words.len()
}

// ---------------------------------------------------------------------------
// The retry loop
// ---------------------------------------------------------------------------

/// A reply's candidate is taken when it has exactly the requested number of
/// words and is none of the previous names.
pub open spec fn accepts(candidate: Seq<char>, word_count: nat, previous: Seq<Seq<char>>) -> bool {
    &&& runs(candidate, WordShape::Capitalized).len() == word_count
    &&& !previous.contains(candidate)
}

/// The message of a search that gave up.
pub open spec fn failure_text(word_count: nat, last_raw: Seq<char>) -> Seq<char> {
    "model failed to produce a valid "@ + decimal(word_count)
        + "-word PascalCase name after "@ + decimal(MAX_ATTEMPTS as nat)
        + " attempts. last response: "@ + last_raw
}

/// The state of one search for a name.
pub struct NamingRun {
    pub word_count: u8,
    pub previous: Vec<String>,
    pub prompt: String,
    /// The replies read so far.
    pub attempts: u8,
    pub last_raw: String,
}

/// What the search asks for next.
pub enum NamingAction {
    /// Ask the model again with the prompt; `attempt` counts from 0.
    Ask { attempt: u8 },
    /// The search is over.
    Finish(Result<String, String>),
}

/// The outcome of starting a search: the error when the request is refused.
pub open spec fn start_error(phrase: Seq<char>, word_count: u8) -> Option<Seq<char>> {
    if !(2 <= word_count <= 5) {
        Some("word_count must be between 2 and 5"@)
    } else if trim(phrase, Trim::WhiteSpace).len() == 0 {
        Some("phrase is empty"@)
    } else {
        None
    }
}

impl NamingRun {
    /// Starts a search for a name of `word_count` words for `phrase`. The
    /// first request is `NamingAction::Ask { attempt: 0 }`.
    pub fn start(phrase: &str, word_count: u8, previous: &[String]) -> (r: Result<NamingRun, String>)
        ensures
            match (r, start_error(phrase@, word_count)) {
                (Err(e), Some(msg)) => e@ == msg,
                (Ok(run), None) => {
                    &&& run.word_count == word_count
                    &&& views(run.previous@) == views(previous@)
                    &&& run.prompt@ == prompt_text(trim(phrase@, Trim::WhiteSpace), word_count as nat, views(previous@))
                    &&& run.attempts == 0
                    &&& run.last_raw@ == Seq::<char>::empty()
                },
                _ => false,
            },
    {
        if !(2 <= word_count && word_count <= 5) {
            return Err(String::from_str("word_count must be between 2 and 5"));
        }
        let phrase = trim_str(phrase, Trim::WhiteSpace);
        if phrase.as_str().is_empty() {
            return Err(String::from_str("phrase is empty"));
        }
        let prompt = build_prompt(phrase.as_str(), word_count, previous);
        let kept = copy_strings(previous);
        Ok(NamingRun { word_count, previous: kept, prompt, attempts: 0, last_raw: String::new() })
    }

    /// Reads the outcome of one request to the model and decides: stop with
    /// the request's error, take the reply's candidate, ask again, or give up
    /// after `MAX_ATTEMPTS` replies.
    pub fn on_response(&mut self, response: Result<String, String>) -> (action: NamingAction)
        requires
            old(self).attempts < MAX_ATTEMPTS,
        ensures
            final(self).word_count == old(self).word_count,
            final(self).previous@ == old(self).previous@,
            final(self).prompt@ == old(self).prompt@,
            final(self).attempts == old(self).attempts + 1,
            ({
                let wc = old(self).word_count as nat;
                let prev = views(old(self).previous@);
                match response {
                    Err(e) => {
                        &&& action matches NamingAction::Finish(Err(x)) && x@ == e@
                        &&& final(self).last_raw@ == old(self).last_raw@
                    },
                    Ok(raw) => {
                        &&& final(self).last_raw@ == raw@
                        &&& match candidate_of(raw@) {
                            Some(c) if accepts(c, wc, prev) => action matches NamingAction::Finish(Ok(n)) && n@ == c,
                            _ => if old(self).attempts + 1 < MAX_ATTEMPTS {
                                action == NamingAction::Ask { attempt: (old(self).attempts + 1) as u8 }
                            } else {
                                action matches NamingAction::Finish(Err(e)) && e@ == failure_text(wc, raw@)
                            },
                        }
                    },
                }
            }),
            // what the search returns as a name is a name it accepts
            action matches NamingAction::Finish(Ok(n)) ==> accepts(n@, old(self).word_count as nat, views(old(self).previous@)),
            // it is a PascalCase identifier of exactly the requested number of
            // words (as many as its capitals), and none of the previous names
            action matches NamingAction::Finish(Ok(n)) ==> is_pascal_letters(n@)
                && runs(n@, WordShape::Capitalized).len() == old(self).word_count
                && count_upper(n@) == old(self).word_count
                && !views(old(self).previous@).contains(n@),
            // it never asks for more than `MAX_ATTEMPTS` replies
            action matches NamingAction::Ask { attempt } ==> attempt < MAX_ATTEMPTS && attempt == final(self).attempts,
    {
        self.attempts = self.attempts + 1;
        let raw = match response {
            Err(e) => return NamingAction::Finish(Err(e)),
            Ok(raw) => raw,
        };
        self.last_raw = raw.clone();
        if let Some(candidate) = extract_candidate(raw.as_str()) {
            proof {
                lemma_candidate_is_pascal(raw@);
                lemma_pascal_word_count(candidate@);
            }
            if count_words(candidate.as_str()) == self.word_count as usize
                && !contains(&self.previous, &candidate) {
                return NamingAction::Finish(Ok(candidate));
            }
        }
        if self.attempts < MAX_ATTEMPTS {
            NamingAction::Ask { attempt: self.attempts }
        } else {
            let mut msg = String::from_str("model failed to produce a valid ");
            push_decimal(&mut msg, self.word_count as u64);
            msg.append("-word PascalCase name after ");
            push_decimal(&mut msg, MAX_ATTEMPTS as u64);
            msg.append(" attempts. last response: ");
            msg.append(raw.as_str());
            NamingAction::Finish(Err(msg))
        }
    }
}

/// A copy of the strings.
pub fn copy_strings(items: &[String]) -> (v: Vec<String>)
    ensures
        views(v@) == views(items@),
{
    let mut v: Vec<String> = Vec::new();
    let mut i: usize = 0;
    while i < items.len()
        invariant
            i <= items.len(),
            v.len() == i,
            views(v@) == views(items@).take(i as int),
        decreases items.len() - i,
    {
        let ghost before = v@;
        v.push(items[i].clone());
        assert(v@ == before.push(items@[i as int]));
        assert(views(v@) =~= views(items@).take(i + 1)) by {
            assert forall|k: int| 0 <= k < i + 1 implies #[trigger] views(v@)[k] == views(items@).take(i + 1)[k] by {
                if k < i {
                    assert(v@[k] == before[k]);
                    assert(views(before)[k] == before[k]@);
                }
            }
        }
        i += 1;
    }
    assert(views(items@).take(items.len() as int) == views(items@));
    v
}

/// Whether `name` is one of `names`.
pub fn contains(names: &[String], name: &String) -> (b: bool)
    ensures
        b == views(names@).contains(name@),
{
    let mut i: usize = 0;
    while i < names.len()
        invariant
            i <= names.len(),
            forall|k: int| 0 <= k < i ==> names@[k]@ != name@,
        decreases names.len() - i,
    {
        if names[i] == *name {
            assert(views(names@)[i as int] == name@);
            return true;
        }
        i += 1;
    }
    assert forall|k: int| 0 <= k < views(names@).len() implies views(names@)[k] != name@ by {
        assert(views(names@)[k] == names@[k]@);
    }
    false
}

// ---------------------------------------------------------------------------
// Laws
// ---------------------------------------------------------------------------

proof fn lemma_longest_last_member(texts: Seq<Seq<char>>)
    ensures
        longest_last(texts) matches Some(t) ==> exists|k: int| 0 <= k < texts.len() && texts[k] == t,
        texts.len() > 0 ==> longest_last(texts) is Some,
    decreases texts.len(),
{
    if texts.len() > 0 {
        lemma_longest_last_member(texts.drop_last());
        let last = texts.len() - 1;
        assert(texts[last] == texts.last());
        match longest_last(texts.drop_last()) {
            None => {},
            Some(b) => {
                let k = choose|k: int| 0 <= k < texts.drop_last().len() && texts.drop_last()[k] == b;
                assert(texts[k] == b);
            },
        }
    }
}

/// `longest_last` picks one of the texts that is at least as long, in bytes,
/// as every other, and that is longer than every text after it.
pub proof fn lemma_longest_last_is_last_longest(texts: Seq<Seq<char>>)
    ensures
        texts.len() > 0 <==> longest_last(texts) is Some,
        longest_last(texts) matches Some(t) ==> exists|k: int| 0 <= k < texts.len() && texts[k] == t
            && (forall|j: int| 0 <= j < texts.len() ==> byte_len(#[trigger] texts[j]) <= byte_len(t))
            && (forall|j: int| k < j < texts.len() ==> byte_len(#[trigger] texts[j]) < byte_len(t)),
    decreases texts.len(),
{
    if texts.len() > 0 {
        let front = texts.drop_last();
        lemma_longest_last_is_last_longest(front);
        let last = texts.len() - 1;
        assert(texts[last] == texts.last());
        match longest_last(front) {
            None => {
                assert(front.len() == 0);
                assert forall|j: int| 0 <= j < texts.len() implies byte_len(#[trigger] texts[j]) <= byte_len(texts[last]) by {
                    assert(j == last);
                }
            },
            Some(b) => {
                let k = choose|k: int| 0 <= k < front.len() && front[k] == b
                    && (forall|j: int| 0 <= j < front.len() ==> byte_len(#[trigger] front[j]) <= byte_len(b))
                    && (forall|j: int| k < j < front.len() ==> byte_len(#[trigger] front[j]) < byte_len(b));
                assert forall|j: int| 0 <= j < front.len() implies #[trigger] texts[j] == front[j] by {}
                if byte_len(texts.last()) >= byte_len(b) {
                    assert forall|j: int| 0 <= j < texts.len() implies byte_len(#[trigger] texts[j]) <= byte_len(texts[last]) by {
                        if j < last {
                            assert(texts[j] == front[j]);
                        }
                    }
                } else {
                    assert(texts[k] == b);
                    assert forall|j: int| 0 <= j < texts.len() implies byte_len(#[trigger] texts[j]) <= byte_len(b) by {
                        if j < last {
                            assert(texts[j] == front[j]);
                        }
                    }
                    assert forall|j: int| k < j < texts.len() implies byte_len(#[trigger] texts[j]) < byte_len(b) by {
                        if j < last {
                            assert(texts[j] == front[j]);
                        }
                    }
                }
            },
        }
    }
}

/// Whatever identifier `extract_candidate` reads out of a reply is a whole
/// PascalCase identifier: a capital letter, then letters only.
pub proof fn lemma_candidate_is_pascal(raw: Seq<char>)
    ensures
        candidate_of(raw) matches Some(c) ==> is_pascal_letters(c),
{
    match first_line(trim(raw, Trim::WhiteSpace)) {
        None => {},
        Some(line) => {
            let line = trim(line, Trim::WhiteSpace);
            let cleaned = trim(line, Trim::NonAlphanumeric);
            if !is_pascal_letters(cleaned) {
                let found = runs(line, WordShape::CapitalizedRun);
                lemma_longest_last_member(found);
                lemma_runs_well_formed(line, WordShape::CapitalizedRun);
                if let Some(c) = longest_last(found) {
                    let k = choose|k: int| 0 <= k < found.len() && found[k] == c;
                    assert(well_formed_run(found[k], WordShape::CapitalizedRun));
                    assert forall|i: int| 0 <= i < c.len() implies is_ascii_letter(#[trigger] c[i]) by {
                        if i >= 1 {
                            assert(continues(WordShape::CapitalizedRun, c[i]));
                        }
                    }
                }
            }
        },
    }
}

/// The identifier read out of a reply comes from its first line: it stands
/// there as a contiguous part, so it holds nothing from after a line feed.
pub proof fn lemma_candidate_in_first_line(raw: Seq<char>)
    ensures
        candidate_of(raw) matches Some(c) ==> (first_line(trim(raw, Trim::WhiteSpace)) matches Some(line)
            && occurs_in(c, line)),
        candidate_of(raw) matches Some(c) ==> forall|k: int| 0 <= k < c.len() ==> c[k] != '\n',
{
    lemma_first_line_has_no_line_feed(trim(raw, Trim::WhiteSpace));
    match first_line(trim(raw, Trim::WhiteSpace)) {
        None => {},
        Some(first) => {
            let line = trim(first, Trim::WhiteSpace);
            let cleaned = trim(line, Trim::NonAlphanumeric);
            lemma_trim_is_part(first, Trim::WhiteSpace);
            lemma_trim_is_part(line, Trim::NonAlphanumeric);
            let i = choose|i: int| 0 <= i && i + line.len() <= first.len()
                && #[trigger] first.subrange(i, i + line.len()) == line;
            if let Some(c) = candidate_of(raw) {
                if is_pascal_letters(cleaned) {
                    assert(c == cleaned);
                    lemma_occurs_in_part(c, line, first, i, i + line.len());
                } else {
                    let found = runs(line, WordShape::CapitalizedRun);
                    lemma_longest_last_member(found);
                    lemma_runs_occur(line, WordShape::CapitalizedRun);
                    let k = choose|k: int| 0 <= k < found.len() && found[k] == c;
                    assert(occurs_in(found[k], line));
                    lemma_occurs_in_part(c, line, first, i, i + line.len());
                }
                let j = choose|j: int| 0 <= j && j + c.len() <= first.len()
                    && #[trigger] first.subrange(j, j + c.len()) == c;
                assert forall|k: int| 0 <= k < c.len() implies c[k] != '\n' by {
                    assert(c[k] == first[j + k]);
                }
            }
        },
    }
}

proof fn lemma_breaks_are_capitals(s: Seq<char>)
    requires
        forall|i: int| 0 <= i < s.len() ==> is_ascii_letter(#[trigger] s[i]),
    ensures
        count_breaks(s, WordShape::Capitalized) == count_upper(s),
    decreases s.len(),
{
    if s.len() > 0 {
        let p = s.drop_last();
        assert forall|i: int| 0 <= i < p.len() implies is_ascii_letter(#[trigger] p[i]) by {
            assert(p[i] == s[i]);
        }
        lemma_breaks_are_capitals(p);
        assert(is_ascii_letter(s[s.len() - 1]));
    }
}

/// In a PascalCase identifier (`^[A-Z][a-zA-Z]*$`) `count_words` counts the
/// capital letters.
pub proof fn lemma_pascal_word_count(s: Seq<char>)
    requires
        is_pascal_letters(s),
    ensures
        runs(s, WordShape::Capitalized).len() == count_upper(s),
{
    assert forall|i: int| 0 <= i < s.len() implies starts(WordShape::Capitalized, #[trigger] s[i])
        || continues(WordShape::Capitalized, s[i]) by {
        assert(is_ascii_letter(s[i]));
    }
    lemma_runs_count_breaks(s, WordShape::Capitalized);
    lemma_breaks_are_capitals(s);
}

/// White space around the phrase makes no difference: two phrases that trim
/// to the same text are refused alike, and when they are not, their searches
/// send the same prompt.
pub proof fn lemma_surrounding_space_irrelevant(p1: Seq<char>, p2: Seq<char>, word_count: u8, previous: Seq<Seq<char>>)
    requires
        trim(p1, Trim::WhiteSpace) == trim(p2, Trim::WhiteSpace),
    ensures
        start_error(p1, word_count) == start_error(p2, word_count),
        prompt_text(trim(p1, Trim::WhiteSpace), word_count as nat, previous)
            == prompt_text(trim(p2, Trim::WhiteSpace), word_count as nat, previous),
{
}

} // verus!
