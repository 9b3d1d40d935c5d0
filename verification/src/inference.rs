//! Naming through the on-device translation model: the words of a name,
//! when a generated name is valid, PascalCase conversion, and the retry
//! loop around the model.

use vstd::prelude::*;
use vstd::string::StringExecFns;
use vstd::utf8::{encode_utf8, is_ascii_chars, is_ascii_chars_encode_utf8};
use crate::naming::{contains, copy_strings};
use crate::pattern::{
    continues, count_breaks, find_all, is_match, is_pascal_alnum, lemma_runs_count_breaks,
    lemma_runs_keep_char_property, lemma_runs_space_join, lemma_runs_well_formed, runs, runs_state, starts, views,
    well_formed_run, WordShape, ALNUM_WORD, PASCAL_ALNUM,
};
use crate::text::{
    ascii_upper, count_upper, is_ascii_char, is_ascii_digit, is_ascii_letter, is_ascii_lower,
    char_is_whitespace, char_to_uppercase, chars_of, decimal, is_white_space, push_char,
    push_decimal, trim, trim_str, uppercase_of, Trim,
};

verus! {

/// How many names the model is asked for before the search gives up.
pub const MAX_ATTEMPTS: usize = 5;

// ---------------------------------------------------------------------------
// Words of a name
// ---------------------------------------------------------------------------

/// The words of `text`: each a letter followed by lower-case letters and
/// digits (`[A-Za-z][a-z0-9]*`), in order.
pub fn words(text: &str) -> (w: Vec<String>)
    ensures
        views(w@) == runs(text@, WordShape::AlnumWord),
{
    find_all(ALNUM_WORD, text).unwrap()
}

/// The number of words in `text`.
pub fn count_words(text: &str) -> (n: usize)
    ensures
        n == runs(text@, WordShape::AlnumWord).len(),
{
    words(text).len()
}

/// The number of distinct words in `text`.
pub fn unique_word_count(text: &str) -> (n: usize)
    ensures
        n == runs(text@, WordShape::AlnumWord).to_set().len(),
{
    let all = words(text);
    let ghost wv = views(all@);
    let mut distinct: Vec<String> = Vec::new();
    let mut i: usize = 0;
    while i < all.len()
        invariant
            i <= all.len(),
            wv == views(all@),
            views(distinct@).no_duplicates(),
            views(distinct@).to_set() == wv.take(i as int).to_set(),
        decreases all.len() - i,
    {
        let ghost before = views(distinct@);
        assert(wv.take(i + 1) == wv.take(i as int).push(all@[i as int]@));
        assert(wv.take(i + 1).to_set() == wv.take(i as int).to_set().insert(all@[i as int]@)) by {
            broadcast use vstd::seq_lib::group_seq_properties;
        }
        if !contains(&distinct, &all[i]) {
            let ghost d0 = distinct@;
            distinct.push(all[i].clone());
            assert(views(distinct@) == before.push(all@[i as int]@)) by {
                assert(views(distinct@) =~= before.push(all@[i as int]@)) by {
                    assert forall|k: int| 0 <= k < distinct.len() implies #[trigger] views(distinct@)[k] == before.push(all@[i as int]@)[k] by {
                        if k < d0.len() {
                            assert(distinct@[k] == d0[k]);
                        }
                    }
                }
            }
            assert(views(distinct@).to_set() == before.to_set().insert(all@[i as int]@)) by {
                broadcast use vstd::seq_lib::group_seq_properties;
            }
        } else {
            assert(before.to_set().contains(all@[i as int]@)) by {
                broadcast use vstd::seq_lib::group_seq_properties;
            }
            assert(before.to_set().insert(all@[i as int]@) == before.to_set());
        }
        i += 1;
    }
    assert(wv.take(all.len() as int) == wv);
    proof {
        views(distinct@).unique_seq_to_set();
    }
    distinct.len()
}

/// A valid name: one PascalCase identifier (`^([A-Z][a-z0-9]*)+$`) of
/// exactly `word_count` words, no word repeated.
pub open spec fn valid_name(name: Seq<char>, word_count: nat) -> bool {
    &&& is_pascal_alnum(name)
    &&& runs(name, WordShape::AlnumWord).len() == word_count
    &&& runs(name, WordShape::AlnumWord).to_set().len() == word_count
}

/// Whether `name` is a valid name of `wc` words (see `valid_name`).
pub fn is_valid(name: &str, wc: usize) -> (b: bool)
    ensures
        b == valid_name(name@, wc as nat),
        // valid: one PascalCase identifier with exactly `wc` words, all distinct
        b == (is_pascal_alnum(name@) && runs(name@, WordShape::AlnumWord).len() == wc
            && runs(name@, WordShape::AlnumWord).to_set().len() == wc),
        // a valid name has as many capital letters as words were asked for
        b ==> count_upper(name@) == wc,
{
    if !is_match(PASCAL_ALNUM, name).unwrap() {
        return false;
    }
    proof {
        lemma_pascal_alnum_word_count(name@);
    }
    let total = count_words(name);
    total == wc && unique_word_count(name) == wc
}

// ---------------------------------------------------------------------------
// PascalCase
// ---------------------------------------------------------------------------

/// A word with its first character upper-cased (`char::to_uppercase`).
pub open spec fn capitalize(w: Seq<char>) -> Seq<char> {
    if w.len() == 0 {
        seq![]
    } else {
        uppercase_of(w[0]) + w.drop_first()
    }
}

/// The words, each capitalised, written one after the other.
pub open spec fn concat_capitalized(ws: Seq<Seq<char>>) -> Seq<char>
    decreases ws.len(),
{
    if ws.len() == 0 {
        seq![]
    } else {
        concat_capitalized(ws.drop_last()) + capitalize(ws.last())
    }
}

/// The white-space separated words of `text`, each capitalised, joined with
/// nothing between them.
pub open spec fn pascal_case(text: Seq<char>) -> Seq<char> {
    concat_capitalized(runs(text, WordShape::NonSpace))
}

/// «product card» / «Product card» / «product Card» → «ProductCard»
pub fn to_pascal_case(text: &str) -> (out: String)
    ensures
        out@ == pascal_case(text@),
{
    let v = chars_of(text);
    let mut out = String::new();
    let mut in_word = false;
    let mut i: usize = 0;
    while i < v.len()
        invariant
            i <= v.len(),
            ({
                let (done, cur) = runs_state(v@.take(i as int), WordShape::NonSpace);
                &&& out@ == concat_capitalized(done) + capitalize(cur)
                &&& in_word == (cur.len() > 0)
            }),
        decreases v.len() - i,
    {
        let c = v[i];
        let ghost (done, cur) = runs_state(v@.take(i as int), WordShape::NonSpace);
        assert(v@.take(i + 1).drop_last() == v@.take(i as int));
        assert(v@.take(i + 1).last() == c);
        if char_is_whitespace(c) {
            if in_word {
                assert(runs_state(v@.take(i + 1), WordShape::NonSpace) == (done.push(cur), Seq::<char>::empty()));
                assert(done.push(cur).drop_last() == done);
            } else {
                assert(runs_state(v@.take(i + 1), WordShape::NonSpace) == (done, Seq::<char>::empty()));
            }
            in_word = false;
        } else if in_word {
            push_char(&mut out, c);
            assert(runs_state(v@.take(i + 1), WordShape::NonSpace) == (done, cur.push(c)));
            assert(cur.push(c).drop_first() == cur.drop_first().push(c));
        } else {
            let up = char_to_uppercase(c);
            out.append(up.as_str());
            assert(runs_state(v@.take(i + 1), WordShape::NonSpace) == (done, seq![c]));
            assert(seq![c].drop_first() == Seq::<char>::empty());
            in_word = true;
        }
        i += 1;
    }
    assert(v@.take(v.len() as int) == v@);
    proof {
        let (done, cur) = runs_state(v@, WordShape::NonSpace);
        if cur.len() >= 1 {
            assert(done.push(cur).drop_last() == done);
        }
    }
    out
}

// ---------------------------------------------------------------------------
// The retry loop
// ---------------------------------------------------------------------------

/// The error for a request that is refused before the model runs.
pub open spec fn request_error(phrase: Seq<char>, word_count: u8) -> Option<Seq<char>> {
    if !(2 <= word_count <= 4) {
        Some("word_count must be between 2 and 4"@)
    } else if trim(phrase, Trim::WhiteSpace).len() == 0 {
        Some("phrase is empty"@)
    } else {
        None
    }
}

/// A generated name is taken at once when it is valid and none of the previous names.
pub open spec fn accepts(name: Seq<char>, word_count: nat, previous: Seq<Seq<char>>) -> bool {
    valid_name(name, word_count) && !previous.contains(name)
}

/// The message of a search that gave up.
pub open spec fn failure_text(word_count: nat, last: Seq<char>) -> Seq<char> {
    "failed to produce valid "@ + decimal(word_count) + "-word name after "@
        + decimal(MAX_ATTEMPTS as nat) + " attempts; last: "@ + last
}

/// The state of one search for a name on the device.
pub struct NameSearch {
    /// The phrase, trimmed: what every generation is asked for.
    pub phrase: String,
    pub word_count: u8,
    pub previous: Vec<String>,
    /// The answers of the model read so far.
    pub attempts: usize,
    /// The last name the model gave.
    pub last: String,
}

/// What the search asks for next.
pub enum SearchStep {
    /// Run the model once with the trimmed phrase, the word count, this
    /// attempt (from 0) and the previous names, and hand its answer to
    /// `NameSearch::on_answer`.
    Generate { attempt: usize },
    /// The search is over.
    Finish(Result<String, String>),
}

/// Starts a search for a name of `word_count` words for `phrase` that
/// avoids the `previous` names, or refuses the request. A search that is
/// started asks for its first generation, attempt 0, at once.
pub fn generate_name(phrase: &str, word_count: u8, previous: &[String]) -> (r: Result<NameSearch, String>)
    ensures
        match (r, request_error(phrase@, word_count)) {
            (Err(e), Some(msg)) => e@ == msg,
            (Ok(search), None) => {
                &&& search.phrase@ == trim(phrase@, Trim::WhiteSpace)
                &&& search.word_count == word_count
                &&& views(search.previous@) == views(previous@)
                &&& search.attempts == 0
                &&& search.last@ == Seq::<char>::empty()
            },
            _ => false,
        },
{
    if !(2 <= word_count && word_count <= 4) {
        return Err(String::from_str("word_count must be between 2 and 4"));
    }
    let trimmed = trim_str(phrase, Trim::WhiteSpace);
    if trimmed.as_str().is_empty() {
        return Err(String::from_str("phrase is empty"));
    }
    let kept = copy_strings(previous);
    Ok(NameSearch { phrase: trimmed, word_count, previous: kept, attempts: 0, last: String::new() })
}

impl NameSearch {
    /// Reads the model's answer to the last generation and decides: stop with
    /// the model's error, take the name, generate again, or, after
    /// `MAX_ATTEMPTS` answers, return the last name if it is at least valid.
    pub fn on_answer(&mut self, answer: Result<String, String>) -> (step: SearchStep)
        requires
            old(self).attempts < MAX_ATTEMPTS,
        ensures
            final(self).phrase@ == old(self).phrase@,
            final(self).word_count == old(self).word_count,
            final(self).previous@ == old(self).previous@,
            final(self).attempts == old(self).attempts + 1,
            ({
                let wc = old(self).word_count as nat;
                let prev = views(old(self).previous@);
                match answer {
                    Err(e) => {
                        &&& step matches SearchStep::Finish(Err(x)) && x@ == e@
                        &&& final(self).last@ == old(self).last@
                    },
                    Ok(n) => {
                        &&& final(self).last@ == n@
                        &&& if accepts(n@, wc, prev) {
                            step matches SearchStep::Finish(Ok(x)) && x@ == n@
                        } else if old(self).attempts + 1 < MAX_ATTEMPTS {
                            step == SearchStep::Generate { attempt: (old(self).attempts + 1) as usize }
                        } else if valid_name(n@, wc) {
                            step matches SearchStep::Finish(Ok(x)) && x@ == n@
                        } else {
                            step matches SearchStep::Finish(Err(x)) && x@ == failure_text(wc, n@)
                        }
                    },
                }
            }),
            // a name the search returns is always valid
            step matches SearchStep::Finish(Ok(n)) ==> valid_name(n@, old(self).word_count as nat),
            // it is one PascalCase identifier of exactly the requested number of distinct words
            step matches SearchStep::Finish(Ok(n)) ==> is_pascal_alnum(n@)
                && runs(n@, WordShape::AlnumWord).len() == old(self).word_count
                && runs(n@, WordShape::AlnumWord).to_set().len() == old(self).word_count
                && count_upper(n@) == old(self).word_count,
            // before the last attempt, it is none of the previous names
            old(self).attempts + 1 < MAX_ATTEMPTS ==> (step matches SearchStep::Finish(Ok(n))
                ==> !views(old(self).previous@).contains(n@)),
            // it never asks for more than `MAX_ATTEMPTS` generations
            step matches SearchStep::Generate { attempt } ==> attempt == final(self).attempts && attempt < MAX_ATTEMPTS,
    {
        self.attempts = self.attempts + 1;
        let name = match answer {
            Err(e) => return SearchStep::Finish(Err(e)),
            Ok(name) => name,
        };
        self.last = name.clone();
        if is_valid(name.as_str(), self.word_count as usize) && !contains(&self.previous, &name) {
            return SearchStep::Finish(Ok(name));
        }
        if self.attempts < MAX_ATTEMPTS {
            return SearchStep::Generate { attempt: self.attempts };
        }
        if is_valid(name.as_str(), self.word_count as usize) {
            SearchStep::Finish(Ok(name))
        } else {
            let mut msg = String::from_str("failed to produce valid ");
            push_decimal(&mut msg, self.word_count as u64);
            msg.append("-word name after ");
            push_decimal(&mut msg, MAX_ATTEMPTS as u64);
            msg.append(" attempts; last: ");
            msg.append(name.as_str());
            SearchStep::Finish(Err(msg))
        }
    }
}

/// White space around the phrase makes no difference: two phrases that trim
/// to the same text are refused alike, and when they are not refused,
/// `generate_name` gives both searches that same trimmed text as their phrase.
pub proof fn lemma_surrounding_space_irrelevant(p1: Seq<char>, p2: Seq<char>, word_count: u8)
    requires
        trim(p1, Trim::WhiteSpace) == trim(p2, Trim::WhiteSpace),
    ensures
        request_error(p1, word_count) == request_error(p2, word_count),
        request_error(p1, word_count) is None ==> trim(p1, Trim::WhiteSpace).len() > 0,
{
}

// ---------------------------------------------------------------------------
// Decoding constraints
// ---------------------------------------------------------------------------

/// The encoder input: the word-count token, the phrase's tokens, the
/// end-of-sequence token.
pub fn source_ids(wc_id: u32, encoded: &[u32], eos_id: u32) -> (ids: Vec<u32>)
    ensures
        ids@ == seq![wc_id] + encoded@ + seq![eos_id],
{
    let mut ids: Vec<u32> = Vec::new();
    ids.push(wc_id);
    let mut i: usize = 0;
    while i < encoded.len()
        invariant
            i <= encoded.len(),
            ids@ == seq![wc_id] + encoded@.take(i as int),
        decreases encoded.len() - i,
    {
        ids.push(encoded[i]);
        assert(encoded@.take(i + 1) == encoded@.take(i as int).push(encoded@[i as int]));
        i += 1;
    }
    assert(encoded@.take(encoded.len() as int) == encoded@);
    ids.push(eos_id);
    ids
}

/// The tokens that a decoding step must not produce, in the order they are
/// suppressed: padding always; the end of the sequence while the name has
/// fewer words than asked for; every word already used; and, at the first
/// step, the first words of the previous names.
pub open spec fn suppressed(
    pad_id: u32,
    eos_id: u32,
    n_words: usize,
    word_count: u32,
    used_words: Seq<u32>,
    first_step: bool,
    blocked_first_words: Seq<u32>,
) -> Seq<u32> {
    seq![pad_id] + (if n_words < word_count {
        seq![eos_id]
    } else {
        seq![]
    }) + used_words + (if first_step {
        blocked_first_words
    } else {
        seq![]
    })
}

/// The tokens of `ids` that lie inside a vocabulary of `vocab_len` entries, as indices.
pub open spec fn in_vocab(ids: Seq<u32>, vocab_len: usize) -> Seq<usize>
    decreases ids.len(),
{
    if ids.len() == 0 {
        seq![]
    } else if (ids.last() as int) < vocab_len {
        in_vocab(ids.drop_last(), vocab_len).push(ids.last() as usize)
    } else {
        in_vocab(ids.drop_last(), vocab_len)
    }
}

fn push_in_vocab(out: &mut Vec<usize>, ids: &[u32], vocab_len: usize)
    ensures
        final(out)@ == old(out)@ + in_vocab(ids@, vocab_len),
{
    let mut i: usize = 0;
    while i < ids.len()
        invariant
            i <= ids.len(),
            out@ == old(out)@ + in_vocab(ids@.take(i as int), vocab_len),
        decreases ids.len() - i,
    {
        assert(ids@.take(i + 1).drop_last() == ids@.take(i as int));
        assert(ids@.take(i + 1).last() == ids@[i as int]);
        if (ids[i] as usize) < vocab_len {
            out.push(ids[i] as usize);
        }
        i += 1;
    }
    assert(ids@.take(ids.len() as int) == ids@);
}

proof fn lemma_in_vocab_append(a: Seq<u32>, b: Seq<u32>, vocab_len: usize)
    ensures
        in_vocab(a + b, vocab_len) == in_vocab(a, vocab_len) + in_vocab(b, vocab_len),
    decreases b.len(),
{
    if b.len() == 0 {
        assert(a + b == a);
    } else {
        lemma_in_vocab_append(a, b.drop_last(), vocab_len);
        assert((a + b).drop_last() == a + b.drop_last());
        assert((a + b).last() == b.last());
    }
}

/// The indices of the probabilities that a decoding step sets to zero (see
/// `suppressed`), leaving out tokens beyond the vocabulary.
pub fn suppressed_indices(
    vocab_len: usize,
    pad_id: u32,
    eos_id: u32,
    n_words: usize,
    word_count: u32,
    used_words: &[u32],
    first_step: bool,
    blocked_first_words: &[u32],
) -> (idx: Vec<usize>)
    ensures
        idx@ == in_vocab(
            suppressed(pad_id, eos_id, n_words, word_count, used_words@, first_step, blocked_first_words@),
            vocab_len,
        ),
{
    let ghost empty: Seq<u32> = seq![];
    let ghost eos_part: Seq<u32> = if n_words < word_count as usize { seq![eos_id] } else { empty };
    let ghost first_part: Seq<u32> = if first_step { blocked_first_words@ } else { empty };
    let mut idx: Vec<usize> = Vec::new();
    assert(seq![pad_id].drop_last() == empty);
    assert(seq![eos_id].drop_last() == empty);
    assert(in_vocab(empty, vocab_len) == Seq::<usize>::empty());
    if (pad_id as usize) < vocab_len {
        idx.push(pad_id as usize);
    }
    assert(idx@ == in_vocab(seq![pad_id], vocab_len));
    if n_words < word_count as usize {
        if (eos_id as usize) < vocab_len {
            idx.push(eos_id as usize);
        }
    } else {
        assert(in_vocab(empty, vocab_len) == Seq::<usize>::empty());
    }
    assert(idx@ == in_vocab(seq![pad_id], vocab_len) + in_vocab(eos_part, vocab_len));
    push_in_vocab(&mut idx, used_words, vocab_len);
    if first_step {
        push_in_vocab(&mut idx, blocked_first_words, vocab_len);
    } else {
        assert(in_vocab(empty, vocab_len) == Seq::<usize>::empty());
    }
    assert(idx@ == in_vocab(seq![pad_id], vocab_len) + in_vocab(eos_part, vocab_len)
        + in_vocab(used_words@, vocab_len) + in_vocab(first_part, vocab_len));
    proof {
        let all = seq![pad_id] + eos_part + used_words@ + first_part;
        assert(all == suppressed(pad_id, eos_id, n_words, word_count, used_words@, first_step, blocked_first_words@));
        lemma_in_vocab_append(seq![pad_id] + eos_part + used_words@, first_part, vocab_len);
        lemma_in_vocab_append(seq![pad_id] + eos_part, used_words@, vocab_len);
        lemma_in_vocab_append(seq![pad_id], eos_part, vocab_len);
    }
    idx
}

/// The bookkeeping of the decoding loop: what is fed to the decoder next,
/// how much of the cache it already holds, and the tokens produced.
pub struct Decoding {
    pub output_ids: Vec<u32>,
    /// The tokens fed to the decoder at the next step.
    pub current_input: Vec<u32>,
    /// The number of positions already in the decoder's cache.
    pub past_kv_len: usize,
    /// The steps taken so far.
    pub step: usize,
    pub max_len: usize,
    pub eos_id: u32,
}

impl Decoding {
    /// One token is fed per step, the cache holds one position per step
    /// taken, and every step taken produced one token.
    pub open spec fn well_formed(&self) -> bool {
        &&& self.current_input.len() == 1
        &&& self.past_kv_len == self.step
        &&& self.output_ids.len() == self.step
        &&& self.step <= self.max_len
    }

    /// Decoding that starts from `start_id`, for at most `max_len` steps.
    pub fn new(start_id: u32, eos_id: u32, max_len: usize) -> (d: Decoding)
        ensures
            d.well_formed(),
            d.output_ids@ == Seq::<u32>::empty(),
            d.current_input@ == seq![start_id],
            d.step == 0,
            d.max_len == max_len,
            d.eos_id == eos_id,
    {
        let mut current_input = Vec::new();
        current_input.push(start_id);
        Decoding { output_ids: Vec::new(), current_input, past_kv_len: 0, step: 0, max_len, eos_id }
    }

    /// Whether another step may be taken.
    pub fn continues(&self) -> (b: bool)
        ensures
            b == (self.step < self.max_len),
    {
        self.step < self.max_len
    }

    /// Takes the token sampled at this step: the end of the sequence stops
    /// the decoding; any other token is kept and is the next step's input.
    pub fn on_token(&mut self, next: u32) -> (stopped: bool)
        requires
            old(self).well_formed(),
            old(self).step < old(self).max_len,
        ensures
            final(self).well_formed(),
            final(self).max_len == old(self).max_len,
            final(self).eos_id == old(self).eos_id,
            stopped == (next == old(self).eos_id),
            stopped ==> final(self).output_ids@ == old(self).output_ids@ && final(self).step == old(self).step
                && final(self).current_input@ == old(self).current_input@,
            !stopped ==> {
                &&& final(self).output_ids@ == old(self).output_ids@.push(next)
                &&& final(self).past_kv_len == old(self).past_kv_len + old(self).current_input.len()
                &&& final(self).current_input@ == seq![next]
                &&& final(self).step == old(self).step + 1
            },
    {
        if next == self.eos_id {
            return true;
        }
        self.output_ids.push(next);
        self.past_kv_len = self.past_kv_len + self.current_input.len();
        let mut current_input = Vec::new();
        current_input.push(next);
        self.current_input = current_input;
        self.step = self.step + 1;
        false
    }
}

/// The first word of each previous name that has one, in order.
pub open spec fn first_words(previous: Seq<Seq<char>>) -> Seq<Seq<char>>
    decreases previous.len(),
{
    if previous.len() == 0 {
        seq![]
    } else {
        let ws = runs(previous.last(), WordShape::AlnumWord);
        if ws.len() > 0 {
            first_words(previous.drop_last()).push(ws[0])
        } else {
            first_words(previous.drop_last())
        }
    }
}

/// The first word of each previous name, whose token the first decoding step blocks.
pub fn leading_words(previous: &[String]) -> (ws: Vec<String>)
    ensures
        views(ws@) == first_words(views(previous@)),
{
    let ghost pv = views(previous@);
    let mut ws: Vec<String> = Vec::new();
    let mut i: usize = 0;
    while i < previous.len()
        invariant
            i <= previous.len(),
            pv == views(previous@),
            views(ws@) == first_words(pv.take(i as int)),
        decreases previous.len() - i,
    {
        assert(pv.take(i + 1).drop_last() == pv.take(i as int));
        assert(pv.take(i + 1).last() == previous@[i as int]@);
        let mut found = words(previous[i].as_str());
        if found.len() > 0 {
            let ghost before = ws@;
            let first = found.swap_remove(0);
            ws.push(first);
            assert(views(ws@) =~= views(before).push(first@)) by {
                assert forall|k: int| 0 <= k < before.len() implies #[trigger] views(ws@)[k] == views(before)[k] by {
                    assert(ws@[k] == before[k]);
                }
            }
        }
        i += 1;
    }
    assert(pv.take(previous.len() as int) == pv);
    ws
}

// ---------------------------------------------------------------------------
// Laws
// ---------------------------------------------------------------------------

/// A text never has more distinct words than words.
pub proof fn lemma_unique_at_most_count(text: Seq<char>)
    ensures
        runs(text, WordShape::AlnumWord).to_set().len() <= runs(text, WordShape::AlnumWord).len(),
{
    runs(text, WordShape::AlnumWord).lemma_cardinality_of_set();
}

proof fn lemma_alnum_breaks_are_capitals(s: Seq<char>)
    requires
        forall|i: int| 0 <= i < s.len() ==> (is_ascii_letter(#[trigger] s[i]) || is_ascii_digit(s[i])),
    ensures
        count_breaks(s, WordShape::AlnumWord) == count_upper(s),
    decreases s.len(),
{
    if s.len() > 0 {
        let p = s.drop_last();
        assert forall|i: int| 0 <= i < p.len() implies (is_ascii_letter(#[trigger] p[i]) || is_ascii_digit(p[i])) by {
            assert(p[i] == s[i]);
        }
        lemma_alnum_breaks_are_capitals(p);
        assert(is_ascii_letter(s[s.len() - 1]) || is_ascii_digit(s[s.len() - 1]));
    }
}

/// In a name of the form `^([A-Z][a-z0-9]*)+$`, `count_words` counts the
/// capital letters.
pub proof fn lemma_pascal_alnum_word_count(s: Seq<char>)
    requires
        is_pascal_alnum(s),
    ensures
        runs(s, WordShape::AlnumWord).len() == count_upper(s),
{
    assert forall|i: int| 0 <= i < s.len() implies starts(WordShape::AlnumWord, #[trigger] s[i])
        || continues(WordShape::AlnumWord, s[i]) by {
        assert(is_ascii_letter(s[i]) || is_ascii_digit(s[i]));
    }
    lemma_runs_count_breaks(s, WordShape::AlnumWord);
    lemma_alnum_breaks_are_capitals(s);
}

proof fn lemma_single_run(s: Seq<char>)
    requires
        s.len() > 0,
        forall|i: int| 0 <= i < s.len() ==> !is_white_space(#[trigger] s[i]),
    ensures
        runs_state(s, WordShape::NonSpace) == (Seq::<Seq<char>>::empty(), s),
    decreases s.len(),
{
    if s.len() == 1 {
        assert(s.drop_last().len() == 0);
        assert(runs_state(s.drop_last(), WordShape::NonSpace) == (Seq::<Seq<char>>::empty(), Seq::<char>::empty()));
        assert(s.last() == s[0]);
        assert(seq![s[0]] == s);
    } else {
        let p = s.drop_last();
        assert forall|i: int| 0 <= i < p.len() implies !is_white_space(#[trigger] p[i]) by {
            assert(p[i] == s[i]);
        }
        lemma_single_run(p);
        assert(!is_white_space(s[s.len() - 1]));
        assert(p.push(s.last()) == s);
    }
}

/// A name that is already in PascalCase (`^([A-Z][a-z0-9]*)+$`) comes out of
/// `to_pascal_case` unchanged.
pub proof fn lemma_pascal_case_keeps_pascal(s: Seq<char>)
    requires
        is_pascal_alnum(s),
    ensures
        pascal_case(s) == s,
{
    assert forall|i: int| 0 <= i < s.len() implies !is_white_space(#[trigger] s[i]) by {
        assert(is_ascii_letter(s[i]) || is_ascii_digit(s[i]));
    }
    lemma_single_run(s);
    let ws = runs(s, WordShape::NonSpace);
    assert(ws == seq![s]);
    assert(ws.drop_last().len() == 0);
    assert(concat_capitalized(ws.drop_last()) == Seq::<char>::empty());
    assert(uppercase_of(s[0]) == seq![s[0]]);
    assert(seq![s[0]] + s.drop_first() == s);
}

proof fn lemma_ascii_upper(c: char)
    requires
        is_ascii_char(c),
        !is_white_space(c),
    ensures
        is_ascii_char(ascii_upper(c)),
        !is_white_space(ascii_upper(c)),
        !is_ascii_lower(ascii_upper(c)),
{
}

proof fn lemma_concat_capitalized_shape(ws: Seq<Seq<char>>)
    requires
        forall|k: int| 0 <= k < ws.len() ==> (#[trigger] ws[k]).len() > 0,
        forall|k: int, i: int| 0 <= k < ws.len() && 0 <= i < ws[k].len()
            ==> is_ascii_char(#[trigger] ws[k][i]) && !is_white_space(ws[k][i]),
    ensures
        forall|i: int| 0 <= i < concat_capitalized(ws).len()
            ==> is_ascii_char(#[trigger] concat_capitalized(ws)[i]) && !is_white_space(concat_capitalized(ws)[i]),
        ws.len() > 0 ==> concat_capitalized(ws).len() > 0 && !is_ascii_lower(concat_capitalized(ws)[0]),
    decreases ws.len(),
{
    if ws.len() > 0 {
        let front = ws.drop_last();
        assert forall|k: int| 0 <= k < front.len() implies (#[trigger] front[k]).len() > 0 by {
            assert(front[k] == ws[k]);
        }
        assert forall|k: int, i: int| 0 <= k < front.len() && 0 <= i < front[k].len()
            implies is_ascii_char(#[trigger] front[k][i]) && !is_white_space(front[k][i]) by {
            assert(front[k] == ws[k]);
        }
        lemma_concat_capitalized_shape(front);
        let w = ws.last();
        assert(w == ws[ws.len() - 1]);
        assert(w.len() > 0);
        assert(is_ascii_char(w[0]) && !is_white_space(w[0]));
        lemma_ascii_upper(w[0]);
        let cap = capitalize(w);
        assert(cap == seq![ascii_upper(w[0])] + w.drop_first());
        assert forall|i: int| 0 <= i < cap.len() implies is_ascii_char(#[trigger] cap[i]) && !is_white_space(cap[i]) by {
            if i > 0 {
                assert(cap[i] == w[i]);
                assert(is_ascii_char(w[i]) && !is_white_space(w[i]));
            }
        }
        let head = concat_capitalized(front);
        let out = concat_capitalized(ws);
        assert(out == head + cap);
        assert forall|i: int| 0 <= i < out.len() implies is_ascii_char(#[trigger] out[i]) && !is_white_space(out[i]) by {
            if i < head.len() {
                assert(out[i] == head[i]);
            } else {
                assert(out[i] == cap[i - head.len()]);
            }
        }
        if front.len() > 0 {
            assert(out[0] == head[0]);
        } else {
            assert(head.len() == 0);
            assert(out[0] == cap[0]);
        }
    }
}

/// On ASCII text, `to_pascal_case` is idempotent: converting its result again
/// changes nothing.
pub proof fn lemma_pascal_case_idempotent(text: Seq<char>)
    requires
        forall|i: int| 0 <= i < text.len() ==> is_ascii_char(#[trigger] text[i]),
    ensures
        pascal_case(pascal_case(text)) == pascal_case(text),
{
    let ws = runs(text, WordShape::NonSpace);
    lemma_runs_well_formed(text, WordShape::NonSpace);
    let ascii = |c: char| is_ascii_char(c);
    lemma_runs_keep_char_property(text, WordShape::NonSpace, ascii);
    assert forall|k: int| 0 <= k < ws.len() implies (#[trigger] ws[k]).len() > 0 by {
        assert(well_formed_run(ws[k], WordShape::NonSpace));
    }
    assert forall|k: int, i: int| 0 <= k < ws.len() && 0 <= i < ws[k].len()
        implies is_ascii_char(#[trigger] ws[k][i]) && !is_white_space(ws[k][i]) by {
        assert(well_formed_run(ws[k], WordShape::NonSpace));
        assert(ascii(ws[k][i]));
        if i > 0 {
            assert(continues(WordShape::NonSpace, ws[k][i]));
        }
    }
    lemma_concat_capitalized_shape(ws);
    let out = pascal_case(text);
    if out.len() == 0 {
        assert(runs_state(out, WordShape::NonSpace) == (Seq::<Seq<char>>::empty(), Seq::<char>::empty()));
        assert(runs(out, WordShape::NonSpace).len() == 0);
        assert(pascal_case(out) == Seq::<char>::empty());
        assert(out == Seq::<char>::empty());
    } else {
        lemma_single_run(out);
        let again = runs(out, WordShape::NonSpace);
        assert(again == seq![out]);
        assert(again.drop_last().len() == 0);
        assert(concat_capitalized(again.drop_last()) == Seq::<char>::empty());
        assert(ascii_upper(out[0]) == out[0]);
        assert(uppercase_of(out[0]) == seq![out[0]]);
        assert(seq![out[0]] + out.drop_first() == out);
    }
}

/// The number of characters of `s` that are not white space.
pub open spec fn count_non_space(s: Seq<char>) -> nat
    decreases s.len(),
{
    if s.len() == 0 {
        0
    } else {
        count_non_space(s.drop_last()) + if is_white_space(s.last()) {
            0nat
        } else {
            1nat
        }
    }
}

/// The lengths of the texts, added up.
pub open spec fn total_len(ws: Seq<Seq<char>>) -> nat
    decreases ws.len(),
{
    if ws.len() == 0 {
        0
    } else {
        total_len(ws.drop_last()) + ws.last().len()
    }
}

proof fn lemma_runs_state_total(s: Seq<char>)
    ensures
        total_len(runs_state(s, WordShape::NonSpace).0) + runs_state(s, WordShape::NonSpace).1.len()
            == count_non_space(s),
    decreases s.len(),
{
    if s.len() > 0 {
        let p = s.drop_last();
        lemma_runs_state_total(p);
        let (done, cur) = runs_state(p, WordShape::NonSpace);
        let c = s.last();
        if cur.len() > 0 && !is_white_space(c) {
            assert(runs_state(s, WordShape::NonSpace) == (done, cur.push(c)));
        } else {
            let closed = if cur.len() >= 1 { done.push(cur) } else { done };
            if cur.len() >= 1 {
                assert(closed.drop_last() == done);
            }
            assert(total_len(closed) == total_len(done) + cur.len());
            if is_white_space(c) {
                assert(runs_state(s, WordShape::NonSpace) == (closed, Seq::<char>::empty()));
            } else {
                assert(runs_state(s, WordShape::NonSpace) == (closed, seq![c]));
            }
        }
    } else {
        assert(runs_state(s, WordShape::NonSpace) == (Seq::<Seq<char>>::empty(), Seq::<char>::empty()));
    }
}

proof fn lemma_concat_capitalized_len(ws: Seq<Seq<char>>)
    requires
        forall|k: int| 0 <= k < ws.len() ==> (#[trigger] ws[k]).len() > 0,
        forall|k: int, i: int| 0 <= k < ws.len() && 0 <= i < ws[k].len() ==> is_ascii_char(#[trigger] ws[k][i]),
    ensures
        concat_capitalized(ws).len() == total_len(ws),
    decreases ws.len(),
{
    if ws.len() > 0 {
        let front = ws.drop_last();
        assert forall|k: int| 0 <= k < front.len() implies (#[trigger] front[k]).len() > 0 by {
            assert(front[k] == ws[k]);
        }
        assert forall|k: int, i: int| 0 <= k < front.len() && 0 <= i < front[k].len()
            implies is_ascii_char(#[trigger] front[k][i]) by {
            assert(front[k] == ws[k]);
        }
        lemma_concat_capitalized_len(front);
        let w = ws.last();
        assert(w == ws[ws.len() - 1]);
        assert(is_ascii_char(w[0]));
        assert(capitalize(w).len() == w.len());
    }
}

proof fn lemma_ascii_runs(text: Seq<char>)
    requires
        forall|i: int| 0 <= i < text.len() ==> is_ascii_char(#[trigger] text[i]),
    ensures
        forall|k: int| 0 <= k < runs(text, WordShape::NonSpace).len() ==> (#[trigger] runs(text, WordShape::NonSpace)[k]).len() > 0,
        forall|k: int, i: int| 0 <= k < runs(text, WordShape::NonSpace).len() && 0 <= i < runs(text, WordShape::NonSpace)[k].len()
            ==> is_ascii_char(#[trigger] runs(text, WordShape::NonSpace)[k][i])
                && !is_white_space(runs(text, WordShape::NonSpace)[k][i]),
{
    let ws = runs(text, WordShape::NonSpace);
    lemma_runs_well_formed(text, WordShape::NonSpace);
    let ascii = |c: char| is_ascii_char(c);
    lemma_runs_keep_char_property(text, WordShape::NonSpace, ascii);
    assert forall|k: int| 0 <= k < ws.len() implies (#[trigger] ws[k]).len() > 0 by {
        assert(well_formed_run(ws[k], WordShape::NonSpace));
    }
    assert forall|k: int, i: int| 0 <= k < ws.len() && 0 <= i < ws[k].len()
        implies is_ascii_char(#[trigger] ws[k][i]) && !is_white_space(ws[k][i]) by {
        assert(well_formed_run(ws[k], WordShape::NonSpace));
        assert(ascii(ws[k][i]));
        if i > 0 {
            assert(continues(WordShape::NonSpace, ws[k][i]));
        }
    }
}

/// On ASCII text, `to_pascal_case` leaves no white space, and its result has
/// one character, and one byte, for each character of the text that is not
/// white space.
pub proof fn lemma_pascal_case_ascii_shape(text: Seq<char>)
    requires
        forall|i: int| 0 <= i < text.len() ==> is_ascii_char(#[trigger] text[i]),
    ensures
        forall|i: int| 0 <= i < pascal_case(text).len() ==> !is_white_space(#[trigger] pascal_case(text)[i]),
        pascal_case(text).len() == count_non_space(text),
        encode_utf8(pascal_case(text)).len() == count_non_space(text),
{
    let ws = runs(text, WordShape::NonSpace);
    lemma_ascii_runs(text);
    lemma_concat_capitalized_shape(ws);
    lemma_concat_capitalized_len(ws);
    lemma_runs_state_total(text);
    let (done, cur) = runs_state(text, WordShape::NonSpace);
    if cur.len() >= 1 {
        assert(ws == done.push(cur));
        assert(ws.drop_last() == done);
    } else {
        assert(ws == done);
    }
    assert(total_len(ws) == count_non_space(text));
    let out = pascal_case(text);
    assert(is_ascii_chars(out)) by {
        assert forall|i: int| 0 <= i < out.len() implies '\0' <= #[trigger] out[i] <= '\u{7f}' by {
            assert(is_ascii_char(out[i]));
        }
    }
    is_ascii_chars_encode_utf8(out);
}

proof fn lemma_concat_capitalized_append(x: Seq<Seq<char>>, y: Seq<Seq<char>>)
    ensures
        concat_capitalized(x + y) == concat_capitalized(x) + concat_capitalized(y),
    decreases y.len(),
{
    if y.len() == 0 {
        assert(x + y == x);
        assert(concat_capitalized(x) + Seq::<char>::empty() == concat_capitalized(x));
    } else {
        lemma_concat_capitalized_append(x, y.drop_last());
        assert((x + y).drop_last() == x + y.drop_last());
        assert((x + y).last() == y.last());
    }
}

/// No word spans a space: the words of two texts joined by a space are as
/// many as the words of the two texts together.
pub proof fn lemma_count_words_space_join(a: Seq<char>, b: Seq<char>)
    ensures
        runs(a + seq![' '] + b, WordShape::AlnumWord).len()
            == runs(a, WordShape::AlnumWord).len() + runs(b, WordShape::AlnumWord).len(),
{
    lemma_runs_space_join(a, b, WordShape::AlnumWord);
}

/// Converting two texts joined by a space to PascalCase is converting each
/// and writing the results one after the other.
pub proof fn lemma_pascal_case_space_join(a: Seq<char>, b: Seq<char>)
    ensures
        pascal_case(a + seq![' '] + b) == pascal_case(a) + pascal_case(b),
{
    lemma_runs_space_join(a, b, WordShape::NonSpace);
    lemma_concat_capitalized_append(runs(a, WordShape::NonSpace), runs(b, WordShape::NonSpace));
}

} // verus!
