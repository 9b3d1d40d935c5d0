//! Setting up the local model service: what the status report says, whether
//! the naming model is installed, and the progress reports of the downloads.

use vstd::prelude::*;
use vstd::string::StringExecFns;
use crate::pattern::{capture, first_percent_digits, regex_capture, PERCENT};
use crate::text::{chars_of, decimal, is_ascii_char, is_ascii_digit, push_decimal};

verus! {

/// The model that the application names with.
pub const REQUIRED_MODEL: &'static str = "nomi-namer";

/// The model that the naming model is built on.
pub const BASE_MODEL: &'static str = "qwen2.5:7b-instruct";

/// Where the service's installer is downloaded from.
pub const OLLAMA_INSTALLER_URL: &'static str = "https://ollama.com/download/OllamaSetup.exe";

/// The state of the local model service.
pub struct SetupStatus {
    pub ollama_installed: bool,
    pub ollama_running: bool,
    pub model_ready: bool,
}

/// One progress report of a setup stage.
pub struct SetupProgress {
    pub stage: String,
    pub percent: Option<u8>,
    pub message: String,
}

impl SetupProgress {
    pub fn new(stage: &str, percent: Option<u8>, message: &str) -> (p: SetupProgress)
        ensures
            p.stage@ == stage@,
            p.percent == percent,
            p.message@ == message@,
    {
        SetupProgress { stage: String::from_str(stage), percent, message: String::from_str(message) }
    }
}

// ---------------------------------------------------------------------------
// Status
// ---------------------------------------------------------------------------

/// The number of characters before the first `':'` (all of them if there is none).
pub open spec fn colon_index(s: Seq<char>) -> nat
    decreases s.len(),
{
    if s.len() == 0 || s[0] == ':' {
        0
    } else {
        1 + colon_index(s.drop_first())
    }
}

/// A model tag without its version: the text before the first `':'`
/// (`tag.split(':').next()`).
pub open spec fn model_name(tag: Seq<char>) -> Seq<char> {
    tag.take(colon_index(tag) as int)
}

/// Some tag names the required model.
pub open spec fn lists_required_model(tags: Seq<Seq<char>>) -> bool {
    exists|i: int| 0 <= i < tags.len() && model_name(#[trigger] tags[i]) == REQUIRED_MODEL@
}

proof fn lemma_colon_index(s: Seq<char>)
    ensures
        colon_index(s) <= s.len(),
        colon_index(s) < s.len() ==> s[colon_index(s) as int] == ':',
        forall|i: int| 0 <= i < colon_index(s) ==> s[i] != ':',
    decreases s.len(),
{
    if s.len() > 0 && s[0] != ':' {
        lemma_colon_index(s.drop_first());
        assert forall|i: int| 0 <= i < colon_index(s) implies s[i] != ':' by {
            if i > 0 {
                assert(s[i] == s.drop_first()[i - 1]);
            }
        }
    }
}

/// The tag's name before its version (see `model_name`).
pub fn tag_model_name(tag: &str) -> (name: String)
    ensures
        name@ == model_name(tag@),
{
    proof {
        lemma_colon_index(tag@);
    }
    let mut name = String::new();
    let mut done = false;
    let ghost k = colon_index(tag@);
    for c in it: tag.chars()
        invariant
            it.seq() == tag@,
            k == colon_index(tag@),
            k <= tag@.len(),
            k < tag@.len() ==> tag@[k as int] == ':',
            forall|i: int| 0 <= i < k ==> tag@[i] != ':',
            done ==> it.index() > k && name@ == tag@.take(k as int),
            !done ==> it.index() <= k && name@ == tag@.take(it.index() as int),
    {
        if !done {
            if c == ':' {
                done = true;
            } else {
                crate::text::push_char(&mut name, c);
                assert(tag@.take(it.index() + 1) == tag@.take(it.index() as int).push(c));
            }
        }
    }
    assert(tag@.take(tag@.len() as int) == tag@);
    name
}

/// Whether one of the listed tags names the required model.
pub fn has_required_model(tags: &[String]) -> (b: bool)
    ensures
        b == lists_required_model(crate::pattern::views(tags@)),
        // true exactly when some tag, wherever it stands, names the required model
        b == exists|i: int| 0 <= i < tags@.len() && model_name(#[trigger] tags@[i]@) == REQUIRED_MODEL@,
{
    let required = String::from_str(REQUIRED_MODEL);
    let ghost tv = crate::pattern::views(tags@);
    let mut i: usize = 0;
    while i < tags.len()
        invariant
            i <= tags.len(),
            tv == crate::pattern::views(tags@),
            required@ == REQUIRED_MODEL@,
            forall|k: int| 0 <= k < i ==> model_name(#[trigger] tv[k]) != REQUIRED_MODEL@,
        decreases tags.len() - i,
    {
        let name = tag_model_name(tags[i].as_str());
        assert(tv[i as int] == tags@[i as int]@);
        if name == required {
            return true;
        }
        i += 1;
    }
    assert forall|k: int| 0 <= k < tags@.len() implies model_name(#[trigger] tags@[k]@) != REQUIRED_MODEL@ by {
        assert(tv[k] == tags@[k]@);
    }
    false
}

/// Where the required model stands in a listing makes no difference: adding
/// a tag at either end keeps a listing that names it naming it, and makes one
/// that does not name it exactly when the added tag names it.
pub proof fn lemma_listing_order_irrelevant(tags: Seq<Seq<char>>, t: Seq<char>)
    ensures
        lists_required_model(tags.push(t)) == (lists_required_model(tags) || model_name(t) == REQUIRED_MODEL@),
        lists_required_model(seq![t] + tags) == (lists_required_model(tags) || model_name(t) == REQUIRED_MODEL@),
{
    let back = tags.push(t);
    let front = seq![t] + tags;
    if lists_required_model(tags) {
        let i = choose|i: int| 0 <= i < tags.len() && model_name(#[trigger] tags[i]) == REQUIRED_MODEL@;
        assert(back[i] == tags[i]);
        assert(front[i + 1] == tags[i]);
    }
    if model_name(t) == REQUIRED_MODEL@ {
        assert(back[tags.len() as int] == t);
        assert(front[0] == t);
    }
    if lists_required_model(back) {
        let i = choose|i: int| 0 <= i < back.len() && model_name(#[trigger] back[i]) == REQUIRED_MODEL@;
        if i < tags.len() {
            assert(back[i] == tags[i]);
        }
    }
    if lists_required_model(front) {
        let i = choose|i: int| 0 <= i < front.len() && model_name(#[trigger] front[i]) == REQUIRED_MODEL@;
        if i > 0 {
            assert(front[i] == tags[i - 1]);
        }
    }
}

/// The status report from what was probed: whether the service is installed,
/// whether it answers, and the tags it lists (`None` when it was not asked or
/// the listing failed). The model is ready only when the service answers and
/// lists it.
pub fn check_status(ollama_installed: bool, ollama_running: bool, tags: Option<Vec<String>>) -> (s: SetupStatus)
    ensures
        s.ollama_installed == ollama_installed,
        s.ollama_running == ollama_running,
        s.model_ready == (ollama_running && match tags {
            Some(t) => lists_required_model(crate::pattern::views(t@)),
            None => false,
        }),
        // ready exactly when the service runs and some listed tag names the required model
        s.model_ready == (ollama_running && match tags {
            Some(t) => exists|i: int| 0 <= i < t@.len() && model_name(#[trigger] t@[i]@) == REQUIRED_MODEL@,
            None => false,
        }),
{
    let model_ready = if ollama_running {
        match tags {
            Some(t) => has_required_model(t.as_slice()),
            None => false,
        }
    } else {
        false
    };
    SetupStatus { ollama_installed, ollama_running, model_ready }
}

// ---------------------------------------------------------------------------
// Download progress
// ---------------------------------------------------------------------------

/// The bytes in a mebibyte.
pub const MIB: u64 = 1_048_576;

/// `{downloaded} / {total} MB`, both in whole mebibytes.
pub open spec fn download_message(downloaded: u64, total: u64) -> Seq<char> {
    decimal((downloaded / MIB) as nat) + " / "@ + decimal((total / MIB) as nat) + " MB"@
}

/// The percentage of a download, as the report's byte holds it.
pub open spec fn download_percent(downloaded: u64, total: u64) -> u8 {
    (((downloaded * 100) as int) / (total as int)) as u8
}

/// When no more than the announced length has arrived, the reported
/// percentage is the whole part of the share downloaded: at most 100, and
/// `percent * total <= downloaded * 100 < (percent + 1) * total`.
pub proof fn lemma_download_percent_is_floor(downloaded: u64, total: u64)
    requires
        0 < total,
        downloaded <= total,
        downloaded * 100 <= u64::MAX,
    ensures
        download_percent(downloaded, total) <= 100,
        download_percent(downloaded, total) * total <= downloaded * 100,
        downloaded * 100 < (download_percent(downloaded, total) + 1) * total,
{
    let x: int = downloaded * 100;
    let t: int = total as int;
    let q: int = x / t;
    assert(0 <= q <= 100 && q * t <= x && x < (q + 1) * t) by (nonlinear_arith)
        requires
            0 < t,
            0 <= x <= t * 100,
            q == x / t,
    ;
    assert(((downloaded * 100) as int) == x);
    assert(download_percent(downloaded, total) == q as u8);
    assert((q as u8) as int == q);
}

/// A download in progress, reported whenever its whole percentage changes.
pub struct DownloadProgress {
    pub stage: String,
    /// The announced length, 0 when unknown.
    pub total: u64,
    pub downloaded: u64,
    pub last_percent: u8,
}

impl DownloadProgress {
    pub fn new(stage: &str, total: u64) -> (d: DownloadProgress)
        ensures
            d.stage@ == stage@,
            d.total == total,
            d.downloaded == 0,
            d.last_percent == 0,
    {
        DownloadProgress { stage: String::from_str(stage), total, downloaded: 0, last_percent: 0 }
    }

    /// Counts a chunk of `len` bytes; reports the new percentage when it
    /// differs from the last one reported (never when the length is unknown).
    pub fn on_chunk(&mut self, len: u64) -> (report: Option<SetupProgress>)
        requires
            old(self).downloaded + len <= u64::MAX,
            old(self).total > 0 ==> (old(self).downloaded + len) * 100 <= u64::MAX,
        ensures
            final(self).stage@ == old(self).stage@,
            final(self).total == old(self).total,
            final(self).downloaded == old(self).downloaded + len,
            ({
                let d = final(self).downloaded;
                let t = old(self).total;
                if t > 0 && download_percent(d, t) != old(self).last_percent {
                    &&& final(self).last_percent == download_percent(d, t)
                    &&& report matches Some(p) && p.stage@ == old(self).stage@
                        && p.percent == Some(download_percent(d, t))
                        && p.message@ == download_message(d, t)
                } else {
                    &&& final(self).last_percent == old(self).last_percent
                    &&& report is None
                }
            }),
            // a report always carries a percentage that differs from the one before
            report matches Some(p) ==> (p.percent matches Some(x) && x != old(self).last_percent
                && x == final(self).last_percent && old(self).total > 0),
    {
        self.downloaded = self.downloaded + len;
        if self.total > 0 {
            let percent = ((self.downloaded * 100) / self.total) as u8;
            if percent != self.last_percent {
                self.last_percent = percent;
                let mut message = String::new();
                push_decimal(&mut message, self.downloaded / MIB);
                message.append(" / ");
                push_decimal(&mut message, self.total / MIB);
                message.append(" MB");
                let stage = self.stage.clone();
                return Some(SetupProgress { stage, percent: Some(percent), message });
            }
        }
        None
    }
}

// ---------------------------------------------------------------------------
// Model download progress
// ---------------------------------------------------------------------------

/// The value of a string of ASCII digits.
pub open spec fn digits_value(d: Seq<char>) -> nat
    decreases d.len(),
{
    if d.len() == 0 {
        0
    } else {
        digits_value(d.drop_last()) * 10 + ((d.last() as u32) - 48) as nat
    }
}

/// `s` without one leading `+`.
pub open spec fn sign_stripped(s: Seq<char>) -> Seq<char> {
    if s.len() > 0 && s[0] == '+' {
        s.drop_first()
    } else {
        s
    }
}

pub open spec fn all_ascii_digits(d: Seq<char>) -> bool {
    forall|i: int| 0 <= i < d.len() ==> is_ascii_digit(#[trigger] d[i])
}

/// What `str::parse::<u8>` accepts: an optional `+`, then at least one ASCII
/// digit, worth at most 255.
pub open spec fn parse_u8_spec(s: Seq<char>) -> Option<u8> {
    let d = sign_stripped(s);
    if d.len() > 0 && all_ascii_digits(d) && digits_value(d) <= 255 {
        Some(digits_value(d) as u8)
    } else {
        None
    }
}

proof fn lemma_digits_value_grows(d: Seq<char>, k: int)
    requires
        0 <= k <= d.len(),
        forall|i: int| 0 <= i < d.len() ==> is_ascii_digit(#[trigger] d[i]),
    ensures
        digits_value(d.take(k)) <= digits_value(d),
    decreases d.len() - k,
{
    if k < d.len() {
        lemma_digits_value_grows(d, k + 1);
        assert(d.take(k + 1).drop_last() == d.take(k));
        assert(d.take(k + 1).last() == d[k]);
        assert(is_ascii_digit(d[k]));
    } else {
        assert(d.take(k) == d);
    }
}

/// The byte that `s` spells in decimal, as `str::parse::<u8>` reads it.
pub fn parse_u8(s: &str) -> (r: Option<u8>)
    ensures
        r == parse_u8_spec(s@),
{
    let v = chars_of(s);
    let start: usize = if v.len() > 0 && v[0] == '+' { 1 } else { 0 };
    let ghost d = sign_stripped(s@);
    assert(d == v@.skip(start as int));
    if start == v.len() {
        return None;
    }
    let mut value: u32 = 0;
    let mut i: usize = start;
    while i < v.len()
        invariant
            start <= i <= v.len(),
            d == v@.skip(start as int),
            d == sign_stripped(s@),
            v@ == s@,
            d.len() > 0,
            forall|k: int| 0 <= k < i - start ==> is_ascii_digit(#[trigger] d[k]),
            value as nat == digits_value(d.take(i - start)),
            value <= 255,
        decreases v.len() - i,
    {
        let c = v[i];
        assert(d[i - start] == c);
        if !('0' <= c && c <= '9') {
            assert(!is_ascii_digit(d[i - start]));
            assert(!all_ascii_digits(d));
            assert(parse_u8_spec(s@) is None);
            return None;
        }
        assert(d.take(i - start + 1).drop_last() == d.take(i - start));
        assert(d.take(i - start + 1).last() == c);
        value = value * 10 + (c as u32 - 48);
        assert(value as nat == digits_value(d.take(i - start + 1)));
        if value > 255 {
            proof {
                if all_ascii_digits(d) {
                    lemma_digits_value_grows(d, i - start + 1);
                }
                assert(parse_u8_spec(s@) is None);
            }
            return None;
        }
        i += 1;
    }
    assert(d.take(i - start) == d);
    Some(value as u8)
}

/// The percentage that a line of the model download's output reports: the
/// first `(\d{1,3})%` in it, when its digits are a byte.
pub open spec fn pull_percent(line: Seq<char>) -> Option<u8> {
    match regex_capture(PERCENT@, line, 1) {
        Some(Some(digits)) => parse_u8_spec(digits),
        _ => None,
    }
}

/// The report for a line of the model download's output, given the digits
/// found before its first percent sign (if any): the percentage they spell,
/// when that is a byte, with the line as the message.
pub fn pull_report(line: &str, digits: Option<String>) -> (report: Option<SetupProgress>)
    ensures
        match digits {
            Some(d) => match parse_u8_spec(d@) {
                Some(p) => report matches Some(r) && r.stage@ == "model-pull"@ && r.percent == Some(p)
                    && r.message@ == line@,
                None => report is None,
            },
            None => report is None,
        },
{
    match digits {
        Some(d) => match parse_u8(d.as_str()) {
            Some(p) => Some(SetupProgress::new("model-pull", Some(p), line)),
            None => None,
        },
        None => None,
    }
}

/// The progress report for one line of the model download's output, if the
/// line reports a percentage; the line itself is the message.
pub fn pull_progress(line: &str) -> (report: Option<SetupProgress>)
    ensures
        match pull_percent(line@) {
            Some(p) => report matches Some(r) && r.stage@ == "model-pull"@ && r.percent == Some(p)
                && r.message@ == line@,
            None => report is None,
        },
        (forall|i: int| 0 <= i < line@.len() ==> is_ascii_char(#[trigger] line@[i])) ==> pull_percent(line@) == match first_percent_digits(line@) {
            Some(d) => parse_u8_spec(d),
            None => None,
        },
{
    match capture(PERCENT, line, 1) {
        Some(found) => pull_report(line, found),
        None => None,
    }
}

// ---------------------------------------------------------------------------
// Waiting for the service to start
// ---------------------------------------------------------------------------

/// How many times the service is polled, a second apart, after installing it.
pub const STARTUP_POLLS: u8 = 60;

/// What to do after polling the freshly installed service.
pub enum WaitAction {
    /// It answered: the installation is done.
    Ready,
    /// Wait a second, then poll again.
    PauseThenPoll,
    /// Wait a second, then give up with this error.
    PauseThenGiveUp(String),
}

/// The decision after poll number `polls` (counting from 1), which the
/// service `answered` or not.
pub fn wait_step(polls: u8, answered: bool) -> (a: WaitAction)
    requires
        1 <= polls <= STARTUP_POLLS,
    ensures
        answered ==> a == WaitAction::Ready,
        !answered && polls < STARTUP_POLLS ==> a == WaitAction::PauseThenPoll,
        !answered && polls == STARTUP_POLLS ==> (a matches WaitAction::PauseThenGiveUp(m)
            && m@ == "ollama did not start within 60 seconds"@),
{
    if answered {
        WaitAction::Ready
    } else if polls < STARTUP_POLLS {
        WaitAction::PauseThenPoll
    } else {
        WaitAction::PauseThenGiveUp(String::from_str("ollama did not start within 60 seconds"))
    }
}

} // verus!
