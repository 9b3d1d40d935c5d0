//! The regular expressions of the naming rules, what they find, and the
//! `regex` crate calls that find it.

use vstd::prelude::*;
use crate::text::{lemma_occurs_in_part, occurs_in, is_ascii_char, is_ascii_digit, is_ascii_letter, is_ascii_lower, is_ascii_upper, is_white_space};

verus! {

/// One capital letter and the lower-case letters after it.
pub const CAPITALIZED_WORD: &'static str = "[A-Z][a-z]*";

/// One capital letter followed by at least one more letter.
pub const CAPITALIZED_RUN: &'static str = "[A-Z][A-Za-z]+";

/// A whole identifier: one capital letter, then letters only.
pub const PASCAL_LETTERS: &'static str = "^[A-Z][a-zA-Z]*$";

/// One letter, then lower-case letters and digits.
pub const ALNUM_WORD: &'static str = "[A-Za-z][a-z0-9]*";

/// A whole identifier made of capitalised words with lower-case letters and digits.
pub const PASCAL_ALNUM: &'static str = "^([A-Z][a-z0-9]*)+$";

/// One to three digits followed by a percent sign; the digits are group 1.
pub const PERCENT: &'static str = "(\\d{1,3})%";

/// The shapes of the runs of characters that the rules split text into.
#[derive(Clone, Copy, PartialEq, Eq, Structural)]
pub enum WordShape {
    /// `[A-Z][a-z]*`
    Capitalized,
    /// `[A-Z][A-Za-z]+`
    CapitalizedRun,
    /// `[A-Za-z][a-z0-9]*`
    AlnumWord,
    /// a maximal run of characters that are not white space (`str::split_whitespace`)
    NonSpace,
}

/// `c` can begin a run of this shape.
pub open spec fn starts(shape: WordShape, c: char) -> bool {
    match shape {
        WordShape::Capitalized => is_ascii_upper(c),
        WordShape::CapitalizedRun => is_ascii_upper(c),
        WordShape::AlnumWord => is_ascii_letter(c),
        WordShape::NonSpace => !is_white_space(c),
    }
}

/// `c` can extend a run of this shape.
pub open spec fn continues(shape: WordShape, c: char) -> bool {
    match shape {
        WordShape::Capitalized => is_ascii_lower(c),
        WordShape::CapitalizedRun => is_ascii_letter(c),
        WordShape::AlnumWord => is_ascii_lower(c) || is_ascii_digit(c),
        WordShape::NonSpace => !is_white_space(c),
    }
}

/// The least length of a run of this shape.
pub open spec fn min_len(shape: WordShape) -> nat {
    match shape {
        WordShape::CapitalizedRun => 2,
        _ => 1,
    }
}

/// Reading `s` from left to right: the runs already closed, and the run in
/// progress (empty when none is).
pub open spec fn runs_state(s: Seq<char>, shape: WordShape) -> (Seq<Seq<char>>, Seq<char>)
    decreases s.len(),
{
    if s.len() == 0 {
        (seq![], seq![])
    } else {
        let (done, cur) = runs_state(s.drop_last(), shape);
        let c = s.last();
        if cur.len() > 0 && continues(shape, c) {
            (done, cur.push(c))
        } else {
            let closed = if cur.len() >= min_len(shape) {
                done.push(cur)
            } else {
                done
            };
            if starts(shape, c) {
                (closed, seq![c])
            } else {
                (closed, seq![])
            }
        }
    }
}

/// The successive, non-overlapping, leftmost longest runs of the shape in `s`.
pub open spec fn runs(s: Seq<char>, shape: WordShape) -> Seq<Seq<char>> {
    let (done, cur) = runs_state(s, shape);
    if cur.len() >= min_len(shape) {
        done.push(cur)
    } else {
        done
    }
}

/// `^[A-Z][a-zA-Z]*$`
pub open spec fn is_pascal_letters(s: Seq<char>) -> bool {
    &&& s.len() > 0
    &&& is_ascii_upper(s[0])
    &&& forall|i: int| 0 <= i < s.len() ==> is_ascii_letter(#[trigger] s[i])
}

/// `^([A-Z][a-z0-9]*)+$`
pub open spec fn is_pascal_alnum(s: Seq<char>) -> bool {
    &&& s.len() > 0
    &&& is_ascii_upper(s[0])
    &&& forall|i: int| 0 <= i < s.len() ==> (is_ascii_letter(#[trigger] s[i]) || is_ascii_digit(s[i]))
}

pub open spec fn views(v: Seq<String>) -> Seq<Seq<char>> {
    v.map_values(|s: String| s@)
}

pub open spec fn found_view(found: Option<Vec<String>>) -> Option<Seq<Seq<char>>> {
    match found {
        Some(v) => Some(views(v@)),
        None => None,
    }
}

pub open spec fn capture_view(found: Option<Option<String>>) -> Option<Option<Seq<char>>> {
    match found {
        Some(Some(s)) => Some(Some(s@)),
        Some(None) => Some(None),
        None => None,
    }
}

/// What `Regex::new(pattern)` and then `find_iter(haystack)` give: `None` when the
/// pattern does not compile, else the texts of the successive matches.
pub uninterp spec fn regex_find_all(pattern: Seq<char>, haystack: Seq<char>) -> Option<Seq<Seq<char>>>;

/// What `Regex::new(pattern)` and then `is_match(haystack)` give: `None` when the
/// pattern does not compile.
pub uninterp spec fn regex_is_match(pattern: Seq<char>, haystack: Seq<char>) -> Option<bool>;

/// What `Regex::new(pattern)` and then `captures(haystack)` give for capture
/// group `group`: `None` when the pattern does not compile, `Some(None)` when
/// there is no match or the group took no part in it.
pub uninterp spec fn regex_capture(pattern: Seq<char>, haystack: Seq<char>, group: nat) -> Option<Option<Seq<char>>>;

/// `Regex::new(pattern)` and `Regex::find_iter(haystack)`, each match taken as its
/// text. The result is named by `regex_find_all`. For the patterns of this
/// library, whose classes are ASCII ranges and whose repetitions are greedy,
/// the crate's leftmost-first search yields the runs that `runs` describes.
#[verifier::external_body]
pub(crate) fn find_all(pattern: &str, haystack: &str) -> (found: Option<Vec<String>>)
    ensures
        found_view(found) == regex_find_all(pattern@, haystack@),
        pattern@ == CAPITALIZED_WORD@ ==> found_view(found) == Some(runs(haystack@, WordShape::Capitalized)),
        pattern@ == CAPITALIZED_RUN@ ==> found_view(found) == Some(runs(haystack@, WordShape::CapitalizedRun)),
        pattern@ == ALNUM_WORD@ ==> found_view(found) == Some(runs(haystack@, WordShape::AlnumWord)),
{
    match regex::Regex::new(pattern) {
        Ok(re) => Some(re.find_iter(haystack).map(|m| m.as_str().to_string()).collect()),
        Err(_) => None,
    }
}

/// `Regex::new(pattern)` and `Regex::is_match(haystack)`. The result is named by
/// `regex_is_match`; for the two anchored patterns of this library (where `$`
/// matches only at the end of the haystack) it is stated outright.
#[verifier::external_body]
pub(crate) fn is_match(pattern: &str, haystack: &str) -> (m: Option<bool>)
    ensures
        m == regex_is_match(pattern@, haystack@),
        pattern@ == PASCAL_LETTERS@ ==> m == Some(is_pascal_letters(haystack@)),
        pattern@ == PASCAL_ALNUM@ ==> m == Some(is_pascal_alnum(haystack@)),
{
    match regex::Regex::new(pattern) {
        Ok(re) => Some(re.is_match(haystack)),
        Err(_) => None,
    }
}

/// The number of ASCII digits at the start of `s`.
pub open spec fn digit_run(s: Seq<char>) -> nat
    decreases s.len(),
{
    if s.len() > 0 && is_ascii_digit(s[0]) {
        1 + digit_run(s.drop_first())
    } else {
        0
    }
}

/// The digits of the first `(\d{1,3})%` in ASCII text: at the first place
/// where one to three digits, and no more, stand right before a `%`.
pub open spec fn first_percent_digits(s: Seq<char>) -> Option<Seq<char>>
    decreases s.len(),
{
    if s.len() == 0 {
        None
    } else {
        let l = digit_run(s);
        if 1 <= l <= 3 && l < s.len() && s[l as int] == '%' {
            Some(s.take(l as int))
        } else {
            first_percent_digits(s.drop_first())
        }
    }
}

/// `Regex::new(pattern)` and `Regex::captures(haystack)`, then the text of capture
/// group `group`. The result is named by `regex_capture`. For `PERCENT`,
/// group 1, on ASCII text (where `\d` is `[0-9]`) it is stated outright; on
/// other text the Unicode-wide `\d` leaves it named only.
#[verifier::external_body]
pub(crate) fn capture(pattern: &str, haystack: &str, group: usize) -> (found: Option<Option<String>>)
    ensures
        capture_view(found) == regex_capture(pattern@, haystack@, group as nat),
        pattern@ == PERCENT@ && group == 1 && (forall|i: int| 0 <= i < haystack@.len() ==> is_ascii_char(#[trigger] haystack@[i]))
            ==> capture_view(found) == Some(first_percent_digits(haystack@)),
{
    match regex::Regex::new(pattern) {
        Ok(re) => match re.captures(haystack) {
            Some(caps) => Some(caps.get(group).map(|m| m.as_str().to_string())),
            None => Some(None),
        },
        Err(_) => None,
    }
}

// ---------------------------------------------------------------------------
// Facts about runs
// ---------------------------------------------------------------------------

/// `w` has the form of a run of the shape.
pub open spec fn well_formed_run(w: Seq<char>, shape: WordShape) -> bool {
    &&& w.len() >= min_len(shape)
    &&& starts(shape, w[0])
    &&& forall|i: int| 1 <= i < w.len() ==> continues(shape, #[trigger] w[i])
}

proof fn lemma_runs_state_well_formed(s: Seq<char>, shape: WordShape)
    ensures
        ({
            let (done, cur) = runs_state(s, shape);
            &&& forall|k: int| 0 <= k < done.len() ==> well_formed_run(#[trigger] done[k], shape)
            &&& cur.len() > 0 ==> starts(shape, cur[0])
            &&& forall|i: int| 1 <= i < cur.len() ==> continues(shape, #[trigger] cur[i])
        }),
    decreases s.len(),
{
    if s.len() > 0 {
        lemma_runs_state_well_formed(s.drop_last(), shape);
        let (done, cur) = runs_state(s.drop_last(), shape);
        let c = s.last();
        if cur.len() > 0 && continues(shape, c) {
            let cur2 = cur.push(c);
            assert forall|i: int| 1 <= i < cur2.len() implies continues(shape, #[trigger] cur2[i]) by {
                if i < cur.len() {
                    assert(cur2[i] == cur[i]);
                }
            }
        } else if cur.len() >= min_len(shape) {
            let done2 = done.push(cur);
            assert forall|k: int| 0 <= k < done2.len() implies well_formed_run(#[trigger] done2[k], shape) by {
                if k < done.len() {
                    assert(done2[k] == done[k]);
                }
            }
        }
    }
}

/// Every run that `runs` yields has the form of its shape.
pub proof fn lemma_runs_well_formed(s: Seq<char>, shape: WordShape)
    ensures
        forall|k: int| 0 <= k < runs(s, shape).len() ==> well_formed_run(#[trigger] runs(s, shape)[k], shape),
{
    lemma_runs_state_well_formed(s, shape);
    let (done, cur) = runs_state(s, shape);
    if cur.len() >= min_len(shape) {
        let r = done.push(cur);
        assert forall|k: int| 0 <= k < r.len() implies well_formed_run(#[trigger] r[k], shape) by {
            if k < done.len() {
                assert(r[k] == done[k]);
            }
        }
    }
}

/// The number of characters of `s` that cannot extend a run of the shape.
pub open spec fn count_breaks(s: Seq<char>, shape: WordShape) -> nat
    decreases s.len(),
{
    if s.len() == 0 {
        0
    } else {
        count_breaks(s.drop_last(), shape) + if continues(shape, s.last()) {
            0nat
        } else {
            1nat
        }
    }
}

proof fn lemma_runs_state_count(s: Seq<char>, shape: WordShape)
    requires
        min_len(shape) == 1,
        s.len() > 0,
        starts(shape, s[0]),
        !continues(shape, s[0]),
        forall|i: int| 0 <= i < s.len() ==> starts(shape, #[trigger] s[i]) || continues(shape, s[i]),
    ensures
        runs_state(s, shape).1.len() > 0,
        runs_state(s, shape).0.len() + 1 == count_breaks(s, shape),
    decreases s.len(),
{
    if s.len() > 1 {
        let p = s.drop_last();
        assert forall|i: int| 0 <= i < p.len() implies starts(shape, #[trigger] p[i]) || continues(shape, p[i]) by {
            assert(p[i] == s[i]);
        }
        lemma_runs_state_count(p, shape);
        assert(s[s.len() - 1] == s.last());
        assert(starts(shape, s.last()) || continues(shape, s.last()));
        let (done, cur) = runs_state(p, shape);
        if continues(shape, s.last()) {
            assert(runs_state(s, shape) == (done, cur.push(s.last())));
        } else {
            assert(runs_state(s, shape) == (done.push(cur), seq![s.last()]));
        }
        assert(count_breaks(s, shape) == count_breaks(p, shape) + if continues(shape, s.last()) { 0nat } else { 1nat });
    } else {
        assert(s.drop_last().len() == 0);
        assert(s.last() == s[0]);
        assert(runs_state(s.drop_last(), shape) == (Seq::<Seq<char>>::empty(), Seq::<char>::empty()));
        assert(count_breaks(s.drop_last(), shape) == 0);
    }
}

/// In text made only of characters that begin or extend a run, and that begins
/// with a character that begins one but cannot extend one, the runs are as
/// many as the characters that cannot extend a run.
pub proof fn lemma_runs_count_breaks(s: Seq<char>, shape: WordShape)
    requires
        min_len(shape) == 1,
        s.len() > 0,
        starts(shape, s[0]),
        !continues(shape, s[0]),
        forall|i: int| 0 <= i < s.len() ==> starts(shape, #[trigger] s[i]) || continues(shape, s[i]),
    ensures
        runs(s, shape).len() == count_breaks(s, shape),
{
    lemma_runs_state_count(s, shape);
}

/// The runs of `s` are made of characters of `s`: a property that every
/// character of `s` has, every character of every run has.
pub proof fn lemma_runs_keep_char_property(s: Seq<char>, shape: WordShape, prop: spec_fn(char) -> bool)
    requires
        forall|i: int| 0 <= i < s.len() ==> prop(#[trigger] s[i]),
    ensures
        forall|k: int, i: int| 0 <= k < runs(s, shape).len() && 0 <= i < runs(s, shape)[k].len()
            ==> prop(#[trigger] runs(s, shape)[k][i]),
{
    lemma_runs_state_keep(s, shape, prop);
    let (done, cur) = runs_state(s, shape);
    let r = runs(s, shape);
    assert forall|k: int, i: int| 0 <= k < r.len() && 0 <= i < r[k].len() implies prop(#[trigger] r[k][i]) by {
        if k < done.len() {
            assert(r[k] == done[k]);
        } else {
            assert(r[k] == cur);
        }
    }
}

proof fn lemma_runs_state_keep(s: Seq<char>, shape: WordShape, prop: spec_fn(char) -> bool)
    requires
        forall|i: int| 0 <= i < s.len() ==> prop(#[trigger] s[i]),
    ensures
        ({
            let (done, cur) = runs_state(s, shape);
            &&& forall|k: int, i: int| 0 <= k < done.len() && 0 <= i < done[k].len() ==> prop(#[trigger] done[k][i])
            &&& forall|i: int| 0 <= i < cur.len() ==> prop(#[trigger] cur[i])
        }),
    decreases s.len(),
{
    if s.len() > 0 {
        let p = s.drop_last();
        assert forall|i: int| 0 <= i < p.len() implies prop(#[trigger] p[i]) by {
            assert(p[i] == s[i]);
        }
        lemma_runs_state_keep(p, shape, prop);
        let (done, cur) = runs_state(p, shape);
        let c = s.last();
        assert(prop(s[s.len() - 1]));
        let cur2 = cur.push(c);
        assert forall|i: int| 0 <= i < cur2.len() implies prop(#[trigger] cur2[i]) by {
            if i < cur.len() {
                assert(cur2[i] == cur[i]);
            }
        }
        let done2 = done.push(cur);
        assert forall|k: int, i: int| 0 <= k < done2.len() && 0 <= i < done2[k].len() implies prop(#[trigger] done2[k][i]) by {
            if k < done.len() {
                assert(done2[k] == done[k]);
            }
        }
        let single = seq![c];
        assert forall|i: int| 0 <= i < single.len() implies prop(#[trigger] single[i]) by {
            assert(single[i] == c);
        }
    }
}

proof fn lemma_runs_state_append(x: Seq<char>, y: Seq<char>, shape: WordShape)
    requires
        runs_state(x, shape).1.len() == 0,
    ensures
        runs_state(x + y, shape) == (runs_state(x, shape).0 + runs_state(y, shape).0, runs_state(y, shape).1),
    decreases y.len(),
{
    if y.len() == 0 {
        assert(x + y == x);
        assert(runs_state(y, shape) == (Seq::<Seq<char>>::empty(), Seq::<char>::empty()));
        assert(runs_state(x, shape).0 + Seq::<Seq<char>>::empty() == runs_state(x, shape).0);
    } else {
        lemma_runs_state_append(x, y.drop_last(), shape);
        assert((x + y).drop_last() == x + y.drop_last());
        assert((x + y).last() == y.last());
        let dx = runs_state(x, shape).0;
        let (dy, cy) = runs_state(y.drop_last(), shape);
        assert((dx + dy).push(cy) == dx + dy.push(cy));
    }
}

/// A space between two texts splits them apart: the runs of `a`, a space
/// and `b` are the runs of `a` followed by the runs of `b`, whatever the shape.
pub proof fn lemma_runs_space_join(a: Seq<char>, b: Seq<char>, shape: WordShape)
    ensures
        runs(a + seq![' '] + b, shape) == runs(a, shape) + runs(b, shape),
{
    let x = a + seq![' '];
    assert(x.drop_last() == a);
    assert(x.last() == ' ');
    assert(is_white_space(' '));
    let (da, ca) = runs_state(a, shape);
    assert(runs_state(x, shape).0 == runs(a, shape));
    assert(runs_state(x, shape).1.len() == 0);
    lemma_runs_state_append(x, b, shape);
    let (db, cb) = runs_state(b, shape);
    if cb.len() >= min_len(shape) {
        assert((runs(a, shape) + db).push(cb) == runs(a, shape) + db.push(cb));
    }
}

proof fn lemma_runs_state_occur(s: Seq<char>, shape: WordShape)
    ensures
        forall|k: int| 0 <= k < runs_state(s, shape).0.len() ==> occurs_in(#[trigger] runs_state(s, shape).0[k], s),
        runs_state(s, shape).1.len() <= s.len(),
        runs_state(s, shape).1 == s.subrange(s.len() - runs_state(s, shape).1.len(), s.len() as int),
    decreases s.len(),
{
    if s.len() == 0 {
        assert(runs_state(s, shape) == (Seq::<Seq<char>>::empty(), Seq::<char>::empty()));
        assert(s.subrange(0, 0) == Seq::<char>::empty());
    } else {
        let p = s.drop_last();
        lemma_runs_state_occur(p, shape);
        let (done, cur) = runs_state(p, shape);
        let c = s.last();
        assert forall|k: int| 0 <= k < done.len() implies occurs_in(#[trigger] done[k], s) by {
            assert(occurs_in(done[k], p));
            assert(p == s.subrange(0, s.len() - 1));
            lemma_occurs_in_part(done[k], p, s, 0, s.len() - 1);
        }
        // the run in progress is a suffix of p, so it occurs in s
        assert(cur == s.subrange(p.len() - cur.len(), p.len() as int));
        assert(occurs_in(cur, s)) by {
            assert(s.subrange(p.len() - cur.len(), p.len() - cur.len() + cur.len()) == cur);
        }
        assert(cur.push(c) == s.subrange(s.len() - (cur.len() + 1), s.len() as int));
        assert(seq![c] == s.subrange(s.len() - 1, s.len() as int));
        assert(Seq::<char>::empty() == s.subrange(s.len() as int, s.len() as int));
        let done2 = done.push(cur);
        assert forall|k: int| 0 <= k < done2.len() implies occurs_in(#[trigger] done2[k], s) by {
            if k < done.len() {
                assert(done2[k] == done[k]);
            }
        }
    }
}

/// Every run that `runs` yields is a contiguous part of the text.
pub proof fn lemma_runs_occur(s: Seq<char>, shape: WordShape)
    ensures
        forall|k: int| 0 <= k < runs(s, shape).len() ==> occurs_in(#[trigger] runs(s, shape)[k], s),
{
    lemma_runs_state_occur(s, shape);
    let (done, cur) = runs_state(s, shape);
    let r = runs(s, shape);
    assert(occurs_in(cur, s)) by {
        assert(s.subrange(s.len() - cur.len(), s.len() - cur.len() + cur.len()) == cur);
    }
    assert forall|k: int| 0 <= k < r.len() implies occurs_in(#[trigger] r[k], s) by {
        if k < done.len() {
            assert(r[k] == done[k]);
        }
    }
}

} // verus!
