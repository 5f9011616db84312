//! Reading the branch-coverage figure that honggfuzz writes to its log.
//!
//! The figure is read from the last log line that mentions
//! `branch_coverage_percent`, with the pattern
//! `branch_coverage_percent:\s*([0-9]+)`, where `\s` is Unicode white space.
use vstd::prelude::*;

use crate::text::{
    chars_of, copy_range, find_line_end, find_line_start, is_ascii_digit, line_end, line_start,
    lemma_line_end_bounds, lemma_line_start_bounds, occurs_at, occurs_at_pos, skip_digits,
    skip_digits_from, skip_white_space, skip_white_space_from,
};

verus! {

/// The text whose last mention picks the line that is read.
pub open spec fn coverage_mention() -> Seq<char> {
    "branch_coverage_percent"@
}

/// The text that introduces the coverage figure in the pattern.
pub open spec fn coverage_marker() -> Seq<char> {
    "branch_coverage_percent:"@
}

/// The greatest position below `k` at which `pat` starts, if any.
pub open spec fn last_occurrence_before(s: Seq<char>, pat: Seq<char>, k: int) -> Option<int>
    decreases k,
{
    if k <= 0 {
        None
    } else if occurs_at(s, k - 1, pat) {
        Some(k - 1)
    } else {
        last_occurrence_before(s, pat, k - 1)
    }
}

/// What the pattern captures when its match starts at `p`: the marker, then
/// the longest run of white space, then the longest run (at least one) of
/// ASCII digits, which is the capture.
pub open spec fn capture_at(l: Seq<char>, p: int) -> Option<Seq<char>> {
    if occurs_at(l, p, coverage_marker()) {
        let w = skip_white_space(l, p + coverage_marker().len());
        if w < l.len() && is_ascii_digit(l[w]) {
            Some(l.subrange(w, skip_digits(l, w)))
        } else {
            None
        }
    } else {
        None
    }
}

/// The capture of the leftmost match that starts at `p` or later.
pub open spec fn first_capture_from(l: Seq<char>, p: int) -> Option<Seq<char>>
    decreases l.len() - p,
{
    if p < 0 || p >= l.len() {
        None
    } else if capture_at(l, p) is Some {
        capture_at(l, p)
    } else {
        first_capture_from(l, p + 1)
    }
}

/// The digits of the coverage figure in `log`: the line that holds the last
/// mention of `branch_coverage_percent` (which is the last line that mentions
/// it, as the text has no line break), searched from its start for the
/// leftmost match of the pattern. Lines end at `'\n'`; a `'\r'` before it
/// stays in the line, where it cannot be part of a match.
pub open spec fn coverage_digits(log: Seq<char>) -> Option<Seq<char>> {
    match last_occurrence_before(log, coverage_mention(), log.len() as int) {
        None => None,
        Some(q) => first_capture_from(log.subrange(line_start(log, q), line_end(log, q)), 0),
    }
}

proof fn lemma_last_occurrence_bounds(s: Seq<char>, pat: Seq<char>, k: int)
    ensures
        last_occurrence_before(s, pat, k) matches Some(q) ==> 0 <= q < k && occurs_at(s, q, pat),
    decreases k,
{
    if k > 0 && !occurs_at(s, k - 1, pat) {
        lemma_last_occurrence_bounds(s, pat, k - 1);
    }
}

/// The digits of the branch-coverage percentage that `log` reports, as
/// `coverage_digits` defines them; `None` where the log reports none.
pub fn branch_coverage_digits(log: &str) -> (r: Option<String>)
    ensures
        match coverage_digits(log@) {
            Some(d) => r is Some && r->0@ == d,
            None => r is None,
        },
{
    let s = chars_of(log);
    let mention = chars_of("branch_coverage_percent");
    let m = chars_of("branch_coverage_percent:");
    let mut k = s.len();
    loop
        invariant
            k <= s@.len(),
            s@ == log@,
            mention@ == coverage_mention(),
            last_occurrence_before(s@, mention@, k as int) == last_occurrence_before(
                s@,
                mention@,
                s@.len() as int,
            ),
        ensures
            0 < k <= s@.len(),
            last_occurrence_before(s@, mention@, s@.len() as int) == Some((k - 1) as int),
        decreases k,
    {
        if k == 0 {
            return None;
        }
        if occurs_at_pos(&s, k - 1, &mention) {
            break;
        }
        k = k - 1;
    }
    let q = k - 1;
    assert(coverage_digits(log@) == first_capture_from(
        s@.subrange(line_start(s@, q as int), line_end(s@, q as int)),
        0,
    ));
    proof {
        lemma_line_start_bounds(s@, q as int);
        lemma_line_end_bounds(s@, q as int);
    }
    let b = find_line_start(&s, q);
    let e = find_line_end(&s, q);
    let line = copy_range(&s, b, e);
    let mut p: usize = 0;
    while p < line.len()
        invariant
            p <= line@.len(),
            m@ == coverage_marker(),
            line@ == s@.subrange(b as int, e as int),
            b <= e <= s@.len(),
            s@ == log@,
            coverage_digits(log@) == first_capture_from(line@, p as int),
        decreases line@.len() - p,
    {
        if occurs_at_pos(&line, p, &m) {
            let w = skip_white_space_from(&line, p + m.len());
            if w < line.len() && '0' <= line[w] && line[w] <= '9' {
                let d = skip_digits_from(&line, w);
                let digits = log.substring_char(b + w, b + d);
                assert(digits@ =~= line@.subrange(w as int, d as int));
                return Some(digits.to_owned());
            }
        }
        p = p + 1;
    }
    None
}


proof fn lemma_last_occurrence_is_last(s: Seq<char>, pat: Seq<char>, k: int, i: int)
    requires
        0 <= i < k,
        occurs_at(s, i, pat),
    ensures
        last_occurrence_before(s, pat, k) matches Some(q) && i <= q < k,
    decreases k,
{
    if !occurs_at(s, k - 1, pat) {
        lemma_last_occurrence_is_last(s, pat, k - 1, i);
    }
}

proof fn lemma_line_start_after_break(s: Seq<char>, b: int, i: int)
    requires
        0 <= b <= i <= s.len(),
        b == 0 || s[b - 1] == '\n',
        forall|j: int| b <= j < i ==> s[j] != '\n',
    ensures
        line_start(s, i) == b,
    decreases i,
{
    if i > b {
        lemma_line_start_after_break(s, b, i - 1);
    }
}

proof fn lemma_line_end_at_text_end(s: Seq<char>, i: int)
    requires
        0 <= i <= s.len(),
        forall|j: int| i <= j < s.len() ==> s[j] != '\n',
    ensures
        line_end(s, i) == s.len(),
    decreases s.len() - i,
{
    if i < s.len() {
        lemma_line_end_at_text_end(s, i + 1);
    }
}

/// Law: when the last line of a log mentions `branch_coverage_percent`, the
/// figure is read from that line alone, whatever earlier lines report.
pub proof fn coverage_comes_from_last_line(earlier: Seq<char>, last_line: Seq<char>)
    requires
        earlier.len() == 0 || earlier.last() == '\n',
        forall|j: int| 0 <= j < last_line.len() ==> last_line[j] != '\n',
        crate::text::contains_chars(last_line, coverage_mention()),
    ensures
        coverage_digits(earlier + last_line) == first_capture_from(last_line, 0),
{
    let log = earlier + last_line;
    let b = earlier.len() as int;
    let m = coverage_mention();
    reveal_strlit("branch_coverage_percent");
    assert(m.len() > 0);
    let j = choose|j: int| occurs_at(last_line, j, m);
    assert(log.subrange(b + j, b + j + m.len()) =~= last_line.subrange(j, j + m.len()));
    assert(occurs_at(log, b + j, m));
    lemma_last_occurrence_is_last(log, m, log.len() as int, b + j);
    let q = last_occurrence_before(log, m, log.len() as int)->0;
    assert forall|t: int| b <= t < log.len() implies log[t] != '\n' by {
        assert(log[t] == last_line[t - b]);
    }
    if b > 0 {
        assert(log[b - 1] == earlier.last());
    }
    lemma_line_start_after_break(log, b, q);
    lemma_line_end_at_text_end(log, q);
    assert(log.subrange(b, log.len() as int) =~= last_line);
}

} // verus!
