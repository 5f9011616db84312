//! Character-level helpers shared by the text parsers of the library.
//!
//! Text is handled as sequences of Unicode scalar values (`char`), which is
//! how `str` and `String` are viewed in specifications.
use vstd::prelude::*;

verus! {

/// The Unicode `White_Space` property: the set tested by `char::is_whitespace`,
/// by `str::split_whitespace`, and by the `\s` class of a Unicode regex.
pub open spec fn is_white_space(c: char) -> bool {
    ||| ('\u{9}' <= c && c <= '\u{d}')
    ||| c == ' '
    ||| c == '\u{85}'
    ||| c == '\u{a0}'
    ||| c == '\u{1680}'
    ||| ('\u{2000}' <= c && c <= '\u{200a}')
    ||| c == '\u{2028}'
    ||| c == '\u{2029}'
    ||| c == '\u{202f}'
    ||| c == '\u{205f}'
    ||| c == '\u{3000}'
}

/// Whether `c` has the Unicode `White_Space` property.
pub fn white_space(c: char) -> (b: bool)
    ensures
        b == is_white_space(c),
{
    ('\u{9}' <= c && c <= '\u{d}') || c == ' ' || c == '\u{85}' || c == '\u{a0}' || c == '\u{1680}'
        || ('\u{2000}' <= c && c <= '\u{200a}') || c == '\u{2028}' || c == '\u{2029}' || c
        == '\u{202f}' || c == '\u{205f}' || c == '\u{3000}'
}

/// An ASCII decimal digit, `'0'..='9'`.
pub open spec fn is_ascii_digit(c: char) -> bool {
    '0' <= c && c <= '9'
}

/// The characters of `s`, in order.
pub fn chars_of(s: &str) -> (out: Vec<char>)
    ensures
        out@ == s@,
{
    let mut out: Vec<char> = Vec::new();
    for c in it: s.chars()
        invariant
            out@ == it.seq().take(it.index() as int),
            it.seq() == s@,
    {
        out.push(c);
    }
    out
}


/// `pat` occurs in `s` starting at position `i`.
pub open spec fn occurs_at(s: Seq<char>, i: int, pat: Seq<char>) -> bool {
    0 <= i && i + pat.len() <= s.len() && s.subrange(i, i + pat.len()) == pat
}

/// `pat` occurs somewhere in `s` (the empty pattern occurs everywhere).
pub open spec fn contains_chars(s: Seq<char>, pat: Seq<char>) -> bool {
    exists|i: int| occurs_at(s, i, pat)
}

/// Whether `pat` occurs in `s` at position `i`.
pub fn occurs_at_pos(s: &Vec<char>, i: usize, pat: &Vec<char>) -> (b: bool)
    ensures
        b == occurs_at(s@, i as int, pat@),
{
    let sl = s.len();
    if i > sl || pat.len() > sl - i {
        return false;
    }
    let mut k: usize = 0;
    while k < pat.len()
        invariant
            sl == s@.len(),
            i + pat@.len() <= s@.len(),
            k <= pat@.len(),
            forall|j: int| 0 <= j < k ==> s@[i + j] == pat@[j],
        decreases pat@.len() - k,
    {
        assert(i + k < sl);
        if s[i + k] != pat[k] {
            assert(s@.subrange(i as int, i + pat@.len())[k as int] != pat@[k as int]);
            return false;
        }
        k = k + 1;
    }
    assert(s@.subrange(i as int, i + pat@.len()) =~= pat@);
    true
}

/// Whether `pat` occurs anywhere in `s`.
pub fn contains_seq(s: &Vec<char>, pat: &Vec<char>) -> (b: bool)
    ensures
        b == contains_chars(s@, pat@),
{
    if pat.len() > s.len() {
        return false;
    }
    let last = s.len() - pat.len();
    let mut i: usize = 0;
    loop
        invariant
            last + pat@.len() == s@.len(),
            i <= last,
            forall|j: int| 0 <= j < i ==> !occurs_at(s@, j, pat@),
        ensures
            forall|j: int| 0 <= j <= last ==> !occurs_at(s@, j, pat@),
        decreases last - i,
    {
        if occurs_at_pos(s, i, pat) {
            return true;
        }
        if i == last {
            break;
        }
        i = i + 1;
    }
    assert forall|j: int| !occurs_at(s@, j, pat@) by {
        if 0 <= j && j <= last {
        }
    }
    false
}

/// Whether `needle` occurs as a substring of `hay` (what `str::contains` tests
/// for a string pattern).
pub fn contains_str(hay: &str, needle: &str) -> (b: bool)
    ensures
        b == contains_chars(hay@, needle@),
{
    let h = chars_of(hay);
    let n = chars_of(needle);
    contains_seq(&h, &n)
}

/// Whether the two strings hold the same characters.
pub fn same_chars(a: &str, b: &str) -> (r: bool)
    ensures
        r == (a@ == b@),
{
    let x = chars_of(a);
    let y = chars_of(b);
    if x.len() != y.len() {
        return false;
    }
    let mut k: usize = 0;
    while k < x.len()
        invariant
            x@ == a@,
            y@ == b@,
            x@.len() == y@.len(),
            k <= x@.len(),
            forall|j: int| 0 <= j < k ==> x@[j] == y@[j],
        decreases x@.len() - k,
    {
        if x[k] != y[k] {
            assert(x@[k as int] != y@[k as int]);
            return false;
        }
        k = k + 1;
    }
    assert(x@ =~= y@);
    true
}

/// Whether two byte vectors hold the same bytes.
pub fn same_bytes(a: &Vec<u8>, b: &Vec<u8>) -> (r: bool)
    ensures
        r == (a@ == b@),
{
    if a.len() != b.len() {
        return false;
    }
    let mut k: usize = 0;
    while k < a.len()
        invariant
            a@.len() == b@.len(),
            k <= a@.len(),
            forall|j: int| 0 <= j < k ==> a@[j] == b@[j],
        decreases a@.len() - k,
    {
        if a[k] != b[k] {
            assert(a@[k as int] != b@[k as int]);
            return false;
        }
        k = k + 1;
    }
    assert(a@ =~= b@);
    true
}

/// A copy of `s[from..to]`.
pub fn copy_range(s: &Vec<char>, from: usize, to: usize) -> (out: Vec<char>)
    requires
        from <= to <= s@.len(),
    ensures
        out@ == s@.subrange(from as int, to as int),
{
    let mut out: Vec<char> = Vec::new();
    let mut k = from;
    while k < to
        invariant
            from <= k <= to <= s@.len(),
            out@ == s@.subrange(from as int, k as int),
        decreases to - k,
    {
        out.push(s[k]);
        assert(s@.subrange(from as int, k + 1) =~= s@.subrange(from as int, k as int).push(s@[k as int]));
        k = k + 1;
    }
    out
}

/// Numeric value of an ASCII digit.
pub open spec fn digit_value(c: char) -> nat {
    (c as int - '0' as int) as nat
}

/// Value of a string of decimal digits, most significant first (0 for the empty string).
pub open spec fn decimal_value(s: Seq<char>) -> nat
    decreases s.len(),
{
    if s.len() == 0 {
        0
    } else {
        decimal_value(s.drop_last()) * 10 + digit_value(s.last())
    }
}

/// Every character of `s` is an ASCII digit.
pub open spec fn all_ascii_digits(s: Seq<char>) -> bool {
    forall|i: int| 0 <= i < s.len() ==> is_ascii_digit(#[trigger] s[i])
}

/// What `str::parse::<u64>` reads: an optional leading `+`, then one or more
/// ASCII digits whose value fits in a `u64`; anything else is an error.
pub open spec fn parse_u64_spec(s: Seq<char>) -> Option<u64> {
    let body = if s.len() > 0 && s[0] == '+' {
        s.drop_first()
    } else {
        s
    };
    if body.len() > 0 && all_ascii_digits(body) && decimal_value(body) <= u64::MAX {
        Some(decimal_value(body) as u64)
    } else {
        None
    }
}

proof fn lemma_decimal_value_prefix_grows(s: Seq<char>, k: int)
    requires
        0 <= k <= s.len(),
    ensures
        decimal_value(s.take(k)) <= decimal_value(s),
    decreases s.len() - k,
{
    if k < s.len() {
        lemma_decimal_value_prefix_grows(s, k + 1);
        assert(s.take(k + 1).drop_last() =~= s.take(k));
    } else {
        assert(s.take(k) =~= s);
    }
}

/// Parses `s[from..to]` as `str::parse::<u64>` would.
pub fn parse_u64_range(s: &Vec<char>, from: usize, to: usize) -> (r: Option<u64>)
    requires
        from <= to <= s@.len(),
    ensures
        r == parse_u64_spec(s@.subrange(from as int, to as int)),
{
    let ghost t = s@.subrange(from as int, to as int);
    let mut start = from;
    if from < to && s[from] == '+' {
        start = from + 1;
    }
    let ghost body = if t.len() > 0 && t[0] == '+' {
        t.drop_first()
    } else {
        t
    };
    assert(body =~= s@.subrange(start as int, to as int));
    if start == to {
        return None;
    }
    let mut v: u64 = 0;
    let mut k = start;
    while k < to
        invariant
            from <= start <= k <= to <= s@.len(),
            start < to,
            t == s@.subrange(from as int, to as int),
            body == (if t.len() > 0 && t[0] == '+' {
                t.drop_first()
            } else {
                t
            }),
            body == s@.subrange(start as int, to as int),
            forall|j: int| start <= j < k ==> is_ascii_digit(#[trigger] s@[j]),
            v as nat == decimal_value(body.take(k - start)),
        decreases to - k,
    {
        let c = s[k];
        if !('0' <= c && c <= '9') {
            assert(body[k - start] == c);
            assert(!is_ascii_digit(body[k - start]));
            return None;
        }
        let d = (c as u32 - '0' as u32) as u64;
        assert(d == digit_value(c));
        assert(body.take(k - start + 1).drop_last() =~= body.take(k - start));
        assert(body.take(k - start + 1).last() == c);
        assert(decimal_value(body.take(k - start + 1)) == v * 10 + d);
        if v > 1844674407370955161u64 || (v == 1844674407370955161u64 && d > 5) {
            proof {
                if all_ascii_digits(body) {
                    lemma_decimal_value_prefix_grows(body, k - start + 1);
                }
            }
            return None;
        }
        v = v * 10 + d;
        k = k + 1;
    }
    assert(body.take(to - start) =~= body);
    Some(v)
}

/// Parses `s` as `str::parse::<u64>` would.
pub fn parse_u64_str(s: &str) -> (r: Option<u64>)
    ensures
        r == parse_u64_spec(s@),
{
    let c = chars_of(s);
    assert(c@.subrange(0, c@.len() as int) =~= s@);
    parse_u64_range(&c, 0, c.len())
}

/// `pat` ends `s`.
pub open spec fn ends_with_chars(s: Seq<char>, pat: Seq<char>) -> bool {
    pat.len() <= s.len() && occurs_at(s, s.len() - pat.len(), pat)
}

/// Whether `s` ends with `pat` (what `str::ends_with` tests for a string pattern).
pub fn ends_with_str(s: &str, pat: &str) -> (b: bool)
    ensures
        b == ends_with_chars(s@, pat@),
{
    let x = chars_of(s);
    let p = chars_of(pat);
    if p.len() > x.len() {
        return false;
    }
    occurs_at_pos(&x, x.len() - p.len(), &p)
}

/// A new `String` holding `a` followed by `b`.
pub fn concat_str(a: &str, b: &str) -> (r: String)
    ensures
        r@ == a@ + b@,
{
    let mut r = String::from_str(a);
    r.append(b);
    r
}

/// End of the line that holds position `i`: the first `'\n'` at or after `i`,
/// or the end of the text.
pub open spec fn line_end(s: Seq<char>, i: int) -> int
    decreases s.len() - i,
{
    if i >= s.len() {
        s.len() as int
    } else if s[i] == '\n' {
        i
    } else {
        line_end(s, i + 1)
    }
}

/// Start of the line that holds position `i`: just after the last `'\n'`
/// before `i`, or the start of the text.
pub open spec fn line_start(s: Seq<char>, i: int) -> int
    decreases i,
{
    if i <= 0 {
        0
    } else if s[i - 1] == '\n' {
        i
    } else {
        line_start(s, i - 1)
    }
}

pub proof fn lemma_line_end_bounds(s: Seq<char>, i: int)
    requires
        0 <= i <= s.len(),
    ensures
        i <= line_end(s, i) <= s.len(),
    decreases s.len() - i,
{
    if i < s.len() && s[i] != '\n' {
        lemma_line_end_bounds(s, i + 1);
    }
}

pub proof fn lemma_line_start_bounds(s: Seq<char>, i: int)
    requires
        0 <= i <= s.len(),
    ensures
        0 <= line_start(s, i) <= i,
    decreases i,
{
    if i > 0 && s[i - 1] != '\n' {
        lemma_line_start_bounds(s, i - 1);
    }
}

/// Finds `line_end(s, i)`.
pub fn find_line_end(s: &Vec<char>, i: usize) -> (e: usize)
    requires
        i <= s@.len(),
    ensures
        e == line_end(s@, i as int),
        i <= e <= s@.len(),
{
    let mut e = i;
    while e < s.len() && s[e] != '\n'
        invariant
            i <= e <= s@.len(),
            line_end(s@, e as int) == line_end(s@, i as int),
        decreases s@.len() - e,
    {
        e = e + 1;
    }
    e
}

/// Finds `line_start(s, i)`.
pub fn find_line_start(s: &Vec<char>, i: usize) -> (b: usize)
    requires
        i <= s@.len(),
    ensures
        b == line_start(s@, i as int),
        b <= i,
{
    let mut b = i;
    while b > 0 && s[b - 1] != '\n'
        invariant
            b <= i <= s@.len(),
            line_start(s@, b as int) == line_start(s@, i as int),
        decreases b,
    {
        b = b - 1;
    }
    b
}

/// Position just after the run of white space that starts at `i`.
pub open spec fn skip_white_space(s: Seq<char>, i: int) -> int
    decreases s.len() - i,
{
    if 0 <= i < s.len() && is_white_space(s[i]) {
        skip_white_space(s, i + 1)
    } else {
        i
    }
}

/// Position just after the run of ASCII digits that starts at `i`.
pub open spec fn skip_digits(s: Seq<char>, i: int) -> int
    decreases s.len() - i,
{
    if 0 <= i < s.len() && is_ascii_digit(s[i]) {
        skip_digits(s, i + 1)
    } else {
        i
    }
}

/// Finds `skip_white_space(s, i)`.
pub fn skip_white_space_from(s: &Vec<char>, i: usize) -> (e: usize)
    requires
        i <= s@.len(),
    ensures
        e == skip_white_space(s@, i as int),
        i <= e <= s@.len(),
{
    let mut e = i;
    while e < s.len() && white_space(s[e])
        invariant
            i <= e <= s@.len(),
            skip_white_space(s@, e as int) == skip_white_space(s@, i as int),
        decreases s@.len() - e,
    {
        e = e + 1;
    }
    e
}

/// Finds `skip_digits(s, i)`.
pub fn skip_digits_from(s: &Vec<char>, i: usize) -> (e: usize)
    requires
        i <= s@.len(),
    ensures
        e == skip_digits(s@, i as int),
        i <= e <= s@.len(),
{
    let mut e = i;
    while e < s.len() && ('0' <= s[e] && s[e] <= '9')
        invariant
            i <= e <= s@.len(),
            skip_digits(s@, e as int) == skip_digits(s@, i as int),
        decreases s@.len() - e,
    {
        e = e + 1;
    }
    e
}

/// End of `s[..k]` once trailing white space is dropped.
pub open spec fn trim_end_at(s: Seq<char>, k: int) -> int
    decreases k,
{
    if k <= 0 {
        0
    } else if is_white_space(s[k - 1]) {
        trim_end_at(s, k - 1)
    } else {
        k
    }
}

/// Start of the run of non-white-space characters that ends at `k`.
pub open spec fn token_start_at(s: Seq<char>, k: int) -> int
    decreases k,
{
    if k <= 0 {
        0
    } else if !is_white_space(s[k - 1]) {
        token_start_at(s, k - 1)
    } else {
        k
    }
}

/// The last item that `str::split_whitespace` yields: the last maximal run of
/// characters without white space, if there is one.
pub open spec fn last_token(s: Seq<char>) -> Option<Seq<char>> {
    let e = trim_end_at(s, s.len() as int);
    if e <= 0 {
        None
    } else {
        Some(s.subrange(token_start_at(s, e), e))
    }
}

/// Bounds of `last_token(s)`, if there is one.
pub fn last_token_bounds(s: &Vec<char>) -> (r: Option<(usize, usize)>)
    ensures
        match r {
            Some((b, e)) => b <= e <= s@.len() && last_token(s@) == Some(
                s@.subrange(b as int, e as int),
            ),
            None => last_token(s@) is None,
        },
{
    let mut e = s.len();
    while e > 0 && white_space(s[e - 1])
        invariant
            e <= s@.len(),
            trim_end_at(s@, e as int) == trim_end_at(s@, s@.len() as int),
        decreases e,
    {
        e = e - 1;
    }
    if e == 0 {
        return None;
    }
    let mut b = e;
    while b > 0 && !white_space(s[b - 1])
        invariant
            b <= e <= s@.len(),
            token_start_at(s@, b as int) == token_start_at(s@, e as int),
        decreases b,
    {
        b = b - 1;
    }
    Some((b, e))
}

} // verus!
