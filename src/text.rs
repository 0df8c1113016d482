//! Characters, lines and integer literals.
use vstd::prelude::*;

verus! {

/// What `char::is_whitespace` returns: the Unicode `White_Space` property.
pub uninterp spec fn white_space(c: char) -> bool;

/// What the regex class `\w` accepts: Unicode word characters.
pub uninterp spec fn word_char(c: char) -> bool;

/// What the regex class `\d` accepts: Unicode decimal digits (`\p{Nd}`).
pub uninterp spec fn digit_char(c: char) -> bool;

/// Relies on `char::is_whitespace`, the same test that `str::trim` applies.
#[verifier::external_body]
pub(crate) fn is_space(c: char) -> (r: bool)
    ensures
        r == white_space(c),
{
    c.is_whitespace()
}

/// Relies on regex's `\w`, matched against the one character.
#[verifier::external_body]
pub(crate) fn is_word(c: char) -> (r: bool)
    ensures
        r == word_char(c),
{
    let mut buf = [0u8; 4];
    regex::Regex::new(r"^\w$").unwrap().is_match(c.encode_utf8(&mut buf))
}

/// Relies on regex's `\d`, matched against the one character.
#[verifier::external_body]
pub(crate) fn is_digit(c: char) -> (r: bool)
    ensures
        r == digit_char(c),
{
    let mut buf = [0u8; 4];
    regex::Regex::new(r"^\d$").unwrap().is_match(c.encode_utf8(&mut buf))
}

pub open spec fn ascii_digit(c: char) -> bool {
    '0' <= c && c <= '9'
}

pub open spec fn digit_value(c: char) -> int {
    c as int - '0' as int
}

pub open spec fn all_ascii_digits(s: Seq<char>) -> bool {
    forall|i: int| 0 <= i < s.len() ==> ascii_digit(#[trigger] s[i])
}

/// The decimal value of a string of ASCII digits.
pub open spec fn decimal(s: Seq<char>) -> int
    decreases s.len(),
{
    if s.len() == 0 {
        0
    } else {
        decimal(s.drop_last()) * 10 + digit_value(s.last())
    }
}

/// The integer a text denotes as an `i64` literal: an optional `+` or `-`,
/// then one or more ASCII digits, with a value in range.
pub open spec fn int_value(s: Seq<char>) -> Option<i64> {
    let signed = s.len() > 0 && (s[0] == '-' || s[0] == '+');
    let body = if signed { s.drop_first() } else { s };
    let v = if signed && s[0] == '-' { -decimal(body) } else { decimal(body) };
    if body.len() > 0 && all_ascii_digits(body) && i64::MIN <= v <= i64::MAX {
        Some(v as i64)
    } else {
        None
    }
}

proof fn lemma_decimal_nonneg(s: Seq<char>)
    requires
        all_ascii_digits(s),
    ensures
        decimal(s) >= 0,
    decreases s.len(),
{
    if s.len() > 0 {
        lemma_decimal_nonneg(s.drop_last());
    }
}

proof fn lemma_decimal_prefix(s: Seq<char>, j: int)
    requires
        all_ascii_digits(s),
        0 <= j <= s.len(),
    ensures
        decimal(s.subrange(0, j)) <= decimal(s),
    decreases s.len(),
{
    if j < s.len() {
        assert(s.drop_last().subrange(0, j) =~= s.subrange(0, j));
        lemma_decimal_prefix(s.drop_last(), j);
        lemma_decimal_nonneg(s.drop_last());
    } else {
        assert(s.subrange(0, j) =~= s);
    }
}

/// Reads `s` as an `i64` literal, as `str::parse::<i64>` does.
pub fn parse_int(s: &Vec<char>) -> (r: Option<i64>)
    ensures
        r == int_value(s@),
{
    let n = s.len();
    let signed = n > 0 && (s[0] == '-' || s[0] == '+');
    let neg = signed && s[0] == '-';
    let start: usize = if signed { 1 } else { 0 };
    let ghost body = if signed { s@.drop_first() } else { s@ };
    if start == n {
        return None;
    }
    let mut v: i64 = 0;
    let mut i: usize = start;
    while i < n
        invariant
            start <= i <= n,
            n == s@.len(),
            signed == (s@.len() > 0 && (s@[0] == '-' || s@[0] == '+')),
            neg == (signed && s@[0] == '-'),
            start == (if signed { 1usize } else { 0usize }),
            body == (if signed { s@.drop_first() } else { s@ }),
            body == s@.subrange(start as int, n as int),
            all_ascii_digits(body.subrange(0, i - start)),
            v == (if neg { -decimal(body.subrange(0, i - start)) } else { decimal(body.subrange(0, i - start)) }),
        decreases n - i,
    {
        let c = s[i];
        if !('0' <= c && c <= '9') {
            proof {
                assert(body[i - start] == c);
                assert(!ascii_digit(body[i - start]));
                assert(!all_ascii_digits(body));
            }
            return None;
        }
        let d = (c as u32 - '0' as u32) as i64;
        let ghost pre = body.subrange(0, i - start);
        let ghost next = body.subrange(0, i - start + 1);
        proof {
            assert(next.drop_last() =~= pre);
            assert(next.last() == c);
        }
        let step = v.checked_mul(10);
        let nv = match step {
            Some(m) => if neg { m.checked_sub(d) } else { m.checked_add(d) },
            None => None,
        };
        match nv {
            Some(x) => {
                v = x;
            },
            None => {
                proof {
                    lemma_decimal_nonneg(pre);
                    if all_ascii_digits(body) {
                        assert(body.subrange(0, i - start + 1) =~= next);
                        lemma_decimal_prefix(body, i - start + 1);
                        assert(decimal(next) == decimal(pre) * 10 + d);
                        assert(decimal(body) >= decimal(next));
                        if neg {
                            assert(-decimal(next) < i64::MIN);
                        } else {
                            assert(decimal(next) > i64::MAX);
                        }
                    }
                    assert(int_value(s@) is None);
                }
                return None;
            },
        }
        i = i + 1;
        proof {
            assert(all_ascii_digits(body.subrange(0, i - start))) by {
                assert(body.subrange(0, i - start) =~= next);
            }
        }
    }
    proof {
        assert(body.subrange(0, n - start) =~= body);
    }
    Some(v)
}

} // verus!

verus! {

/// `s` without its leading white space.
pub open spec fn trim_start(s: Seq<char>) -> Seq<char>
    decreases s.len(),
{
    if s.len() > 0 && white_space(s[0]) {
        trim_start(s.drop_first())
    } else {
        s
    }
}

/// `s` without its trailing white space.
pub open spec fn trim_end(s: Seq<char>) -> Seq<char>
    decreases s.len(),
{
    if s.len() > 0 && white_space(s.last()) {
        trim_end(s.drop_last())
    } else {
        s
    }
}

/// `s` without white space at either end, as `str::trim` gives it.
pub open spec fn trim(s: Seq<char>) -> Seq<char> {
    trim_end(trim_start(s))
}

/// The pieces of `s[start..]` between occurrences of `sep`, scanning from `i`;
/// with `keep_last`, the piece after the last separator is kept even when empty.
pub open spec fn pieces(s: Seq<char>, sep: char, keep_last: bool, i: int, start: int) -> Seq<Seq<char>>
    decreases s.len() - i,
{
    if i >= s.len() {
        if keep_last || start < s.len() {
            seq![s.subrange(start, s.len() as int)]
        } else {
            seq![]
        }
    } else if s[i] == sep {
        seq![s.subrange(start, i)] + pieces(s, sep, keep_last, i + 1, i + 1)
    } else {
        pieces(s, sep, keep_last, i + 1, start)
    }
}

/// The lines of a text as `str::lines` yields them: split at `\n`, with no
/// empty line after a final `\n`. A `\r` before the `\n` stays in the line;
/// the grammar trims every line, which removes it.
pub open spec fn lines_of(s: Seq<char>) -> Seq<Seq<char>> {
    pieces(s, '\n', false, 0, 0)
}

/// The comma-separated parts of a text as `str::split(',')` yields them.
pub open spec fn comma_parts(s: Seq<char>) -> Seq<Seq<char>> {
    pieces(s, ',', true, 0, 0)
}

/// The characters of a string, one by one.
pub fn chars_of(s: &str) -> (r: Vec<char>)
    ensures
        r@ == s@,
{
    let n = s.unicode_len();
    let mut r: Vec<char> = Vec::new();
    let mut i: usize = 0;
    while i < n
        invariant
            i <= n,
            n == s@.len(),
            r@ == s@.subrange(0, i as int),
        decreases n - i,
    {
        r.push(s.get_char(i));
        i = i + 1;
        assert(r@ =~= s@.subrange(0, i as int));
    }
    assert(r@ =~= s@);
    r
}

/// A copy of `s[lo..hi]`.
pub fn slice_chars(s: &Vec<char>, lo: usize, hi: usize) -> (r: Vec<char>)
    requires
        lo <= hi <= s@.len(),
    ensures
        r@ == s@.subrange(lo as int, hi as int),
{
    let mut r: Vec<char> = Vec::new();
    let mut i: usize = lo;
    while i < hi
        invariant
            lo <= i <= hi <= s@.len(),
            r@ == s@.subrange(lo as int, i as int),
        decreases hi - i,
    {
        r.push(s[i]);
        i = i + 1;
        assert(r@ =~= s@.subrange(lo as int, i as int));
    }
    r
}

/// The span `(a, b)` of `s[lo..hi]` that is left after trimming.
pub fn trim_span(s: &Vec<char>, lo: usize, hi: usize) -> (r: (usize, usize))
    requires
        lo <= hi <= s@.len(),
    ensures
        lo <= r.0 <= r.1 <= hi,
        s@.subrange(r.0 as int, r.1 as int) == trim(s@.subrange(lo as int, hi as int)),
{
    let ghost whole = s@.subrange(lo as int, hi as int);
    let mut a: usize = lo;
    while a < hi && is_space(s[a])
        invariant
            lo <= a <= hi <= s@.len(),
            whole == s@.subrange(lo as int, hi as int),
            trim_start(whole) == trim_start(s@.subrange(a as int, hi as int)),
        decreases hi - a,
    {
        assert(s@.subrange(a as int, hi as int).drop_first() =~= s@.subrange(a + 1, hi as int));
        a = a + 1;
    }
    let mut b: usize = hi;
    while b > a && is_space(s[b - 1])
        invariant
            lo <= a <= b <= hi <= s@.len(),
            trim_start(whole) == s@.subrange(a as int, hi as int),
            trim(whole) == trim_end(s@.subrange(a as int, b as int)),
        decreases b - a,
    {
        assert(s@.subrange(a as int, b as int).drop_last() =~= s@.subrange(a as int, b - 1));
        b = b - 1;
    }
    (a, b)
}

/// The texts of the spans `v` of `s`.
pub open spec fn span_texts(s: Seq<char>, v: Seq<(usize, usize)>) -> Seq<Seq<char>> {
    Seq::new(v.len(), |k: int| s.subrange(v[k].0 as int, v[k].1 as int))
}

/// The spans of the pieces of `s` between occurrences of `sep`.
pub fn piece_spans(s: &Vec<char>, sep: char, keep_last: bool) -> (r: Vec<(usize, usize)>)
    ensures
        r@.len() == pieces(s@, sep, keep_last, 0, 0).len(),
        forall|k: int|
            0 <= k < r@.len() ==> {
                &&& (#[trigger] r@[k]).0 <= r@[k].1 <= s@.len()
                &&& s@.subrange(r@[k].0 as int, r@[k].1 as int) == pieces(s@, sep, keep_last, 0, 0)[k]
            },
{
    let n = s.len();
    let mut r: Vec<(usize, usize)> = Vec::new();
    let mut i: usize = 0;
    let mut start: usize = 0;
    while i < n
        invariant
            start <= i <= n,
            n == s@.len(),
            forall|k: int| 0 <= k < r@.len() ==> (#[trigger] r@[k]).0 <= r@[k].1 <= s@.len(),
            pieces(s@, sep, keep_last, 0, 0) == span_texts(s@, r@) + pieces(s@, sep, keep_last, i as int, start as int),
        decreases n - i,
    {
        if s[i] == sep {
            let ghost before = span_texts(s@, r@);
            r.push((start, i));
            assert(span_texts(s@, r@) =~= before + seq![s@.subrange(start as int, i as int)]);
            start = i + 1;
        }
        i = i + 1;
    }
    let ghost tail = pieces(s@, sep, keep_last, n as int, start as int);
    if keep_last || start < n {
        assert(tail == seq![s@.subrange(start as int, n as int)]);
        let ghost before = span_texts(s@, r@);
        r.push((start, n));
        assert(span_texts(s@, r@) =~= before + seq![s@.subrange(start as int, n as int)]);
    } else {
        assert(tail == Seq::<Seq<char>>::empty());
        assert(span_texts(s@, r@) + tail =~= span_texts(s@, r@));
    }
    assert(pieces(s@, sep, keep_last, 0, 0) =~= span_texts(s@, r@));
    r
}

} // verus!
