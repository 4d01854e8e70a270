//! Character-level building blocks of the table format: splitting on a
//! separator, splitting into lines, and reading and writing base-ten integers.
//!
//! Every executable function here works on a `Vec<char>` and a half-open range
//! of positions in it, so that a whole table can be taken apart without copying
//! any of its text. The meaning of each function is given by a specification
//! function on `Seq<char>`.

use vstd::prelude::*;
use vstd::string::*;

verus! {

/// Position of the first `c` in `s`, or `s.len()` when `s` holds none.
pub open spec fn first_index(s: Seq<char>, c: char) -> int
    decreases s.len(),
{
    if s.len() == 0 || s[0] == c {
        0
    } else {
        1 + first_index(s.drop_first(), c)
    }
}

/// `first_index` lies within `0..=s.len()`, nothing before it equals `c`, and
/// where it is a position of `s`, that position holds `c`.
pub proof fn lemma_first_index(s: Seq<char>, c: char)
    ensures
        0 <= first_index(s, c) <= s.len(),
        forall|j: int| 0 <= j < first_index(s, c) ==> s[j] != c,
        first_index(s, c) < s.len() ==> s[first_index(s, c)] == c,
    decreases s.len(),
{
    if s.len() == 0 || s[0] == c {
    } else {
        let t = s.drop_first();
        lemma_first_index(t, c);
        assert forall|j: int| 0 <= j < first_index(s, c) implies s[j] != c by {
            if j > 0 {
                assert(s[j] == t[j - 1]);
            }
        }
        if first_index(t, c) < t.len() {
            assert(t[first_index(t, c)] == s[first_index(t, c) + 1]);
        }
    }
}

/// A position that holds the first `c`, or the length when there is no `c`, is
/// what `first_index` returns.
pub proof fn lemma_first_index_is(s: Seq<char>, c: char, i: int)
    requires
        0 <= i <= s.len(),
        forall|j: int| 0 <= j < i ==> s[j] != c,
        i < s.len() ==> s[i] == c,
    ensures
        first_index(s, c) == i,
{
    lemma_first_index(s, c);
    let f = first_index(s, c);
    if f < i {
        assert(s[f] == c);
    } else if i < f {
        assert(s[i] == c);
    }
}

/// The pieces of `s` between occurrences of `sep`. There is always at least
/// one piece; two adjacent separators enclose an empty piece.
pub open spec fn split(s: Seq<char>, sep: char) -> Seq<Seq<char>>
    decreases s.len(),
{
    let i = first_index(s, sep);
    if 0 <= i < s.len() {
        seq![s.take(i)] + split(s.skip(i + 1), sep)
    } else {
        seq![s]
    }
}

/// A line without the carriage return that preceded its line feed.
pub open spec fn strip_cr(line: Seq<char>) -> Seq<char> {
    if line.len() > 0 && line.last() == '\r' {
        line.drop_last()
    } else {
        line
    }
}

/// The lines of `s`. A line ends at a line feed, or at a carriage return
/// directly followed by one; the terminator is not part of the line. The last
/// line needs no terminator, and a terminator at the very end does not start
/// another, empty line.
pub open spec fn lines(s: Seq<char>) -> Seq<Seq<char>>
    decreases s.len(),
{
    let i = first_index(s, '\n');
    if s.len() == 0 {
        Seq::empty()
    } else if 0 <= i < s.len() {
        seq![strip_cr(s.take(i))] + lines(s.skip(i + 1))
    } else {
        seq![s]
    }
}

/// The subranges of `s` that `ranges` delimits, in order.
pub open spec fn pieces(s: Seq<char>, ranges: Seq<(usize, usize)>) -> Seq<Seq<char>> {
    Seq::new(ranges.len(), |k: int| s.subrange(ranges[k].0 as int, ranges[k].1 as int))
}

/// Every range is well-formed and lies within `lo..hi`.
pub open spec fn ranges_within(ranges: Seq<(usize, usize)>, lo: int, hi: int) -> bool {
    forall|k: int| 0 <= k < ranges.len() ==> lo <= (#[trigger] ranges[k]).0 <= ranges[k].1 <= hi
}

/// The characters of a string slice, in order.
pub fn chars_of(s: &str) -> (out: Vec<char>)
    ensures
        out@ == s@,
{
    let mut out: Vec<char> = Vec::new();
    for c in it: s.chars()
        invariant
            out@ == it.seq().take(it.index() as int),
    {
        out.push(c);
    }
    out
}

/// Finds the first `c` at or after `lo` and before `hi`; returns `hi` when
/// there is none.
pub fn find_char(s: &Vec<char>, lo: usize, hi: usize, c: char) -> (at: usize)
    requires
        lo <= hi <= s.len(),
    ensures
        at == lo + first_index(s@.subrange(lo as int, hi as int), c),
        lo <= at <= hi,
{
    let mut j: usize = lo;
    while j < hi && s[j] != c
        invariant
            lo <= j <= hi <= s.len(),
            forall|k: int| lo <= k < j ==> s[k] != c,
        decreases hi - j,
    {
        j += 1;
    }
    proof {
        lemma_first_index_is(s@.subrange(lo as int, hi as int), c, j - lo);
    }
    j
}

/// Splits the text between `lo` and `hi` on `sep`.
pub fn split_ranges(s: &Vec<char>, lo: usize, hi: usize, sep: char) -> (out: Vec<(usize, usize)>)
    requires
        lo <= hi <= s.len(),
    ensures
        pieces(s@, out@) == split(s@.subrange(lo as int, hi as int), sep),
        ranges_within(out@, lo as int, hi as int),
{
    let mut out: Vec<(usize, usize)> = Vec::new();
    let mut start: usize = lo;
    loop
        invariant_except_break
            lo <= start <= hi <= s.len(),
            ranges_within(out@, lo as int, hi as int),
            split(s@.subrange(lo as int, hi as int), sep) == pieces(s@, out@) + split(
                s@.subrange(start as int, hi as int),
                sep,
            ),
        ensures
            pieces(s@, out@) == split(s@.subrange(lo as int, hi as int), sep),
            ranges_within(out@, lo as int, hi as int),
        decreases hi - start,
    {
        let at = find_char(s, start, hi, sep);
        let ghost rest = s@.subrange(start as int, hi as int);
        let ghost before = pieces(s@, out@);
        out.push((start, at));
        proof {
            assert(rest.take(at - start) == s@.subrange(start as int, at as int));
            assert(pieces(s@, out@) == before + seq![s@.subrange(start as int, at as int)]);
            if at < hi {
                assert(rest.skip(at - start + 1) == s@.subrange(at + 1, hi as int));
            } else {
                assert(rest == s@.subrange(start as int, at as int));
            }
        }
        if at == hi {
            break ;
        }
        start = at + 1;
    }
    out
}

/// Splits the whole text into its lines.
pub fn line_ranges(s: &Vec<char>) -> (out: Vec<(usize, usize)>)
    ensures
        pieces(s@, out@) == lines(s@),
        ranges_within(out@, 0, s.len() as int),
{
    let mut out: Vec<(usize, usize)> = Vec::new();
    let n: usize = s.len();
    let mut start: usize = 0;
    assert(s@.subrange(0, n as int) == s@);
    while start < n
        invariant
            start <= n == s.len(),
            ranges_within(out@, 0, n as int),
            lines(s@) == pieces(s@, out@) + lines(s@.subrange(start as int, n as int)),
        decreases n - start,
    {
        let at = find_char(s, start, n, '\n');
        let ghost rest = s@.subrange(start as int, n as int);
        let ghost before = pieces(s@, out@);
        if at < n {
            let end: usize = if at > start && s[at - 1] == '\r' {
                at - 1
            } else {
                at
            };
            out.push((start, end));
            proof {
                assert(rest.take(at - start) == s@.subrange(start as int, at as int));
                assert(strip_cr(s@.subrange(start as int, at as int)) == s@.subrange(
                    start as int,
                    end as int,
                ));
                assert(pieces(s@, out@) == before + seq![s@.subrange(start as int, end as int)]);
                assert(rest.skip(at - start + 1) == s@.subrange(at + 1, n as int));
            }
            start = at + 1;
        } else {
            out.push((start, n));
            proof {
                assert(pieces(s@, out@) == before + seq![rest]);
                assert(lines(s@.subrange(n as int, n as int)) == Seq::<Seq<char>>::empty());
            }
            start = n;
        }
    }
    out
}

/// Whether the text between `lo` and `hi` is exactly `pattern`.
pub fn range_is(s: &Vec<char>, lo: usize, hi: usize, pattern: &Vec<char>) -> (out: bool)
    requires
        lo <= hi <= s.len(),
    ensures
        out == (s@.subrange(lo as int, hi as int) == pattern@),
{
    let ghost text = s@.subrange(lo as int, hi as int);
    if hi - lo != pattern.len() {
        return false;
    }
    let mut k: usize = 0;
    while k < pattern.len()
        invariant
            lo <= hi <= s.len(),
            hi - lo == pattern.len(),
            k <= pattern.len(),
            text == s@.subrange(lo as int, hi as int),
            forall|j: int| 0 <= j < k ==> text[j] == pattern[j],
        decreases pattern.len() - k,
    {
        if s[lo + k] != pattern[k] {
            assert(text[k as int] != pattern[k as int]);
            return false;
        }
        k += 1;
    }
    assert(text =~= pattern@);
    true
}

/// Whether `c` is one of the ten decimal digits.
pub open spec fn is_digit(c: char) -> bool {
    '0' <= c <= '9'
}

/// The number that the digit `c` stands for.
pub open spec fn digit_value(c: char) -> int {
    c as int - '0' as int
}

/// The character for the digit `d`, for `d` in `0..=9`.
pub open spec fn digit_char(d: int) -> char {
    (d + '0' as int) as char
}

/// Whether `s` holds decimal digits only.
pub open spec fn all_digits(s: Seq<char>) -> bool {
    forall|i: int| 0 <= i < s.len() ==> is_digit(#[trigger] s[i])
}

/// The number that a string of digits denotes in base ten, leading zeros
/// allowed; zero for the empty string.
pub open spec fn digits_value(s: Seq<char>) -> int
    decreases s.len(),
{
    if s.len() == 0 {
        0
    } else {
        digits_value(s.drop_last()) * 10 + digit_value(s.last())
    }
}

/// The integer that `s` denotes: an optional `+` or `-`, then one or more
/// decimal digits and nothing else. `None` for any other text.
pub open spec fn parse_int(s: Seq<char>) -> Option<int> {
    if s.len() > 0 && (s[0] == '-' || s[0] == '+') {
        let digits = s.skip(1);
        if digits.len() > 0 && all_digits(digits) {
            Some(
                if s[0] == '-' {
                    -digits_value(digits)
                } else {
                    digits_value(digits)
                },
            )
        } else {
            None
        }
    } else if s.len() > 0 && all_digits(s) {
        Some(digits_value(s))
    } else {
        None
    }
}

/// The 32-bit integer that `s` denotes; `None` where `s` is no integer or
/// denotes one outside the 32-bit range.
pub open spec fn parse_i32(s: Seq<char>) -> Option<i32> {
    match parse_int(s) {
        Some(v) => if i32::MIN <= v <= i32::MAX {
            Some(v as i32)
        } else {
            None
        },
        None => None,
    }
}

/// A string of digits denotes at least as much as any of its prefixes, and
/// never a negative number.
pub proof fn lemma_digits_value_prefix(s: Seq<char>, n: int)
    requires
        all_digits(s),
        0 <= n <= s.len(),
    ensures
        0 <= digits_value(s.take(n)) <= digits_value(s),
    decreases s.len(),
{
    if n == s.len() {
        assert(s.take(n) == s);
        if n > 0 {
            assert(is_digit(s[n - 1]));
            assert(s.drop_last() == s.drop_last().take(n - 1));
            lemma_digits_value_prefix(s.drop_last(), n - 1);
        }
    } else {
        assert(is_digit(s[s.len() - 1]));
        assert(s.drop_last().take(n) == s.take(n));
        lemma_digits_value_prefix(s.drop_last(), n);
    }
}

/// Reads the text between `lo` and `hi` as a 32-bit integer.
pub fn parse_i32_range(s: &Vec<char>, lo: usize, hi: usize) -> (out: Option<i32>)
    requires
        lo <= hi <= s.len(),
    ensures
        out == parse_i32(s@.subrange(lo as int, hi as int)),
{
    let ghost text = s@.subrange(lo as int, hi as int);
    if lo == hi {
        return None;
    }
    let negative: bool = s[lo] == '-';
    let start: usize = if s[lo] == '-' || s[lo] == '+' {
        lo + 1
    } else {
        lo
    };
    let ghost digits = s@.subrange(start as int, hi as int);
    assert(text[0] == s[lo as int]);
    assert(start > lo ==> digits == text.skip(1));
    assert(start == lo ==> digits == text);
    if start == hi {
        return None;
    }
    let mut acc: i64 = 0;
    let mut j: usize = start;
    while j < hi
        invariant
            start <= j <= hi <= s.len(),
            digits == s@.subrange(start as int, hi as int),
            text == s@.subrange(lo as int, hi as int),
            all_digits(digits.take(j - start)),
            acc == digits_value(digits.take(j - start)),
            0 <= acc <= 0x8000_0000,
            !all_digits(digits) ==> parse_i32(text) is None,
            digits_value(digits) > 0x8000_0000 ==> parse_i32(text) is None,
        decreases hi - j,
    {
        let c: char = s[j];
        if c < '0' || c > '9' {
            assert(!is_digit(digits[j - start]));
            return None;
        }
        let d: i64 = (c as u32 - '0' as u32) as i64;
        acc = acc * 10 + d;
        proof {
            let next = digits.take(j - start + 1);
            assert(next.drop_last() == digits.take(j - start));
            assert(next.last() == c);
            assert(all_digits(next)) by {
                assert forall|i: int| 0 <= i < next.len() implies is_digit(#[trigger] next[i]) by {
                    if i < next.len() - 1 {
                        assert(next[i] == digits.take(j - start)[i]);
                    }
                }
            }
        }
        if acc > 0x8000_0000 {
            proof {
                if all_digits(digits) {
                    lemma_digits_value_prefix(digits, j - start + 1);
                }
            }
            return None;
        }
        j += 1;
    }
    assert(digits.take(hi - start) == digits);
    if negative {
        Some((-acc) as i32)
    } else if acc > 0x7fff_ffff {
        None
    } else {
        Some(acc as i32)
    }
}

/// The decimal digits of a natural number, most significant first, without
/// leading zeros; zero is the single digit `0`.
pub open spec fn decimal_nat(n: nat) -> Seq<char>
    decreases n,
{
    if n < 10 {
        seq![digit_char(n as int)]
    } else {
        decimal_nat(n / 10).push(digit_char((n % 10) as int))
    }
}

/// The decimal text of an integer: a `-` for a negative number, then the
/// digits of its magnitude.
pub open spec fn decimal(n: int) -> Seq<char> {
    if n < 0 {
        seq!['-'] + decimal_nat((-n) as nat)
    } else {
        decimal_nat(n as nat)
    }
}

/// The one-character text of a digit.
fn digit_str(d: u64) -> (out: &'static str)
    requires
        d < 10,
    ensures
        out@ == seq![digit_char(d as int)],
{
    proof {
        reveal_strlit("0");
        reveal_strlit("1");
        reveal_strlit("2");
        reveal_strlit("3");
        reveal_strlit("4");
        reveal_strlit("5");
        reveal_strlit("6");
        reveal_strlit("7");
        reveal_strlit("8");
        reveal_strlit("9");
    }
    let out: &'static str = match d {
        0 => "0",
        1 => "1",
        2 => "2",
        3 => "3",
        4 => "4",
        5 => "5",
        6 => "6",
        7 => "7",
        8 => "8",
        _ => "9",
    };
    assert(out@ =~= seq![digit_char(d as int)]);
    out
}

/// Appends the decimal digits of `n` to `out`.
pub fn push_decimal_nat(out: &mut String, n: u64)
    ensures
        final(out)@ == old(out)@ + decimal_nat(n as nat),
    decreases n,
{
    if n >= 10 {
        push_decimal_nat(out, n / 10);
    }
    out.append(digit_str(n % 10));
    proof {
        let d = seq![digit_char((n % 10) as int)];
        if n >= 10 {
            assert(old(out)@ + decimal_nat((n / 10) as nat) + d == old(out)@ + decimal_nat(
                n as nat,
            ));
        }
    }
}

/// Appends the decimal text of `n` to `out`.
pub fn push_decimal(out: &mut String, n: i32)
    ensures
        final(out)@ == old(out)@ + decimal(n as int),
{
    if n < 0 {
        proof {
            reveal_strlit("-");
        }
        out.append("-");
        let magnitude: i64 = -(n as i64);
        push_decimal_nat(out, magnitude as u64);
        assert(old(out)@ + "-"@ + decimal_nat((-n) as nat) == old(out)@ + decimal(n as int));
    } else {
        push_decimal_nat(out, n as u64);
    }
}

/// Text that holds no `sep` is a single piece.
pub proof fn lemma_split_none(a: Seq<char>, sep: char)
    requires
        forall|i: int| 0 <= i < a.len() ==> a[i] != sep,
    ensures
        split(a, sep) == seq![a],
{
    lemma_first_index_is(a, sep, a.len() as int);
}

/// Where `a` holds no `sep`, the pieces of `a`, a separator and `b` are `a`
/// and then the pieces of `b`.
pub proof fn lemma_split_first(a: Seq<char>, b: Seq<char>, sep: char)
    requires
        forall|i: int| 0 <= i < a.len() ==> a[i] != sep,
    ensures
        split(a + seq![sep] + b, sep) == seq![a] + split(b, sep),
{
    let s = a + seq![sep] + b;
    lemma_first_index_is(s, sep, a.len() as int);
    assert(s.take(a.len() as int) == a);
    assert(s.skip(a.len() as int + 1) == b);
}

/// A non-empty text without a line feed is a single line.
pub proof fn lemma_lines_single(l: Seq<char>)
    requires
        l.len() > 0,
        forall|i: int| 0 <= i < l.len() ==> l[i] != '\n',
    ensures
        lines(l) == seq![l],
{
    lemma_first_index_is(l, '\n', l.len() as int);
}

/// A carriage return, a line feed and one more line behind a text that does
/// not end in a line feed add that line to the lines of the text.
pub proof fn lemma_lines_append(t: Seq<char>, l: Seq<char>)
    requires
        t.len() > 0,
        t.last() != '\n',
        l.len() > 0,
        forall|i: int| 0 <= i < l.len() ==> l[i] != '\n',
    ensures
        lines(t + seq!['\r', '\n'] + l) == lines(t).push(l),
    decreases t.len(),
{
    let whole = t + seq!['\r', '\n'] + l;
    let i = first_index(t, '\n');
    lemma_first_index(t, '\n');
    if i < t.len() {
        let rest = t.skip(i + 1);
        lemma_first_index_is(whole, '\n', i);
        assert(whole.take(i) == t.take(i));
        assert(whole.skip(i + 1) == rest + seq!['\r', '\n'] + l);
        assert(rest.last() == t.last());
        lemma_lines_append(rest, l);
        assert(lines(whole) == seq![strip_cr(t.take(i))] + lines(rest).push(l));
        assert(lines(t) == seq![strip_cr(t.take(i))] + lines(rest));
        assert(seq![strip_cr(t.take(i))] + lines(rest).push(l) == (seq![strip_cr(t.take(i))]
            + lines(rest)).push(l));
    } else {
        lemma_first_index_is(whole, '\n', t.len() as int + 1);
        let head = whole.take(t.len() as int + 1);
        assert(head == t.push('\r'));
        assert(strip_cr(head) == t);
        assert(whole.skip(t.len() as int + 2) == l);
        lemma_lines_single(l);
        assert(seq![t] + seq![l] == seq![t].push(l));
    }
}

/// The digits of a natural number are one or more decimal digits that denote
/// the number.
pub proof fn lemma_decimal_nat(n: nat)
    ensures
        decimal_nat(n).len() > 0,
        all_digits(decimal_nat(n)),
        digits_value(decimal_nat(n)) == n,
    decreases n,
{
    let s = decimal_nat(n);
    if n < 10 {
        assert(s.drop_last() == Seq::<char>::empty());
        assert(digits_value(s.drop_last()) == 0);
    } else {
        lemma_decimal_nat(n / 10);
        let init = decimal_nat(n / 10);
        assert(s.drop_last() == init);
        assert forall|i: int| 0 <= i < s.len() implies is_digit(#[trigger] s[i]) by {
            if i < init.len() {
                assert(s[i] == init[i]);
            }
        }
    }
}

/// The decimal text of an integer reads back as that integer, and holds
/// digits and `-` only.
pub proof fn lemma_parse_decimal(n: int)
    ensures
        parse_int(decimal(n)) == Some(n),
        decimal(n).len() > 0,
        forall|i: int|
            0 <= i < decimal(n).len() ==> is_digit(#[trigger] decimal(n)[i]) || decimal(n)[i]
                == '-',
        is_digit(decimal(n).last()),
{
    let s = decimal(n);
    if n < 0 {
        let digits = decimal_nat((-n) as nat);
        lemma_decimal_nat((-n) as nat);
        assert(s.skip(1) == digits);
        assert forall|i: int| 0 <= i < s.len() implies is_digit(#[trigger] s[i]) || s[i]
            == '-' by {
            if i > 0 {
                assert(s[i] == digits[i - 1]);
            }
        }
        assert(s.last() == digits.last());
    } else {
        lemma_decimal_nat(n as nat);
        assert(is_digit(s[0]));
    }
}

} // verus!
