//! Character-level helpers for reading pattern text: whitespace classes,
//! trimming, splitting on a separator and decimal numbers.
use vstd::prelude::*;

verus! {

/// Unicode `White_Space`, the class that `char::is_whitespace` tests.
pub open spec fn is_white(c: char) -> bool {
    let u = c as u32;
    (0x09 <= u && u <= 0x0d) || u == 0x20 || u == 0x85 || u == 0xa0 || u == 0x1680 || (0x2000
        <= u && u <= 0x200a) || u == 0x2028 || u == 0x2029 || u == 0x202f || u == 0x205f || u
        == 0x3000
}

/// ASCII whitespace as `char::is_ascii_whitespace` defines it (no vertical tab).
pub open spec fn is_ascii_white(c: char) -> bool {
    c == ' ' || c == '\t' || c == '\n' || c == '\x0C' || c == '\r'
}

pub open spec fn is_digit(c: char) -> bool {
    '0' as u32 <= c as u32 && c as u32 <= '9' as u32
}

pub open spec fn digit_value(c: char) -> nat {
    (c as u32 - '0' as u32) as nat
}

/// Value of a run of decimal digits.
pub open spec fn decimal_value(d: Seq<char>) -> nat
    decreases d.len(),
{
    if d.len() == 0 {
        0
    } else {
        decimal_value(d.drop_last()) * 10 + digit_value(d.last())
    }
}

pub open spec fn all_digits(d: Seq<char>) -> bool {
    forall|k: int| 0 <= k < d.len() ==> is_digit(#[trigger] d[k])
}

/// What `u32::from_str` gives: an optional `+`, then at least one digit, and a
/// value that fits.
pub open spec fn parse_u32_spec(t: Seq<char>) -> Option<u32> {
    if t.len() > 0 && t[0] == '+' {
        digits_u32(t.drop_first())
    } else {
        digits_u32(t)
    }
}

/// A non-empty run of digits whose value fits in `u32`.
pub open spec fn digits_u32(d: Seq<char>) -> Option<u32> {
    if d.len() > 0 && all_digits(d) && decimal_value(d) <= u32::MAX {
        Some(decimal_value(d) as u32)
    } else {
        None
    }
}

pub open spec fn trim_start(s: Seq<char>) -> Seq<char>
    decreases s.len(),
{
    if s.len() > 0 && is_white(s[0]) {
        trim_start(s.drop_first())
    } else {
        s
    }
}

pub open spec fn trim_end(s: Seq<char>) -> Seq<char>
    decreases s.len(),
{
    if s.len() > 0 && is_white(s.last()) {
        trim_end(s.drop_last())
    } else {
        s
    }
}

/// `s` without leading and trailing whitespace.
pub open spec fn trim(s: Seq<char>) -> Seq<char> {
    trim_end(trim_start(s))
}

/// What remains after trimming does not end with whitespace.
pub proof fn lemma_trim_last(s: Seq<char>)
    ensures
        trim(s).len() > 0 ==> !is_white(trim(s).last()),
{
    lemma_trim_end_last(trim_start(s));
}

proof fn lemma_trim_end_last(s: Seq<char>)
    ensures
        trim_end(s).len() > 0 ==> !is_white(trim_end(s).last()),
    decreases s.len(),
{
    if s.len() > 0 && is_white(s.last()) {
        lemma_trim_end_last(s.drop_last());
    }
}

/// `s` without any leading `c`.
pub open spec fn trim_start_char(s: Seq<char>, c: char) -> Seq<char>
    decreases s.len(),
{
    if s.len() > 0 && s[0] == c {
        trim_start_char(s.drop_first(), c)
    } else {
        s
    }
}

/// The pieces of `s` between occurrences of `sep`; always at least one.
pub open spec fn split(s: Seq<char>, sep: char) -> Seq<Seq<char>>
    decreases s.len(),
{
    if s.len() == 0 {
        seq![Seq::empty()]
    } else {
        let p = split(s.drop_last(), sep);
        if s.last() == sep {
            p.push(Seq::empty())
        } else {
            p.update(p.len() - 1, p.last().push(s.last()))
        }
    }
}

pub proof fn lemma_split_nonempty(s: Seq<char>, sep: char)
    ensures
        split(s, sep).len() >= 1,
    decreases s.len(),
{
    if s.len() > 0 {
        lemma_split_nonempty(s.drop_last(), sep);
    }
}

/// One more character extends the last piece, or starts a new one at `sep`.
pub proof fn lemma_split_extend(s: Seq<char>, i: int, sep: char)
    requires
        0 <= i < s.len(),
    ensures
        split(s.subrange(0, i), sep).len() >= 1,
        s[i] == sep ==> split(s.subrange(0, i + 1), sep) == split(s.subrange(0, i), sep).push(
            Seq::empty(),
        ),
        s[i] != sep ==> split(s.subrange(0, i + 1), sep).drop_last() == split(
            s.subrange(0, i),
            sep,
        ).drop_last(),
        s[i] != sep ==> split(s.subrange(0, i + 1), sep).last() == split(
            s.subrange(0, i),
            sep,
        ).last().push(s[i]),
        split(s.subrange(0, i + 1), sep).len() >= 1,
{
    lemma_split_nonempty(s.subrange(0, i), sep);
    lemma_split_nonempty(s.subrange(0, i + 1), sep);
    assert(s.subrange(0, i + 1).drop_last() =~= s.subrange(0, i));
    let p = split(s.subrange(0, i), sep);
    if s[i] != sep {
        assert(p.update(p.len() - 1, p.last().push(s[i])).drop_last() =~= p.drop_last());
    }
}

/// A longer run of digits never has a smaller value than its prefix.
pub proof fn lemma_decimal_prefix(d: Seq<char>, k: int)
    requires
        0 <= k <= d.len(),
    ensures
        decimal_value(d.subrange(0, k)) <= decimal_value(d),
    decreases d.len(),
{
    if k < d.len() {
        assert(d.drop_last().subrange(0, k) =~= d.subrange(0, k));
        lemma_decimal_prefix(d.drop_last(), k);
    } else {
        assert(d.subrange(0, k) =~= d);
    }
}

/// Whether `c` is whitespace in the sense of `char::is_whitespace`.
pub fn is_whitespace(c: char) -> (r: bool)
    ensures
        r == is_white(c),
{
    let u = c as u32;
    (0x09 <= u && u <= 0x0d) || u == 0x20 || u == 0x85 || u == 0xa0 || u == 0x1680 || (0x2000
        <= u && u <= 0x200a) || u == 0x2028 || u == 0x2029 || u == 0x202f || u == 0x205f || u
        == 0x3000
}

pub fn is_ascii_digit(c: char) -> (r: bool)
    ensures
        r == is_digit(c),
{
    '0' as u32 <= c as u32 && c as u32 <= '9' as u32
}

/// Bounds of `s[lo..hi]` once leading and trailing whitespace are removed.
pub fn trim_range(s: &Vec<char>, lo: usize, hi: usize) -> (r: (usize, usize))
    requires
        lo <= hi <= s@.len(),
    ensures
        lo <= r.0 <= r.1 <= hi,
        s@.subrange(r.0 as int, r.1 as int) == trim(s@.subrange(lo as int, hi as int)),
{
    let mut a = lo;
    while a < hi && is_whitespace(s[a])
        invariant
            lo <= a <= hi,
            hi <= s@.len(),
            trim_start(s@.subrange(lo as int, hi as int)) == trim_start(
                s@.subrange(a as int, hi as int),
            ),
        decreases hi - a,
    {
        assert(s@.subrange(a as int, hi as int).drop_first() =~= s@.subrange(a + 1, hi as int));
        a = a + 1;
    }
    let mut b = hi;
    while b > a && is_whitespace(s[b - 1])
        invariant
            lo <= a <= b <= hi,
            hi <= s@.len(),
            trim_end(s@.subrange(a as int, hi as int)) == trim_end(s@.subrange(a as int, b as int)),
        decreases b - a,
    {
        assert(s@.subrange(a as int, b as int).drop_last() =~= s@.subrange(a as int, b - 1));
        b = b - 1;
    }
    (a, b)
}

/// Parses `s[lo..hi]` as `u32::from_str` would: an optional `+` and decimal
/// digits whose value fits.
pub fn parse_u32(s: &Vec<char>, lo: usize, hi: usize) -> (r: Option<u32>)
    requires
        lo <= hi <= s@.len(),
    ensures
        r == parse_u32_spec(s@.subrange(lo as int, hi as int)),
{
    let ghost t = s@.subrange(lo as int, hi as int);
    let mut start = lo;
    if start < hi && s[start] == '+' {
        start = start + 1;
    }
    let ghost d = s@.subrange(start as int, hi as int);
    proof {
        if t.len() > 0 && t[0] == '+' {
            assert(d =~= t.drop_first());
        } else {
            assert(d =~= t);
        }
        assert(parse_u32_spec(t) == digits_u32(d));
    }
    if start == hi {
        assert(d.len() == 0);
        return None;
    }
    let mut k = start;
    while k < hi
        invariant
            start <= k <= hi,
            hi <= s@.len(),
            d == s@.subrange(start as int, hi as int),
            parse_u32_spec(s@.subrange(lo as int, hi as int)) == digits_u32(d),
            forall|j: int| start <= j < k ==> is_digit(#[trigger] s@[j]),
        decreases hi - k,
    {
        if !is_ascii_digit(s[k]) {
            assert(!is_digit(d[k - start]));
            assert(!all_digits(d));
            return None;
        }
        k = k + 1;
    }
    assert(all_digits(d));
    let mut value: u64 = 0;
    let mut k = start;
    while k < hi
        invariant
            start <= k <= hi,
            hi <= s@.len(),
            d == s@.subrange(start as int, hi as int),
            parse_u32_spec(s@.subrange(lo as int, hi as int)) == digits_u32(d),
            d.len() > 0,
            all_digits(d),
            value == decimal_value(d.subrange(0, k - start)),
            value <= u32::MAX,
        decreases hi - k,
    {
        assert(d.subrange(0, k - start + 1).drop_last() =~= d.subrange(0, k - start));
        let c = s[k];
        assert(c == d[k - start]);
        assert(is_digit(c));
        let dv = (c as u32 - '0' as u32) as u64;
        assert(d.subrange(0, k - start + 1).last() == c);
        assert(decimal_value(d.subrange(0, k - start + 1)) == decimal_value(d.subrange(0, k - start)) * 10 + digit_value(c));
        value = value * 10 + dv;
        k = k + 1;
        if value > u32::MAX as u64 {
            proof {
                lemma_decimal_prefix(d, k - start);
                assert(decimal_value(d) > u32::MAX);
                }
            return None;
        }
    }
    assert(d.subrange(0, hi - start) =~= d);
    Some(value as u32)
}

/// The characters of `s`, in order.
pub fn chars_of(s: &str) -> (r: Vec<char>)
    ensures
        r@ == s@,
{
    let mut out: Vec<char> = Vec::new();
    for c in it: s.chars()
        invariant
            out@ == it.seq().subrange(0, it.index() as int),
            it.seq() == s@,
    {
        out.push(c);
    }
    out
}

} // verus!
