//! A quick plausibility test for text that claims to be an RLE pattern, used
//! to sort downloaded files before anything tries to decode them.
use vstd::prelude::*;
use crate::text::{chars_of, is_white, lemma_split_extend, lemma_trim_last, split, trim, trim_range};

verus! {

/// `p` occurs in `s` at position `i`.
pub open spec fn occurs_at(s: Seq<char>, p: Seq<char>, i: int) -> bool {
    0 <= i && i + p.len() <= s.len() && s.subrange(i, i + p.len()) == p
}

pub open spec fn contains_seq(s: Seq<char>, p: Seq<char>) -> bool {
    exists|i: int| occurs_at(s, p, i)
}

/// Number of lines `str::lines` finds in text that does not end with a line
/// break.
pub open spec fn line_count(t: Seq<char>) -> nat {
    if t.len() == 0 {
        0
    } else {
        split(t, '\n').len()
    }
}

/// Text (once trimmed) looks like a pattern when it has an `x =` and a `y =`
/// field and a rule or a cell symbol, or starts with a `#N` or `#C` comment,
/// or holds a terminator and at least three lines.
pub open spec fn looks_like_rle(content: Seq<char>) -> bool {
    let t = trim(content);
    has_header_fields(t) || occurs_at(t, seq!['#', 'N'], 0) || occurs_at(t, seq!['#', 'C'], 0)
        || (t.contains('!') && line_count(t) >= 3)
}

/// `x =` and `y =` fields, and a rule or a cell symbol.
pub open spec fn has_header_fields(t: Seq<char>) -> bool {
    contains_seq(t, seq!['x', ' ', '=']) && contains_seq(t, seq!['y', ' ', '=']) && (contains_seq(
        t,
        seq!['r', 'u', 'l', 'e'],
    ) || t.contains('o') || t.contains('b'))
}

/// Whether `p` occurs in `s` at `i`, for `i` inside `s[lo..hi]`.
fn occurs_in(s: &Vec<char>, lo: usize, hi: usize, p: &Vec<char>, i: usize) -> (r: bool)
    requires
        lo <= i <= hi <= s@.len(),
    ensures
        r == occurs_at(s@.subrange(lo as int, hi as int), p@, i - lo),
{
    let ghost t = s@.subrange(lo as int, hi as int);
    if p.len() > hi - i {
        return false;
    }
    let mut k: usize = 0;
    while k < p.len()
        invariant
            lo <= i <= hi <= s@.len(),
            p@.len() <= hi - i,
            k <= p@.len(),
            t == s@.subrange(lo as int, hi as int),
            forall|j: int| 0 <= j < k ==> s@[i + j] == p@[j],
        decreases p@.len() - k,
    {
        if s[i + k] != p[k] {
            assert(t.subrange(i - lo, i - lo + p@.len())[k as int] != p@[k as int]);
            return false;
        }
        k = k + 1;
    }
    assert(t.subrange(i - lo, i - lo + p@.len()) =~= p@);
    true
}

/// Whether `p` occurs anywhere in `s[lo..hi]`.
fn contains_in(s: &Vec<char>, lo: usize, hi: usize, p: &Vec<char>) -> (r: bool)
    requires
        lo <= hi <= s@.len(),
    ensures
        r == contains_seq(s@.subrange(lo as int, hi as int), p@),
{
    let ghost t = s@.subrange(lo as int, hi as int);
    let mut i = lo;
    while i <= hi
        invariant
            lo <= i <= hi + 1,
            hi <= s@.len(),
            t == s@.subrange(lo as int, hi as int),
            forall|j: int| 0 <= j < i - lo ==> !occurs_at(t, p@, j),
        decreases hi + 1 - i,
    {
        if occurs_in(s, lo, hi, p, i) {
            return true;
        }
        if i == hi {
            assert forall|j: int| #[trigger] occurs_at(t, p@, j) implies false by {
                assert(j <= t.len());
            }
            return false;
        }
        i = i + 1;
    }
    false
}

fn chars2(a: char, b: char) -> (r: Vec<char>)
    ensures
        r@ == seq![a, b],
{
    let mut v = Vec::new();
    v.push(a);
    v.push(b);
    assert(v@ =~= seq![a, b]);
    v
}

fn chars3(a: char, b: char, c: char) -> (r: Vec<char>)
    ensures
        r@ == seq![a, b, c],
{
    let mut v = chars2(a, b);
    v.push(c);
    assert(v@ =~= seq![a, b, c]);
    v
}

fn has_char(s: &Vec<char>, lo: usize, hi: usize, c: char) -> (r: bool)
    requires
        lo <= hi <= s@.len(),
    ensures
        r == s@.subrange(lo as int, hi as int).contains(c),
{
    let ghost t = s@.subrange(lo as int, hi as int);
    let mut i = lo;
    while i < hi
        invariant
            lo <= i <= hi <= s@.len(),
            t == s@.subrange(lo as int, hi as int),
            forall|j: int| 0 <= j < i - lo ==> t[j] != c,
        decreases hi - i,
    {
        if s[i] == c {
            assert(t[i - lo] == c);
            return true;
        }
        i = i + 1;
    }
    false
}

/// Number of lines in `s[lo..hi]`, which must not end with a line break.
fn count_lines(s: &Vec<char>, lo: usize, hi: usize) -> (r: usize)
    requires
        lo <= hi <= s@.len(),
        lo < hi ==> s@[hi - 1] != '\n',
    ensures
        r == line_count(s@.subrange(lo as int, hi as int)),
{
    let ghost t = s@.subrange(lo as int, hi as int);
    if lo == hi {
        return 0;
    }
    let mut breaks: usize = 0;
    let mut i = lo;
    assert(t.subrange(0, 0) =~= Seq::<char>::empty());
    while i < hi
        invariant
            lo <= i <= hi <= s@.len(),
            t == s@.subrange(lo as int, hi as int),
            breaks <= i - lo,
            i > lo && s@[i - 1] != '\n' ==> breaks < i - lo,
            split(t.subrange(0, i - lo), '\n').len() == breaks + 1,
        decreases hi - i,
    {
        proof {
            lemma_split_extend(t, i - lo, '\n');
            assert(t[i - lo] == s@[i as int]);
        }
        if s[i] == '\n' {
            breaks = breaks + 1;
        } else {
            assert(split(t.subrange(0, i - lo + 1), '\n').drop_last().len() == split(
                t.subrange(0, i - lo),
                '\n',
            ).drop_last().len());
        }
        i = i + 1;
    }
    assert(t.subrange(0, hi - lo) =~= t);
    breaks + 1
}

/// Whether downloaded text is plausibly an RLE pattern (see `looks_like_rle`).
pub fn is_valid_rle_content(content: &str) -> (r: bool)
    ensures
        r == looks_like_rle(content@),
{
    let s = chars_of(content);
    let (lo, hi) = trim_range(&s, 0, s.len());
    proof {
        assert(s@.subrange(0, s@.len() as int) =~= s@);
        lemma_trim_last(s@);
        if lo < hi {
            let t = s@.subrange(lo as int, hi as int);
            assert(t.last() == s@[hi - 1]);
            assert(is_white('\n'));
        }
    }
    let x_field = contains_in(&s, lo, hi, &chars3('x', ' ', '='));
    let y_field = contains_in(&s, lo, hi, &chars3('y', ' ', '='));
    let mut rule = chars3('r', 'u', 'l');
    rule.push('e');
    assert(rule@ =~= seq!['r', 'u', 'l', 'e']);
    let fields = x_field && y_field && (contains_in(&s, lo, hi, &rule) || has_char(&s, lo, hi, 'o')
        || has_char(&s, lo, hi, 'b'));
    assert(fields == has_header_fields(trim(content@)));
    let named = occurs_in(&s, lo, hi, &chars2('#', 'N'), lo);
    let commented = occurs_in(&s, lo, hi, &chars2('#', 'C'), lo);
    let terminated = has_char(&s, lo, hi, '!') && count_lines(&s, lo, hi) >= 3;
    fields || named || commented || terminated
}

} // verus!
