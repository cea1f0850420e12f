//! Decoding of run-length encoded (RLE) Life patterns.
//!
//! A pattern file holds `#` comment lines, an optional header line
//! `x = <width>, y = <height>[, rule = ...]` and data lines. The data lines,
//! joined, form a stream of tokens: an optional decimal count (1 by default)
//! and one symbol, `o` alive, `b` dead, `$` end of row, `!` end of pattern.
//! Any other character is skipped, so messy files still decode.
use vstd::prelude::*;
use crate::grid::lemma_index_in_grid;
use crate::text::{
    chars_of, digit_value, is_ascii_digit, is_ascii_white, is_digit, lemma_split_extend,
    parse_u32, parse_u32_spec, split, trim, trim_range, trim_start_char,
};

verus! {

/// Why a pattern text could not be decoded.
#[derive(Debug, Clone, Copy, PartialEq, Eq)]
pub enum RleError {
    /// The text holds no data line.
    NoData,
    /// No usable header and no row or column could be inferred from the data.
    UnknownDimensions,
    /// A header field holds something other than a `u32`.
    InvalidNumber,
    /// The dimensions do not fit a `u32` each, or their product a `usize`.
    TooLarge,
}

/// `x` capped at `usize::MAX`, as saturating arithmetic on `usize` gives it.
pub open spec fn sat(x: nat) -> nat {
    if x > usize::MAX {
        usize::MAX as nat
    } else {
        x
    }
}

/// The token that starts at `i` once `acc` has been read from a leading run
/// of digits: its count (1 when no digit, or only zeros, came before), its
/// symbol and the position after it. Whitespace between the count and the
/// symbol drops the count. `None` when the text ends first.
pub open spec fn token_from(s: Seq<char>, i: int, acc: nat) -> Option<(nat, char, int)>
    decreases s.len() - i,
{
    if i < 0 || i >= s.len() {
        None
    } else if is_digit(s[i]) {
        token_from(s, i + 1, sat(acc * 10 + digit_value(s[i])))
    } else if is_ascii_white(s[i]) {
        token_from(s, i + 1, 0)
    } else {
        Some((if acc == 0 { 1 } else { acc }, s[i], i + 1))
    }
}

/// The token that starts at position `i` of `s`.
pub open spec fn token_at(s: Seq<char>, i: int) -> Option<(nat, char, int)> {
    token_from(s, i, 0)
}

pub proof fn lemma_token_advances(s: Seq<char>, i: int, acc: nat)
    ensures
        token_from(s, i, acc) matches Some(t) ==> i < t.2 <= s.len() && 1 <= t.0 <= usize::MAX
            || acc > usize::MAX,
    decreases s.len() - i,
{
    if 0 <= i < s.len() {
        if is_digit(s[i]) {
            lemma_token_advances(s, i + 1, sat(acc * 10 + digit_value(s[i])));
        } else if is_ascii_white(s[i]) {
            lemma_token_advances(s, i + 1, 0);
        }
    }
}

pub open spec fn is_cell_symbol(c: char) -> bool {
    c == 'o' || c == 'O' || c == 'b' || c == 'B'
}

pub open spec fn is_alive_symbol(c: char) -> bool {
    c == 'o' || c == 'O'
}

pub open spec fn max_nat(a: nat, b: nat) -> nat {
    if a > b {
        a
    } else {
        b
    }
}

/// Width and height once the scan ends with `cur` cells in an open row: an
/// unterminated last row counts as one more.
pub open spec fn infer_finish(cur: nat, max_len: nat, height: nat) -> (nat, nat) {
    if cur > 0 {
        (max_nat(max_len, cur), sat(height + 1))
    } else {
        (max_len, height)
    }
}

/// The dimension scan from position `i`: `cur` cells in the open row, `max_len`
/// the longest row so far, `height` the rows closed by `$`.
pub open spec fn infer_from(s: Seq<char>, i: int, cur: nat, max_len: nat, height: nat) -> (
    nat,
    nat,
)
    decreases s.len() - i,
{
    match token_at(s, i) {
        None => infer_finish(cur, max_len, height),
        Some(t) => {
            proof {
                lemma_token_advances(s, i, 0);
            }
            let (n, c, j) = t;
            if c == '!' {
                infer_finish(cur, max_len, height)
            } else if is_cell_symbol(c) {
                infer_from(s, j, sat(cur + n), max_nat(max_len, sat(cur + n)), height)
            } else if c == '$' {
                infer_from(s, j, 0, max_len, sat(height + n))
            } else {
                infer_from(s, j, cur, max_len, height)
            }
        },
    }
}

/// (width, height) that a headerless payload implies: the longest row and
/// the number of rows.
pub open spec fn inferred_dims(s: Seq<char>) -> (nat, nat) {
    infer_from(s, 0, 0, 0, 0)
}

/// Row `y` of a `w`-wide grid with cells `x .. x + n` (clipped to the row)
/// set alive.
pub open spec fn run_filled(grid: Seq<bool>, w: int, x: int, n: int, y: int) -> Seq<bool> {
    let lo = y * w + x;
    let hi = y * w + if x + n < w {
        x + n
    } else {
        w
    };
    Seq::new(grid.len(), |k: int| if lo <= k < hi { true } else { grid[k] })
}

/// The decoding pass from position `i` with the cursor at column `x`, row
/// `y`. Writes past the grid are dropped; rows past the last end the pass.
pub open spec fn decode_from(
    s: Seq<char>,
    i: int,
    w: nat,
    h: nat,
    x: nat,
    y: nat,
    grid: Seq<bool>,
) -> Seq<bool>
    decreases s.len() - i,
{
    if y >= h {
        grid
    } else {
        match token_at(s, i) {
            None => grid,
            Some(t) => {
                proof {
                    lemma_token_advances(s, i, 0);
                }
                let (n, c, j) = t;
                if is_alive_symbol(c) {
                    decode_from(s, j, w, h, sat(x + n), y, run_filled(grid, w as int, x as int, n as int, y as int))
                } else if c == 'b' || c == 'B' {
                    decode_from(s, j, w, h, sat(x + n), y, grid)
                } else if c == '$' {
                    decode_from(s, j, w, h, 0, if y + n < h { (y + n) as nat } else { h }, grid)
                } else if c == '!' {
                    grid
                } else {
                    decode_from(s, j, w, h, x, y, grid)
                }
            },
        }
    }
}

/// The `w` x `h` grid, row-major, that the payload `s` describes.
pub open spec fn decoded(s: Seq<char>, w: nat, h: nat) -> Seq<bool> {
    decode_from(s, 0, w, h, 0, 0, Seq::new(w * h, |k: int| false))
}

/// The decoding pass never changes the grid's size.
pub proof fn lemma_decode_len(
    s: Seq<char>,
    i: int,
    w: nat,
    h: nat,
    x: nat,
    y: nat,
    grid: Seq<bool>,
)
    ensures
        decode_from(s, i, w, h, x, y, grid).len() == grid.len(),
    decreases s.len() - i,
{
    if y < h {
        if let Some(t) = token_at(s, i) {
            lemma_token_advances(s, i, 0);
            let (n, c, j) = t;
            if is_alive_symbol(c) {
                lemma_decode_len(s, j, w, h, sat(x + n), y, run_filled(grid, w as int, x as int, n as int, y as int));
            } else if c == 'b' || c == 'B' {
                lemma_decode_len(s, j, w, h, sat(x + n), y, grid);
            } else if c == '$' {
                lemma_decode_len(s, j, w, h, 0, if y + n < h { (y + n) as nat } else { h }, grid);
            } else if c != '!' {
                lemma_decode_len(s, j, w, h, x, y, grid);
            }
        }
    }
}

pub proof fn lemma_decoded_len(s: Seq<char>, w: nat, h: nat)
    ensures
        decoded(s, w, h).len() == w * h,
{
    lemma_decode_len(s, 0, w, h, 0, 0, Seq::new(w * h, |k: int| false));
}

/// Reads the token at `*pos` and moves `*pos` past it.
pub fn next_token(chars: &Vec<char>, pos: &mut usize) -> (r: Option<(usize, char)>)
    requires
        *old(pos) <= chars@.len(),
    ensures
        *final(pos) <= chars@.len(),
        token_at(chars@, *old(pos) as int) is None ==> r is None,
        token_at(chars@, *old(pos) as int) matches Some(t) ==> r == Some((t.0 as usize, t.1))
            && *final(pos) == t.2,
{
    let ghost s = chars@;
    let ghost start = *pos as int;
    let mut acc: usize = 0;
    let mut i: usize = *pos;
    while i < chars.len()
        invariant
            s == chars@,
            start <= i <= s.len(),
            *pos == start,
            start == *old(pos) as int,
            token_from(s, i as int, acc as nat) == token_at(s, start),
        decreases s.len() - i,
    {
        let c = chars[i];
        if is_ascii_digit(c) {
            let d = (c as u32 - '0' as u32) as usize;
            acc = match acc.checked_mul(10) {
                Some(m) => m.saturating_add(d),
                None => usize::MAX,
            };
            i = i + 1;
        } else if c == ' ' || c == '\t' || c == '\n' || c == '\x0C' || c == '\r' {
            acc = 0;
            i = i + 1;
        } else {
            proof {
                lemma_token_advances(s, start, 0);
                assert(!is_digit(s[i as int]) && !is_ascii_white(s[i as int]));
                assert(token_from(s, i as int, acc as nat) == Some(
                    (if acc == 0 { 1nat } else { acc as nat }, c, i + 1),
                ));
            }
            *pos = i + 1;
            let n = if acc == 0 {
                1
            } else {
                acc
            };
            return Some((n, c));
        }
    }
    None
}

/// First pass over a headerless payload: the longest row and the number of
/// rows. Fails when either is zero.
pub fn infer_dims_from_rle(chars: &Vec<char>) -> (r: Option<(usize, usize)>)
    ensures
        r matches Some(d) ==> d.0 as nat == inferred_dims(chars@).0 && d.1 as nat == inferred_dims(chars@).1,
        r is Some <==> inferred_dims(chars@).0 > 0 && inferred_dims(chars@).1 > 0,
{
    let ghost s = chars@;
    let mut pos: usize = 0;
    let mut cur: usize = 0;
    let mut max_len: usize = 0;
    let mut height: usize = 0;
    loop
        invariant_except_break
            s == chars@,
            pos <= s.len(),
            infer_from(s, pos as int, cur as nat, max_len as nat, height as nat) == inferred_dims(s),
        ensures
            infer_finish(cur as nat, max_len as nat, height as nat) == inferred_dims(s),
        decreases s.len() - pos,
    {
        let ghost before = pos;
        proof {
            lemma_token_advances(s, pos as int, 0);
        }
        match next_token(chars, &mut pos) {
            None => {
                break ;
            },
            Some((n, sym)) => {
                if sym == '!' {
                    break ;
                } else if sym == 'o' || sym == 'O' || sym == 'b' || sym == 'B' {
                    cur = cur.saturating_add(n);
                    if cur > max_len {
                        max_len = cur;
                    }
                } else if sym == '$' {
                    height = height.saturating_add(n);
                    cur = 0;
                }
            },
        }
    }
    if cur > 0 {
        height = height.saturating_add(1);
        if cur > max_len {
            max_len = cur;
        }
    }
    if max_len == 0 || height == 0 {
        return None;
    }
    Some((max_len, height))
}

/// Sets cells `x .. x + n` of row `y`, clipped to the row.
fn fill_run(grid: &mut Vec<bool>, w: usize, h: usize, x: usize, n: usize, y: usize)
    requires
        old(grid)@.len() == w * h,
        w * h <= usize::MAX,
        y < h,
    ensures
        final(grid)@ == run_filled(old(grid)@, w as int, x as int, n as int, y as int),
{
    let ghost target = run_filled(grid@, w as int, x as int, n as int, y as int);
    if x >= w {
        assert(grid@ =~= target);
        return;
    }
    let end = if n < w - x {
        x + n
    } else {
        w
    };
    proof {
        lemma_index_in_grid(x as int, y as int, w as int, h as int);
        if end > 0 {
            lemma_index_in_grid((end - 1) as int, y as int, w as int, h as int);
        }
    }
    let row = y * w;
    assert(row + end <= w * h);
    let mut k = row + x;
    while k < row + end
        invariant
            row == y * w,
            row + x <= k <= row + end,
            row + end <= w * h,
            w * h <= usize::MAX,
            grid@.len() == w * h,
            forall|i: int| 0 <= i < k ==> grid@[i] == target[i],
            forall|i: int| k <= i < w * h ==> grid@[i] == target[i] || (row + x <= i < row + end),
            forall|i: int| row + x <= i < row + end ==> target[i],
        decreases row + end - k,
    {
        grid.set(k, true);
        k = k + 1;
    }
    assert(grid@ =~= target);
}

/// Second pass: decodes the payload into a `w` x `h` grid, row-major.
pub fn decode_rle(chars: &Vec<char>, w: usize, h: usize) -> (r: Vec<bool>)
    requires
        w * h <= usize::MAX,
    ensures
        r@ == decoded(chars@, w as nat, h as nat),
{
    let ghost s = chars@;
    let total = w * h;
    let mut grid: Vec<bool> = Vec::new();
    while grid.len() < total
        invariant
            total == w * h,
            grid@.len() <= total,
            forall|k: int| 0 <= k < grid@.len() ==> !grid@[k],
        decreases total - grid@.len(),
    {
        grid.push(false);
    }
    assert(grid@ =~= Seq::new((w * h) as nat, |k: int| false));
    let mut pos: usize = 0;
    let mut x: usize = 0;
    let mut y: usize = 0;
    while y < h
        invariant_except_break
            s == chars@,
            pos <= s.len(),
            grid@.len() == w * h,
            w * h <= usize::MAX,
            decode_from(s, pos as int, w as nat, h as nat, x as nat, y as nat, grid@) == decoded(
                s,
                w as nat,
                h as nat,
            ),
        ensures
            grid@ == decoded(s, w as nat, h as nat),
        decreases s.len() - pos,
    {
        proof {
            lemma_token_advances(s, pos as int, 0);
        }
        match next_token(chars, &mut pos) {
            None => {
                break ;
            },
            Some((n, sym)) => {
                if sym == 'o' || sym == 'O' {
                    fill_run(&mut grid, w, h, x, n, y);
                    x = x.saturating_add(n);
                } else if sym == 'b' || sym == 'B' {
                    x = x.saturating_add(n);
                } else if sym == '$' {
                    y = if n < h - y {
                        y + n
                    } else {
                        h
                    };
                    x = 0;
                } else if sym == '!' {
                    break ;
                }
            },
        }
    }
    grid
}

/// What the header and line pass has gathered: the header's dimensions (0
/// when absent), the data lines joined, and whether a header number was bad.
pub struct HeaderScan {
    pub width: u32,
    pub height: u32,
    pub data: Seq<char>,
    pub failed: bool,
}

/// A header field `name` is the name, then one space or `=`.
pub open spec fn header_field(p: Seq<char>, name: char) -> bool {
    p.len() >= 2 && p[0] == name && (is_ascii_white(p[1]) || p[1] == '=')
}

/// The number after a field name: surrounding whitespace and leading `=`
/// signs dropped.
pub open spec fn field_value(v: Seq<char>) -> Option<u32> {
    parse_u32_spec(trim(trim_start_char(trim(v), '=')))
}

/// One comma-separated part of a header line. `x` and `y` set the width and
/// height if still unset; anything else, such as `rule`, is ignored.
pub open spec fn part_step(st: HeaderScan, part: Seq<char>) -> HeaderScan {
    let p = trim(part);
    if st.failed {
        st
    } else if header_field(p, 'x') && st.width == 0 {
        match field_value(p.subrange(2, p.len() as int)) {
            Some(v) => HeaderScan { width: v, height: st.height, data: st.data, failed: false },
            None => HeaderScan { width: st.width, height: st.height, data: st.data, failed: true },
        }
    } else if header_field(p, 'y') && st.height == 0 {
        match field_value(p.subrange(2, p.len() as int)) {
            Some(v) => HeaderScan { width: st.width, height: v, data: st.data, failed: false },
            None => HeaderScan { width: st.width, height: st.height, data: st.data, failed: true },
        }
    } else {
        st
    }
}

pub open spec fn fold_parts(parts: Seq<Seq<char>>, st: HeaderScan) -> HeaderScan
    decreases parts.len(),
{
    if parts.len() == 0 {
        st
    } else {
        part_step(fold_parts(parts.drop_last(), st), parts.last())
    }
}

/// One line of the file: blank and `#` lines are skipped, a line starting
/// with `x` or `X` is a header, any other is data, appended trimmed.
pub open spec fn line_step(st: HeaderScan, line: Seq<char>) -> HeaderScan {
    let t = trim(line);
    if st.failed || t.len() == 0 || t[0] == '#' {
        st
    } else if t[0] == 'x' || t[0] == 'X' {
        fold_parts(split(t, ','), st)
    } else {
        HeaderScan { width: st.width, height: st.height, data: st.data + t, failed: false }
    }
}

pub open spec fn empty_scan() -> HeaderScan {
    HeaderScan { width: 0, height: 0, data: Seq::empty(), failed: false }
}

pub open spec fn fold_lines(lines: Seq<Seq<char>>) -> HeaderScan
    decreases lines.len(),
{
    if lines.len() == 0 {
        empty_scan()
    } else {
        line_step(fold_lines(lines.drop_last()), lines.last())
    }
}

/// The header and line pass over a whole file.
pub open spec fn scan_lines(content: Seq<char>) -> HeaderScan {
    fold_lines(split(content, '\n'))
}

/// Dimensions to decode with, and the grid, once the data is known to be
/// there: the header's when it gives both, else the inferred ones.
pub open spec fn resolved_dims(st: HeaderScan) -> (nat, nat) {
    if st.width != 0 && st.height != 0 {
        (st.width as nat, st.height as nat)
    } else {
        inferred_dims(st.data)
    }
}

/// What decoding a whole pattern file gives: the cells (row-major), the
/// width and the height, or the reason it failed.
pub open spec fn rle_result(content: Seq<char>) -> Result<(Seq<bool>, u32, u32), RleError> {
    let st = scan_lines(content);
    let (w, h) = resolved_dims(st);
    if st.failed {
        Err(RleError::InvalidNumber)
    } else if st.data.len() == 0 {
        Err(RleError::NoData)
    } else if w == 0 || h == 0 {
        Err(RleError::UnknownDimensions)
    } else if w > u32::MAX || h > u32::MAX || w * h > usize::MAX {
        Err(RleError::TooLarge)
    } else {
        Ok((decoded(st.data, w, h), w as u32, h as u32))
    }
}

/// With both dimensions in the header, decoding succeeds exactly when the
/// header numbers parse, there is data and the grid fits in memory; it then
/// keeps the header's width and height and yields `width * height` cells.
pub proof fn lemma_header_dims_kept(content: Seq<char>)
    requires
        scan_lines(content).width != 0,
        scan_lines(content).height != 0,
    ensures
        rle_result(content) is Ok <==> !scan_lines(content).failed && scan_lines(content).data.len() > 0
            && scan_lines(content).width * scan_lines(content).height <= usize::MAX,
        rle_result(content) matches Ok(p) ==> p.1 == scan_lines(content).width && p.2
            == scan_lines(content).height && p.0.len() == p.1 * p.2,
{
    let st = scan_lines(content);
    lemma_decoded_len(st.data, st.width as nat, st.height as nat);
}

/// Executable state of the header and line pass.
struct ScanState {
    width: u32,
    height: u32,
    data: Vec<char>,
    failed: bool,
}

impl ScanState {
    spec fn model(&self) -> HeaderScan {
        HeaderScan { width: self.width, height: self.height, data: self.data@, failed: self.failed }
    }
}

/// The number in a header field value such as ` = 12`.
pub fn parse_u32_trim(chars: &Vec<char>, lo: usize, hi: usize) -> (r: Option<u32>)
    requires
        lo <= hi <= chars@.len(),
    ensures
        r == field_value(chars@.subrange(lo as int, hi as int)),
{
    let (a0, b) = trim_range(chars, lo, hi);
    let mut a = a0;
    while a < b && chars[a] == '='
        invariant
            a0 <= a <= b <= chars@.len(),
            trim_start_char(chars@.subrange(a0 as int, b as int), '=') == trim_start_char(
                chars@.subrange(a as int, b as int),
                '=',
            ),
        decreases b - a,
    {
        assert(chars@.subrange(a as int, b as int).drop_first() =~= chars@.subrange(a + 1, b as int));
        a = a + 1;
    }
    let (c, d) = trim_range(chars, a, b);
    parse_u32(chars, c, d)
}

/// Applies one comma-separated header part `chars[lo..hi]`.
fn apply_part(chars: &Vec<char>, lo: usize, hi: usize, st: &mut ScanState)
    requires
        lo <= hi <= chars@.len(),
    ensures
        final(st).model() == part_step(old(st).model(), chars@.subrange(lo as int, hi as int)),
{
    if st.failed {
        return;
    }
    let (a, b) = trim_range(chars, lo, hi);
    let ghost p = chars@.subrange(a as int, b as int);
    if b - a >= 2 && (chars[a + 1] == ' ' || chars[a + 1] == '\t' || chars[a + 1] == '\n'
        || chars[a + 1] == '\x0C' || chars[a + 1] == '\r' || chars[a + 1] == '=') {
        assert(p.subrange(2, p.len() as int) =~= chars@.subrange(a + 2, b as int));
        if chars[a] == 'x' && st.width == 0 {
            match parse_u32_trim(chars, a + 2, b) {
                Some(v) => {
                    st.width = v;
                },
                None => {
                    st.failed = true;
                },
            }
        } else if chars[a] == 'y' && st.height == 0 {
            match parse_u32_trim(chars, a + 2, b) {
                Some(v) => {
                    st.height = v;
                },
                None => {
                    st.failed = true;
                },
            }
        }
    }
}

/// Applies a header line `chars[lo..hi]` (already trimmed), part by part.
fn apply_header_line(chars: &Vec<char>, lo: usize, hi: usize, st: &mut ScanState)
    requires
        lo <= hi <= chars@.len(),
    ensures
        final(st).model() == fold_parts(split(chars@.subrange(lo as int, hi as int), ','), old(st).model()),
{
    let ghost t = chars@.subrange(lo as int, hi as int);
    let ghost st0 = st.model();
    let mut start = lo;
    let mut i = lo;
    assert(t.subrange(0, 0) =~= Seq::<char>::empty());
    assert(split(t.subrange(0, 0), ',').drop_last() =~= Seq::<Seq<char>>::empty());
    while i < hi
        invariant
            lo <= start <= i <= hi <= chars@.len(),
            t == chars@.subrange(lo as int, hi as int),
            split(t.subrange(0, i - lo), ',').len() >= 1,
            st.model() == fold_parts(split(t.subrange(0, i - lo), ',').drop_last(), st0),
            split(t.subrange(0, i - lo), ',').last() == chars@.subrange(start as int, i as int),
        decreases hi - i,
    {
        proof {
            lemma_split_extend(t, i - lo, ',');
        }
        let ghost ps = split(t.subrange(0, i - lo), ',');
        if chars[i] == ',' {
            apply_part(chars, start, i, st);
            assert(ps.push(Seq::empty()).drop_last() =~= ps);
            assert(ps =~= ps.drop_last().push(ps.last()));
            start = i + 1;
        }
        i = i + 1;
        assert(chars@.subrange(start as int, i as int) =~= if start == i {
            Seq::empty()
        } else {
            chars@.subrange(start as int, i - 1).push(chars@[i - 1])
        });
    }
    proof {
        let ps = split(t.subrange(0, i - lo), ',');
        assert(t.subrange(0, i - lo) =~= t);
        assert(ps =~= ps.drop_last().push(ps.last()));
    }
    apply_part(chars, start, hi, st);
}

/// Applies one line `chars[lo..hi]` of the file.
fn apply_line(chars: &Vec<char>, lo: usize, hi: usize, st: &mut ScanState)
    requires
        lo <= hi <= chars@.len(),
    ensures
        final(st).model() == line_step(old(st).model(), chars@.subrange(lo as int, hi as int)),
{
    if st.failed {
        return;
    }
    let (a, b) = trim_range(chars, lo, hi);
    if a == b || chars[a] == '#' {
        return;
    }
    if chars[a] == 'x' || chars[a] == 'X' {
        apply_header_line(chars, a, b, st);
        return;
    }
    let ghost data0 = st.data@;
    let ghost w0 = st.width;
    let ghost h0 = st.height;
    let mut k = a;
    while k < b
        invariant
            a <= k <= b <= chars@.len(),
            st.data@ == data0 + chars@.subrange(a as int, k as int),
            !st.failed,
            st.width == w0,
            st.height == h0,
        decreases b - k,
    {
        st.data.push(chars[k]);
        k = k + 1;
        assert(data0 + chars@.subrange(a as int, k as int) =~= (data0 + chars@.subrange(a as int, k - 1)).push(chars@[k - 1]));
    }
}

/// The header and line pass: header dimensions, joined data lines, and
/// whether a header number failed to parse.
fn scan_content(chars: &Vec<char>) -> (st: ScanState)
    ensures
        st.model() == scan_lines(chars@),
{
    let ghost s = chars@;
    let mut st = ScanState { width: 0, height: 0, data: Vec::new(), failed: false };
    let mut start: usize = 0;
    let mut i: usize = 0;
    assert(s.subrange(0, 0) =~= Seq::<char>::empty());
    assert(split(s.subrange(0, 0), '\n').drop_last() =~= Seq::<Seq<char>>::empty());
    assert(st.model() == empty_scan());
    while i < chars.len()
        invariant
            s == chars@,
            start <= i <= s.len(),
            split(s.subrange(0, i as int), '\n').len() >= 1,
            st.model() == fold_lines(split(s.subrange(0, i as int), '\n').drop_last()),
            split(s.subrange(0, i as int), '\n').last() == s.subrange(start as int, i as int),
        decreases s.len() - i,
    {
        proof {
            lemma_split_extend(s, i as int, '\n');
        }
        let ghost ls = split(s.subrange(0, i as int), '\n');
        if chars[i] == '\n' {
            apply_line(chars, start, i, &mut st);
            assert(ls.push(Seq::empty()).drop_last() =~= ls);
            assert(ls =~= ls.drop_last().push(ls.last()));
            start = i + 1;
        }
        i = i + 1;
        assert(s.subrange(start as int, i as int) =~= if start == i {
            Seq::empty()
        } else {
            s.subrange(start as int, i - 1).push(s[i - 1])
        });
    }
    proof {
        let ls = split(s.subrange(0, i as int), '\n');
        assert(s.subrange(0, i as int) =~= s);
        assert(ls =~= ls.drop_last().push(ls.last()));
    }
    apply_line(chars, start, i, &mut st);
    st
}

/// Decodes a whole pattern file: its cells (row-major), width and height.
/// The header's `x` and `y` are used when both are present and non-zero,
/// otherwise the dimensions are inferred from the data.
pub fn parse_rle(content: &str) -> (r: Result<(Vec<bool>, u32, u32), RleError>)
    ensures
        r matches Ok(p) ==> rle_result(content@) == Ok::<(Seq<bool>, u32, u32), RleError>((p.0@, p.1, p.2)),
        r matches Err(e) ==> rle_result(content@) == Err::<(Seq<bool>, u32, u32), RleError>(e),
        r matches Ok(p) ==> p.0@.len() == p.1 * p.2,
{
    let chars = chars_of(content);
    let st = scan_content(&chars);
    if st.failed {
        return Err(RleError::InvalidNumber);
    }
    if st.data.len() == 0 {
        return Err(RleError::NoData);
    }
    let (w, h): (usize, usize) = if st.width != 0 && st.height != 0 {
        (st.width as usize, st.height as usize)
    } else {
        match infer_dims_from_rle(&st.data) {
            Some(d) => d,
            None => {
                return Err(RleError::UnknownDimensions);
            },
        }
    };
    if w > u32::MAX as usize || h > u32::MAX as usize {
        return Err(RleError::TooLarge);
    }
    if w.checked_mul(h).is_none() {
        return Err(RleError::TooLarge);
    }
    let cells = decode_rle(&st.data, w, h);
    proof {
        lemma_decoded_len(st.data@, w as nat, h as nat);
    }
    Ok((cells, w as u32, h as u32))
}

} // verus!
