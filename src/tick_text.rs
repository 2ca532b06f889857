//! The text formats around the ticks: one integer per line, and file names
//! `<start>-<end>.jsonl` that carry a block range.
use vstd::prelude::*;
use vstd::string::StrSliceExecFns;
use crate::ticks::{in_i64, to_bytes, Fixed, NumberBytes, be_signed};

verus! {

/// The characters with Unicode's White_Space property.
pub open spec fn is_ws(c: char) -> bool {
    let u = c as u32;
    (0x9 <= u <= 0xd) || u == 0x20 || u == 0x85 || u == 0xa0 || u == 0x1680 || (0x2000 <= u <= 0x200a)
        || u == 0x2028 || u == 0x2029 || u == 0x202f || u == 0x205f || u == 0x3000
}

pub open spec fn is_digit(c: char) -> bool {
    '0' as u32 <= c as u32 <= '9' as u32
}

pub open spec fn digit_value(c: char) -> nat {
    (c as u32 - '0' as u32) as nat
}

pub open spec fn all_digits(d: Seq<char>) -> bool {
    forall|i: int| 0 <= i < d.len() ==> is_digit(#[trigger] d[i])
}

/// The value of a string of decimal digits.
pub open spec fn decimal_value(d: Seq<char>) -> nat
    decreases d.len(),
{
    if d.len() == 0 {
        0
    } else {
        10 * decimal_value(d.drop_last()) + digit_value(d.last())
    }
}

pub open spec fn trim_start(s: Seq<char>) -> Seq<char>
    decreases s.len(),
{
    if s.len() > 0 && is_ws(s[0]) {
        trim_start(s.drop_first())
    } else {
        s
    }
}

pub open spec fn trim_end(s: Seq<char>) -> Seq<char>
    decreases s.len(),
{
    if s.len() > 0 && is_ws(s.last()) {
        trim_end(s.drop_last())
    } else {
        s
    }
}

/// `s` without white space at either end.
pub open spec fn trim(s: Seq<char>) -> Seq<char> {
    trim_end(trim_start(s))
}

/// A 64-bit signed integer in decimal: an optional `+` or `-`, then one or
/// more digits, and a value that fits.
pub open spec fn spec_parse_i64(t: Seq<char>) -> Option<int> {
    let signed = t.len() > 0 && (t[0] == '-' || t[0] == '+');
    let body = if signed { t.drop_first() } else { t };
    if body.len() == 0 || !all_digits(body) {
        None
    } else {
        let m = decimal_value(body) as int;
        let v = if signed && t[0] == '-' { -m } else { m };
        if in_i64(v) {
            Some(v)
        } else {
            None
        }
    }
}

proof fn lemma_decimal_grows(d: Seq<char>, k: int)
    requires
        0 <= k <= d.len(),
    ensures
        decimal_value(d.take(k)) <= decimal_value(d),
    decreases d.len() - k,
{
    if k < d.len() {
        lemma_decimal_grows(d, k + 1);
        assert(d.take(k + 1).drop_last() =~= d.take(k));
    } else {
        assert(d.take(k) =~= d);
    }
}

/// The characters of a string.
fn chars_of(s: &str) -> (r: Vec<char>)
    ensures
        r@ == s@,
{
    let n = s.unicode_len();
    let mut r: Vec<char> = Vec::new();
    let mut i: usize = 0;
    while i < n
        invariant
            0 <= i <= n,
            n == s@.len(),
            r@ == s@.take(i as int),
        decreases n - i,
    {
        r.push(s.get_char(i));
        i = i + 1;
        proof {
            assert(r@ =~= s@.take(i as int));
        }
    }
    proof {
        assert(s@.take(n as int) =~= s@);
    }
    r
}

fn is_ws_char(c: char) -> (r: bool)
    ensures
        r == is_ws(c),
{
    let u = c as u32;
    (0x9 <= u && u <= 0xd) || u == 0x20 || u == 0x85 || u == 0xa0 || u == 0x1680 || (0x2000 <= u && u
        <= 0x200a) || u == 0x2028 || u == 0x2029 || u == 0x202f || u == 0x205f || u == 0x3000
}

fn is_digit_char(c: char) -> (r: bool)
    ensures
        r == is_digit(c),
{
    '0' as u32 <= c as u32 && c as u32 <= '9' as u32
}

/// The bounds `lo..hi` of `v` without white space at either end.
fn trim_bounds(v: &Vec<char>) -> (r: (usize, usize))
    ensures
        r.0 <= r.1 <= v@.len(),
        v@.subrange(r.0 as int, r.1 as int) == trim(v@),
{
    let n = v.len();
    let mut lo: usize = 0;
    proof {
        assert(v@.subrange(0, n as int) =~= v@);
    }
    while lo < n && is_ws_char(v[lo])
        invariant
            0 <= lo <= n,
            n == v@.len(),
            trim_start(v@) == trim_start(v@.subrange(lo as int, n as int)),
        decreases n - lo,
    {
        proof {
            assert(v@.subrange(lo as int, n as int).drop_first() =~= v@.subrange(lo + 1, n as int));
        }
        lo = lo + 1;
    }
    proof {
        assert(trim_start(v@.subrange(lo as int, n as int)) == v@.subrange(lo as int, n as int));
    }
    let mut hi: usize = n;
    while hi > lo && is_ws_char(v[hi - 1])
        invariant
            lo <= hi <= n,
            n == v@.len(),
            trim(v@) == trim_end(v@.subrange(lo as int, hi as int)),
        decreases hi - lo,
    {
        proof {
            assert(v@.subrange(lo as int, hi as int).drop_last() =~= v@.subrange(lo as int, hi - 1));
            assert(v@.subrange(lo as int, hi as int).last() == v@[hi - 1]);
        }
        hi = hi - 1;
    }
    proof {
        assert(trim_end(v@.subrange(lo as int, hi as int)) == v@.subrange(lo as int, hi as int));
    }
    (lo, hi)
}

/// Parses the digits `v[from..to]` as a number below `bound`; `None` when a
/// character is not a digit or the value reaches the bound.
fn parse_digits(v: &Vec<char>, from: usize, to: usize, bound: u128) -> (r: Option<u128>)
    requires
        from <= to <= v@.len(),
        10 <= bound <= 0x1_0000_0000_0000_0000_0000_0000_0000,
    ensures
        ({
            let d = v@.subrange(from as int, to as int);
            match r {
                Some(x) => all_digits(d) && x == decimal_value(d) && x < bound,
                None => !all_digits(d) || decimal_value(d) >= bound,
            }
        }),
{
    let ghost d = v@.subrange(from as int, to as int);
    let mut acc: u128 = 0;
    let mut i: usize = from;
    while i < to
        invariant
            from <= i <= to <= v@.len(),
            d == v@.subrange(from as int, to as int),
            all_digits(d.take(i - from)),
            acc == decimal_value(d.take(i - from)),
            acc < bound,
            10 <= bound <= 0x1_0000_0000_0000_0000_0000_0000_0000,
        decreases to - i,
    {
        proof {
            assert(d.take(i - from + 1).drop_last() =~= d.take(i - from));
        }
        let c = v[i];
        if !is_digit_char(c) {
            proof {
                assert(d[i - from] == c);
            }
            return None;
        }
        let digit = (c as u32 - '0' as u32) as u128;
        proof {
            assert(d[i - from] == c);
            assert(d.take(i - from + 1).last() == c);
        }
        if acc > (bound - 1 - digit) / 10 {
            proof {
                assert(all_digits(d.take(i - from + 1)));
                assert(decimal_value(d.take(i - from + 1)) >= bound);
                if all_digits(d) {
                    lemma_decimal_grows(d, i - from + 1);
                }
            }
            return None;
        }
        acc = acc * 10 + digit;
        i = i + 1;
        proof {
            assert(all_digits(d.take(i - from)));
        }
    }
    proof {
        assert(d.take(to - from) =~= d);
    }
    Some(acc)
}

/// Parses `s` as a 64-bit signed decimal integer, as `str::parse::<i64>` does.
pub fn parse_i64(s: &str) -> (r: Option<i64>)
    ensures
        spec_parse_i64(s@) == match r {
            Some(x) => Some(x as int),
            None => None::<int>,
        },
{
    let v = chars_of(s);
    proof {
        assert(v@.subrange(0, v@.len() as int) =~= v@);
    }
    parse_i64_chars(&v, 0, v.len())
}

fn parse_i64_chars(v: &Vec<char>, from: usize, to: usize) -> (r: Option<i64>)
    requires
        from <= to <= v@.len(),
    ensures
        spec_parse_i64(v@.subrange(from as int, to as int)) == match r {
            Some(x) => Some(x as int),
            None => None::<int>,
        },
{
    let ghost t = v@.subrange(from as int, to as int);
    let signed = from < to && (v[from] == '-' || v[from] == '+');
    proof {
        if from < to {
            assert(t[0] == v@[from as int]);
        }
    }
    let negative = signed && v[from] == '-';
    let start = if signed { from + 1 } else { from };
    proof {
        if signed {
            assert(t.drop_first() =~= v@.subrange(start as int, to as int));
        } else {
            assert(t =~= v@.subrange(start as int, to as int));
        }
    }
    if start == to {
        return None;
    }
    match parse_digits(v, start, to, 0x8000_0000_0000_0001) {
        None => None,
        Some(m) => {
            if negative {
                Some((0 - m as i128) as i64)
            } else if m <= 0x7fff_ffff_ffff_ffff {
                Some(m as i64)
            } else {
                None
            }
        },
    }
}

/// One tick line: the integer between optional white space, as big-endian bytes.
pub fn parse_tick_line(line: &str) -> (r: Option<NumberBytes>)
    ensures
        match spec_parse_i64(trim(line@)) {
            Some(x) => r.is_some() && be_signed(r.unwrap()@) == x,
            None => r.is_none(),
        },
{
    let v = chars_of(line);
    let (lo, hi) = trim_bounds(&v);
    match parse_i64_chars(&v, lo, hi) {
        Some(x) => Some(to_bytes(Fixed { bits: x })),
        None => None,
    }
}

/// A line that does not hold an integer; lines count from zero, the header
/// included.
#[derive(Debug, Clone, Copy, PartialEq, Eq, Structural)]
pub struct InvalidTickLine {
    pub line: usize,
}

/// The ticks of a file with a header line and then one integer per line.
pub fn ticks_from_lines(lines: &Vec<String>) -> (r: Result<Vec<NumberBytes>, InvalidTickLine>)
    ensures
        match r {
            Ok(ticks) => {
                &&& lines@.len() == 0 ==> ticks@.len() == 0
                &&& lines@.len() >= 1 ==> ticks@.len() == lines@.len() - 1
                &&& forall|i: int| 1 <= i < lines@.len() ==> Some(be_signed(#[trigger] ticks@[i - 1]@))
                    == spec_parse_i64(trim(lines@[i]@))
            },
            Err(e) => 1 <= e.line < lines@.len() && spec_parse_i64(trim(lines@[e.line as int]@)).is_none()
                && forall|i: int| 1 <= i < e.line ==> spec_parse_i64(trim(#[trigger] lines@[i]@)).is_some(),
        },
{
    let mut ticks: Vec<NumberBytes> = Vec::new();
    if lines.len() == 0 {
        return Ok(ticks);
    }
    let mut i: usize = 1;
    while i < lines.len()
        invariant
            1 <= i <= lines@.len(),
            ticks@.len() == i - 1,
            forall|k: int| 1 <= k < i ==> Some(be_signed(#[trigger] ticks@[k - 1]@)) == spec_parse_i64(
                trim(lines@[k]@),
            ),
        decreases lines@.len() - i,
    {
        match parse_tick_line(lines[i].as_str()) {
            Some(b) => {
                ticks.push(b);
            },
            None => {
                proof {
                    assert forall|k: int| 1 <= k < i implies spec_parse_i64(trim(#[trigger] lines@[k]@)).is_some() by {
                        assert(Some(be_signed(ticks@[k - 1]@)) == spec_parse_i64(trim(lines@[k]@)));
                    }
                }
                return Err(InvalidTickLine { line: i });
            },
        }
        i = i + 1;
    }
    Ok(ticks)
}

/// The end of the run of digits that starts at `i`.
pub open spec fn digits_end(s: Seq<char>, i: int) -> int
    decreases s.len() - i,
{
    if 0 <= i < s.len() && is_digit(s[i]) {
        digits_end(s, i + 1)
    } else {
        i
    }
}

pub open spec fn jsonl_suffix() -> Seq<char> {
    seq!['.', 'j', 's', 'o', 'n', 'l']
}

/// Whether `<digits>-<digits>.jsonl` occurs in `s` from `i` on.
pub open spec fn block_range_at(s: Seq<char>, i: int) -> bool {
    let j = digits_end(s, i);
    let k = digits_end(s, j + 1);
    &&& 0 <= i
    &&& j > i
    &&& j < s.len()
    &&& s[j] == '-'
    &&& k > j + 1
    &&& k + 6 <= s.len()
    &&& s.subrange(k, k + 6) == jsonl_suffix()
}

/// The leftmost occurrence of the block range pattern.
pub open spec fn first_block_range(s: Seq<char>) -> int {
    choose|i: int| #[trigger] block_range_at(s, i) && forall|k: int| 0 <= k < i ==> !block_range_at(s, k)
}

/// Why a file name gave no block range.
#[derive(Debug, Clone, Copy, PartialEq, Eq, Structural)]
pub enum FilenameError {
    /// No `<start>-<end>.jsonl` occurs in the name.
    NoMatch,
    /// A block number does not fit in 64 bits.
    NumberTooLarge,
}

/// The start and end blocks of the leftmost `<start>-<end>.jsonl` in the name.
pub open spec fn spec_parse_filename(s: Seq<char>) -> Result<(nat, nat), FilenameError> {
    if !(exists|i: int| block_range_at(s, i)) {
        Err(FilenameError::NoMatch)
    } else {
        let i = first_block_range(s);
        let j = digits_end(s, i);
        let k = digits_end(s, j + 1);
        let a = decimal_value(s.subrange(i, j));
        let b = decimal_value(s.subrange(j + 1, k));
        if a <= u64::MAX && b <= u64::MAX {
            Ok((a, b))
        } else {
            Err(FilenameError::NumberTooLarge)
        }
    }
}

proof fn lemma_digits_end_bounds(s: Seq<char>, i: int)
    requires
        0 <= i <= s.len(),
    ensures
        i <= digits_end(s, i) <= s.len(),
        all_digits(s.subrange(i, digits_end(s, i))),
        digits_end(s, i) < s.len() ==> !is_digit(s[digits_end(s, i)]),
    decreases s.len() - i,
{
    if i < s.len() && is_digit(s[i]) {
        lemma_digits_end_bounds(s, i + 1);
        let e = digits_end(s, i);
        assert forall|k: int| 0 <= k < e - i implies is_digit(#[trigger] s.subrange(i, e)[k]) by {
            if k > 0 {
                assert(s.subrange(i, e)[k] == s.subrange(i + 1, e)[k - 1]);
            }
        }
    }
}

/// Scans the run of digits from `i`.
fn scan_digits(v: &Vec<char>, i: usize) -> (r: usize)
    requires
        i <= v@.len(),
    ensures
        r == digits_end(v@, i as int),
{
    let mut j = i;
    while j < v.len() && is_digit_char(v[j])
        invariant
            i <= j <= v@.len(),
            digits_end(v@, i as int) == digits_end(v@, j as int),
        decreases v@.len() - j,
    {
        j = j + 1;
    }
    j
}

fn block_range_here(v: &Vec<char>, i: usize) -> (r: Option<(usize, usize)>)
    requires
        i <= v@.len(),
    ensures
        r.is_some() == block_range_at(v@, i as int),
        r.is_some() ==> r.unwrap().0 == digits_end(v@, i as int) && r.unwrap().1 == digits_end(
            v@,
            r.unwrap().0 + 1,
        ),
{
    let j = scan_digits(v, i);
    proof {
        lemma_digits_end_bounds(v@, i as int);
    }
    if j == i || j >= v.len() || v[j] != '-' {
        return None;
    }
    let k = scan_digits(v, j + 1);
    proof {
        lemma_digits_end_bounds(v@, j + 1);
    }
    if k == j + 1 || v.len() < 6 || k > v.len() - 6 {
        return None;
    }
    let suffix = v[k] == '.' && v[k + 1] == 'j' && v[k + 2] == 's' && v[k + 3] == 'o' && v[k + 4] == 'n'
        && v[k + 5] == 'l';
    proof {
        if suffix {
            assert(v@.subrange(k as int, k + 6) =~= jsonl_suffix());
        } else {
            if v@.subrange(k as int, k + 6) == jsonl_suffix() {
                assert(v@.subrange(k as int, k + 6)[0] == v@[k as int]);
                assert(v@.subrange(k as int, k + 6)[1] == v@[k + 1]);
                assert(v@.subrange(k as int, k + 6)[2] == v@[k + 2]);
                assert(v@.subrange(k as int, k + 6)[3] == v@[k + 3]);
                assert(v@.subrange(k as int, k + 6)[4] == v@[k + 4]);
                assert(v@.subrange(k as int, k + 6)[5] == v@[k + 5]);
            }
        }
    }
    if suffix {
        Some((j, k))
    } else {
        None
    }
}

/// The start and end block numbers of a file name holding
/// `<start>-<end>.jsonl`; the leftmost such part counts. Block numbers are
/// written in the ASCII digits `0` to `9` only: other Unicode decimal digits
/// are not digits here.
pub fn parse_filename(filename: &str) -> (r: Result<(u64, u64), FilenameError>)
    ensures
        spec_parse_filename(filename@) == match r {
            Ok((a, b)) => Ok((a as nat, b as nat)),
            Err(e) => Err::<(nat, nat), FilenameError>(e),
        },
{
    let v = chars_of(filename);
    let mut i: usize = 0;
    while i < v.len()
        invariant
            0 <= i <= v@.len(),
            v@ == filename@,
            forall|k: int| 0 <= k < i ==> !block_range_at(v@, k),
        decreases v@.len() - i,
    {
        match block_range_here(&v, i) {
            Some((j, k)) => {
                proof {
                    let f = first_block_range(v@);
                    assert(block_range_at(v@, i as int));
                    assert(block_range_at(v@, f) && forall|m: int| 0 <= m < f ==> !block_range_at(v@, m));
                    if f < i {
                        assert(!block_range_at(v@, f));
                    }
                    if f > i {
                        assert(!block_range_at(v@, i as int));
                    }
                    lemma_digits_end_bounds(v@, i as int);
                    lemma_digits_end_bounds(v@, j + 1);
                }
                let a = parse_digits(&v, i, j, 0x1_0000_0000_0000_0000);
                let b = parse_digits(&v, j + 1, k, 0x1_0000_0000_0000_0000);
                return match (a, b) {
                    (Some(a), Some(b)) => Ok((a as u64, b as u64)),
                    _ => Err(FilenameError::NumberTooLarge),
                };
            },
            None => {},
        }
        i = i + 1;
    }
    proof {
        assert forall|k: int| !block_range_at(v@, k) by {
            if k == v@.len() {
                lemma_digits_end_bounds(v@, k);
            }
        }
    }
    Err(FilenameError::NoMatch)
}

} // verus!
