//! Comma-separated integer rows: splitting, trimming and integer parsing as
//! `str::split`, `str::trim` and `i64::from_str` do them.

use vstd::prelude::*;

verus! {

/// Unicode `White_Space`, the characters that `str::trim` removes.
pub open spec fn is_white_space(c: char) -> bool {
    let u = c as u32;
    ||| 9 <= u <= 13
    ||| u == 32
    ||| u == 0x85
    ||| u == 0xA0
    ||| u == 0x1680
    ||| 0x2000 <= u <= 0x200A
    ||| u == 0x2028
    ||| u == 0x2029
    ||| u == 0x202F
    ||| u == 0x205F
    ||| u == 0x3000
}

/// `s` without its leading white space.
pub open spec fn trim_start(s: Seq<char>) -> Seq<char>
    decreases s.len(),
{
    if s.len() > 0 && is_white_space(s[0]) {
        trim_start(s.drop_first())
    } else {
        s
    }
}

/// `s` without its trailing white space.
pub open spec fn trim_end(s: Seq<char>) -> Seq<char>
    decreases s.len(),
{
    if s.len() > 0 && is_white_space(s.last()) {
        trim_end(s.drop_last())
    } else {
        s
    }
}

/// `s` without leading and trailing white space.
pub open spec fn trim(s: Seq<char>) -> Seq<char> {
    trim_end(trim_start(s))
}

/// The pieces of `s` between commas, in order (one piece when there is no
/// comma, empty pieces where commas meet).
pub open spec fn split_commas(s: Seq<char>) -> Seq<Seq<char>>
    decreases s.len(),
{
    if s.len() == 0 {
        seq![Seq::<char>::empty()]
    } else {
        let fields = split_commas(s.drop_last());
        if s.last() == ',' {
            fields.push(Seq::<char>::empty())
        } else {
            fields.update(fields.len() - 1, fields.last().push(s.last()))
        }
    }
}

/// Why a string is not an `i64`; the same four cases as std's `IntErrorKind`.
#[derive(Debug, Clone, Copy, PartialEq, Eq, Structural)]
pub enum IntError {
    Empty,
    InvalidDigit,
    PosOverflow,
    NegOverflow,
}

/// `c` is an ASCII decimal digit.
pub open spec fn is_digit(c: char) -> bool {
    48 <= c as u32 <= 57
}

/// The value of the digits `ds` appended to `acc`, read left to right with
/// the sign `neg`: the first non-digit makes it `InvalidDigit`, the first
/// digit that takes the value out of the `i64` range an overflow.
pub open spec fn digits_value(acc: int, ds: Seq<char>, neg: bool) -> Result<int, IntError>
    decreases ds.len(),
{
    if ds.len() == 0 {
        Ok(acc)
    } else if !is_digit(ds[0]) {
        Err(IntError::InvalidDigit)
    } else {
        let d = ds[0] as u32 - 48;
        let next = if neg { acc * 10 - d } else { acc * 10 + d };
        if next < i64::MIN || next > i64::MAX {
            Err(if neg { IntError::NegOverflow } else { IntError::PosOverflow })
        } else {
            digits_value(next, ds.drop_first(), neg)
        }
    }
}

/// `s` read as an `i64` the way `i64::from_str` reads it: an optional `+` or
/// `-`, then at least one decimal digit and nothing else.
pub open spec fn parse_i64(s: Seq<char>) -> Result<i64, IntError> {
    if s.len() == 0 {
        Err(IntError::Empty)
    } else if (s[0] == '+' || s[0] == '-') && s.len() == 1 {
        Err(IntError::InvalidDigit)
    } else {
        let neg = s[0] == '-';
        let ds = if s[0] == '+' || s[0] == '-' { s.drop_first() } else { s };
        match digits_value(0, ds, neg) {
            Ok(v) => Ok(v as i64),
            Err(e) => Err(e),
        }
    }
}

fn white_space(c: char) -> (b: bool)
    ensures
        b == is_white_space(c),
{
    let u = c as u32;
    (9 <= u && u <= 13) || u == 32 || u == 0x85 || u == 0xA0 || u == 0x1680 || (0x2000 <= u && u
        <= 0x200A) || u == 0x2028 || u == 0x2029 || u == 0x202F || u == 0x205F || u == 0x3000
}

/// The bounds of `s[lo..hi]` once trimmed.
pub fn trim_bounds(s: &Vec<char>, lo: usize, hi: usize) -> (r: (usize, usize))
    requires
        lo <= hi <= s@.len(),
    ensures
        lo <= r.0 <= r.1 <= hi,
        s@.subrange(r.0 as int, r.1 as int) == trim(s@.subrange(lo as int, hi as int)),
{
    let mut start = lo;
    while start < hi && white_space(s[start])
        invariant
            lo <= start <= hi <= s@.len(),
            trim_start(s@.subrange(lo as int, hi as int)) == trim_start(s@.subrange(start as int, hi as int)),
        decreases hi - start,
    {
        proof {
            assert(s@.subrange(start as int, hi as int).drop_first() =~= s@.subrange(start + 1, hi as int));
        }
        start = start + 1;
    }
    let mut end = hi;
    while end > start && white_space(s[end - 1])
        invariant
            lo <= start <= end <= hi <= s@.len(),
            trim_end(s@.subrange(start as int, hi as int)) == trim_end(s@.subrange(start as int, end as int)),
        decreases end - start,
    {
        proof {
            assert(s@.subrange(start as int, end as int).drop_last() =~= s@.subrange(start as int, end - 1));
        }
        end = end - 1;
    }
    (start, end)
}

/// Reads `s[lo..hi]` as an `i64`, as `parse_i64` describes.
pub fn parse_int(s: &Vec<char>, lo: usize, hi: usize) -> (r: Result<i64, IntError>)
    requires
        lo <= hi <= s@.len(),
    ensures
        r == parse_i64(s@.subrange(lo as int, hi as int)),
{
    let ghost t = s@.subrange(lo as int, hi as int);
    if lo == hi {
        return Err(IntError::Empty);
    }
    let first = s[lo];
    if (first == '+' || first == '-') && hi - lo == 1 {
        return Err(IntError::InvalidDigit);
    }
    let neg = first == '-';
    let mut i = if first == '+' || first == '-' { lo + 1 } else { lo };
    let ghost ds = s@.subrange(i as int, hi as int);
    proof {
        assert(t[0] == first);
        if first == '+' || first == '-' {
            assert(ds =~= t.drop_first());
        } else {
            assert(ds =~= t);
        }
    }
    let mut acc: i64 = 0;
    assert(parse_i64(t) == match digits_value(0, ds, neg) {
        Ok(v) => Ok(v as i64),
        Err(e) => Err::<i64, IntError>(e),
    });
    while i < hi
        invariant
            lo <= i <= hi <= s@.len(),
            t == s@.subrange(lo as int, hi as int),
            digits_value(0, ds, neg) == digits_value(acc as int, s@.subrange(i as int, hi as int), neg),
            parse_i64(t) == match digits_value(0, ds, neg) {
                Ok(v) => Ok(v as i64),
                Err(e) => Err::<i64, IntError>(e),
            },
        decreases hi - i,
    {
        let c = s[i];
        assert(s@.subrange(i as int, hi as int)[0] == c);
        let u = c as u32;
        if u < 48 || u > 57 {
            return Err(IntError::InvalidDigit);
        }
        let d = (u - 48) as i128;
        proof {
            assert(s@.subrange(i as int, hi as int).drop_first() =~= s@.subrange(i + 1, hi as int));
        }
        let next: i128 = if neg { acc as i128 * 10 - d } else { acc as i128 * 10 + d };
        if next < i64::MIN as i128 || next > i64::MAX as i128 {
            return Err(if neg { IntError::NegOverflow } else { IntError::PosOverflow });
        }
        acc = next as i64;
        i = i + 1;
    }
    Ok(acc)
}

} // verus!
