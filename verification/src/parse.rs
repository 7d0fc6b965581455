use vstd::prelude::*;
use vstd::string::StrSliceExecFns;

verus! {

/// Error for move text that is not two comma-separated numbers.
#[derive(Debug)]
pub struct ParseError {
    pub details: String,
}

impl ParseError {
    pub fn new(msg: &str) -> (e: ParseError)
        ensures
            e.details@ == msg@,
    {
        ParseError { details: msg.to_owned() }
    }
}

/// ASCII whitespace, as trimmed from either end of the input line.
pub open spec fn is_ws(c: char) -> bool {
    let u = c as u32;
    u == 32 || u == 9 || u == 10 || u == 13
}

/// An ASCII decimal digit.
pub open spec fn is_digit(c: char) -> bool {
    48 <= c as u32 && c as u32 <= 57
}

/// The numeric value of one digit.
pub open spec fn digit_val(c: char) -> int {
    c as u32 - 48
}

/// Every character is a digit.
pub open spec fn all_digits(s: Seq<char>) -> bool {
    forall|i: int| 0 <= i < s.len() ==> is_digit(#[trigger] s[i])
}

/// The number a digit string denotes, most significant digit first.
pub open spec fn digits_val(s: Seq<char>) -> int
    decreases s.len(),
{
    if s.len() == 0 {
        0
    } else {
        digits_val(s.drop_last()) * 10 + digit_val(s.last())
    }
}

/// The first index at or after `i` holding a non-whitespace character, or
/// the length when there is none.
pub open spec fn first_non_ws(s: Seq<char>, i: int) -> int
    decreases s.len() - i,
{
    if !(0 <= i < s.len()) {
        s.len() as int
    } else if is_ws(s[i]) {
        first_non_ws(s, i + 1)
    } else {
        i
    }
}

/// The end (exclusive) of the content below `j` once trailing whitespace
/// is dropped.
pub open spec fn last_non_ws_end(s: Seq<char>, j: int) -> int
    decreases j,
{
    if j <= 0 {
        0
    } else if j > s.len() {
        j
    } else if is_ws(s[j - 1]) {
        last_non_ws_end(s, j - 1)
    } else {
        j
    }
}

/// The input with surrounding whitespace removed.
pub open spec fn trimmed(s: Seq<char>) -> Seq<char> {
    let lo = first_non_ws(s, 0);
    let hi = last_non_ws_end(s, s.len() as int);
    if lo >= hi {
        Seq::empty()
    } else {
        s.subrange(lo, hi)
    }
}

/// The first index at or after `i` holding a comma, or the length.
pub open spec fn comma_pos(s: Seq<char>, i: int) -> int
    decreases s.len() - i,
{
    if !(0 <= i < s.len()) {
        s.len() as int
    } else if s[i] == ',' {
        i
    } else {
        comma_pos(s, i + 1)
    }
}

/// What a move line means: after trimming, it must be one nonempty digit
/// string, one comma, and a second nonempty digit string, each number
/// fitting the machine word; anything else is rejected.
pub open spec fn parse_spec(s: Seq<char>) -> Option<(int, int)> {
    let t = trimmed(s);
    let k = comma_pos(t, 0);
    if k >= t.len() {
        None
    } else {
        let d1 = t.subrange(0, k);
        let d2 = t.subrange(k + 1, t.len() as int);
        if d1.len() > 0 && all_digits(d1) && d2.len() > 0 && all_digits(d2) && digits_val(d1)
            <= usize::MAX && digits_val(d2) <= usize::MAX {
            Some((digits_val(d1), digits_val(d2)))
        } else {
            None
        }
    }
}

/// A digit string denotes a non-negative number.
proof fn lemma_digits_val_nonneg(s: Seq<char>)
    requires
        all_digits(s),
    ensures
        digits_val(s) >= 0,
    decreases s.len(),
{
    if s.len() > 0 {
        assert(all_digits(s.drop_last()));
        lemma_digits_val_nonneg(s.drop_last());
    }
}

/// A digit string denotes at least as much as any of its prefixes.
proof fn lemma_digits_val_prefix(s: Seq<char>, m: int)
    requires
        all_digits(s),
        0 <= m <= s.len(),
    ensures
        digits_val(s.subrange(0, m)) <= digits_val(s),
    decreases s.len(),
{
    if m < s.len() {
        assert(all_digits(s.drop_last()));
        assert(s.subrange(0, m) =~= s.drop_last().subrange(0, m));
        lemma_digits_val_prefix(s.drop_last(), m);
        lemma_digits_val_nonneg(s.drop_last());
    } else {
        assert(s.subrange(0, m) =~= s);
    }
}

fn is_ws_char(c: char) -> (b: bool)
    ensures
        b == is_ws(c),
{
    let u = c as u32;
    u == 32 || u == 9 || u == 10 || u == 13
}

/// Reads the digit string at `from..to` as a number, or nothing when the
/// range is empty, holds a non-digit, or denotes more than a machine word.
fn parse_usize(s: &str, from: usize, to: usize) -> (r: Option<usize>)
    requires
        from <= to <= s@.len(),
    ensures
        ({
            let d = s@.subrange(from as int, to as int);
            match r {
                Some(v) => d.len() > 0 && all_digits(d) && digits_val(d) == v as int,
                None => !(d.len() > 0 && all_digits(d) && digits_val(d) <= usize::MAX),
            }
        }),
{
    let ghost d = s@.subrange(from as int, to as int);
    if from >= to {
        return None;
    }
    let mut v: usize = 0;
    let mut i: usize = from;
    while i < to
        invariant
            from <= i <= to <= s@.len(),
            d == s@.subrange(from as int, to as int),
            all_digits(s@.subrange(from as int, i as int)),
            v as int == digits_val(s@.subrange(from as int, i as int)),
        decreases to - i,
    {
        let c = s.get_char(i);
        let u = c as u32;
        if !(48 <= u && u <= 57) {
            proof {
                assert(d[i - from] == s@[i as int]);
                assert(!all_digits(d));
            }
            return None;
        }
        let dv: usize = (u - 48) as usize;
        let ghost pre = s@.subrange(from as int, i as int);
        let ghost pre1 = s@.subrange(from as int, i + 1);
        proof {
            assert(pre1.drop_last() =~= pre);
            assert(pre1.last() == s@[i as int]);
        }
        let next = match v.checked_mul(10) {
            Some(v10) => v10.checked_add(dv),
            None => None,
        };
        match next {
            Some(nv) => {
                v = nv;
            },
            None => {
                proof {
                    assert(digits_val(pre1) > usize::MAX);
                    if d.len() > 0 && all_digits(d) {
                        assert(pre1 =~= d.subrange(0, i + 1 - from));
                        lemma_digits_val_prefix(d, i + 1 - from);
                    }
                }
                return None;
            },
        }
        i = i + 1;
    }
    proof {
        assert(s@.subrange(from as int, i as int) =~= d);
    }
    Some(v)
}

/// Reads a move line: two comma-separated non-negative numbers with
/// optional surrounding whitespace, `"row,column"`. Rejects a missing
/// comma, an empty side, a non-digit, extra values, and overflow.
pub fn parse_move(parsed_args: &str) -> (r: Result<(usize, usize), ParseError>)
    ensures
        match parse_spec(parsed_args@) {
            Some(v) => r matches Ok(m) && m.0 as int == v.0 && m.1 as int == v.1,
            None => r is Err,
        },
{
    let s = parsed_args;
    let len = s.unicode_len();
    let mut lo: usize = 0;
    while lo < len && is_ws_char(s.get_char(lo))
        invariant
            0 <= lo <= len,
            len == s@.len(),
            first_non_ws(s@, 0) == first_non_ws(s@, lo as int),
        decreases len - lo,
    {
        lo = lo + 1;
    }
    let mut hi: usize = len;
    while hi > lo && is_ws_char(s.get_char(hi - 1))
        invariant
            lo <= hi <= len,
            len == s@.len(),
            last_non_ws_end(s@, len as int) == last_non_ws_end(s@, hi as int),
        decreases hi,
    {
        hi = hi - 1;
    }
    proof {
        assert(lo as int == first_non_ws(s@, 0));
        lemma_last_non_ws_le(s@, hi as int);
        assert(last_non_ws_end(s@, len as int) == (if hi > lo {
            hi as int
        } else {
            last_non_ws_end(s@, hi as int)
        }));
    }
    let ghost t = trimmed(s@);
    if lo >= hi {
        // only whitespace: no comma to find
        return Err(ParseError::new("cannot parse move from empty input"));
    }
    proof {
        assert(t =~= s@.subrange(lo as int, hi as int));
    }
    let mut k: usize = lo;
    while k < hi && !(s.get_char(k) as u32 == 44)
        invariant
            lo <= k <= hi <= len,
            len == s@.len(),
            t == s@.subrange(lo as int, hi as int),
            comma_pos(t, 0) == comma_pos(t, k - lo),
        decreases hi - k,
    {
        proof {
            assert(t[k - lo] == s@[k as int]);
        }
        k = k + 1;
    }
    if k == hi {
        proof {
            assert(comma_pos(t, k - lo) == t.len());
        }
        return Err(ParseError::new("expected \"row,column\""));
    }
    proof {
        assert(t[k - lo] == s@[k as int]);
        assert(s@[k as int] == ',') by {
            assert(s@[k as int] as u32 == 44);
            assert(',' as u32 == 44);
        }
        assert(comma_pos(t, 0) == k - lo);
        assert(t.subrange(0, k - lo) =~= s@.subrange(lo as int, k as int));
        assert(t.subrange(k - lo + 1, t.len() as int) =~= s@.subrange(k + 1, hi as int));
    }
    let first = parse_usize(s, lo, k);
    let second = parse_usize(s, k + 1, hi);
    match (first, second) {
        (Some(a), Some(b)) => Ok((a, b)),
        _ => Err(ParseError::new("cannot parse number in move")),
    }
}

/// Dropping trailing whitespace never moves the end forward.
proof fn lemma_last_non_ws_le(s: Seq<char>, j: int)
    requires
        0 <= j <= s.len(),
    ensures
        last_non_ws_end(s, j) <= j,
    decreases j,
{
    if j > 0 && is_ws(s[j - 1]) {
        lemma_last_non_ws_le(s, j - 1);
    }
}

} // verus!
