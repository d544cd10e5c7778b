//! Decimal numbers in text, read the way `str::parse` reads them.

use vstd::prelude::*;

verus! {

pub open spec fn is_ascii_digit(c: char) -> bool {
    '0' <= c <= '9'
}

/// Value of a run of decimal digits.
pub open spec fn digits_value(s: Seq<char>) -> int
    decreases s.len(),
{
    if s.len() == 0 {
        0
    } else {
        digits_value(s.drop_last()) * 10 + ((s.last() as u32) - 48)
    }
}

pub open spec fn all_digits(s: Seq<char>) -> bool {
    forall|i: int| 0 <= i < s.len() ==> is_ascii_digit(#[trigger] s[i])
}

/// Length of the sign in front of a number: one for a leading `+` or `-`.
pub open spec fn sign_len(s: Seq<char>) -> int {
    if s.len() > 0 && (s[0] == '+' || s[0] == '-') {
        1
    } else {
        0
    }
}

/// `s` without a leading `+`.
pub open spec fn unsigned_body(s: Seq<char>) -> Seq<char> {
    if s.len() > 0 && s[0] == '+' {
        s.drop_first()
    } else {
        s
    }
}

/// A run of one or more ASCII digits with a value of at most `cap`.
pub open spec fn digits_upto(s: Seq<char>, cap: int) -> bool {
    s.len() > 0 && all_digits(s) && digits_value(s) <= cap
}

/// What `str::parse::<u16>` accepts: an optional `+`, then one or more
/// ASCII digits with a value of at most 65535.
pub open spec fn parse_u16(s: Seq<char>) -> Option<u16> {
    if digits_upto(unsigned_body(s), u16::MAX as int) {
        Some(digits_value(unsigned_body(s)) as u16)
    } else {
        None
    }
}

/// What `str::parse::<u32>` accepts: an optional `+`, then one or more
/// ASCII digits with a value of at most `u32::MAX`.
pub open spec fn parse_u32(s: Seq<char>) -> Option<u32> {
    if digits_upto(unsigned_body(s), u32::MAX as int) {
        Some(digits_value(unsigned_body(s)) as u32)
    } else {
        None
    }
}

/// What `str::parse::<i32>` accepts: an optional sign, then one or more
/// ASCII digits, with the value in range.
pub open spec fn parse_i32(s: Seq<char>) -> Option<i32> {
    let body = s.skip(sign_len(s));
    let v = if sign_len(s) == 1 && s[0] == '-' {
        -digits_value(body)
    } else {
        digits_value(body)
    };
    if body.len() > 0 && all_digits(body) && i32::MIN <= v <= i32::MAX {
        Some(v as i32)
    } else {
        None
    }
}

pub proof fn lemma_digits_value_nonneg(s: Seq<char>)
    requires
        all_digits(s),
    ensures
        digits_value(s) >= 0,
    decreases s.len(),
{
    if s.len() > 0 {
        assert(is_ascii_digit(s[s.len() - 1]));
        lemma_digits_value_nonneg(s.drop_last());
    }
}

/// The value of the digits `v[from..]` if they are one or more ASCII digits
/// worth at most `cap`.
fn digits_from(v: &[char], from: usize, cap: u64) -> (r: Option<u64>)
    requires
        from <= v@.len(),
        cap <= u32::MAX + 1,
    ensures
        r is Some <==> digits_upto(v@.skip(from as int), cap as int),
        r matches Some(x) ==> x == digits_value(v@.skip(from as int)),
{
    let n = v.len();
    let ghost body = v@.skip(from as int);
    if from == n {
        return None;
    }
    let mut val: u64 = 0;
    let mut over = false;
    let mut i = from;
    while i < n
        invariant
            from <= i <= n,
            n == v@.len(),
            cap <= u32::MAX + 1,
            body == v@.skip(from as int),
            forall|j: int| 0 <= j < i - from ==> is_ascii_digit(#[trigger] body[j]),
            over ==> digits_value(body.take(i - from)) > cap,
            !over ==> val == digits_value(body.take(i - from)) && val <= cap,
        decreases n - i,
    {
        let c = v[i];
        assert(body[i - from] == c);
        if !('0' <= c && c <= '9') {
            assert(!all_digits(body)) by {
                assert(!is_ascii_digit(body[i - from]));
            }
            return None;
        }
        let d = (c as u32 - 48) as u64;
        let ghost k = i - from;
        assert(body.take(k + 1).drop_last() =~= body.take(k));
        assert(body.take(k + 1).last() == c);
        if !over {
            val = val * 10 + d;
            if val > cap {
                over = true;
            }
        } else {
            assert(digits_value(body.take(k + 1)) == digits_value(body.take(k)) * 10 + d);
        }
        i = i + 1;
    }
    assert(body.take(n - from) =~= body);
    if over {
        None
    } else {
        Some(val)
    }
}

/// `str::parse::<u16>`.
pub fn parse_u16_chars(v: &[char]) -> (r: Option<u16>)
    ensures
        r == parse_u16(v@),
{
    let from: usize = if v.len() > 0 && v[0] == '+' {
        1
    } else {
        0
    };
    assert(unsigned_body(v@) =~= v@.skip(from as int));
    match digits_from(v, from, 65535) {
        Some(x) => Some(x as u16),
        None => None,
    }
}

/// `str::parse::<u32>`.
pub fn parse_u32_chars(v: &[char]) -> (r: Option<u32>)
    ensures
        r == parse_u32(v@),
{
    let from: usize = if v.len() > 0 && v[0] == '+' {
        1
    } else {
        0
    };
    assert(unsigned_body(v@) =~= v@.skip(from as int));
    match digits_from(v, from, 4294967295) {
        Some(x) => Some(x as u32),
        None => None,
    }
}

/// `str::parse::<i32>`.
pub fn parse_i32_chars(v: &[char]) -> (r: Option<i32>)
    ensures
        r == parse_i32(v@),
{
    let signed = v.len() > 0 && (v[0] == '+' || v[0] == '-');
    let negative = signed && v[0] == '-';
    let from: usize = if signed {
        1
    } else {
        0
    };
    assert(from == sign_len(v@));
    let cap: u64 = if negative {
        2147483648
    } else {
        2147483647
    };
    match digits_from(v, from, cap) {
        Some(x) => {
            if negative {
                Some((0 - (x as i64)) as i32)
            } else {
                Some(x as i32)
            }
        },
        None => {
            proof {
                let body = v@.skip(from as int);
                if body.len() > 0 && all_digits(body) {
                    lemma_digits_value_nonneg(body);
                }
            }
            None
        },
    }
}

} // verus!
