//! Exact decimal coordinates.
//!
//! The external lookup answers with coordinates as decimal strings; the
//! cache keeps them at full precision and the generator renders them at
//! three decimals.  Both are exact here: a coordinate is parsed into
//! signed microdegrees (millionths of a degree, truncating anything past
//! the sixth decimal), and the three-decimal presentation is a rounding to
//! millidegrees.

use vstd::prelude::*;

use crate::RunError;
use crate::canon::find_char;
use crate::canon::first_index_of;

verus! {

/// A decimal digit.
pub open spec fn is_digit(c: char) -> bool {
    ||| c == '0'
    ||| c == '1'
    ||| c == '2'
    ||| c == '3'
    ||| c == '4'
    ||| c == '5'
    ||| c == '6'
    ||| c == '7'
    ||| c == '8'
    ||| c == '9'
}

/// The value of a decimal digit.
pub open spec fn digit_val(c: char) -> int {
    if c == '0' {
        0
    } else if c == '1' {
        1
    } else if c == '2' {
        2
    } else if c == '3' {
        3
    } else if c == '4' {
        4
    } else if c == '5' {
        5
    } else if c == '6' {
        6
    } else if c == '7' {
        7
    } else if c == '8' {
        8
    } else {
        9
    }
}

/// Every character is a decimal digit.
pub open spec fn all_digits(s: Seq<char>) -> bool {
    forall|i: int| 0 <= i < s.len() ==> is_digit(#[trigger] s[i])
}

/// The value of a digit string read in base ten.
pub open spec fn digits_val(s: Seq<char>) -> int
    decreases s.len(),
{
    if s.len() == 0 {
        0
    } else {
        digits_val(s.drop_last()) * 10 + digit_val(s.last())
    }
}

/// Ten to the `n`.
pub open spec fn pow10(n: nat) -> int
    decreases n,
{
    if n == 0 {
        1
    } else {
        10 * pow10((n - 1) as nat)
    }
}

/// The value of a fractional part in microdegrees: the first six digits,
/// right-padded with zeroes; anything past the sixth digit is truncated.
pub open spec fn frac6_val(s: Seq<char>) -> int {
    if s.len() >= 6 {
        digits_val(s.take(6))
    } else {
        digits_val(s) * pow10((6 - s.len()) as nat)
    }
}

/// The integer-part bound past which a coordinate is refused; it keeps
/// every accepted value within `i64` microdegrees.
pub open spec fn max_int_part() -> int {
    9_000_000_000_000
}

/// The microdegree value of a sign, an integer part, and a fractional
/// part, or nothing if the integer part is out of range.
pub open spec fn bound_value(neg: bool, iv: int, fv: int) -> Option<int> {
    if iv > max_int_part() {
        None
    } else if neg {
        Some(-(iv * 1_000_000 + fv))
    } else {
        Some(iv * 1_000_000 + fv)
    }
}

/// Parses an unsigned decimal body — digits with at most one point and at
/// least one digit overall — into microdegrees.
pub open spec fn parse_unsigned(body: Seq<char>, neg: bool) -> Option<int> {
    match first_index_of(body, '.') {
        None => if body.len() >= 1 && all_digits(body) {
            bound_value(neg, digits_val(body), 0)
        } else {
            None
        },
        Some(d) => {
            let ip = body.take(d);
            let fp = body.skip(d + 1);
            if ip.len() + fp.len() >= 1 && all_digits(ip) && all_digits(fp) {
                bound_value(neg, digits_val(ip), frac6_val(fp))
            } else {
                None
            }
        },
    }
}

/// Parses a plain signed decimal string into microdegrees.  The grammar is
/// an optional sign, digits, and at most one decimal point — the shape the
/// external lookup answers with; exponents and non-finite spellings are
/// refused.
pub open spec fn parse_coord_spec(s: Seq<char>) -> Option<int> {
    if s.len() > 0 && (s.first() == '-' || s.first() == '+') {
        parse_unsigned(s.drop_first(), s.first() == '-')
    } else {
        parse_unsigned(s, false)
    }
}

/// All-digit strings have nonnegative values, below ten to their length.
proof fn lemma_digits_val_bounds(s: Seq<char>)
    requires
        all_digits(s),
    ensures
        0 <= digits_val(s) < pow10(s.len() as nat),
    decreases s.len(),
{
    if s.len() > 0 {
        assert(all_digits(s.drop_last())) by {
            assert(forall|i: int|
                0 <= i < s.len() - 1 ==> #[trigger] s.drop_last()[i] == s[i]);
        }
        lemma_digits_val_bounds(s.drop_last());
        assert(is_digit(s[s.len() - 1]));
        assert(0 <= digit_val(s.last()) <= 9);
    }
}

/// A prefix of an all-digit string never exceeds the whole string's value.
proof fn lemma_digits_val_prefix(s: Seq<char>, i: int)
    requires
        all_digits(s),
        0 <= i <= s.len(),
    ensures
        0 <= digits_val(s.take(i)) <= digits_val(s),
    decreases s.len(),
{
    assert(all_digits(s.take(i))) by {
        assert(forall|j: int| 0 <= j < i ==> #[trigger] s.take(i)[j] == s[j]);
    }
    lemma_digits_val_bounds(s.take(i));
    if i < s.len() {
        assert(all_digits(s.drop_last())) by {
            assert(forall|j: int|
                0 <= j < s.len() - 1 ==> #[trigger] s.drop_last()[j] == s[j]);
        }
        assert(s.drop_last().take(i) =~= s.take(i));
        lemma_digits_val_prefix(s.drop_last(), i);
        lemma_digits_val_bounds(s.drop_last());
        assert(is_digit(s[s.len() - 1]));
        assert(0 <= digit_val(s.last()) <= 9);
        assert(digits_val(s.drop_last()) * 10 >= digits_val(s.drop_last()));
    } else {
        assert(s.take(i) =~= s);
    }
}

/// The value of one decimal digit character, if it is one.
fn digit_of(c: char) -> (r: Option<u64>)
    ensures
        match r {
            Some(v) => is_digit(c) && v as int == digit_val(c) && v <= 9,
            None => !is_digit(c),
        },
{
    if c == '0' {
        Some(0)
    } else if c == '1' {
        Some(1)
    } else if c == '2' {
        Some(2)
    } else if c == '3' {
        Some(3)
    } else if c == '4' {
        Some(4)
    } else if c == '5' {
        Some(5)
    } else if c == '6' {
        Some(6)
    } else if c == '7' {
        Some(7)
    } else if c == '8' {
        Some(8)
    } else if c == '9' {
        Some(9)
    } else {
        None
    }
}

/// Reads an all-digit string whose value stays within the integer-part
/// bound; answers nothing for any other string.
fn digits_value(ds: &str) -> (r: Option<u64>)
    ensures
        match r {
            Some(v) => all_digits(ds@) && v as int == digits_val(ds@) && v
                <= 9_000_000_000_000,
            None => !(all_digits(ds@) && digits_val(ds@) <= max_int_part()),
        },
{
    let n = ds.unicode_len();
    let mut acc: u64 = 0;
    let mut i: usize = 0;
    while i < n
        invariant
            i <= n,
            n == ds@.len(),
            forall|j: int| 0 <= j < i ==> is_digit(#[trigger] ds@[j]),
            acc as int == digits_val(ds@.take(i as int)),
            acc <= 9_000_000_000_000,
        decreases n - i,
    {
        let c = ds.get_char(i);
        match digit_of(c) {
            None => {
                proof {
                    assert(!is_digit(ds@[i as int]));
                    assert(!all_digits(ds@));
                }
                return None;
            },
            Some(dv) => {
                let newacc = acc * 10 + dv;
                proof {
                    let t1 = ds@.take(i + 1 as int);
                    assert(t1.drop_last() =~= ds@.take(i as int));
                    assert(t1.last() == ds@[i as int]);
                }
                if newacc > 9_000_000_000_000 {
                    proof {
                        if all_digits(ds@) {
                            lemma_digits_val_prefix(ds@, i + 1 as int);
                        }
                    }
                    return None;
                }
                acc = newacc;
            },
        }
        i = i + 1;
    }
    proof {
        assert(ds@.take(n as int) =~= ds@);
    }
    Some(acc)
}

/// Reads a fractional part: an all-digit string valued in microdegrees,
/// the first six digits padded with zeroes, the rest truncated.
fn frac6_value(fs: &str) -> (r: Option<u64>)
    ensures
        match r {
            Some(v) => all_digits(fs@) && v as int == frac6_val(fs@) && v <= 999_999,
            None => !all_digits(fs@),
        },
{
    proof {
        reveal_with_fuel(pow10, 8);
    }
    let n = fs.unicode_len();
    let mut acc: u64 = 0;
    let mut cnt: usize = 0;
    let mut i: usize = 0;
    while i < n
        invariant
            i <= n,
            n == fs@.len(),
            forall|j: int| 0 <= j < i ==> is_digit(#[trigger] fs@[j]),
            cnt == if i < 6 {
                i
            } else {
                6
            },
            acc as int == digits_val(fs@.take(cnt as int)),
            (acc as int) < pow10(cnt as nat),
            cnt <= 6,
        decreases n - i,
    {
        let c = fs.get_char(i);
        match digit_of(c) {
            None => {
                proof {
                    assert(!is_digit(fs@[i as int]));
                    assert(!all_digits(fs@));
                }
                return None;
            },
            Some(dv) => {
                if i < 6 {
                    proof {
                        reveal_with_fuel(pow10, 8);
                        let t1 = fs@.take(cnt + 1 as int);
                        assert(t1.drop_last() =~= fs@.take(cnt as int));
                        assert(t1.last() == fs@[cnt as int]);
                    }
                    acc = acc * 10 + dv;
                    cnt = cnt + 1;
                }
            },
        }
        i = i + 1;
    }
    proof {
        reveal_with_fuel(pow10, 8);
        if n >= 6 {
            assert(cnt == 6);
        } else {
            assert(cnt == n);
            assert(fs@.take(n as int) =~= fs@);
        }
    }
    proof {
        reveal_with_fuel(pow10, 8);
        assert(all_digits(fs@.take(cnt as int))) by {
            assert(forall|j: int|
                0 <= j < cnt ==> #[trigger] fs@.take(cnt as int)[j] == fs@[j]);
        }
        lemma_digits_val_bounds(fs@.take(cnt as int));
        assert(pow10(0) == 1);
        assert(digits_val(fs@.take(cnt as int)) * 1 == digits_val(fs@.take(cnt as int)));
    }
    let mut pad = cnt;
    while pad < 6
        invariant
            cnt <= pad <= 6,
            cnt <= 6,
            acc as int == digits_val(fs@.take(cnt as int)) * pow10((pad - cnt) as nat),
            (acc as int) < pow10(pad as nat),
            0 <= digits_val(fs@.take(cnt as int)),
        decreases 6 - pad,
    {
        proof {
            reveal_with_fuel(pow10, 8);
            let v = digits_val(fs@.take(cnt as int));
            let p = pow10((pad - cnt) as nat);
            assert(pow10((pad + 1 - cnt) as nat) == 10 * p);
            assert(v * (10 * p) == 10 * (v * p)) by (nonlinear_arith);
            assert(pow10((pad + 1) as nat) == 10 * pow10(pad as nat));
        }
        acc = acc * 10;
        pad = pad + 1;
    }
    proof {
        reveal_with_fuel(pow10, 8);
        assert(pow10(6) == 1_000_000);
        if n >= 6 {
            assert(fs@.take(cnt as int) == fs@.take(6));
            assert(pow10((6 - cnt) as nat) == 1);
        } else {
            assert(fs@.take(cnt as int) =~= fs@);
        }
        lemma_digits_val_bounds(fs@.take(cnt as int));
    }
    Some(acc)
}

/// Turns an in-range integer part and fractional part into a signed
/// microdegree value.
fn assemble(neg: bool, iv: u64, fv: u64) -> (r: i64)
    requires
        iv <= 9_000_000_000_000,
        fv <= 999_999,
    ensures
        bound_value(neg, iv as int, fv as int) matches Some(v) && r as int == v,
{
    let u = iv * 1_000_000 + fv;
    if neg {
        -(u as i64)
    } else {
        u as i64
    }
}

/// Parses the unsigned body of a coordinate.
fn parse_unsigned_exec(body: &str, neg: bool) -> (r: Result<i64, RunError>)
    ensures
        match parse_unsigned(body@, neg) {
            Some(v) => r matches Ok(x) && x as int == v,
            None => r matches Err(e) && e == RunError::LookupTransportError,
        },
{
    let n = body.unicode_len();
    match find_char(body, '.') {
        None => {
            if n == 0 {
                return Err(RunError::LookupTransportError);
            }
            match digits_value(body) {
                None => Err(RunError::LookupTransportError),
                Some(v) => Ok(assemble(neg, v, 0)),
            }
        },
        Some(d) => {
            proof {
                crate::canon::lemma_first_index_props(body@, '.');
            }
            let ip = body.substring_char(0, d);
            let fp = body.substring_char(d + 1, n);
            proof {
                assert(ip@ =~= body@.take(d as int));
                assert(fp@ =~= body@.skip(d + 1 as int));
            }
            if ip.unicode_len() == 0 && fp.unicode_len() == 0 {
                return Err(RunError::LookupTransportError);
            }
            match digits_value(ip) {
                None => Err(RunError::LookupTransportError),
                Some(iv) => match frac6_value(fp) {
                    None => Err(RunError::LookupTransportError),
                    Some(fv) => {
                        proof {
                            lemma_digits_val_bounds(fp@);
                        }
                        Ok(assemble(neg, iv, fv))
                    },
                },
            }
        },
    }
}

/// Parses a coordinate string from the external lookup into microdegrees.
/// Succeeds exactly on plain signed decimals whose integer part is within
/// range; any other string is a transport-level failure.
pub fn parse_coordinate(s: &str) -> (r: Result<i64, RunError>)
    ensures
        match parse_coord_spec(s@) {
            Some(v) => r matches Ok(x) && x as int == v,
            None => r matches Err(e) && e == RunError::LookupTransportError,
        },
{
    let n = s.unicode_len();
    let mut start: usize = 0;
    let mut neg = false;
    if n > 0 {
        let c0 = s.get_char(0);
        if c0 == '-' {
            neg = true;
            start = 1;
        } else if c0 == '+' {
            start = 1;
        }
    }
    let body = s.substring_char(start, n);
    proof {
        if start == 1 {
            assert(body@ =~= s@.drop_first());
        } else {
            assert(body@ =~= s@);
        }
    }
    parse_unsigned_exec(body, neg)
}

/// Rounds microdegrees to millidegrees — the fixed three-decimal
/// presentation of every emitted coordinate — to the nearest, ties away
/// from zero.
pub open spec fn round_milli_spec(x: int) -> int {
    if x >= 0 {
        (x + 500) / 1000
    } else {
        -((-x + 500) / 1000)
    }
}

/// Rounds a microdegree value to millidegrees.
pub fn round_micro_to_milli(x: i64) -> (r: i64)
    ensures
        r as int == round_milli_spec(x as int),
{
    if x >= 0 {
        let u = (x as u64 + 500) / 1000;
        u as i64
    } else {
        let m = -(x as i128);
        let mu = m as u64;
        let u = (mu + 500) / 1000;
        -(u as i64)
    }
}

} // verus!
