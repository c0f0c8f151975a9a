//! Decimal text for machine integers: verified formatting and parsing of
//! signed values in base 10, with the round-trip law the codec relies on.

use vstd::prelude::*;
use vstd::arithmetic::div_mod::lemma_fundamental_div_mod;
use crate::text::push_char;

verus! {

pub open spec fn is_digit(c: char) -> bool {
    0x30 <= c as u32 && c as u32 <= 0x39
}

pub open spec fn digit_val(c: char) -> int {
    c as u32 - 0x30
}

pub open spec fn char_of_digit(d: int) -> char {
    if d == 0 {
        '0'
    } else if d == 1 {
        '1'
    } else if d == 2 {
        '2'
    } else if d == 3 {
        '3'
    } else if d == 4 {
        '4'
    } else if d == 5 {
        '5'
    } else if d == 6 {
        '6'
    } else if d == 7 {
        '7'
    } else if d == 8 {
        '8'
    } else {
        '9'
    }
}

/// The decimal rendering of a non-negative integer: most significant digit first.
pub open spec fn u64_dec(n: int) -> Seq<char>
    decreases n,
{
    if n < 10 {
        seq![char_of_digit(n)]
    } else {
        u64_dec(n / 10).push(char_of_digit(n % 10))
    }
}

/// The decimal rendering of a signed integer.
pub open spec fn i64_dec(n: int) -> Seq<char> {
    if n < 0 {
        seq!['-'] + u64_dec(-n)
    } else {
        u64_dec(n)
    }
}

/// The value of the digit run `s[i..]` appended to an accumulator.
pub open spec fn dec_val_from(s: Seq<char>, i: int, acc: int) -> int
    decreases s.len() - i,
{
    if i < 0 || i >= s.len() {
        acc
    } else {
        dec_val_from(s, i + 1, acc * 10 + digit_val(s[i]))
    }
}

pub open spec fn dec_val(s: Seq<char>) -> int {
    dec_val_from(s, 0, 0)
}

pub open spec fn all_digits_from(s: Seq<char>, i: int) -> bool {
    forall|j: int| i <= j < s.len() ==> is_digit(#[trigger] s[j])
}

pub open spec fn all_digits(s: Seq<char>) -> bool {
    all_digits_from(s, 0)
}

#[derive(Clone, Copy, Debug, PartialEq, Eq, Structural)]
pub enum ScanError {
    BadDigit,
    TooBig,
}

/// A left-to-right digit scan that stops at the first character that is not a
/// digit, or as soon as the accumulated value would pass `bound`. This is the
/// order in which the parser itself reports trouble.
pub open spec fn dec_scan(s: Seq<char>, i: int, acc: int, bound: int) -> Result<int, ScanError>
    decreases s.len() - i,
{
    if i < 0 || i >= s.len() {
        Ok(acc)
    } else if !is_digit(s[i]) {
        Err(ScanError::BadDigit)
    } else if acc * 10 + digit_val(s[i]) > bound {
        Err(ScanError::TooBig)
    } else {
        dec_scan(s, i + 1, acc * 10 + digit_val(s[i]), bound)
    }
}

pub open spec fn has_sign(t: Seq<char>) -> bool {
    t.len() > 0 && (t[0] == '+' || t[0] == '-')
}

pub open spec fn is_negative(t: Seq<char>) -> bool {
    t.len() > 0 && t[0] == '-'
}

pub open spec fn digits_of(t: Seq<char>) -> Seq<char> {
    if has_sign(t) {
        t.drop_first()
    } else {
        t
    }
}

pub open spec fn signed_val(t: Seq<char>) -> int {
    if is_negative(t) {
        -dec_val(digits_of(t))
    } else {
        dec_val(digits_of(t))
    }
}

/// A well-formed decimal for the range `lo ..= hi`: an optional sign, at
/// least one digit, nothing else, and a value inside the range.
pub open spec fn dec_valid(t: Seq<char>, lo: int, hi: int) -> bool {
    &&& t.len() > 0
    &&& digits_of(t).len() > 0
    &&& all_digits(digits_of(t))
    &&& lo <= signed_val(t) <= hi
}

#[derive(Clone, Copy, Debug, PartialEq, Eq, Structural)]
pub enum IntParseError {
    Empty,
    InvalidDigit,
    PosOverflow,
    NegOverflow,
}

/// What parsing `t` as a decimal integer in `lo ..= hi` yields, including
/// which complaint comes first on bad input.
pub open spec fn dec_parse(t: Seq<char>, lo: int, hi: int) -> Result<int, IntParseError> {
    if t.len() == 0 {
        Err(IntParseError::Empty)
    } else if digits_of(t).len() == 0 {
        Err(IntParseError::InvalidDigit)
    } else {
        let bound = if is_negative(t) {
            -lo
        } else {
            hi
        };
        match dec_scan(digits_of(t), 0, 0, bound) {
            Ok(v) => Ok(
                if is_negative(t) {
                    -v
                } else {
                    v
                },
            ),
            Err(ScanError::BadDigit) => Err(IntParseError::InvalidDigit),
            Err(ScanError::TooBig) => Err(
                if is_negative(t) {
                    IntParseError::NegOverflow
                } else {
                    IntParseError::PosOverflow
                },
            ),
        }
    }
}

proof fn lemma_dec_val_push(s: Seq<char>, c: char, i: int, acc: int)
    requires
        0 <= i <= s.len(),
    ensures
        dec_val_from(s.push(c), i, acc) == dec_val_from(s, i, acc) * 10 + digit_val(c),
    decreases s.len() - i,
{
    if i == s.len() {
        assert(s.push(c)[i] == c);
        assert(dec_val_from(s.push(c), i + 1, acc * 10 + digit_val(c)) == acc * 10 + digit_val(
            c,
        ));
    } else {
        assert(s.push(c)[i] == s[i]);
        lemma_dec_val_push(s, c, i + 1, acc * 10 + digit_val(s[i]));
    }
}

/// The rendering of a non-negative integer is a non-empty digit run whose
/// value is the integer itself.
pub proof fn lemma_u64_dec_digits(n: int)
    requires
        0 <= n,
    ensures
        u64_dec(n).len() >= 1,
        all_digits(u64_dec(n)),
        dec_val(u64_dec(n)) == n,
    decreases n,
{
    if n < 10 {
        assert(dec_val_from(seq![char_of_digit(n)], 0, 0) == dec_val_from(
            seq![char_of_digit(n)],
            1,
            digit_val(char_of_digit(n)),
        ));
    } else {
        lemma_u64_dec_digits(n / 10);
        lemma_fundamental_div_mod(n, 10);
        lemma_dec_val_push(u64_dec(n / 10), char_of_digit(n % 10), 0, 0);
        assert forall|j: int| 0 <= j < u64_dec(n).len() implies is_digit(#[trigger] u64_dec(n)[j]) by {
            if j < u64_dec(n / 10).len() {
                assert(u64_dec(n)[j] == u64_dec(n / 10)[j]);
            } else {
                assert(u64_dec(n)[j] == char_of_digit(n % 10));
            }
        }
    }
}

proof fn lemma_dec_val_lower(s: Seq<char>, i: int, acc: int)
    requires
        0 <= acc,
        all_digits_from(s, i),
    ensures
        dec_val_from(s, i, acc) >= acc,
    decreases s.len() - i,
{
    if 0 <= i < s.len() {
        assert(is_digit(s[i]));
        lemma_dec_val_lower(s, i + 1, acc * 10 + digit_val(s[i]));
    }
}

/// A digit run whose value stays within the bound scans through to that value.
pub proof fn lemma_dec_scan_ok(s: Seq<char>, i: int, acc: int, bound: int)
    requires
        0 <= acc,
        all_digits_from(s, i),
        dec_val_from(s, i, acc) <= bound,
    ensures
        dec_scan(s, i, acc, bound) == Ok::<int, ScanError>(dec_val_from(s, i, acc)),
    decreases s.len() - i,
{
    if 0 <= i < s.len() {
        assert(is_digit(s[i]));
        lemma_dec_val_lower(s, i + 1, acc * 10 + digit_val(s[i]));
        lemma_dec_scan_ok(s, i + 1, acc * 10 + digit_val(s[i]), bound);
    }
}

/// A scan that succeeds did read digits only, and its value is the run's value.
pub proof fn lemma_dec_scan_ok_inv(s: Seq<char>, i: int, acc: int, bound: int)
    requires
        0 <= i,
        0 <= acc <= bound,
        dec_scan(s, i, acc, bound) is Ok,
    ensures
        all_digits_from(s, i),
        dec_scan(s, i, acc, bound) == Ok::<int, ScanError>(dec_val_from(s, i, acc)),
        acc <= dec_val_from(s, i, acc) <= bound,
    decreases s.len() - i,
{
    if 0 <= i < s.len() {
        assert(is_digit(s[i]));
        assert(acc * 10 + digit_val(s[i]) <= bound);
        lemma_dec_scan_ok_inv(s, i + 1, acc * 10 + digit_val(s[i]), bound);
        assert forall|j: int| i <= j < s.len() implies is_digit(#[trigger] s[j]) by {
            if j > i {
                assert(is_digit(s[j]));
            }
        }
    }
}

proof fn lemma_scan_skip(s: Seq<char>, k: int, i: int, acc: int, bound: int)
    requires
        0 <= k <= s.len(),
        0 <= i,
    ensures
        dec_scan(s, k + i, acc, bound) == dec_scan(s.skip(k), i, acc, bound),
    decreases s.len() - (k + i),
{
    if k + i < s.len() {
        assert(s.skip(k)[i] == s[k + i]);
        if is_digit(s[k + i]) && acc * 10 + digit_val(s[k + i]) <= bound {
            lemma_scan_skip(s, k, i + 1, acc * 10 + digit_val(s[k + i]), bound);
        }
    }
}

/// Whether parsing `t` in `lo ..= hi` succeeds, and with which value, said
/// directly: an optional sign, at least one digit, a value inside the range.
pub proof fn lemma_dec_parse_complete(t: Seq<char>, lo: int, hi: int)
    requires
        lo <= 0 <= hi,
    ensures
        dec_parse(t, lo, hi) is Ok <==> dec_valid(t, lo, hi),
        dec_parse(t, lo, hi) matches Ok(v) ==> v == signed_val(t),
{
    if t.len() > 0 && digits_of(t).len() > 0 {
        let d = digits_of(t);
        let bound = if is_negative(t) {
            -lo
        } else {
            hi
        };
        if dec_scan(d, 0, 0, bound) is Ok {
            lemma_dec_scan_ok_inv(d, 0, 0, bound);
        }
        if dec_valid(t, lo, hi) {
            lemma_dec_val_lower(d, 0, 0);
            lemma_dec_scan_ok(d, 0, 0, bound);
        }
    }
}

fn digit_char(d: u64) -> (c: char)
    requires
        d < 10,
    ensures
        c == char_of_digit(d as int),
{
    if d == 0 {
        '0'
    } else if d == 1 {
        '1'
    } else if d == 2 {
        '2'
    } else if d == 3 {
        '3'
    } else if d == 4 {
        '4'
    } else if d == 5 {
        '5'
    } else if d == 6 {
        '6'
    } else if d == 7 {
        '7'
    } else if d == 8 {
        '8'
    } else {
        '9'
    }
}

/// Appends the decimal rendering of `n` to `out`.
pub fn push_u64_dec(out: &mut String, n: u64)
    ensures
        final(out)@ == old(out)@ + u64_dec(n as int),
    decreases n,
{
    if n < 10 {
        push_char(out, digit_char(n));
        proof {
            assert(final(out)@ =~= old(out)@ + u64_dec(n as int));
        }
    } else {
        let q = n / 10;
        let r = n % 10;
        push_u64_dec(out, q);
        push_char(out, digit_char(r));
        proof {
            assert(final(out)@ =~= old(out)@ + u64_dec(n as int));
        }
    }
}

/// Appends the decimal rendering of `n`, with a leading minus sign when
/// `n` is negative, to `out`.
pub fn push_i64_dec(out: &mut String, n: i64)
    ensures
        final(out)@ == old(out)@ + i64_dec(n as int),
{
    if n >= 0 {
        push_u64_dec(out, n as u64);
    } else {
        push_char(out, '-');
        let m: u64 = if n == i64::MIN {
            9223372036854775808
        } else {
            (-n) as u64
        };
        assert(m as int == -(n as int));
        push_u64_dec(out, m);
        proof {
            assert(final(out)@ =~= old(out)@ + i64_dec(n as int));
        }
    }
}

/// Scans a digit run in `s` from position `st` on, accumulating its value as
/// long as it stays within `bound`.
fn parse_mag(s: &str, st: usize, bound: u64) -> (r: Result<u64, ScanError>)
    requires
        st <= s@.len(),
    ensures
        ({
            let sc = dec_scan(s@, st as int, 0, bound as int);
            match r {
                Ok(v) => sc == Ok::<int, ScanError>(v as int),
                Err(e) => sc == Err::<int, ScanError>(e),
            }
        }),
{
    let n = s.unicode_len();
    let mut i: usize = st;
    let mut acc: u64 = 0;
    while i < n
        invariant
            st <= i <= n,
            n == s@.len(),
            acc <= bound,
            dec_scan(s@, st as int, 0, bound as int) == dec_scan(
                s@,
                i as int,
                acc as int,
                bound as int,
            ),
        decreases n - i,
    {
        let c = s.get_char(i);
        let u = c as u32;
        if u < 0x30 || 0x39 < u {
            return Err(ScanError::BadDigit);
        }
        let d = (u - 0x30) as u64;
        if d > bound || acc > (bound - d) / 10 {
            proof {
                assert(acc as int * 10 + digit_val(s@[i as int]) > bound as int) by (nonlinear_arith)
                    requires
                        d <= bound ==> acc > (bound - d) / 10,
                        d as int == digit_val(s@[i as int]),
                        0 <= d,
                        0 <= acc,
                        0 <= bound,
                ;
            }
            return Err(ScanError::TooBig);
        }
        proof {
            assert(acc as int * 10 + d <= bound as int) by (nonlinear_arith)
                requires
                    d <= bound,
                    acc <= (bound - d) / 10,
                    0 <= acc,
            ;
        }
        acc = acc * 10 + d;
        i += 1;
    }
    Ok(acc)
}

/// Parses an optional sign and a digit run; the magnitude may reach
/// `neg_bound` under a minus sign and `pos_bound` otherwise.
pub(crate) fn parse_sign_mag(s: &str, neg_bound: u64, pos_bound: u64) -> (r: Result<
    (bool, u64),
    IntParseError,
>)
    ensures
        ({
            let p = dec_parse(s@, -(neg_bound as int), pos_bound as int);
            match r {
                Ok((neg, v)) => {
                    &&& p == Ok::<int, IntParseError>(
                        if neg {
                            -(v as int)
                        } else {
                            v as int
                        },
                    )
                    &&& neg == is_negative(s@)
                    &&& (neg ==> v <= neg_bound)
                    &&& (!neg ==> v <= pos_bound)
                },
                Err(e) => p == Err::<int, IntParseError>(e),
            }
        }),
{
    let n = s.unicode_len();
    if n == 0 {
        return Err(IntParseError::Empty);
    }
    let c0 = s.get_char(0);
    let neg = c0 == '-';
    let st: usize = if c0 == '-' || c0 == '+' {
        1
    } else {
        0
    };
    if n == st {
        return Err(IntParseError::InvalidDigit);
    }
    let bound: u64 = if neg {
        neg_bound
    } else {
        pos_bound
    };
    proof {
        lemma_scan_skip(s@, st as int, 0, 0, bound as int);
        if st == 1 {
            assert(s@.skip(1) =~= digits_of(s@));
        } else {
            assert(s@.skip(0) =~= digits_of(s@));
        }
    }
    match parse_mag(s, st, bound) {
        Ok(v) => {
            proof {
                lemma_dec_scan_ok_inv(digits_of(s@), 0, 0, bound as int);
            }
            Ok((neg, v))
        },
        Err(ScanError::BadDigit) => Err(IntParseError::InvalidDigit),
        Err(ScanError::TooBig) => Err(
            if neg {
                IntParseError::NegOverflow
            } else {
                IntParseError::PosOverflow
            },
        ),
    }
}

/// Parses a decimal `i64`, accepting exactly what `dec_valid` admits for the
/// type's range and reporting the first offence otherwise.
pub fn parse_i64(s: &str) -> (r: Result<i64, IntParseError>)
    ensures
        r is Ok <==> dec_valid(s@, i64::MIN as int, i64::MAX as int),
        r matches Ok(v) ==> v as int == signed_val(s@),
        r matches Err(e) ==> dec_parse(s@, i64::MIN as int, i64::MAX as int) == Err::<
            int,
            IntParseError,
        >(e),
{
    proof {
        lemma_dec_parse_complete(s@, i64::MIN as int, i64::MAX as int);
    }
    match parse_sign_mag(s, 9223372036854775808, 9223372036854775807) {
        Ok((neg, v)) => {
            if neg {
                if v == 9223372036854775808 {
                    Ok(i64::MIN)
                } else {
                    Ok(-(v as i64))
                }
            } else {
                Ok(v as i64)
            }
        },
        Err(e) => Err(e),
    }
}

/// A decimal rendering parses back to the value it came from.
pub proof fn lemma_i64_dec_roundtrip(n: int)
    requires
        i64::MIN as int <= n <= i64::MAX as int,
    ensures
        dec_valid(i64_dec(n), i64::MIN as int, i64::MAX as int),
        signed_val(i64_dec(n)) == n,
{
    if n >= 0 {
        lemma_u64_dec_digits(n);
        assert(is_digit(u64_dec(n)[0]));
        assert(!has_sign(i64_dec(n)));
    } else {
        lemma_u64_dec_digits(-n);
        let t = i64_dec(n);
        assert(t[0] == '-');
        assert(t.drop_first() =~= u64_dec(-n));
    }
}

/// Every character of a decimal rendering is a digit or the minus sign.
pub proof fn lemma_i64_dec_chars(n: int)
    requires
        i64::MIN as int <= n <= i64::MAX as int,
    ensures
        i64_dec(n).len() >= 1,
        forall|j: int|
            0 <= j < i64_dec(n).len() ==> (is_digit(#[trigger] i64_dec(n)[j]) || i64_dec(n)[j]
                == '-'),
{
    if n >= 0 {
        lemma_u64_dec_digits(n);
    } else {
        lemma_u64_dec_digits(-n);
        let t = i64_dec(n);
        assert forall|j: int| 0 <= j < t.len() implies (is_digit(#[trigger] t[j]) || t[j]
            == '-') by {
            if j > 0 {
                assert(t[j] == u64_dec(-n)[j - 1]);
                assert(is_digit(u64_dec(-n)[j - 1]));
            }
        }
    }
}

} // verus!
