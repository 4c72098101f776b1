//! Decimal formatting and parsing of `i32` range boundaries.
//!
//! `dec_digits` and `int_str` specify the minimal decimal representation of
//! an integer, and `pad_str` the zero-padded form used when the left range
//! literal carries a leading zero.  `spec_parse_i32` specifies signed decimal
//! parsing with the usual error taxonomy (empty literal, invalid digit,
//! overflow), processing characters left to right.  The executable
//! counterparts are verified against these specifications, and the
//! round-trip lemma ties the two together.

use crate::errors::IntParseKind;
use vstd::prelude::*;
use vstd::string::*;

verus! {

/// The character for a single decimal digit value.
pub open spec fn digit_char(d: int) -> char {
    ((48 + d) as u8) as char
}

/// The decimal digits of a non-negative integer, most significant first,
/// with no sign and no padding (`0` is written `"0"`).
pub open spec fn dec_digits(n: nat) -> Seq<char>
    decreases n,
{
    if n < 10 {
        seq![digit_char(n as int)]
    } else {
        dec_digits(n / 10) + seq![digit_char((n % 10) as int)]
    }
}

/// The minimal decimal representation of an integer, with a leading `-`
/// for negative values.
pub open spec fn int_str(n: int) -> Seq<char> {
    if n < 0 {
        seq!['-'] + dec_digits((-n) as nat)
    } else {
        dec_digits(n as nat)
    }
}

/// A run of `k` zero characters.
pub open spec fn zero_run(k: nat) -> Seq<char> {
    Seq::new(k, |i: int| '0')
}

/// The decimal representation of `n`, left-padded with zeros to `w`
/// characters when it is shorter.  Padding is only ever applied to
/// non-negative values (a left literal with a leading zero cannot denote a
/// negative number); for negative `n` this is the plain representation.
pub open spec fn pad_str(n: int, w: nat) -> Seq<char> {
    if n < 0 {
        int_str(n)
    } else if dec_digits(n as nat).len() >= w {
        dec_digits(n as nat)
    } else {
        zero_run((w - dec_digits(n as nat).len()) as nat) + dec_digits(n as nat)
    }
}

/// Every character of `dec_digits(n)` is a decimal digit, and there is at
/// least one of them.
pub proof fn lemma_dec_digits_chars(n: nat)
    ensures
        dec_digits(n).len() >= 1,
        forall|i: int|
            0 <= i < dec_digits(n).len() ==> 48 <= (#[trigger] dec_digits(n)[i]) as u32 <= 57,
    decreases n,
{
    if n < 10 {
        assert(dec_digits(n) == seq![digit_char(n as int)]);
        assert(48 <= digit_char(n as int) as u32 <= 57);
    } else {
        lemma_dec_digits_chars(n / 10);
        assert(dec_digits(n) == dec_digits(n / 10) + seq![digit_char((n % 10) as int)]);
        assert(48 <= digit_char((n % 10) as int) as u32 <= 57);
    }
}

/// The first digit of `dec_digits(n)` is `'0'` exactly when `n` is zero.
pub proof fn lemma_dec_digits_leading(n: nat)
    ensures
        dec_digits(n)[0] == '0' <==> n == 0,
    decreases n,
{
    if n < 10 {
        assert(digit_char(n as int) == '0' <==> n == 0);
    } else {
        lemma_dec_digits_leading(n / 10);
        lemma_dec_digits_chars(n / 10);
        assert(dec_digits(n)[0] == dec_digits(n / 10)[0]);
    }
}

/// Builds the decimal digit string of `m`, least significant digit computed
/// first and prepended, so the result reads most significant first.
#[verifier::loop_isolation(false)]
fn u64_to_string(m: u64) -> (r: String)
    ensures
        r@ == dec_digits(m as nat),
{
    let digits = "0123456789";
    proof {
        reveal_strlit("0123456789");
    }
    if m == 0 {
        let z = String::from_str(digits.substring_char(0, 1));
        proof {
            assert(z@ =~= dec_digits(0));
        }
        return z;
    }
    let mut v: u64 = m;
    let mut s = String::new();
    while v > 0
        invariant
            s@.len() == 0 ==> v == m,
            v == 0 ==> s@.len() > 0,
            s@.len() > 0 ==> dec_digits(m as nat) == (if v > 0 {
                dec_digits(v as nat) + s@
            } else {
                s@
            }),
        decreases v,
    {
        let d = (v % 10) as usize;
        let ds = digits.substring_char(d, d + 1);
        proof {
            assert(ds@ =~= seq![digit_char(d as int)]);
        }
        let ghost old_s = s@;
        let ghost old_v = v;
        let t = String::from_str(ds);
        s = t.concat(s.as_str());
        v = v / 10;
        proof {
            assert(s@ =~= seq![digit_char(d as int)] + old_s);
            if old_s.len() == 0 {
                if old_v < 10 {
                    assert(s@ =~= dec_digits(m as nat));
                } else {
                    assert(dec_digits(m as nat) == dec_digits(old_v as nat / 10) + seq![
                        digit_char((old_v as nat % 10) as int),
                    ]);
                    assert(dec_digits(m as nat) =~= dec_digits(v as nat) + s@);
                }
            } else {
                if old_v < 10 {
                    assert(dec_digits(old_v as nat) == seq![digit_char(old_v as int)]);
                    assert(dec_digits(m as nat) =~= s@);
                } else {
                    assert(dec_digits(old_v as nat) == dec_digits(old_v as nat / 10) + seq![
                        digit_char((old_v as nat % 10) as int),
                    ]);
                    assert(dec_digits(m as nat) =~= dec_digits(v as nat) + s@);
                }
            }
        }
    }
    s
}

/// Formats an `i32` in its minimal decimal representation.
pub fn format_i32(n: i32) -> (r: String)
    ensures
        r@ == int_str(n as int),
{
    if n >= 0 {
        u64_to_string(n as u64)
    } else {
        let m: u64 = (-(n as i64)) as u64;
        let body = u64_to_string(m);
        let mut r = String::from_str("-");
        proof {
            reveal_strlit("-");
            assert(r@ =~= seq!['-']);
        }
        r.append(body.as_str());
        proof {
            assert(r@ =~= int_str(n as int));
        }
        r
    }
}

/// Formats a non-negative value zero-padded to `width` characters.
#[verifier::loop_isolation(false)]
pub fn format_padded(n: i32, width: usize) -> (r: String)
    requires
        n >= 0,
    ensures
        r@ == pad_str(n as int, width as nat),
{
    let mut s = u64_to_string(n as u64);
    proof {
        lemma_dec_digits_chars(n as nat);
    }
    while s.as_str().unicode_len() < width
        invariant
            n >= 0,
            s@.len() >= dec_digits(n as nat).len(),
            pad_str(n as int, width as nat) == (if s@.len() >= width {
                s@
            } else {
                zero_run((width - s@.len()) as nat) + s@
            }),
        decreases width - s@.len(),
    {
        let ghost old_s = s@;
        let z = String::from_str("0");
        proof {
            reveal_strlit("0");
        }
        s = z.concat(s.as_str());
        proof {
            assert(s@ =~= seq!['0'] + old_s);
            if old_s.len() + 1 >= width {
                assert(zero_run((width - old_s.len()) as nat) =~= seq!['0']);
                assert(pad_str(n as int, width as nat) =~= s@);
            } else {
                assert(zero_run((width - old_s.len()) as nat) =~= seq!['0'] + zero_run(
                    (width - old_s.len() - 1) as nat,
                ));
                assert(zero_run((width - old_s.len()) as nat) + old_s =~= zero_run(
                    (width - s@.len()) as nat,
                ) + s@);
            }
        }
    }
    s
}

/// Left-to-right accumulation of decimal digit characters onto `acc`, the
/// sign already consumed.  Positive parses accumulate upward, negative
/// parses downward (so `i32::MIN` is reachable).  The first non-digit
/// character stops the parse with `InvalidDigit`; the first step that would
/// leave the `i32` range stops it with the overflow error of that sign.
pub open spec fn spec_parse_digits(s: Seq<char>, positive: bool, acc: i32) -> Result<
    i32,
    IntParseKind,
>
    decreases s.len(),
{
    if s.len() == 0 {
        Ok(acc)
    } else {
        let u = s[0] as u32;
        if u < 48 || u > 57 {
            Err(IntParseKind::InvalidDigit)
        } else {
            let d = u - 48;
            if positive {
                if (acc as int) * 10 + d > i32::MAX as int {
                    Err(IntParseKind::PosOverflow)
                } else {
                    spec_parse_digits(s.skip(1), positive, ((acc as int) * 10 + d) as i32)
                }
            } else {
                if (acc as int) * 10 - d < i32::MIN as int {
                    Err(IntParseKind::NegOverflow)
                } else {
                    spec_parse_digits(s.skip(1), positive, ((acc as int) * 10 - d) as i32)
                }
            }
        }
    }
}

/// Signed decimal parsing of an `i32`: an optional single leading `+` or
/// `-`, then at least one decimal digit and nothing else.
pub open spec fn spec_parse_i32(s: Seq<char>) -> Result<i32, IntParseKind> {
    if s.len() == 0 {
        Err(IntParseKind::Empty)
    } else if s[0] == '+' || s[0] == '-' {
        if s.len() == 1 {
            Err(IntParseKind::InvalidDigit)
        } else {
            spec_parse_digits(s.skip(1), s[0] == '+', 0)
        }
    } else {
        spec_parse_digits(s, true, 0)
    }
}

/// A positive parse never ends below its starting accumulator; in
/// particular, parsing without a sign can only yield a non-negative value.
pub proof fn lemma_parse_digits_lower_bound(s: Seq<char>, acc: i32)
    requires
        acc >= 0,
    ensures
        spec_parse_digits(s, true, acc) matches Ok(v) ==> v >= acc,
    decreases s.len(),
{
    if s.len() > 0 {
        let u = s[0] as u32;
        if 48 <= u <= 57 && (acc as int) * 10 + (u - 48) <= i32::MAX as int {
            lemma_parse_digits_lower_bound(s.skip(1), ((acc as int) * 10 + (u - 48)) as i32);
        }
    }
}

/// A literal whose first character is `'0'` can only parse to a
/// non-negative value.
pub proof fn lemma_parse_leading_zero_nonneg(s: Seq<char>)
    requires
        s.len() >= 1,
        s[0] == '0',
    ensures
        spec_parse_i32(s) matches Ok(v) ==> v >= 0,
{
    lemma_parse_digits_lower_bound(s, 0);
}

/// Appending one character to a digit run extends the parse by one step.
pub proof fn lemma_parse_digits_snoc(s: Seq<char>, c: char, positive: bool, acc: i32)
    ensures
        spec_parse_digits(s + seq![c], positive, acc) == (match spec_parse_digits(
            s,
            positive,
            acc,
        ) {
            Err(e) => Err::<i32, IntParseKind>(e),
            Ok(v) => {
                let u = c as u32;
                if u < 48 || u > 57 {
                    Err(IntParseKind::InvalidDigit)
                } else if positive {
                    if (v as int) * 10 + (u - 48) > i32::MAX as int {
                        Err(IntParseKind::PosOverflow)
                    } else {
                        Ok((((v as int) * 10 + (u - 48)) as i32))
                    }
                } else {
                    if (v as int) * 10 - (u - 48) < i32::MIN as int {
                        Err(IntParseKind::NegOverflow)
                    } else {
                        Ok((((v as int) * 10 - (u - 48)) as i32))
                    }
                }
            },
        }),
    decreases s.len(),
{
    reveal_with_fuel(spec_parse_digits, 3);
    if s.len() == 0 {
        assert(s + seq![c] =~= seq![c]);
        assert(seq![c].skip(1) =~= Seq::<char>::empty());
    } else {
        assert((s + seq![c])[0] == s[0]);
        assert((s + seq![c]).skip(1) =~= s.skip(1) + seq![c]);
        let u = s[0] as u32;
        if 48 <= u <= 57 {
            if positive {
                if (acc as int) * 10 + (u - 48) <= i32::MAX as int {
                    lemma_parse_digits_snoc(
                        s.skip(1),
                        c,
                        positive,
                        ((acc as int) * 10 + (u - 48)) as i32,
                    );
                }
            } else {
                if (acc as int) * 10 - (u - 48) >= i32::MIN as int {
                    lemma_parse_digits_snoc(
                        s.skip(1),
                        c,
                        positive,
                        ((acc as int) * 10 - (u - 48)) as i32,
                    );
                }
            }
        }
    }
}

/// Parsing the decimal digits of `n` gives back exactly `n`.
pub proof fn lemma_parse_digits_of_dec(n: nat)
    requires
        n <= i32::MAX as nat,
    ensures
        spec_parse_digits(dec_digits(n), true, 0) == Ok::<i32, IntParseKind>(n as i32),
    decreases n,
{
    reveal_with_fuel(spec_parse_digits, 2);
    if n < 10 {
        assert(dec_digits(n) == seq![digit_char(n as int)]);
        assert(seq![digit_char(n as int)].skip(1) =~= Seq::<char>::empty());
        assert(digit_char(n as int) as u32 == 48 + n);
    } else {
        lemma_parse_digits_of_dec(n / 10);
        lemma_parse_digits_snoc(dec_digits(n / 10), digit_char((n % 10) as int), true, 0);
        assert(digit_char((n % 10) as int) as u32 == 48 + n % 10);
        assert(n / 10 <= i32::MAX as nat);
        assert((n / 10) * 10 + n % 10 == n);
        let dc = digit_char((n % 10) as int);
        let pre = dec_digits(n / 10);
        assert(spec_parse_digits(pre, true, 0) == Ok::<i32, IntParseKind>((n / 10) as i32));
        assert(48 <= dc as u32 <= 57);
        assert(spec_parse_digits(pre + seq![dc], true, 0) == Ok::<i32, IntParseKind>(n as i32));
        assert(dec_digits(n) == pre + seq![dc]);
        assert(spec_parse_digits(dec_digits(n), true, 0) == Ok::<i32, IntParseKind>(n as i32));
    }
}

/// Round trip: the minimal decimal representation of a non-negative `i32`
/// parses back to the same value.
pub proof fn lemma_parse_int_str(n: int)
    requires
        0 <= n <= i32::MAX as int,
    ensures
        spec_parse_i32(int_str(n)) == Ok::<i32, IntParseKind>(n as i32),
{
    lemma_dec_digits_chars(n as nat);
    assert(int_str(n)[0] as u32 != 43 && int_str(n)[0] as u32 != 45);
    assert(int_str(n)[0] != '+' && int_str(n)[0] != '-');
    lemma_parse_digits_of_dec(n as nat);
}

/// Parses an `i32` from a string: optional single sign, then digits.
#[verifier::loop_isolation(false)]
pub fn parse_i32(s: &str) -> (r: Result<i32, IntParseKind>)
    ensures
        r == spec_parse_i32(s@),
{
    let n = s.unicode_len();
    if n == 0 {
        return Err(IntParseKind::Empty);
    }
    let c0 = s.get_char(0);
    let positive = c0 != '-';
    let start: usize = if c0 == '+' || c0 == '-' {
        1
    } else {
        0
    };
    if start == 1 && n == 1 {
        return Err(IntParseKind::InvalidDigit);
    }
    proof {
        if start == 0 {
            assert(s@.skip(0) =~= s@);
        }
    }
    let mut i: usize = start;
    let mut acc: i32 = 0;
    while i < n
        invariant
            i <= n,
            spec_parse_i32(s@) == spec_parse_digits(s@.skip(i as int), positive, acc),
            positive ==> acc >= 0,
            !positive ==> acc <= 0,
        decreases n - i,
    {
        let c = s.get_char(i);
        let u = c as u32;
        proof {
            assert(s@.skip(i as int)[0] == c);
        }
        if u < 48 || u > 57 {
            return Err(IntParseKind::InvalidDigit);
        }
        let d = (u - 48) as i32;
        proof {
            assert(s@.skip(i as int).skip(1) =~= s@.skip(i as int + 1));
        }
        if positive {
            let next: i64 = acc as i64 * 10 + d as i64;
            if next > i32::MAX as i64 {
                return Err(IntParseKind::PosOverflow);
            }
            acc = next as i32;
        } else {
            let next: i64 = acc as i64 * 10 - d as i64;
            if next < i32::MIN as i64 {
                return Err(IntParseKind::NegOverflow);
            }
            acc = next as i32;
        }
        i += 1;
    }
    proof {
        assert(s@.skip(n as int).len() == 0);
    }
    Ok(acc)
}


} // verus!
