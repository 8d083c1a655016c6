//! Decimal numbers: parsing a signed 16-bit integer from its textual form,
//! and rendering a non-negative number back to decimal digits.

use vstd::prelude::*;
use vstd::string::StrSliceExecFns;
use vstd::string::StringExecFns;

verus! {

/// Decimal digit characters.
pub open spec fn is_digit(c: char) -> bool {
    48 <= c as u32 && c as u32 <= 57
}

/// Numeric value of a digit character.
pub open spec fn digit_val(c: char) -> int {
    c as u32 - 48
}

pub open spec fn all_digits(s: Seq<char>) -> bool {
    forall|i: int| 0 <= i < s.len() ==> is_digit(#[trigger] s[i])
}

/// Value of a digit string read in base 10.
pub open spec fn digits_val(s: Seq<char>) -> int
    decreases s.len(),
{
    if s.len() == 0 {
        0
    } else {
        digits_val(s.drop_last()) * 10 + digit_val(s.last())
    }
}

pub proof fn lemma_digits_val_nonneg(s: Seq<char>)
    requires
        all_digits(s),
    ensures
        digits_val(s) >= 0,
    decreases s.len(),
{
    if s.len() > 0 {
        assert(forall|i: int| 0 <= i < s.drop_last().len() ==> s.drop_last()[i] == s[i]);
        lemma_digits_val_nonneg(s.drop_last());
    }
}

/// A prefix of a digit string never exceeds the whole string in value.
pub proof fn lemma_digits_val_monotone(s: Seq<char>, k: int)
    requires
        all_digits(s),
        0 <= k <= s.len(),
    ensures
        digits_val(s.take(k)) <= digits_val(s),
    decreases s.len(),
{
    if k == s.len() {
        assert(s.take(k) =~= s);
    } else {
        let dl = s.drop_last();
        assert(forall|i: int| 0 <= i < dl.len() ==> dl[i] == s[i]);
        lemma_digits_val_monotone(dl, k);
        assert(s.take(k) =~= dl.take(k));
        lemma_digits_val_nonneg(dl);
        assert(digits_val(dl) * 10 >= digits_val(dl));
        assert(digits_val(s) >= digits_val(dl));
    }
}

/// The result of parsing a signed decimal 16-bit integer: an optional sign
/// followed by at least one digit, rejecting anything else and any value
/// outside the 16-bit signed range.
pub open spec fn parse_i16_spec(s: Seq<char>) -> Option<i16> {
    if s.len() == 0 {
        None
    } else if s[0] == '+' || s[0] == '-' {
        let ds = s.subrange(1, s.len() as int);
        if ds.len() > 0 && all_digits(ds) {
            let v = digits_val(ds);
            if s[0] == '-' {
                if v <= 32768 {
                    Some((-v) as i16)
                } else {
                    None
                }
            } else {
                if v <= 32767 {
                    Some(v as i16)
                } else {
                    None
                }
            }
        } else {
            None
        }
    } else if all_digits(s) {
        let v = digits_val(s);
        if v <= 32767 {
            Some(v as i16)
        } else {
            None
        }
    } else {
        None
    }
}

pub fn is_digit_char(c: char) -> (b: bool)
    ensures
        b == is_digit(c),
{
    let u = c as u32;
    48 <= u && u <= 57
}

pub fn parse_i16(t: &str) -> (r: Option<i16>)
    ensures
        r == parse_i16_spec(t@),
{
    let n = t.unicode_len();
    if n == 0 {
        return None;
    }
    let c0 = t.get_char(0);
    let neg = c0 == '-';
    let start: usize = if c0 == '-' || c0 == '+' {
        1
    } else {
        0
    };
    if start == n {
        return None;
    }
    let mut acc: u32 = 0;
    let mut i = start;
    while i < n
        invariant
            n == t@.len(),
            start <= i <= n,
            start < n,
            start == 0 || start == 1,
            start == 1 ==> (t@[0] == '+' || t@[0] == '-') && (neg <==> t@[0] == '-'),
            start == 0 ==> !(t@[0] == '+' || t@[0] == '-') && !neg,
            acc <= 32768,
            acc == digits_val(t@.subrange(start as int, i as int)),
            all_digits(t@.subrange(start as int, i as int)),
        decreases n - i,
    {
        let c = t.get_char(i);
        if !is_digit_char(c) {
            proof {
                let full = t@.subrange(start as int, n as int);
                assert(full[i - start] == t@[i as int]);
                assert(!all_digits(full));
                if start == 0 {
                    assert(t@.subrange(0, n as int) =~= t@);
                }
            }
            return None;
        }
        let d = c as u32 - 48;
        let acc2 = acc * 10 + d;
        proof {
            let pre = t@.subrange(start as int, i + 1);
            assert(pre.drop_last() =~= t@.subrange(start as int, i as int));
            assert(pre.last() == t@[i as int]);
            assert(digits_val(pre) == acc * 10 + d);
            assert(all_digits(pre));
        }
        if acc2 > 32768 {
            proof {
                let full = t@.subrange(start as int, n as int);
                let pre = t@.subrange(start as int, i + 1);
                if all_digits(full) {
                    lemma_digits_val_monotone(full, i + 1 - start);
                    assert(full.take(i + 1 - start) =~= pre);
                    assert(digits_val(full) > 32768);
                }
                if start == 0 {
                    assert(t@.subrange(0, n as int) =~= t@);
                }
            }
            return None;
        }
        acc = acc2;
        i += 1;
    }
    proof {
        assert(t@.subrange(start as int, n as int) =~= t@.subrange(start as int, i as int));
        if start == 0 {
            assert(t@.subrange(0, n as int) =~= t@);
        }
    }
    if neg {
        let v32: i32 = 0i32 - (acc as i32);
        proof {
            assert(-32768 <= v32 <= 0);
        }
        Some(v32 as i16)
    } else if acc > 32767 {
        None
    } else {
        Some(acc as i16)
    }
}

/// The decimal rendering of one digit, as a one-character string view.
pub open spec fn digit_lit(d: int) -> Seq<char> {
    if d == 0 {
        "0"@
    } else if d == 1 {
        "1"@
    } else if d == 2 {
        "2"@
    } else if d == 3 {
        "3"@
    } else if d == 4 {
        "4"@
    } else if d == 5 {
        "5"@
    } else if d == 6 {
        "6"@
    } else if d == 7 {
        "7"@
    } else if d == 8 {
        "8"@
    } else {
        "9"@
    }
}

/// The decimal rendering of a non-negative number: most significant digit
/// first, no sign, no leading zeros (a single `0` for zero).
pub open spec fn dec_repr(n: int) -> Seq<char>
    decreases n,
{
    if n <= 9 {
        digit_lit(n)
    } else {
        dec_repr(n / 10) + digit_lit(n % 10)
    }
}

fn digit_str(d: u32) -> (s: &'static str)
    requires
        d <= 9,
    ensures
        s@ == digit_lit(d as int),
{
    if d == 0 {
        "0"
    } else if d == 1 {
        "1"
    } else if d == 2 {
        "2"
    } else if d == 3 {
        "3"
    } else if d == 4 {
        "4"
    } else if d == 5 {
        "5"
    } else if d == 6 {
        "6"
    } else if d == 7 {
        "7"
    } else if d == 8 {
        "8"
    } else {
        "9"
    }
}

/// Appends the decimal rendering of `n` to `out`.
pub fn push_dec(out: &mut String, n: u16)
    ensures
        final(out)@ == old(out)@ + dec_repr(n as int),
    decreases n,
{
    if n <= 9 {
        out.append(digit_str(n as u32));
    } else {
        push_dec(out, n / 10);
        out.append(digit_str((n % 10) as u32));
        proof {
            assert((old(out)@ + dec_repr(n as int / 10)) + digit_lit(n as int % 10) =~= old(
                out,
            )@ + (dec_repr(n as int / 10) + digit_lit(n as int % 10)));
        }
    }
}

} // verus!
