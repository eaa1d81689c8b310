use vstd::prelude::*;

use crate::errors::AsciiError;
use crate::text::str_to_chars;

verus! {

/// What the driver runs on: input paths, output paths, the mode flag, and
/// the panel index for extraction.
#[derive(Debug)]
pub struct Config {
    pub input_files: Vec<String>,
    pub output_files: Vec<String>,
    pub write: bool,
    pub choose: usize,
}

/// A decimal digit.
pub open spec fn is_dec_digit(c: char) -> bool {
    '0' as int <= c as int <= '9' as int
}

/// The numeric value of a decimal digit.
pub open spec fn digit_val(c: char) -> int {
    c as int - '0' as int
}

/// The value of a decimal digit string.
pub open spec fn dec_val(s: Seq<char>) -> int
    decreases s.len(),
{
    if s.len() == 0 {
        0
    } else {
        dec_val(s.drop_last()) * 10 + digit_val(s.last())
    }
}

/// The digits of an integer literal: everything after an optional leading
/// plus sign.
pub open spec fn digits_part(s: Seq<char>) -> Seq<char> {
    if s.len() >= 1 && s[0] == '+' {
        s.drop_first()
    } else {
        s
    }
}

pub open spec fn all_digits(s: Seq<char>) -> bool {
    forall|i: int| 0 <= i < s.len() ==> is_dec_digit(#[trigger] s[i])
}

/// The strings that name a positive count: at least one digit after an
/// optional plus sign, nothing else, with a value that is positive and
/// fits the machine's word.
pub open spec fn valid_count(s: Seq<char>) -> bool {
    &&& digits_part(s).len() >= 1
    &&& all_digits(digits_part(s))
    &&& 0 < dec_val(digits_part(s)) <= usize::MAX as int
}

pub proof fn lemma_dec_val_nonneg(s: Seq<char>)
    requires
        all_digits(s),
    ensures
        dec_val(s) >= 0,
    decreases s.len(),
{
    if s.len() > 0 {
        assert(all_digits(s.drop_last()));
        lemma_dec_val_nonneg(s.drop_last());
    }
}

/// More digits never shrink the value: a digit string's value is at least
/// the value of any of its prefixes.
pub proof fn lemma_dec_val_prefix(s: Seq<char>, t: int)
    requires
        all_digits(s),
        0 <= t <= s.len(),
    ensures
        dec_val(s) >= dec_val(s.take(t)),
    decreases s.len(),
{
    if t == s.len() {
        assert(s.take(t) =~= s);
    } else {
        assert(all_digits(s.drop_last()));
        lemma_dec_val_nonneg(s.drop_last());
        lemma_dec_val_prefix(s.drop_last(), t);
        assert(s.drop_last().take(t) =~= s.take(t));
        assert(is_dec_digit(s.last()));
    }
}

fn digit_of(c: char) -> (r: Option<u8>)
    ensures
        is_dec_digit(c) ==> (r matches Some(v) && v as int == digit_val(c)),
        !is_dec_digit(c) ==> r is None,
{
    if c == '0' {
        Some(0)
    } else if c == '1' {
        Some(1)
    } else if c == '2' {
        Some(2)
    } else if c == '3' {
        Some(3)
    } else if c == '4' {
        Some(4)
    } else if c == '5' {
        Some(5)
    } else if c == '6' {
        Some(6)
    } else if c == '7' {
        Some(7)
    } else if c == '8' {
        Some(8)
    } else if c == '9' {
        Some(9)
    } else {
        None
    }
}

/// Parses a strictly positive count: an optional plus sign, then decimal
/// digits. Everything else — an empty or non-numeric string, zero, or a
/// value above the machine's word — is reported as an invalid argument.
pub fn parse_positive_int(val: &str) -> (r: Result<usize, AsciiError>)
    ensures
        valid_count(val@) ==> (r matches Ok(n) && n as int == dec_val(digits_part(val@))),
        !valid_count(val@) ==> r == Err::<usize, AsciiError>(AsciiError::InvalidArguments),
{
    let chars = str_to_chars(val);
    let ghost d = digits_part(val@);
    let start: usize = if chars.len() >= 1 && chars[0] == '+' {
        1
    } else {
        0
    };
    proof {
        assert(d =~= val@.skip(start as int));
    }
    if chars.len() == start {
        proof {
            assert(d.len() == 0);
        }
        return Err(AsciiError::InvalidArguments);
    }
    let mut acc: usize = 0;
    let mut i: usize = start;
    while i < chars.len()
        invariant
            start <= i <= chars@.len(),
            chars@ == val@,
            d == digits_part(val@),
            d =~= val@.skip(start as int),
            all_digits(d.take(i - start)),
            acc as int == dec_val(d.take(i - start)),
        decreases chars@.len() - i,
    {
        let c = chars[i];
        proof {
            assert(d[i - start] == val@[i as int]);
            assert(d.take(i - start + 1) =~= d.take(i - start).push(d[i - start]));
            assert(d.take(i - start + 1).drop_last() =~= d.take(i - start));
        }
        let dv: usize = match digit_of(c) {
            Some(v) => v as usize,
            None => {
                proof {
                    assert(!is_dec_digit(d[i - start]));
                    assert(!all_digits(d));
                }
                return Err(AsciiError::InvalidArguments);
            },
        };
        proof {
            assert(dv as int == digit_val(d[i - start]));
            assert(dec_val(d.take(i - start + 1)) == dec_val(d.take(i - start)) * 10 + dv as int);
        }
        if acc > (usize::MAX - dv) / 10 {
            proof {
                vstd::arithmetic::div_mod::lemma_fundamental_div_mod(
                    usize::MAX as int - dv as int,
                    10,
                );
                assert(acc as int * 10 + dv as int > usize::MAX as int);
                if all_digits(d) {
                    lemma_dec_val_prefix(d, i - start + 1);
                    assert(dec_val(d) > usize::MAX as int);
                }
                assert(!valid_count(val@));
            }
            return Err(AsciiError::InvalidArguments);
        }
        proof {
            vstd::arithmetic::div_mod::lemma_fundamental_div_mod(usize::MAX as int - dv as int, 10);
            assert(acc as int * 10 + dv as int <= usize::MAX as int);
        }
        acc = acc * 10 + dv;
        i += 1;
    }
    proof {
        assert(d.take(i - start) =~= d);
    }
    if acc == 0 {
        return Err(AsciiError::InvalidArguments);
    }
    Ok(acc)
}

} // verus!
