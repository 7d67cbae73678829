use crate::scan::{begin, byte_offset, lemma_byte_offset_rises, read_char};
use vstd::prelude::*;
use vstd::std_specs::iter::IteratorSpec;
use vstd::string::*;

verus! {

/// Whether `c` is one of the decimal digits `0` to `9`.
pub open spec fn is_digit(c: char) -> bool {
    '0' <= c <= '9'
}

/// The number that the digit `c` stands for.
pub open spec fn digit_value(c: char) -> nat
    recommends
        is_digit(c),
{
    (c as u32 - '0' as u32) as nat
}

/// Whether `s` holds decimal digits only.
pub open spec fn all_digits(s: Seq<char>) -> bool {
    forall|k: int| 0 <= k < s.len() ==> is_digit(#[trigger] s[k])
}

/// The number that the decimal digits `s` stand for; leading zeros count for nothing.
pub open spec fn decimal_value(s: Seq<char>) -> nat
    decreases s.len(),
{
    if s.len() == 0 {
        0
    } else {
        10 * decimal_value(s.drop_last()) + digit_value(s.last())
    }
}

/// `s` without the plus sign that may stand in front of a number.
pub open spec fn unsigned_part(s: Seq<char>) -> Seq<char> {
    if s.len() > 0 && s[0] == '+' {
        s.drop_first()
    } else {
        s
    }
}

/// The number that `s` denotes: an optional plus sign and then one decimal digit or
/// more, nothing before, between or behind them, of a value that a `usize` holds.
/// Any other text denotes no number.
pub open spec fn number(s: Seq<char>) -> Option<usize> {
    let digits = unsigned_part(s);
    if digits.len() > 0 && all_digits(digits) && decimal_value(digits) <= usize::MAX {
        Some(decimal_value(digits) as usize)
    } else {
        None
    }
}

/// More digits never make a smaller number.
pub proof fn lemma_decimal_value_grows(s: Seq<char>, n: int)
    requires
        0 <= n <= s.len(),
        all_digits(s),
    ensures
        decimal_value(s.take(n)) <= decimal_value(s),
    decreases s.len() - n,
{
    if n == s.len() {
        assert(s.take(n) == s);
    } else {
        lemma_decimal_value_grows(s.drop_last(), n);
        assert(s.drop_last().take(n) == s.take(n));
    }
}

/// The number that `s` denotes, if it denotes one.
pub fn parse_number(s: &str) -> (r: Option<usize>)
    ensures
        r == number(s@),
{
    let ghost digits = unsigned_part(s@);
    let ghost sign: int = s@.len() - digits.len();
    let (mut chars, end) = begin(s);
    let mut offset: usize = 0;
    let mut value: usize = 0;
    let mut at_start = true;
    let mut any = false;
    let ghost mut i: int = 0;
    let ghost mut seen: int = 0;
    while offset < end
        invariant
            0 <= i <= s@.len(),
            chars.remaining() == s@.skip(i),
            chars.obeys_prophetic_iter_laws(),
            offset == byte_offset(s@, i),
            end == byte_offset(s@, s@.len() as int),
            digits == unsigned_part(s@),
            sign == s@.len() - digits.len(),
            at_start == (i == 0),
            i == 0 ==> seen == 0,
            i > 0 ==> seen == i - sign,
            any == (seen > 0),
            0 <= seen <= digits.len(),
            all_digits(digits.take(seen)),
            value == decimal_value(digits.take(seen)),
        decreases end - offset,
    {
        let (c, next) = read_char(&mut chars, offset, end, Ghost(s@), Ghost(i));
        if !(at_start && c == '+') {
            assert(c == digits[seen]);
            if !('0' <= c && c <= '9') {
                return None;
            }
            assert(digits.take(seen + 1).drop_last() == digits.take(seen));
            let digit: usize = (c as u32 - '0' as u32) as usize;
            let grown = match value.checked_mul(10) {
                Some(tens) => tens.checked_add(digit),
                None => None,
            };
            match grown {
                Some(v) => {
                    value = v;
                },
                None => {
                    proof {
                        if all_digits(digits) {
                            lemma_decimal_value_grows(digits, seen + 1);
                        }
                    }
                    return None;
                },
            }
            any = true;
            proof {
                seen = seen + 1;
            }
        }
        at_start = false;
        offset = next;
        proof {
            i = i + 1;
        }
    }
    proof {
        lemma_byte_offset_rises(s@, i, s@.len() as int);
        assert(digits.take(seen) == digits);
    }
    if any {
        Some(value)
    } else {
        None
    }
}

} // verus!
