//! Integer literals: what number a decimal text denotes, the function that
//! computes it, and the proof that the text of a number denotes that number.

use crate::lexer::is_digit;
use crate::render::{digit_text, render_integer, render_natural};
use vstd::prelude::*;

verus! {

/// The number that a digit stands for.
pub open spec fn digit_value(c: char) -> int {
    c as int - '0' as int
}

/// The number that a run of decimal digits denotes.
pub open spec fn digits_value(digits: Seq<char>) -> int
    decreases digits.len(),
{
    if digits.len() == 0 {
        0
    } else {
        10 * digits_value(digits.drop_last()) + digit_value(digits.last())
    }
}

/// Whether `text` consists of decimal digits only.
pub open spec fn all_digits(text: Seq<char>) -> bool {
    forall|i: int| 0 <= i < text.len() ==> is_digit(#[trigger] text[i])
}

/// Whether `text` starts with a sign, `+` or `-`.
pub open spec fn is_signed(text: Seq<char>) -> bool {
    text.len() > 0 && (text[0] == '-' || text[0] == '+')
}

/// What follows the sign of `text`, if it has one.
pub open spec fn unsigned_part(text: Seq<char>) -> Seq<char> {
    if is_signed(text) {
        text.skip(1)
    } else {
        text
    }
}

/// The 64-bit integer that `text` denotes in decimal: an optional sign, then
/// at least one digit and nothing else, with a value in range.
pub open spec fn integer_value(text: Seq<char>) -> Option<i64> {
    let digits = unsigned_part(text);
    let value = if is_signed(text) && text[0] == '-' {
        -digits_value(digits)
    } else {
        digits_value(digits)
    };
    if digits.len() > 0 && all_digits(digits) && i64::MIN <= value <= i64::MAX {
        Some(value as i64)
    } else {
        None
    }
}

/// The value of a run of digits grows with each digit appended.
proof fn lemma_digits_value_monotonic(digits: Seq<char>, n: int)
    requires
        0 <= n <= digits.len(),
        all_digits(digits),
    ensures
        0 <= digits_value(digits.take(n)) <= digits_value(digits),
    decreases digits.len() - n,
{
    if n == digits.len() {
        assert(digits.take(n) =~= digits);
        lemma_digits_value_nonnegative(digits);
    } else {
        lemma_digits_value_monotonic(digits, n + 1);
        assert(digits.take(n + 1).drop_last() =~= digits.take(n));
        lemma_digits_value_nonnegative(digits.take(n));
    }
}

/// A run of digits denotes no negative number.
pub proof fn lemma_digits_value_nonnegative(digits: Seq<char>)
    requires
        all_digits(digits),
    ensures
        0 <= digits_value(digits),
    decreases digits.len(),
{
    if digits.len() > 0 {
        lemma_digits_value_nonnegative(digits.drop_last());
    }
}

/// The 64-bit integer that `text` denotes in decimal, if it denotes one.
pub fn parse_decimal(text: &str) -> (value: Option<i64>)
    ensures
        value == integer_value(text@),
{
    let mut negative = false;
    let mut signed = false;
    let mut magnitude: u64 = 0;
    let mut any_digit = false;
    let ghost mut count: int = 0;
    let ghost all = unsigned_part(text@);
    for c in it: text.chars()
        invariant
            it.seq() == text@,
            all == unsigned_part(text@),
            signed == (it.index() > 0 && is_signed(text@)),
            negative == (signed && text@[0] == '-'),
            count == it.index() - (if signed { 1int } else { 0int }),
            0 <= count <= all.len(),
            any_digit == (count > 0),
            all_digits(all.take(count)),
            magnitude as int == digits_value(all.take(count)),
            magnitude <= 0x8000_0000_0000_0000u64,
    {
        assert(c == text@[it.index() as int]);
        if !any_digit && !signed && (c == '-' || c == '+') {
            signed = true;
            negative = c == '-';
        } else if c >= '0' && c <= '9' {
            let d: u64 = (c as u8 - '0' as u8) as u64;
            proof {
                assert(all[count] == c);
                assert(d as int == digit_value(c));
                assert(all.take(count + 1).drop_last() =~= all.take(count));
                assert(all.take(count + 1).last() == c);
            }
            if magnitude > (0x8000_0000_0000_0000u64 - d) / 10 {
                proof {
                    if all_digits(all) {
                        lemma_digits_value_monotonic(all, count + 1);
                    }
                }
                return None;
            }
            magnitude = magnitude * 10 + d;
            any_digit = true;
            proof {
                count = count + 1;
            }
        } else {
            proof {
                assert(all[count] == c);
                assert(!is_digit(c));
            }
            return None;
        }
    }
    proof {
        assert(all.take(count) =~= all);
    }
    if !any_digit {
        None
    } else if negative {
        if magnitude == 0x8000_0000_0000_0000u64 {
            Some(i64::MIN)
        } else {
            Some(-(magnitude as i64))
        }
    } else if magnitude == 0x8000_0000_0000_0000u64 {
        None
    } else {
        Some(magnitude as i64)
    }
}

/// The text of a digit is that digit, alone.
pub proof fn lemma_digit_text(digit: int)
    requires
        0 <= digit <= 9,
    ensures
        digit_text(digit).len() == 1,
        is_digit(digit_text(digit)[0]),
        digit_value(digit_text(digit)[0]) == digit,
{
    reveal_strlit("0");
    reveal_strlit("1");
    reveal_strlit("2");
    reveal_strlit("3");
    reveal_strlit("4");
    reveal_strlit("5");
    reveal_strlit("6");
    reveal_strlit("7");
    reveal_strlit("8");
    reveal_strlit("9");
}

/// The decimal digits of a number denote that number.
pub proof fn lemma_render_natural(n: nat)
    ensures
        render_natural(n).len() > 0,
        all_digits(render_natural(n)),
        digits_value(render_natural(n)) == n,
    decreases n,
{
    if n < 10 {
        lemma_digit_text(n as int);
        let text = render_natural(n);
        assert(text.drop_last().len() == 0);
        assert(digits_value(text.drop_last()) == 0);
    } else {
        lemma_render_natural(n / 10);
        lemma_digit_text((n % 10) as int);
        let front = render_natural(n / 10);
        let text = render_natural(n);
        assert(text.drop_last() =~= front);
        assert(text.last() == digit_text((n % 10) as int)[0]);
        assert forall|i: int| 0 <= i < text.len() implies is_digit(#[trigger] text[i]) by {
            if i < front.len() {
                assert(text[i] == front[i]);
            }
        }
    }
}

/// The decimal text of a 64-bit integer denotes that integer.
pub proof fn lemma_render_integer(value: i64)
    ensures
        integer_value(render_integer(value as int)) == Some(value),
{
    reveal_strlit("-");
    let text = render_integer(value as int);
    if value < 0 {
        let digits = render_natural((-value) as nat);
        lemma_render_natural((-value) as nat);
        assert(text[0] == '-');
        assert(text.skip(1) =~= digits);
    } else {
        lemma_render_natural(value as nat);
        assert(is_digit(text[0]));
    }
}

} // verus!
