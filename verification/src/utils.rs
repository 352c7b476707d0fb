//! Reading numbers and times of day from text.

use vstd::prelude::*;
use vstd::string::*;

verus! {

/// Minutes in one hour.
pub const MINUTES_PER_HOUR: u64 = 60;

/// Whether `c` is one of the ten ASCII digits.
pub open spec fn is_digit(c: char) -> bool {
    '0' <= c && c <= '9'
}

/// The number that the digit `c` stands for.
pub open spec fn digit_value(c: char) -> nat
    recommends
        is_digit(c),
{
    (c as nat - '0' as nat) as nat
}

/// Whether a text holds digits only.
pub open spec fn all_digits(text: Seq<char>) -> bool {
    forall|i: int| 0 <= i < text.len() ==> is_digit(#[trigger] text[i])
}

/// The number that a sequence of digits writes in base ten; 0 for none.
pub open spec fn decimal_value(digits: Seq<char>) -> nat
    decreases digits.len(),
{
    if digits.len() == 0 {
        0
    } else {
        decimal_value(digits.drop_last()) * 10 + digit_value(digits.last())
    }
}

/// The number that a text writes, where it holds digits only, at least one
/// of them, and the number fits in 64 bits; `None` for any other text.
pub open spec fn parse_number(text: Seq<char>) -> Option<u64> {
    if text.len() >= 1 && all_digits(text) && decimal_value(text) <= u64::MAX {
        Some(decimal_value(text) as u64)
    } else {
        None
    }
}

/// A time of day is written as two digits for the hours and one or more for
/// the minutes, with nothing else around them.
pub open spec fn is_clock_text(text: Seq<char>) -> bool {
    text.len() >= 3 && all_digits(text)
}

/// The minutes since midnight that a time of day stands for: sixty times
/// its hours, plus its minutes.
pub open spec fn minutes_since_midnight(text: Seq<char>) -> nat
    recommends
        is_clock_text(text),
{
    decimal_value(text.subrange(0, 2)) * 60 + decimal_value(text.subrange(2, text.len() as int))
}

/// The minutes since midnight of a well-written time of day that fits in 32
/// bits; `None` for any other text.
pub open spec fn parse_clock(text: Seq<char>) -> Option<u32> {
    if is_clock_text(text) && minutes_since_midnight(text) <= u32::MAX {
        Some(minutes_since_midnight(text) as u32)
    } else {
        None
    }
}

/// The minutes of reading that a number of hours asks for: sixty times the
/// number, where it is positive and the minutes fit in 32 bits; `None` for
/// any other text.
pub open spec fn parse_readtime(text: Seq<char>) -> Option<u32> {
    if text.len() >= 1 && all_digits(text) && 0 < decimal_value(text) && decimal_value(text) * 60
        <= u32::MAX {
        Some((decimal_value(text) * 60) as u32)
    } else {
        None
    }
}

/// The first digits of a number write no more than all of them.
pub proof fn lemma_decimal_prefix(digits: Seq<char>, k: int)
    requires
        0 <= k <= digits.len(),
    ensures
        decimal_value(digits.take(k)) <= decimal_value(digits),
    decreases digits.len(),
{
    if k == digits.len() {
        assert(digits.take(k) =~= digits);
    } else {
        lemma_decimal_prefix(digits.drop_last(), k);
        assert(digits.drop_last().take(k) =~= digits.take(k));
    }
}

/// The number that the letters of `text` from position `from` up to
/// position `to` write; `None` where one of them is no digit or the number
/// does not fit in 64 bits.
fn digits_between(text: &str, from: usize, to: usize) -> (value: Option<u64>)
    requires
        text.is_ascii(),
        from <= to <= text@.len(),
    ensures
        match value {
            Some(v) => all_digits(text@.subrange(from as int, to as int)) && v == decimal_value(
                text@.subrange(from as int, to as int),
            ),
            None => !all_digits(text@.subrange(from as int, to as int)) || decimal_value(
                text@.subrange(from as int, to as int),
            ) > u64::MAX,
        },
{
    let ghost part = text@.subrange(from as int, to as int);
    let mut value: u64 = 0;
    let mut i: usize = from;
    assert(part.take(0).len() == 0);
    while i < to
        invariant
            from <= i <= to <= text@.len(),
            text.is_ascii(),
            part == text@.subrange(from as int, to as int),
            value == decimal_value(part.take(i - from)),
            all_digits(part.take(i - from)),
        decreases to - i,
    {
        let b = text.get_ascii(i);
        let ghost upto = part.take(i + 1 - from);
        proof {
            assert(upto.drop_last() =~= part.take(i - from));
            assert(upto.last() == text@[i as int]);
            assert(part[i - from] == text@[i as int]);
        }
        if b < 48 || b > 57 {
            assert(!is_digit(part[i - from]));
            return None;
        }
        let digit = (b - 48) as u64;
        if value > (u64::MAX - digit) / 10 {
            proof {
                assert(decimal_value(upto) > u64::MAX);
                lemma_decimal_prefix(part, i + 1 - from);
            }
            return None;
        }
        value = value * 10 + digit;
        proof {
            assert forall|k: int| 0 <= k < upto.len() implies is_digit(#[trigger] upto[k]) by {
                if k < upto.len() - 1 {
                    assert(upto[k] == part.take(i - from)[k]);
                }
            }
        }
        i += 1;
    }
    assert(part.take(to - from) =~= part);
    Some(value)
}

/// Reads a number written with digits only.
pub fn to_number(text: &str) -> (number: Option<u64>)
    ensures
        number == parse_number(text@),
{
    broadcast use is_ascii_spec_bytes;

    if !text.is_ascii() {
        return None;
    }
    let n = text.as_bytes().len();
    if n < 1 {
        return None;
    }
    assert(text@.subrange(0, n as int) =~= text@);
    digits_between(text, 0, n)
}

/// Reads a time of day written as `HHMM` and gives its minutes since
/// midnight.
pub fn to_minutes(text: &str) -> (minutes: Option<u32>)
    ensures
        minutes == parse_clock(text@),
{
    broadcast use is_ascii_spec_bytes;

    if !text.is_ascii() {
        return None;
    }
    let n = text.as_bytes().len();
    if n < 3 {
        return None;
    }
    let ghost head = text@.subrange(0, 2);
    let ghost tail = text@.subrange(2, n as int);
    proof {
        assert forall|i: int| 0 <= i < head.len() && all_digits(text@) implies is_digit(
            #[trigger] head[i],
        ) by {
            assert(head[i] == text@[i]);
        }
        assert forall|i: int| 0 <= i < tail.len() && all_digits(text@) implies is_digit(
            #[trigger] tail[i],
        ) by {
            assert(tail[i] == text@[i + 2]);
        }
        if all_digits(head) && all_digits(tail) {
            assert forall|i: int| 0 <= i < text@.len() implies is_digit(#[trigger] text@[i]) by {
                if i < 2 {
                    assert(head[i] == text@[i]);
                } else {
                    assert(tail[i - 2] == text@[i]);
                }
            }
        }
        assert(head.drop_last().drop_last().len() == 0);
        assert(decimal_value(head) == digit_value(head[0]) * 10 + digit_value(head[1])) by {
            assert(head.drop_last().last() == head[0]);
            assert(decimal_value(head.drop_last()) == decimal_value(head.drop_last().drop_last())
                * 10 + digit_value(head[0]));
        }
    }
    match (digits_between(text, 0, 2), digits_between(text, 2, n)) {
        (Some(hours), Some(rest)) => {
            assert(hours <= 99);
            if rest > u32::MAX as u64 {
                return None;
            }
            let total: u64 = hours * MINUTES_PER_HOUR + rest;
            if total > u32::MAX as u64 {
                None
            } else {
                Some(total as u32)
            }
        },
        _ => None,
    }
}

/// Reads the hours of reading that a user asked for and gives them in
/// minutes. Refuses what is no number, and zero.
pub fn readtime(text: &str) -> (minutes: Option<u32>)
    ensures
        minutes == parse_readtime(text@),
{
    match to_number(text) {
        Some(hours) => {
            if hours == 0 || hours > (u32::MAX as u64) / MINUTES_PER_HOUR {
                None
            } else {
                Some((hours * MINUTES_PER_HOUR) as u32)
            }
        },
        None => None,
    }
}

} // verus!
