//! Colours written in hexadecimal, as in `#87ceeb`.

use vstd::prelude::*;
use crate::text::chars_of;

verus! {

/// The value of a hexadecimal digit.
pub open spec fn hex_digit(c: char) -> Option<int> {
    if '0' <= c <= '9' {
        Some(c as int - '0' as int)
    } else if 'a' <= c <= 'f' {
        Some(c as int - 'a' as int + 10)
    } else if 'A' <= c <= 'F' {
        Some(c as int - 'A' as int + 10)
    } else {
        None
    }
}

/// The number that a piece of at most two characters stands for: one or
/// two hexadecimal digits, or a plus sign and one digit.
pub open spec fn hex_byte(piece: Seq<char>) -> Option<int> {
    let digits = if piece.len() > 0 && piece[0] == '+' {
        piece.drop_first()
    } else {
        piece
    };
    if piece.len() > 2 || digits.len() == 0 {
        None
    } else if digits.len() == 1 {
        hex_digit(digits[0])
    } else {
        match (hex_digit(digits[0]), hex_digit(digits[1])) {
            (Some(high), Some(low)) => Some(16 * high + low),
            _ => None,
        }
    }
}

/// `text` without the number signs that it begins with.
pub open spec fn without_number_signs(text: Seq<char>) -> Seq<char>
    decreases text.len(),
{
    if text.len() > 0 && text[0] == '#' {
        without_number_signs(text.drop_first())
    } else {
        text
    }
}

/// The red, green and blue of a colour: `value` is seven characters long
/// and begins with a number sign; behind the number signs stand two
/// characters for red, two for green, and the rest for blue.
pub open spec fn channels_of(value: Seq<char>) -> Option<(int, int, int)> {
    let digits = without_number_signs(value);
    if value.len() != 7 || value[0] != '#' || digits.len() < 4 {
        None
    } else {
        match (
            hex_byte(digits.subrange(0, 2)),
            hex_byte(digits.subrange(2, 4)),
            hex_byte(digits.subrange(4, digits.len() as int)),
        ) {
            (Some(red), Some(green), Some(blue)) => Some((red, green, blue)),
            _ => None,
        }
    }
}

/// The value of the hexadecimal digit `c`.
fn digit_value(c: char) -> (r: Option<u8>)
    ensures
        match hex_digit(c) {
            Some(value) => r == Some(value as u8) && 0 <= value < 16,
            None => r is None,
        },
{
    if '0' <= c && c <= '9' {
        Some((c as u32 - '0' as u32) as u8)
    } else if 'a' <= c && c <= 'f' {
        Some((c as u32 - 'a' as u32 + 10) as u8)
    } else if 'A' <= c && c <= 'F' {
        Some((c as u32 - 'A' as u32 + 10) as u8)
    } else {
        None
    }
}

/// The number that the characters of `chars` from `from` up to `to` stand
/// for.
fn byte_at(chars: &Vec<char>, from: usize, to: usize) -> (r: Option<u8>)
    requires
        from <= to <= chars.len(),
    ensures
        match hex_byte(chars@.subrange(from as int, to as int)) {
            Some(value) => r == Some(value as u8) && 0 <= value < 256,
            None => r is None,
        },
{
    let ghost piece = chars@.subrange(from as int, to as int);
    if to - from > 2 {
        return None;
    }
    let mut start = from;
    if start < to && chars[start] == '+' {
        start += 1;
    }
    let ghost digits = if piece.len() > 0 && piece[0] == '+' {
        piece.drop_first()
    } else {
        piece
    };
    assert(digits =~= chars@.subrange(start as int, to as int)) by {
        if from < to {
            assert(piece[0] == chars@[from as int]);
        }
    }
    if to - start == 0 {
        None
    } else if to - start == 1 {
        assert(digits[0] == chars@[start as int]);
        digit_value(chars[start])
    } else {
        assert(digits[0] == chars@[start as int]);
        assert(digits[1] == chars@[start + 1]);
        match (digit_value(chars[start]), digit_value(chars[start + 1])) {
            (Some(high), Some(low)) => Some(16 * high + low),
            _ => None,
        }
    }
}

/// The red, green and blue of the colour `value`, each from 0 to 255, or
/// `None` where `value` is not a colour.
pub fn hex_channels(value: &str) -> (r: Option<(u8, u8, u8)>)
    ensures
        match channels_of(value@) {
            Some(channels) => r == Some((channels.0 as u8, channels.1 as u8, channels.2 as u8))
                && 0 <= channels.0 < 256 && 0 <= channels.1 < 256 && 0 <= channels.2 < 256,
            None => r is None,
        },
{
    let chars = chars_of(value);
    if chars.len() != 7 || chars[0] != '#' {
        return None;
    }
    let mut start: usize = 0;
    assert(chars@.subrange(0, 7) =~= chars@);
    while start < 7 && chars[start] == '#'
        invariant
            start <= 7,
            chars.len() == 7,
            chars@ == value@,
            without_number_signs(chars@) == without_number_signs(
                chars@.subrange(start as int, 7),
            ),
        decreases 7 - start,
    {
        proof {
            let here = chars@.subrange(start as int, 7);
            assert(here[0] == chars@[start as int]);
            assert(here.drop_first() =~= chars@.subrange(start + 1, 7));
        }
        start += 1;
    }
    let ghost digits = chars@.subrange(start as int, 7);
    proof {
        if start < 7 {
            assert(digits[0] == chars@[start as int]);
        }
        assert(without_number_signs(digits) == digits);
    }
    if 7 - start < 4 {
        return None;
    }
    assert(digits.subrange(0, 2) =~= chars@.subrange(start as int, start + 2));
    assert(digits.subrange(2, 4) =~= chars@.subrange(start + 2, start + 4));
    assert(digits.subrange(4, digits.len() as int) =~= chars@.subrange(start + 4, 7));
    match (byte_at(&chars, start, start + 2), byte_at(&chars, start + 2, start + 4), byte_at(
        &chars,
        start + 4,
        7,
    )) {
        (Some(red), Some(green), Some(blue)) => Some((red, green, blue)),
        _ => None,
    }
}

} // verus!
