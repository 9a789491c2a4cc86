//! The colours of the text form of a scene.

use crate::vector::Point;
use vstd::prelude::*;
use vstd::string::StrSliceExecFns;

verus! {

/// The value of a digit, or `None` for a character that is no digit.
pub open spec fn digit_value(c: char) -> Option<nat> {
    if '0' <= c <= '9' {
        Some((c as nat - '0' as nat) as nat)
    } else {
        None
    }
}

/// The number that the digits spell, or `None` where a character is no
/// digit. No digits spell 0.
pub open spec fn digits_value(text: Seq<char>) -> Option<nat>
    decreases text.len(),
{
    if text.len() == 0 {
        Some(0)
    } else {
        match (digits_value(text.drop_last()), digit_value(text.last())) {
            (Some(front), Some(last)) => Some(front * 10 + last),
            _ => None,
        }
    }
}

/// The byte that the text spells: digits, at least one, with or without a
/// `+` before them, that spell a number up to 255.
pub open spec fn byte_value(text: Seq<char>) -> Option<u8> {
    let digits = if text.len() > 0 && text[0] == '+' {
        text.skip(1)
    } else {
        text
    };
    if digits.len() == 0 {
        None
    } else {
        match digits_value(digits) {
            Some(value) => if value <= 255 {
                Some(value as u8)
            } else {
                None
            },
            None => None,
        }
    }
}

/// The number of commas among the first `upto` characters.
pub open spec fn commas(text: Seq<char>, upto: int) -> nat
    decreases upto,
{
    if upto <= 0 {
        0
    } else if text[upto - 1] == ',' {
        commas(text, upto - 1) + 1
    } else {
        commas(text, upto - 1)
    }
}

/// The place of the first comma at or behind `from`, or the length of the
/// text where there is none.
pub open spec fn comma_from(text: Seq<char>, from: int) -> int
    decreases text.len() - from,
{
    if from < 0 || from >= text.len() {
        text.len() as int
    } else if text[from] == ',' {
        from
    } else {
        comma_from(text, from + 1)
    }
}

/// The colour that the text spells: three bytes with a comma between one
/// and the next, and no other comma.
pub open spec fn rgb_value(text: Seq<char>) -> Option<Point<u8>> {
    if commas(text, text.len() as int) != 2 {
        None
    } else {
        let first = comma_from(text, 0);
        let second = comma_from(text, first + 1);
        match (
            byte_value(text.take(first)),
            byte_value(text.subrange(first + 1, second)),
            byte_value(text.skip(second + 1)),
        ) {
            (Some(r), Some(g), Some(b)) => Some(Point { x: r, y: g, z: b }),
            _ => None,
        }
    }
}

/// The byte that the characters of `text` from `from` up to `to` spell.
fn parse_byte(text: &str, from: usize, to: usize) -> (r: Option<u8>)
    requires
        from <= to <= text@.len(),
    ensures
        r == byte_value(text@.subrange(from as int, to as int)),
{
    let ghost field = text@.subrange(from as int, to as int);
    let mut start = from;
    if from < to && text.get_char(from) == '+' {
        start = from + 1;
    }
    let ghost digits = text@.subrange(start as int, to as int);
    proof {
        if start == from {
            assert(digits =~= field);
        } else {
            assert(digits =~= field.skip(1));
        }
        assert(field.len() > 0 ==> field[0] == text@[from as int]);
    }
    if start == to {
        return None;
    }
    let mut value: u16 = 0;
    let mut i: usize = start;
    while i < to
        invariant
            start <= i <= to <= text@.len(),
            start < to,
            field == text@.subrange(from as int, to as int),
            digits == text@.subrange(start as int, to as int),
            digits == if field.len() > 0 && field[0] == '+' {
                field.skip(1)
            } else {
                field
            },
            digits_value(digits.take(i - start)) == Some(value as nat),
            value <= 255,
        decreases to - i,
    {
        let c = text.get_char(i);
        proof {
            assert(digits.take(i - start + 1).drop_last() =~= digits.take(i - start));
            assert(digits.take(i - start + 1).last() == c);
        }
        if !('0' <= c && c <= '9') {
            proof {
                lemma_digits_value_prefix(digits, i - start + 1);
            }
            return None;
        }
        let d = (c as u32 - '0' as u32) as u16;
        let next = value * 10 + d;
        if next > 255 {
            proof {
                lemma_digits_value_prefix(digits, i - start + 1);
            }
            return None;
        }
        value = next;
        i += 1;
    }
    proof {
        assert(digits.take(to - start) =~= digits);
    }
    Some(value as u8)
}

/// Where the first characters of a text spell no number, or one above 255,
/// the text spells no byte.
proof fn lemma_digits_value_prefix(text: Seq<char>, len: int)
    requires
        0 <= len <= text.len(),
    ensures
        digits_value(text.take(len)) is None ==> digits_value(text) is None,
        digits_value(text.take(len)) matches Some(front) ==> (digits_value(text) matches Some(all)
            ==> front <= all),
    decreases text.len() - len,
{
    if len < text.len() {
        assert(text.take(len + 1).drop_last() =~= text.take(len));
        lemma_digits_value_prefix(text, len + 1);
    } else {
        assert(text.take(len) =~= text);
    }
}

/// The colour that the text spells, as `red,green,blue`, each a number from
/// 0 to 255.
pub fn parse_rgb(s: &str) -> (r: Option<Point<u8>>)
    ensures
        r == rgb_value(s@),
{
    let len = s.unicode_len();
    let mut first: usize = 0;
    let mut second: usize = 0;
    let mut count: usize = 0;
    let mut i: usize = 0;
    while i < len
        invariant
            i <= len,
            len == s@.len(),
            count == commas(s@, i as int),
            count <= 2 || i == len,
            count <= i,
            count == 0 ==> forall|j: int| 0 <= j < i ==> s@[j] != ',',
            count >= 1 ==> first < i && s@[first as int] == ',' && forall|j: int|
                0 <= j < first ==> s@[j] != ',',
            count == 1 ==> forall|j: int| first < j < i ==> s@[j] != ',',
            count >= 2 ==> first < second < i && s@[second as int] == ',' && forall|j: int|
                first < j < second ==> s@[j] != ',',
        decreases len - i,
    {
        if s.get_char(i) == ',' {
            if count == 0 {
                first = i;
            } else if count == 1 {
                second = i;
            } else {
                proof {
                    lemma_commas_grow(s@, i + 1, len as int);
                }
                return None;
            }
            count += 1;
        }
        i += 1;
    }
    if count != 2 {
        return None;
    }
    proof {
        let text = s@;
        lemma_comma_from(text, 0, first as int);
        lemma_comma_from(text, first + 1, second as int);
        assert(text.take(first as int) =~= text.subrange(0, first as int));
        assert(text.skip(second + 1) =~= text.subrange(second + 1, len as int));
    }
    let r = match parse_byte(s, 0, first) {
        Some(r) => r,
        None => {
            return None;
        },
    };
    let g = match parse_byte(s, first + 1, second) {
        Some(g) => g,
        None => {
            return None;
        },
    };
    let b = match parse_byte(s, second + 1, len) {
        Some(b) => b,
        None => {
            return None;
        },
    };

    return Some(Point::new(r, g, b));
}

/// The first comma behind a stretch without commas is the first comma from
/// the start of the stretch.
proof fn lemma_comma_from(text: Seq<char>, from: int, comma: int)
    requires
        0 <= from <= comma < text.len(),
        text[comma] == ',',
        forall|j: int| from <= j < comma ==> text[j] != ',',
    ensures
        comma_from(text, from) == comma,
    decreases comma - from,
{
    if from < comma {
        lemma_comma_from(text, from + 1, comma);
    }
}

/// More characters hold no fewer commas.
proof fn lemma_commas_grow(text: Seq<char>, from: int, to: int)
    requires
        0 <= from <= to,
    ensures
        commas(text, from) <= commas(text, to),
    decreases to - from,
{
    if from < to {
        lemma_commas_grow(text, from, to - 1);
    }
}

} // verus!
