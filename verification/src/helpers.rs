//! Helpers for showing progress: how long a render has taken, as text.

use std::time::Duration;
use vstd::prelude::*;
use vstd::std_specs::cmp::PartialEqSpec;
use vstd::string::StringExecFns;

verus! {

/// The smallest unit of time that a formatted duration shows.
#[derive(PartialEq, PartialOrd, Debug, Clone, Copy)]
#[allow(dead_code)]
pub enum Precision {
    Hours,
    Minutes,
    Seconds,
    Milliseconds,
    Microseconds,
    Nanoseconds,
}

impl Precision {
    /// The place of the unit among the units, from 0 for hours to 5 for
    /// nanoseconds.
    pub open spec fn spec_rank(&self) -> nat {
        match self {
            Precision::Hours => 0,
            Precision::Minutes => 1,
            Precision::Seconds => 2,
            Precision::Milliseconds => 3,
            Precision::Microseconds => 4,
            Precision::Nanoseconds => 5,
        }
    }

    /// The place of the unit among the units, from 0 for hours to 5 for
    /// nanoseconds.
    pub fn rank(&self) -> (r: u8)
        ensures
            r == self.spec_rank(),
    {
        match self {
            Precision::Hours => 0,
            Precision::Minutes => 1,
            Precision::Seconds => 2,
            Precision::Milliseconds => 3,
            Precision::Microseconds => 4,
            Precision::Nanoseconds => 5,
        }
    }
}

/// The character of a digit.
pub open spec fn digit(d: nat) -> char {
    if d == 0 {
        '0'
    } else if d == 1 {
        '1'
    } else if d == 2 {
        '2'
    } else if d == 3 {
        '3'
    } else if d == 4 {
        '4'
    } else if d == 5 {
        '5'
    } else if d == 6 {
        '6'
    } else if d == 7 {
        '7'
    } else if d == 8 {
        '8'
    } else {
        '9'
    }
}

/// A number in decimal digits, without leading zeros.
pub open spec fn decimal_text(n: nat) -> Seq<char>
    decreases n,
{
    if n < 10 {
        seq![digit(n)]
    } else {
        decimal_text(n / 10).push(digit(n % 10))
    }
}

/// Whether the text is made of the digits `0` to `9` alone.
pub open spec fn is_digits(text: Seq<char>) -> bool {
    forall|i: int| 0 <= i < text.len() ==> '0' <= #[trigger] text[i] <= '9'
}

/// Decimal text is made of digits.
pub proof fn lemma_decimal_text_is_digits(n: nat)
    ensures
        is_digits(decimal_text(n)),
        decimal_text(n).len() > 0,
    decreases n,
{
    if n >= 10 {
        lemma_decimal_text_is_digits(n / 10);
    }
}

/// The digit as text.
fn digit_text(d: u64) -> (r: &'static str)
    requires
        d < 10,
    ensures
        r@ == seq![digit(d as nat)],
{
    proof {
        reveal_strlit("0");
        reveal_strlit("1");
        reveal_strlit("2");
        reveal_strlit("3");
        reveal_strlit("4");
        reveal_strlit("5");
        reveal_strlit("6");
        reveal_strlit("7");
        reveal_strlit("8");
        reveal_strlit("9");
    }
    let r = if d == 0 {
        "0"
    } else if d == 1 {
        "1"
    } else if d == 2 {
        "2"
    } else if d == 3 {
        "3"
    } else if d == 4 {
        "4"
    } else if d == 5 {
        "5"
    } else if d == 6 {
        "6"
    } else if d == 7 {
        "7"
    } else if d == 8 {
        "8"
    } else {
        "9"
    };
    assert(r@ =~= seq![digit(d as nat)]);
    r
}

/// A number in decimal digits.
pub fn decimal(n: u64) -> (r: String)
    ensures
        r@ == decimal_text(n as nat),
{
    let mut rest = n;
    let mut text = String::new();
    loop
        invariant_except_break
            decimal_text(n as nat) == decimal_text(rest as nat) + text@,
        ensures
            text@ == decimal_text(n as nat),
        decreases rest,
    {
        let ghost behind = text@;
        let ghost before = rest;
        text = String::from_str(digit_text(rest % 10)).concat(text.as_str());
        assert(text@ =~= seq![digit((before % 10) as nat)] + behind);
        rest = rest / 10;
        if rest == 0 {
            assert(decimal_text(before as nat) + behind =~= text@);
            break ;
        }
        assert(decimal_text(before as nat) + behind =~= decimal_text(rest as nat) + text@);
    }
    text
}

/// Text that is brought to a width from the left: a shorter text gets
/// `fill` before it, a longer one is cut to the width where `truncate`
/// says so, and else stays.
pub open spec fn padded(text: Seq<char>, width: nat, fill: char, truncate: bool) -> Seq<char> {
    if text.len() >= width {
        if truncate {
            text.take(width as int)
        } else {
            text
        }
    } else {
        Seq::new((width - text.len()) as nat, |i: int| fill) + text
    }
}

/// `pad::PadStr::pad` with `Alignment::Right`, on text of digits.
///
/// The crate measures the text in columns and cuts it in bytes; a digit is
/// one of each. It returns the text where that has the width or more, cut
/// to the width where `truncate` is set; else `pad_char`, as often as the
/// text is short of the width, and then the text.
#[verifier::external_body]
fn pad_right(text: &str, width: usize, pad_char: char, truncate: bool) -> (r: String)
    requires
        is_digits(text@),
    ensures
        r@ == padded(text@, width as nat, pad_char, truncate),
{
    pad::PadStr::pad(text, width, pad_char, pad::Alignment::Right, truncate)
}

/// The hours of a duration as text: the number, at least two wide, and `h`;
/// three blanks for no hours.
pub open spec fn hours_text(hours: nat) -> Seq<char> {
    if hours > 0 {
        padded(decimal_text(hours), 2, ' ', false) + seq!['h']
    } else {
        seq![' ', ' ', ' ']
    }
}

/// The minutes of a duration as text: a blank, the number, two wide, and
/// `m`; four blanks for no minutes.
pub open spec fn minutes_text(minutes: nat) -> Seq<char> {
    if minutes > 0 {
        seq![' '] + padded(decimal_text(minutes), 2, ' ', true) + seq!['m']
    } else {
        seq![' ', ' ', ' ', ' ']
    }
}

/// A part of a second as text: `lead`, and the first `width` digits of the
/// number, with zeros before a number of fewer digits.
pub open spec fn part_text(lead: char, value: nat, width: nat) -> Seq<char> {
    seq![lead] + padded(decimal_text(value), width, '0', true)
}

/// A duration of `seconds` seconds and `nanos` nanoseconds as text, down to
/// the unit of the precision: hours, minutes and seconds of the whole
/// seconds, then the thousandths, millionths and billionths of a second,
/// each as far as the precision wants it, and `s` where seconds are shown.
pub open spec fn formatted(seconds: nat, nanos: nat, precision: Precision) -> Seq<char> {
    let rank = precision.spec_rank();
    hours_text(seconds / 3600) + (if rank >= 1 {
        minutes_text((seconds % 3600) / 60)
    } else {
        Seq::empty()
    }) + (if rank >= 2 {
        part_text(' ', seconds % 60, 2)
    } else {
        Seq::empty()
    }) + (if rank >= 3 {
        part_text('.', nanos / 1_000_000, 3)
    } else {
        Seq::empty()
    }) + (if rank >= 4 {
        part_text(' ', nanos / 1_000, 3)
    } else {
        Seq::empty()
    }) + (if rank >= 5 {
        part_text(' ', nanos, 3)
    } else {
        Seq::empty()
    }) + (if rank >= 2 {
        seq!['s']
    } else {
        Seq::empty()
    })
}

/// Appends a part of a second to the text.
fn push_part(result: &mut String, lead: &str, value: u64, width: usize)
    requires
        lead@.len() == 1,
    ensures
        final(result)@ == old(result)@ + part_text(lead@[0], value as nat, width as nat),
{
    let ghost before = result@;
    result.append(lead);
    let digits = decimal(value);
    proof {
        lemma_decimal_text_is_digits(value as nat);
    }
    let part = pad_right(digits.as_str(), width, '0', true);
    result.append(part.as_str());
    assert(result@ =~= before + part_text(lead@[0], value as nat, width as nat));
}

/// A duration of `seconds` seconds and `nanos` nanoseconds as text, down to
/// the unit of the precision.
pub fn format_elapsed(seconds: u64, nanos: u32, precision: Precision) -> (result: String)
    ensures
        result@ == formatted(seconds as nat, nanos as nat, precision),
{
    let mut result = String::new();
    let rank = precision.rank();

    let hours = seconds / 3600;
    let minutes = (seconds % 3600) / 60;
    let seconds = seconds % 60;
    proof {
        reveal_strlit("h");
        reveal_strlit("   ");
        reveal_strlit(" ");
        reveal_strlit("m");
        reveal_strlit("    ");
        reveal_strlit(".");
        reveal_strlit("s");
        lemma_decimal_text_is_digits(hours as nat);
        lemma_decimal_text_is_digits(minutes as nat);
    }

    if hours > 0 {
        result.append(pad_right(decimal(hours).as_str(), 2, ' ', false).as_str());
        result.append("h");
    } else {
        result.append("   ");
    }
    assert(result@ =~= hours_text(hours as nat));
    let ghost shown = result@;

    if rank >= 1 {
        if minutes > 0 {
            result.append(" ");
            result.append(pad_right(decimal(minutes).as_str(), 2, ' ', true).as_str());
            result.append("m");
        } else {
            result.append("    ");
        }
        assert(result@ =~= shown + minutes_text(minutes as nat));
    }
    if rank >= 2 {
        push_part(&mut result, " ", seconds, 2);
    }
    if rank >= 3 {
        push_part(&mut result, ".", (nanos / 1_000_000) as u64, 3);
    }
    if rank >= 4 {
        push_part(&mut result, " ", (nanos / 1_000) as u64, 3);
    }
    if rank >= 5 {
        push_part(&mut result, " ", nanos as u64, 3);
    }
    if rank >= 2 {
        let ghost before = result@;
        result.append("s");
        assert(result@ =~= before + seq!['s']);
    }
    assert(result@ =~= formatted(
        (hours * 3600 + minutes * 60 + seconds) as nat,
        nanos as nat,
        precision,
    ));
    return result;
}

/// The whole seconds of a duration.
pub uninterp spec fn whole_seconds(duration: Duration) -> u64;

/// The part of a duration that is less than a second, in nanoseconds.
pub uninterp spec fn fraction_nanos(duration: Duration) -> u32;

/// `Duration::as_secs`: the whole seconds of the duration.
pub assume_specification[ Duration::as_secs ](duration: &Duration) -> (r: u64)
    ensures
        r == whole_seconds(*duration),
;

/// `Duration::subsec_nanos`: what the duration holds beyond its whole
/// seconds, in nanoseconds. std documents it as less than one billion.
pub assume_specification[ Duration::subsec_nanos ](duration: &Duration) -> (r: u32)
    ensures
        r == fraction_nanos(*duration),
        r < 1_000_000_000,
;

/// `Duration::from_micros`: the duration of that many microseconds, which
/// is as many whole seconds as a million goes into the number, and the rest
/// as the part of a second.
pub assume_specification[ Duration::from_micros ](micros: u64) -> (r: Duration)
    ensures
        whole_seconds(r) == micros / 1_000_000,
        fraction_nanos(r) == (micros % 1_000_000) * 1_000,
;

/// What can be shown as a length of time.
pub trait AsFormattedString {
    fn as_formatted_str(&self, precision: Precision) -> String;
}

impl AsFormattedString for Duration {
    /// The duration as text, down to the unit of the precision: see
    /// [`formatted`].
    fn as_formatted_str(&self, precision: Precision) -> (r: String)
        ensures
            r@ == formatted(
                whole_seconds(*self) as nat,
                fraction_nanos(*self) as nat,
                precision,
            ),
    {
        format_elapsed(self.as_secs(), self.subsec_nanos(), precision)
    }
}

/// Whether two items of `arr` at different places are equal.
pub fn contains_duplicates<T>(arr: &[T]) -> (r: bool) where T: PartialEq
    ensures
        T::obeys_eq_spec() ==> r == exists|i: int, j: int|
            0 <= i < j < arr.len() && #[trigger] arr[i].eq_spec(&#[trigger] arr[j]),
{
    let mut i: usize = 0;
    while i < arr.len()
        invariant
            i <= arr.len(),
            T::obeys_eq_spec() ==> forall|a: int, b: int|
                0 <= a < i && a < b < arr.len() ==> !(#[trigger] arr[a].eq_spec(
                    &#[trigger] arr[b],
                )),
        decreases arr.len() - i,
    {
        let mut j: usize = i + 1;
        while j < arr.len()
            invariant
                i < arr.len(),
                i < j <= arr.len(),
                T::obeys_eq_spec() ==> forall|a: int, b: int|
                    0 <= a < i && a < b < arr.len() ==> !(#[trigger] arr[a].eq_spec(
                        &#[trigger] arr[b],
                    )),
                T::obeys_eq_spec() ==> forall|b: int|
                    i < b < j ==> !(arr[i as int].eq_spec(&#[trigger] arr[b])),
            decreases arr.len() - j,
        {
            if arr[i] == arr[j] {
                return true;
            }
            j += 1;
        }
        i += 1;
    }
    return false;
}

} // verus!
