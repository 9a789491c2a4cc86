//! Small helpers on numbers.

use vstd::arithmetic::power2::is_pow2;
use vstd::prelude::*;
use vstd::std_specs::convert::FromSpec;
use vstd::string::{to_string_from_display_ensures, StrSliceExecFns, StringExecFns};
use vstd::std_specs::cmp::{PartialOrdIs, PartialOrdSpec};

verus! {

/// A number at least 2 has one bit set exactly if it is even and its half
/// has one bit set.
proof fn lemma_single_bit_halves(x: u64)
    by (bit_vector)
    requires
        x >= 2,
    ensures
        (x & (x - 1) as u64 == 0) <==> (x % 2 == 0 && (x / 2) & ((x / 2) - 1) as u64 == 0),
{
}

proof fn lemma_single_bit_is_pow2(x: u64)
    requires
        x > 0,
    ensures
        (x & (x - 1) as u64 == 0) <==> is_pow2(x as int),
    decreases x,
{
    reveal(is_pow2);
    if x == 1 {
        assert(1u64 & 0u64 == 0) by (bit_vector);
    } else {
        lemma_single_bit_halves(x);
        lemma_single_bit_is_pow2(x / 2);
    }
}

/// Whether `x` is one of 1, 2, 4, 8, ...
pub fn is_power_of_2(x: usize) -> (r: bool)
    ensures
        r == is_pow2(x as int),
{
    if x == 0 {
        proof {
            reveal(is_pow2);
        }
        return false;
    }
    proof {
        lemma_single_bit_is_pow2(x as u64);
    }
    x & (x - 1) == 0
}

/// The operators `<`, `<=`, `>` and `>=` of `T` are specified: each gives what
/// the type's comparison of the two values says.
pub open spec fn order_specified<T: PartialOrd>() -> bool {
    T::obeys_partial_cmp_spec()
}

/// The result of walking `s` from its first item with a current least item,
/// which an item replaces where it is less.
pub open spec fn running_min<T: PartialOrd>(s: Seq<T>) -> T
    decreases s.len(),
{
    if s.len() <= 1 {
        s[0]
    } else if s.last().is_lt(&running_min(s.drop_last())) {
        s.last()
    } else {
        running_min(s.drop_last())
    }
}

/// The result of walking `s` from its first item with a current greatest
/// item, which an item replaces where it is greater.
pub open spec fn running_max<T: PartialOrd>(s: Seq<T>) -> T
    decreases s.len(),
{
    if s.len() <= 1 {
        s[0]
    } else if s.last().is_gt(&running_max(s.drop_last())) {
        s.last()
    } else {
        running_max(s.drop_last())
    }
}

/// The least item of `arr`; of several, the first.
#[allow(dead_code)]
pub fn minn<T>(arr: &[T]) -> (r: T) where T: PartialOrd + Copy
    requires
        arr.len() > 0,
    ensures
        order_specified::<T>() ==> r == running_min(arr@),
{
    let mut min = arr[0];
    let mut i: usize = 1;
    while i < arr.len()
        invariant
            1 <= i <= arr.len(),
            order_specified::<T>() ==> min == running_min(arr@.take(i as int)),
        decreases arr.len() - i,
    {
        proof {
            assert(arr@.take(i + 1).drop_last() =~= arr@.take(i as int));
        }
        if arr[i] < min {
            min = arr[i];
        }
        i += 1;
    }
    proof {
        assert(arr@.take(arr.len() as int) =~= arr@);
    }
    min
}

/// The greatest item of `arr`; of several, the first.
#[allow(dead_code)]
pub fn maxn<T>(arr: &[T]) -> (r: T) where T: PartialOrd + Copy
    requires
        arr.len() > 0,
    ensures
        order_specified::<T>() ==> r == running_max(arr@),
{
    let mut max = arr[0];
    let mut i: usize = 1;
    while i < arr.len()
        invariant
            1 <= i <= arr.len(),
            order_specified::<T>() ==> max == running_max(arr@.take(i as int)),
        decreases arr.len() - i,
    {
        proof {
            assert(arr@.take(i + 1).drop_last() =~= arr@.take(i as int));
        }
        if arr[i] > max {
            max = arr[i];
        }
        i += 1;
    }
    proof {
        assert(arr@.take(arr.len() as int) =~= arr@);
    }
    max
}

/// The place of the first `.` of the text at or behind `from`, if there is
/// one.
pub open spec fn dot_from(text: Seq<char>, from: nat) -> Option<nat>
    decreases text.len() - from,
{
    if from >= text.len() {
        None
    } else if text[from as int] == '.' {
        Some(from)
    } else {
        dot_from(text, from + 1)
    }
}

/// `count` times the digit `0`.
pub open spec fn zeros(count: nat) -> Seq<char> {
    Seq::new(count, |i: int| '0')
}

/// The text of a number with `precision` digits behind the point: digits
/// beyond those are cut off, not rounded, and missing ones are zeros. With
/// no digits behind the point, the point goes too.
pub open spec fn fixed_text(text: Seq<char>, precision: nat) -> Seq<char> {
    match dot_from(text, 0) {
        Some(dot) => if precision == 0 {
            text.take(dot as int)
        } else {
            (text + zeros(precision)).take((dot + precision + 1) as int)
        },
        None => if precision == 0 {
            text
        } else {
            text.push('.') + zeros(precision)
        },
    }
}

/// Where `dot_from` finds a `.`, there is one, and none before it.
proof fn lemma_dot_from(text: Seq<char>, from: nat)
    ensures
        match dot_from(text, from) {
            Some(dot) => from <= dot < text.len() && text[dot as int] == '.' && forall|i: int|
                from <= i < dot ==> text[i] != '.',
            None => forall|i: int| from <= i < text.len() ==> text[i] != '.',
        },
    decreases text.len() - from,
{
    if from < text.len() && text[from as int] != '.' {
        lemma_dot_from(text, from + 1);
    }
}

/// The first place without a `.` before it that holds one is what
/// `dot_from` finds.
proof fn lemma_dot_from_found(text: Seq<char>, from: nat, dot: nat)
    requires
        from <= dot < text.len(),
        text[dot as int] == '.',
        forall|i: int| from <= i < dot ==> text[i] != '.',
    ensures
        dot_from(text, from) == Some(dot),
    decreases dot - from,
{
    if from < dot {
        lemma_dot_from_found(text, from + 1, dot);
    }
}

/// The text of a number with `precision` digits behind the point.
pub fn fixed(text: String, precision: usize) -> (r: String)
    requires
        precision < usize::MAX,
    ensures
        r@ == fixed_text(text@, precision as nat),
{
    let len = text.as_str().unicode_len();
    let mut dot: Option<usize> = None;
    let mut i: usize = 0;
    while i < len
        invariant_except_break
            i <= len,
            dot is None,
            forall|j: int| 0 <= j < i ==> text@[j] != '.',
        invariant
            len == text@.len(),
        ensures
            match dot {
                Some(at) => at < len && text@[at as int] == '.' && forall|j: int|
                    0 <= j < at ==> text@[j] != '.',
                None => forall|j: int| 0 <= j < len ==> text@[j] != '.',
            },
        decreases len - i,
    {
        if text.as_str().get_char(i) == '.' {
            dot = Some(i);
            break ;
        }
        i += 1;
    }
    proof {
        lemma_dot_from(text@, 0);
        if let Some(at) = dot {
            lemma_dot_from_found(text@, 0, at as nat);
        }
    }
    if precision == 0 {
        return match dot {
            Some(x) => String::from_str(text.as_str().substring_char(0, x)),
            None => text,
        };
    }
    let mut s = text;
    let start = match dot {
        Some(x) => x,
        None => {
            proof {
                reveal_strlit(".");
            }
            s.append(".");
            assert(s@ =~= text@.push('.'));
            len
        },
    };
    let ghost stem = s@;
    let mut mantissa = s.as_str().unicode_len() - start;
    let ghost mut added: nat = 0;
    while mantissa < precision + 1
        invariant
            precision < usize::MAX,
            start < stem.len(),
            s@ == stem + zeros(added),
            mantissa == stem.len() - start + added,
            mantissa <= precision + 1 || added == 0,
        decreases precision + 1 - mantissa,
    {
        proof {
            reveal_strlit("0");
            assert(stem + zeros(added + 1) =~= (stem + zeros(added)).push('0'));
        }
        let ghost shorter = s@;
        s.append("0");
        assert(s@ =~= shorter.push('0'));
        proof {
            added = added + 1;
        }
        mantissa += 1;
    }
    let total = s.as_str().unicode_len();
    let cut = start + precision + 1;
    let r = String::from_str(s.as_str().substring_char(0, cut));
    proof {
        if dot is Some {
            assert((stem + zeros(added)).take(cut as int) =~= (stem + zeros(precision as nat)).take(
                cut as int,
            ));
        } else {
            assert(added == precision);
            assert((stem + zeros(added)).take(cut as int) =~= stem + zeros(added));
        }
    }
    r
}

/// A number as text with a fixed number of digits behind the point.
pub trait ToFixed {
    fn to_fixed(&self, precision: usize) -> (r: String)
        requires
            precision < usize::MAX,
    ;
}

impl<T: std::fmt::Display> ToFixed for T {
    /// The text that the value shows as, with `precision` digits behind the
    /// point: see [`fixed_text`].
    fn to_fixed(&self, precision: usize) -> (r: String)
        ensures
            exists|text: String| #[trigger]
                to_string_from_display_ensures::<T>(self, text) && r@ == fixed_text(
                    text@,
                    precision as nat,
                ),
    {
        fixed(self.to_string(), precision)
    }
}

/// `a` where it is less than `b`, else `b`.
pub open spec fn spec_min<T: PartialOrd>(a: T, b: T) -> T {
    if a.is_lt(&b) {
        a
    } else {
        b
    }
}

/// `a` where it is greater than `b`, else `b`.
pub open spec fn spec_max<T: PartialOrd>(a: T, b: T) -> T {
    if a.is_gt(&b) {
        a
    } else {
        b
    }
}

/// `a` where it is less than `b`, else `b`: also where the two cannot be
/// compared.
pub fn min<T: PartialOrd + Copy>(a: T, b: T) -> (r: T)
    ensures
        order_specified::<T>() ==> r == spec_min(a, b),
{
    if a < b {
        a
    } else {
        b
    }
}

/// `a` where it is greater than `b`, else `b`: also where the two cannot be
/// compared.
pub fn max<T: PartialOrd + Copy>(a: T, b: T) -> (r: T)
    ensures
        order_specified::<T>() ==> r == spec_max(a, b),
{
    if a > b {
        a
    } else {
        b
    }
}

/// The lesser and the greater of two values.
pub trait MinMax: Sized {
    fn min(&self, other: Self) -> Self;

    fn max(&self, other: Self) -> Self;
}

impl<T: PartialOrd + Copy> MinMax for T {
    /// `self` where it is less than `other`, else `other`.
    fn min(&self, other: Self) -> (r: Self)
        ensures
            order_specified::<T>() ==> r == spec_min(*self, other),
    {
        if *self < other {
            *self
        } else {
            other
        }
    }

    /// `self` where it is greater than `other`, else `other`.
    fn max(&self, other: Self) -> (r: Self)
        ensures
            order_specified::<T>() ==> r == spec_max(*self, other),
    {
        if *self > other {
            *self
        } else {
            other
        }
    }
}

/// A number that is not known to be zero or less: any value but one that
/// is less than or equal to zero.
#[derive(PartialEq, PartialOrd, Debug)]
pub struct PositiveNonzeroF32<T>(T);

impl<T: Copy + PartialOrd + From<u8>> PositiveNonzeroF32<T> {
    /// The number that is held.
    pub closed spec fn value(&self) -> T {
        self.0
    }

    /// Holds the value, unless it is zero or less.
    pub fn new(value: T) -> (r: Option<Self>)
        ensures
            order_specified::<T>() && T::obeys_from_spec() ==> (r is None <==> value.is_le(
                &T::from_spec(0u8),
            )),
            r matches Some(held) ==> held.value() == value,
    {
        if value <= T::from(0u8) {
            None
        } else {
            Some(PositiveNonzeroF32(value))
        }
    }

    pub fn get(&self) -> (r: T)
        ensures
            r == self.value(),
    {
        self.0
    }
}

/// A number that is not known to lie outside the range from zero to one:
/// any value but one that is less than zero or greater than one.
#[derive(PartialEq, PartialOrd, Debug, Clone, Copy)]
pub struct Float0to1<T>(T);

impl<T: Copy + PartialOrd + From<u8>> Float0to1<T> {
    /// The number that is held.
    pub closed spec fn value(&self) -> T {
        self.0
    }

    /// Holds the value, unless it is less than zero or greater than one.
    pub fn new(value: T) -> (r: Option<Self>)
        ensures
            order_specified::<T>() && T::obeys_from_spec() ==> (r is None <==> value.is_lt(
                &T::from_spec(0u8),
            ) || value.is_gt(&T::from_spec(1u8))),
            r matches Some(held) ==> held.value() == value,
    {
        if value < T::from(0u8) || value > T::from(1u8) {
            None
        } else {
            Some(Float0to1(value))
        }
    }

    pub fn get(&self) -> (r: T)
        ensures
            r == self.value(),
    {
        self.0
    }
}

} // verus!
