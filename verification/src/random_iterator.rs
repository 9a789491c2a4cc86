//! A deterministic enumeration of `0..max` that visits every index once, in
//! an order that jumps across the range instead of walking it.

use vstd::prelude::*;

verus! {

/// The value that the enumeration of `0..max` yields at position `n`.
///
/// The stride is `max / 2`. With an even `max` the values come in pairs
/// `j, j + stride`. With an odd `max` the first run has three values,
/// `0, stride, 2 * stride`, and pairs follow from `1` on.
pub open spec fn nth_index(max: nat, n: nat) -> nat {
    let stride = max / 2;
    if max % 2 == 0 {
        n / 2 + (n % 2) * stride
    } else if n < 3 {
        n * stride
    } else {
        1 + (n - 3) as nat / 2 + ((n - 3) as nat % 2) * stride
    }
}

/// The position at which the enumeration of `0..max` yields `value`.
pub open spec fn position_of(max: nat, value: nat) -> nat {
    let stride = max / 2;
    if max % 2 == 0 {
        if value < stride {
            2 * value
        } else {
            (2 * (value - stride) + 1) as nat
        }
    } else if value == 0 {
        0
    } else if value == stride {
        1
    } else if value == 2 * stride {
        2
    } else if value < stride {
        (3 + 2 * (value - 1)) as nat
    } else {
        (4 + 2 * (value - stride - 1)) as nat
    }
}

/// The phase of the enumeration at position `n`: how often it has wrapped.
pub open spec fn phase_at(max: nat, n: nat) -> nat {
    if max % 2 == 0 {
        n / 2
    } else if n < 3 {
        0
    } else {
        1 + (n - 3) as nat / 2
    }
}

/// Every value that the enumeration yields lies in `0..max`.
pub proof fn lemma_nth_index_in_range(max: nat, n: nat)
    requires
        n < max,
    ensures
        nth_index(max, n) < max,
{
    let stride = max / 2;
    if max % 2 == 0 {
        assert((n % 2) * stride == if n % 2 == 0 { 0 } else { stride }) by (nonlinear_arith)
            requires
                n % 2 == 0 || n % 2 == 1,
        ;
    } else if n >= 3 {
        let m = (n - 3) as nat;
        assert((m % 2) * stride == if m % 2 == 0 { 0 } else { stride }) by (nonlinear_arith)
            requires
                m % 2 == 0 || m % 2 == 1,
        ;
    } else {
        assert(n * stride == if n == 0 { 0 } else if n == 1 { stride } else { 2 * stride })
            by (nonlinear_arith)
            requires
                n < 3,
        ;
    }
}

/// `position_of` undoes `nth_index`: the enumeration yields no value twice.
pub proof fn lemma_position_of_nth_index(max: nat, n: nat)
    requires
        n < max,
    ensures
        position_of(max, nth_index(max, n)) == n,
{
    let stride = max / 2;
    if max % 2 == 0 {
        assert((n % 2) * stride == if n % 2 == 0 { 0 } else { stride }) by (nonlinear_arith)
            requires
                n % 2 == 0 || n % 2 == 1,
        ;
    } else if n >= 3 {
        let m = (n - 3) as nat;
        assert((m % 2) * stride == if m % 2 == 0 { 0 } else { stride }) by (nonlinear_arith)
            requires
                m % 2 == 0 || m % 2 == 1,
        ;
    } else {
        assert(n * stride == if n == 0 { 0 } else if n == 1 { stride } else { 2 * stride })
            by (nonlinear_arith)
            requires
                n < 3,
        ;
    }
}

/// `nth_index` undoes `position_of`: the enumeration reaches every value of
/// `0..max`, at a position below `max`.
pub proof fn lemma_nth_index_of_position(max: nat, value: nat)
    requires
        value < max,
    ensures
        position_of(max, value) < max,
        nth_index(max, position_of(max, value)) == value,
{
    let stride = max / 2;
    let n = position_of(max, value);
    if max % 2 == 0 {
        assert((n % 2) * stride == if n % 2 == 0 { 0 } else { stride }) by (nonlinear_arith)
            requires
                n % 2 == 0 || n % 2 == 1,
        ;
    } else if n >= 3 {
        let m = (n - 3) as nat;
        assert((m % 2) * stride == if m % 2 == 0 { 0 } else { stride }) by (nonlinear_arith)
            requires
                m % 2 == 0 || m % 2 == 1,
        ;
    } else {
        assert(n * stride == if n == 0 { 0 } else if n == 1 { stride } else { 2 * stride })
            by (nonlinear_arith)
            requires
                n < 3,
        ;
    }
}

/// The first `max` values of the enumeration are a permutation of `0..max`:
/// all of them lie in the range, no two positions share a value, and every
/// value of the range is yielded at the position that `position_of` names.
pub proof fn lemma_enumeration_is_permutation(max: nat)
    ensures
        forall|n: nat| n < max ==> #[trigger] nth_index(max, n) < max,
        forall|a: nat, b: nat|
            a < max && b < max && a != b ==> #[trigger] nth_index(max, a) != #[trigger] nth_index(
                max,
                b,
            ),
        forall|value: nat|
            value < max ==> {
                &&& #[trigger] position_of(max, value) < max
                &&& nth_index(max, position_of(max, value)) == value
            },
{
    assert forall|n: nat| n < max implies #[trigger] nth_index(max, n) < max by {
        lemma_nth_index_in_range(max, n);
    }
    assert forall|a: nat, b: nat| a < max && b < max && a != b implies #[trigger] nth_index(
        max,
        a,
    ) != #[trigger] nth_index(max, b) by {
        lemma_position_of_nth_index(max, a);
        lemma_position_of_nth_index(max, b);
    }
    assert forall|value: nat| value < max implies {
        &&& #[trigger] position_of(max, value) < max
        &&& nth_index(max, position_of(max, value)) == value
    } by {
        lemma_nth_index_of_position(max, value);
    }
}

/// Enumerates `0..max` in the order of [`nth_index`], one value per call of
/// [`RandomIterator::next`], without storing the order.
pub struct RandomIterator {
    max: usize,
    offset: usize,
    step_size: usize,
    actual: usize,
    i: usize,
}

impl RandomIterator {
    /// The size of the range that is enumerated.
    pub closed spec fn limit(&self) -> nat {
        self.max as nat
    }

    /// How many values have been handed out since the start or the last reset.
    pub closed spec fn emitted(&self) -> nat {
        self.i as nat
    }

    #[verifier::type_invariant]
    spec fn well_formed(&self) -> bool {
        &&& self.i <= self.max
        &&& self.step_size == self.max / 2
        &&& self.i < self.max ==> {
            &&& self.actual == nth_index(self.max as nat, self.i as nat)
            &&& self.offset == phase_at(self.max as nat, self.i as nat)
        }
    }

    /// The enumeration of `0..max`, at its start.
    pub fn new(max: usize) -> (r: Self)
        ensures
            r.limit() == max,
            r.emitted() == 0,
    {
        Self { max, offset: 0, actual: 0, step_size: max / 2, i: 0 }
    }

    /// Rewinds to the state that `new` gave, for the same range.
    pub fn reset(&mut self)
        ensures
            final(self).limit() == old(self).limit(),
            final(self).emitted() == 0,
        no_unwind
    {
        let max = self.max;
        *self = Self { max, offset: 0, actual: 0, step_size: max / 2, i: 0 };
    }

    /// How many values have been handed out since the start or the last
    /// reset.
    pub fn i(&self) -> (r: usize)
        ensures
            r == self.emitted(),
    {
        self.i
    }

    /// Hands out the next value of the enumeration, or `None` once all `max`
    /// values have been handed out.
    pub fn next(&mut self) -> (r: Option<usize>)
        ensures
            final(self).limit() == old(self).limit(),
            old(self).emitted() < old(self).limit() ==> {
                &&& r matches Some(value) && value == nth_index(
                    old(self).limit(),
                    old(self).emitted(),
                )
                &&& nth_index(old(self).limit(), old(self).emitted()) < old(self).limit()
                &&& final(self).emitted() == old(self).emitted() + 1
            },
            old(self).emitted() >= old(self).limit() ==> {
                &&& r is None
                &&& final(self).emitted() == old(self).emitted()
            },
        no_unwind
    {
        proof {
            use_type_invariant(&*self);
        }
        if self.i >= self.max {
            return None;
        }
        let out = self.actual;
        let ghost max = self.max as nat;
        let ghost n = self.i as nat;
        proof {
            lemma_nth_index_in_range(max, n);
            lemma_phase_in_range(max, n);
            if n + 1 < max {
                lemma_nth_index_in_range(max, n + 1);
                lemma_step(max, n);
            }
        }
        // the stride is added unless that leaves the range: the next phase
        // begins then
        let wraps = self.max - self.actual <= self.step_size;
        let (actual, offset) = if wraps {
            (self.offset + 1, self.offset + 1)
        } else {
            (self.actual + self.step_size, self.offset)
        };
        *self = Self { max: self.max, offset, step_size: self.step_size, actual, i: self.i + 1 };
        Some(out)
    }
}

/// The enumeration has begun fewer phases than it has values.
proof fn lemma_phase_in_range(max: nat, n: nat)
    requires
        n < max,
    ensures
        phase_at(max, n) < max,
{
}

/// One step of the enumeration: the value at position `n + 1` is the value at
/// `n` plus the stride, unless that leaves the range; it is then the next
/// phase.
proof fn lemma_step(max: nat, n: nat)
    requires
        n + 1 < max,
    ensures
        nth_index(max, n) + max / 2 >= max ==> {
            &&& phase_at(max, n + 1) == phase_at(max, n) + 1
            &&& nth_index(max, n + 1) == phase_at(max, n) + 1
        },
        nth_index(max, n) + max / 2 < max ==> {
            &&& phase_at(max, n + 1) == phase_at(max, n)
            &&& nth_index(max, n + 1) == nth_index(max, n) + max / 2
        },
{
    let stride = max / 2;
    if max % 2 == 0 {
        assert((n % 2) * stride == if n % 2 == 0 { 0 } else { stride }) by (nonlinear_arith)
            requires
                n % 2 == 0 || n % 2 == 1,
        ;
        assert(((n + 1) % 2) * stride == if (n + 1) % 2 == 0 { 0 } else { stride })
            by (nonlinear_arith)
            requires
                (n + 1) % 2 == 0 || (n + 1) % 2 == 1,
        ;
    } else {
        if n >= 3 {
            let m = (n - 3) as nat;
            assert((m % 2) * stride == if m % 2 == 0 { 0 } else { stride }) by (nonlinear_arith)
                requires
                    m % 2 == 0 || m % 2 == 1,
            ;
        } else {
            assert(n * stride == if n == 0 { 0 } else if n == 1 { stride } else { 2 * stride })
                by (nonlinear_arith)
                requires
                    n < 3,
            ;
        }
        if n + 1 >= 3 {
            let m = (n + 1 - 3) as nat;
            assert((m % 2) * stride == if m % 2 == 0 { 0 } else { stride }) by (nonlinear_arith)
                requires
                    m % 2 == 0 || m % 2 == 1,
            ;
        } else {
            assert((n + 1) * stride == if n + 1 == 1 { stride } else { 2 * stride })
                by (nonlinear_arith)
                requires
                    n + 1 == 1 || n + 1 == 2,
            ;
        }
    }
}

} // verus!
