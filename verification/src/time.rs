//! Spans of time with nanosecond resolution.

use vstd::prelude::*;
use vstd::arithmetic::div_mod::{
    lemma_div_is_ordered, lemma_div_multiples_vanish, lemma_fundamental_div_mod,
    lemma_hoist_over_denominator,
};

verus! {

/// Nanoseconds in one microsecond.
pub const NANOS_PER_MICRO: u128 = 1_000;

/// Nanoseconds in one millisecond.
pub const NANOS_PER_MILLI: u128 = 1_000_000;

/// Nanoseconds in one second.
pub const NANOS_PER_SEC: u128 = 1_000_000_000;

/// The longest span a [`Duration`] can hold, in nanoseconds: `u64::MAX` whole
/// seconds and 999,999,999 nanoseconds.
pub const MAX_NANOS: u128 = 18_446_744_073_709_551_615_999_999_999;

/// A non-negative span of time, counted in whole nanoseconds.
///
/// The view of a duration is its length in nanoseconds. Every duration is at
/// most [`MAX_NANOS`] long, so that it can always be split into a number of
/// seconds that fits 64 bits and a remainder below one second.
#[derive(Clone, Copy, Debug, PartialEq, Eq, Structural)]
pub struct Duration {
    nanos: u128,
}

impl View for Duration {
    type V = nat;

    closed spec fn view(&self) -> nat {
        self.nanos as nat
    }
}

impl Duration {
    #[verifier::type_invariant]
    spec fn in_range(self) -> bool {
        self.nanos <= MAX_NANOS
    }

    /// The empty span.
    pub fn zero() -> (d: Duration)
        ensures
            d@ == 0,
    {
        Duration { nanos: 0 }
    }

    /// The span of `nanos` nanoseconds.
    pub fn from_nanos(nanos: u64) -> (d: Duration)
        ensures
            d@ == nanos,
    {
        Duration { nanos: nanos as u128 }
    }

    /// The span of `micros` microseconds.
    pub fn from_micros(micros: u64) -> (d: Duration)
        ensures
            d@ == micros * 1_000,
    {
        Duration { nanos: micros as u128 * NANOS_PER_MICRO }
    }

    /// The span of `millis` milliseconds.
    pub fn from_millis(millis: u64) -> (d: Duration)
        ensures
            d@ == millis * 1_000_000,
    {
        Duration { nanos: millis as u128 * NANOS_PER_MILLI }
    }

    /// The span of `secs` seconds.
    pub fn from_secs(secs: u64) -> (d: Duration)
        ensures
            d@ == secs * 1_000_000_000,
    {
        Duration { nanos: secs as u128 * NANOS_PER_SEC }
    }

    /// The span of `secs` seconds and `nanos` nanoseconds, where that is at
    /// most [`MAX_NANOS`] long.
    pub fn new(secs: u64, nanos: u32) -> (d: Option<Duration>)
        ensures
            d is Some <==> secs * 1_000_000_000 + nanos <= MAX_NANOS,
            d is Some ==> d->0@ == secs * 1_000_000_000 + nanos,
    {
        let total: u128 = secs as u128 * NANOS_PER_SEC + nanos as u128;
        if total <= MAX_NANOS {
            Some(Duration { nanos: total })
        } else {
            None
        }
    }

    /// The span of `nanos` nanoseconds, where that is at most [`MAX_NANOS`]
    /// long.
    pub fn try_from_nanos(nanos: u128) -> (d: Option<Duration>)
        ensures
            d is Some <==> nanos <= MAX_NANOS,
            d is Some ==> d->0@ == nanos,
    {
        if nanos <= MAX_NANOS {
            Some(Duration { nanos })
        } else {
            None
        }
    }

    /// The span of `nanos` nanoseconds.
    pub(crate) fn from_nanos_in_range(nanos: u128) -> (d: Duration)
        requires
            nanos <= MAX_NANOS,
        ensures
            d@ == nanos,
    {
        Duration { nanos }
    }

    /// The length of the span in nanoseconds.
    pub fn as_nanos(&self) -> (n: u128)
        ensures
            n == self@,
            n <= MAX_NANOS,
    {
        proof {
            use_type_invariant(self);
        }
        self.nanos
    }

    /// The whole milliseconds in the span.
    pub fn as_millis(&self) -> (n: u128)
        ensures
            n == self@ / 1_000_000,
    {
        self.nanos / NANOS_PER_MILLI
    }

    /// The whole seconds in the span.
    pub fn as_secs(&self) -> (n: u64)
        ensures
            n == self@ / 1_000_000_000,
    {
        proof {
            use_type_invariant(self);
        }
        (self.nanos / NANOS_PER_SEC) as u64
    }

    /// The part of the span below one second, in nanoseconds.
    pub fn subsec_nanos(&self) -> (n: u32)
        ensures
            n == self@ % 1_000_000_000,
    {
        (self.nanos % NANOS_PER_SEC) as u32
    }

    /// Whether this span is shorter than `other`.
    pub fn shorter_than(&self, other: &Duration) -> (b: bool)
        ensures
            b == (self@ < other@),
    {
        self.nanos < other.nanos
    }

    /// The two spans one after the other, where that is at most
    /// [`MAX_NANOS`] long.
    pub fn checked_add(&self, other: &Duration) -> (sum: Option<Duration>)
        ensures
            sum is Some <==> self@ + other@ <= MAX_NANOS,
            sum is Some ==> sum->0@ == self@ + other@,
    {
        proof {
            use_type_invariant(self);
            use_type_invariant(other);
        }
        let total: u128 = self.nanos + other.nanos;
        if total <= MAX_NANOS {
            Some(Duration { nanos: total })
        } else {
            None
        }
    }
}

/// The durations `ds` one after the other, in nanoseconds.
pub open spec fn total_nanos(ds: Seq<Duration>) -> nat
    decreases ds.len(),
{
    if ds.len() == 0 {
        0
    } else {
        total_nanos(ds.drop_last()) + ds.last()@
    }
}

/// The arithmetic mean of `ds` in whole nanoseconds, and 0 for no durations.
pub open spec fn mean_nanos(ds: Seq<Duration>) -> nat {
    if ds.len() == 0 {
        0
    } else {
        total_nanos(ds) / ds.len()
    }
}

/// The arithmetic mean of `durations`, cut off to whole nanoseconds; the
/// empty span where there are no durations.
pub fn mean(durations: &Vec<Duration>) -> (m: Duration)
    ensures
        m@ == mean_nanos(durations@),
{
    let len: usize = durations.len();
    if len == 0 {
        return Duration { nanos: 0 };
    }
    let n: u128 = len as u128;
    // The sum of the durations is `quotients * n + remainders`.
    let mut quotients: u128 = 0;
    let mut remainders: u128 = 0;
    let mut i: usize = 0;
    assert(durations@.take(0) =~= Seq::<Duration>::empty());
    while i < len
        invariant
            i <= len,
            len == durations.len(),
            n == len,
            n >= 1,
            quotients * n + remainders == total_nanos(durations@.take(i as int)),
            remainders <= i * (n - 1),
            total_nanos(durations@.take(i as int)) <= i * MAX_NANOS,
        decreases len - i,
    {
        let d: u128 = durations[i].as_nanos();
        let ghost before = total_nanos(durations@.take(i as int));
        proof {
            assert(durations@.take(i + 1).drop_last() =~= durations@.take(i as int));
            assert(durations@.take(i + 1).last() == durations@[i as int]);
            lemma_fundamental_div_mod(d as int, n as int);
            assert((quotients + d / n) * n + (remainders + d % n) == before + d)
                by (nonlinear_arith)
                requires
                    quotients * n + remainders == before,
                    d == n * (d / n) + (d % n),
            ;
            assert((before + d) <= (i + 1) * MAX_NANOS) by (nonlinear_arith)
                requires
                    before <= i * MAX_NANOS,
                    d <= MAX_NANOS,
            ;
            assert(quotients + d / n <= MAX_NANOS) by (nonlinear_arith)
                requires
                    (quotients + d / n) * n + (remainders + d % n) == before + d,
                    before + d <= (i + 1) * MAX_NANOS,
                    i + 1 <= n,
                    n >= 1,
                    0 <= remainders + d % n,
            ;
            assert(remainders + d % n <= (i + 1) * (n - 1)) by (nonlinear_arith)
                requires
                    remainders <= i * (n - 1),
                    d % n <= n - 1,
            ;
            assert((i + 1) * (n - 1) <= u128::MAX) by (nonlinear_arith)
                requires
                    i + 1 <= n,
                    1 <= n <= 0xffff_ffff_ffff_ffff,
            ;
        }
        quotients = quotients + d / n;
        remainders = remainders + d % n;
        i += 1;
    }
    proof {
        assert(durations@.take(len as int) =~= durations@);
        let total = total_nanos(durations@) as int;
        lemma_hoist_over_denominator(remainders as int, quotients as int, n as nat);
        assert(total == remainders + quotients * n);
        lemma_div_is_ordered(total, n * MAX_NANOS, n as int);
        lemma_div_multiples_vanish(MAX_NANOS as int, n as int);
    }
    Duration { nanos: quotients + remainders / n }
}

/// Two durations are the same value exactly if they are equally long.
pub proof fn lemma_duration_view_injective(a: Duration, b: Duration)
    requires
        a@ == b@,
    ensures
        a == b,
{
}

} // verus!
