//! Running minimum, maximum, total and count of a station's readings.
//!
//! Readings are integers, in tenths of a degree. What a summary holds after
//! a sequence of readings is given by [`stats_of`].

use vstd::prelude::*;
use vstd::arithmetic::mul::{lemma_mul_inequality, lemma_mul_is_commutative};
use vstd::arithmetic::div_mod::lemma_fundamental_div_mod;

verus! {

/// Every reading lies within `i32`.
pub open spec fn in_range(readings: Seq<int>) -> bool {
    forall|i: int| 0 <= i < readings.len() ==> i32::MIN <= #[trigger] readings[i] <= i32::MAX
}

/// The sum of the readings.
pub open spec fn sum(readings: Seq<int>) -> int
    decreases readings.len(),
{
    if readings.len() == 0 {
        0
    } else {
        sum(readings.drop_last()) + readings.last()
    }
}

/// The least reading; `i32::MAX` stands in while there is none.
pub open spec fn least(readings: Seq<int>) -> int
    decreases readings.len(),
{
    if readings.len() == 0 {
        i32::MAX as int
    } else if readings.last() < least(readings.drop_last()) {
        readings.last()
    } else {
        least(readings.drop_last())
    }
}

/// The greatest reading; `i32::MIN` stands in while there is none.
pub open spec fn greatest(readings: Seq<int>) -> int
    decreases readings.len(),
{
    if readings.len() == 0 {
        i32::MIN as int
    } else if readings.last() > greatest(readings.drop_last()) {
        readings.last()
    } else {
        greatest(readings.drop_last())
    }
}

/// `least` and `greatest` bound every reading, and each is one of the
/// readings.
pub proof fn lemma_extremes(readings: Seq<int>)
    requires
        in_range(readings),
    ensures
        forall|i: int| 0 <= i < readings.len() ==> least(readings) <= #[trigger] readings[i],
        forall|i: int| 0 <= i < readings.len() ==> #[trigger] readings[i] <= greatest(readings),
        readings.len() > 0 ==> readings.contains(least(readings)),
        readings.len() > 0 ==> readings.contains(greatest(readings)),
        i32::MIN <= least(readings) <= i32::MAX,
        i32::MIN <= greatest(readings) <= i32::MAX,
    decreases readings.len(),
{
    if readings.len() > 0 {
        let front = readings.drop_last();
        lemma_extremes(front);
        assert forall|i: int| 0 <= i < readings.len() implies least(readings)
            <= #[trigger] readings[i] && readings[i] <= greatest(readings) by {
            if i < front.len() {
                assert(front[i] == readings[i]);
            }
        }
        let n = readings.len() - 1;
        assert(readings[n] == readings.last());
        if front.len() > 0 {
            let i = choose|i: int| 0 <= i < front.len() && front[i] == least(front);
            assert(readings[i] == least(front));
            let j = choose|j: int| 0 <= j < front.len() && front[j] == greatest(front);
            assert(readings[j] == greatest(front));
        }
    }
}

/// The sum lies between the count times the least and the count times the
/// greatest reading.
pub proof fn lemma_sum_bounds(readings: Seq<int>)
    requires
        in_range(readings),
    ensures
        readings.len() * least(readings) <= sum(readings) <= readings.len() * greatest(readings),
    decreases readings.len(),
{
    if readings.len() > 0 {
        let front = readings.drop_last();
        let n = front.len() as int;
        lemma_sum_bounds(front);
        lemma_extremes(front);
        lemma_extremes(readings);
        assert(n * least(readings) <= n * least(front)) by {
            lemma_mul_inequality(least(readings), least(front), n);
            lemma_mul_is_commutative(n, least(readings));
            lemma_mul_is_commutative(n, least(front));
        }
        assert(n * greatest(front) <= n * greatest(readings)) by {
            lemma_mul_inequality(greatest(front), greatest(readings), n);
            lemma_mul_is_commutative(n, greatest(readings));
            lemma_mul_is_commutative(n, greatest(front));
        }
        assert((n + 1) * least(readings) == n * least(readings) + least(readings))
            by (nonlinear_arith);
        assert((n + 1) * greatest(readings) == n * greatest(readings) + greatest(readings))
            by (nonlinear_arith);
    }
}

/// The figures kept for a sequence of readings.
pub struct Stats {
    pub min: int,
    pub max: int,
    pub total: int,
    pub count: nat,
}

impl Stats {
    /// The figures after one more reading.
    pub open spec fn with(self, reading: int) -> Stats {
        Stats {
            min: if reading < self.min { reading } else { self.min },
            max: if reading > self.max { reading } else { self.max },
            total: self.total + reading,
            count: self.count + 1,
        }
    }

    /// The mean rounded to the nearest tenth, halves up: the floor of
    /// `(total + count / 2) / count`.
    pub open spec fn mean(self) -> int
        recommends
            self.count > 0,
    {
        (self.total + self.count / 2) / (self.count as int)
    }

    /// The figures fit together: before any reading the minimum is
    /// `i32::MAX`, the maximum `i32::MIN` and the total 0; from the first
    /// reading on the minimum is no more than the maximum, and the total lies
    /// between the count times the one and the count times the other.
    pub open spec fn consistent(self) -> bool {
        if self.count == 0 {
            self.min == i32::MAX && self.max == i32::MIN && self.total == 0
        } else {
            &&& i32::MIN <= self.min <= self.max <= i32::MAX
            &&& self.count * self.min <= self.total <= self.count * self.max
        }
    }
}

/// The figures of `readings`: the least, the greatest, the sum and the
/// number of them.
pub open spec fn stats_of(readings: Seq<int>) -> Stats {
    Stats {
        min: least(readings),
        max: greatest(readings),
        total: sum(readings),
        count: readings.len(),
    }
}

/// One more reading at the end of the sequence is one more reading taken.
pub proof fn lemma_stats_push(readings: Seq<int>, reading: int)
    ensures
        stats_of(readings.push(reading)) == stats_of(readings).with(reading),
{
    assert(readings.push(reading).drop_last() =~= readings);
}

/// The figures of readings that lie within `i32` fit together.
pub proof fn lemma_stats_consistent(readings: Seq<int>)
    requires
        in_range(readings),
    ensures
        stats_of(readings).consistent(),
{
    lemma_extremes(readings);
    lemma_sum_bounds(readings);
    if readings.len() > 0 {
        assert(readings[0] >= least(readings));
        assert(readings[0] <= greatest(readings));
    }
}

/// The rounded mean of at least one reading lies between the least and the
/// greatest of them.
pub proof fn lemma_mean_within_extremes(readings: Seq<int>)
    requires
        in_range(readings),
        readings.len() > 0,
    ensures
        least(readings) <= stats_of(readings).mean() <= greatest(readings),
{
    let n = readings.len() as int;
    let lo = least(readings);
    let hi = greatest(readings);
    let x = sum(readings) + n / 2;
    lemma_sum_bounds(readings);
    lemma_fundamental_div_mod(x, n);
    let q = x / n;
    let r = x % n;
    assert(lo <= q) by (nonlinear_arith)
        requires
            n > 0,
            n * lo <= n * q + r,
            r < n,
    ;
    assert(q <= hi) by (nonlinear_arith)
        requires
            n > 0,
            n * q + r < n * hi + n,
            0 <= r,
    ;
}

/// Minimum, maximum, total and count of the readings of one station, all in
/// tenths of a degree.
///
/// The total is kept in 64 bits: with at most `u32::MAX` readings of 32 bits
/// each it cannot overflow.
#[derive(Clone, Copy, Debug, PartialEq, Eq)]
pub struct TemperatureSummary {
    min: i32,
    max: i32,
    total: i64,
    count: u32,
}

impl View for TemperatureSummary {
    type V = Stats;

    closed spec fn view(&self) -> Stats {
        Stats {
            min: self.min as int,
            max: self.max as int,
            total: self.total as int,
            count: self.count as nat,
        }
    }
}

impl TemperatureSummary {
    #[verifier::type_invariant]
    pub(crate) open spec fn well_formed(self) -> bool {
        self@.consistent()
    }

    /// A summary of no readings: the minimum starts at `i32::MAX` and the
    /// maximum at `i32::MIN`, so that the first reading sets both.
    pub fn new() -> (s: Self)
        ensures
            s@ == stats_of(Seq::empty()),
    {
        TemperatureSummary { min: i32::MAX, max: i32::MIN, total: 0, count: 0 }
    }

    /// Number of readings taken.
    pub fn count(&self) -> (n: u32)
        ensures
            n == self@.count,
            self@.consistent(),
    {
        proof {
            use_type_invariant(self);
        }
        self.count
    }

    /// Sum of the readings taken, in tenths.
    pub fn total(&self) -> (t: i64)
        ensures
            t == self@.total,
            self@.consistent(),
    {
        proof {
            use_type_invariant(self);
        }
        self.total
    }

    /// Takes one more reading.
    pub fn add_reading(&mut self, reading: i32)
        requires
            old(self)@.count < u32::MAX,
        ensures
            final(self)@ == old(self)@.with(reading as int),
            final(self)@.consistent(),
    {
        let min = if reading < self.min { reading } else { self.min };
        let max = if reading > self.max { reading } else { self.max };
        proof {
            use_type_invariant(&*self);
            let n = self.count as int;
            assert(n * min <= n * self.min && n * self.max <= n * max) by (nonlinear_arith)
                requires
                    0 <= n,
                    min <= self.min,
                    self.max <= max,
            ;
            assert((n + 1) * min == n * min + min && (n + 1) * max == n * max + max)
                by (nonlinear_arith);
            assert(n * (i32::MIN as int) <= n * self.min && n * self.max <= n * (i32::MAX as int)
                && (u32::MAX - 1) * (i32::MIN as int) <= n * (i32::MIN as int) && n * (
            i32::MAX as int) <= (u32::MAX - 1) * (i32::MAX as int)) by (nonlinear_arith)
                requires
                    0 <= n <= u32::MAX - 1,
                    i32::MIN <= self.min,
                    self.max <= i32::MAX,
            ;
        }
        *self = TemperatureSummary {
            min,
            max,
            total: self.total + reading as i64,
            count: self.count + 1,
        };
    }

    /// The least reading, in tenths.
    pub fn min(&self) -> (t: i32)
        ensures
            t == self@.min,
            self@.consistent(),
    {
        proof {
            use_type_invariant(self);
        }
        self.min
    }

    /// The greatest reading, in tenths.
    pub fn max(&self) -> (t: i32)
        ensures
            t == self@.max,
            self@.consistent(),
    {
        proof {
            use_type_invariant(self);
        }
        self.max
    }

    /// The mean reading, in tenths, rounded to the nearest tenth with halves
    /// up. It lies between the least and the greatest reading.
    pub fn avg(&self) -> (t: i32)
        requires
            self@.count > 0,
        ensures
            t == self@.mean(),
            self@.min <= t <= self@.max,
    {
        proof {
            use_type_invariant(self);
            let n = self.count as int;
            let x = self.total + n / 2;
            lemma_fundamental_div_mod(x, n);
            let q = x / n;
            let r = x % n;
            assert(self.min <= q) by (nonlinear_arith)
                requires
                    n > 0,
                    n * self.min <= n * q + r,
                    r < n,
            ;
            assert(q <= self.max) by (nonlinear_arith)
                requires
                    n > 0,
                    n * q + r < n * self.max + n,
                    0 <= r,
            ;
            assert(n * (i32::MIN as int) <= n * self.min && n * self.max <= n * (i32::MAX as int)
                && u32::MAX * (i32::MIN as int) <= n * (i32::MIN as int) && n * (i32::MAX as int)
                <= u32::MAX * (i32::MAX as int)) by (nonlinear_arith)
                requires
                    0 <= n <= u32::MAX,
                    i32::MIN <= self.min,
                    self.max <= i32::MAX,
            ;
        }
        let rounded_total = self.total + (self.count / 2) as i64;
        rounded_total.checked_div_euclid(self.count as i64).unwrap() as i32
    }
}

impl Default for TemperatureSummary {
    /// A summary of no readings.
    fn default() -> (s: Self)
        ensures
            s@ == stats_of(Seq::empty()),
    {
        TemperatureSummary::new()
    }
}

} // verus!
