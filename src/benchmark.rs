//! Benchmark results and the statistics of their wall-clock times.
use vstd::prelude::*;
use crate::natural::Natural;
use crate::quantity::{Byte, Second};

verus! {

/// The facts of one completed run.
#[derive(Clone, Copy, Debug)]
pub struct Measurement {
    pub time_wall_clock: Second,
    pub time_user: Second,
    pub time_system: Second,
    pub peak_memory_usage: Byte,
    pub exit_code: Option<i32>,
}

/// The runs of one command, in the order they were made.
#[derive(Clone, Debug)]
pub struct Measurements {
    pub measurements: Vec<Measurement>,
}

impl Measurements {
    pub fn new(measurements: Vec<Measurement>) -> (r: Measurements)
        ensures
            r.measurements@ == measurements@,
    {
        Measurements { measurements }
    }

    /// The wall-clock times of the runs, in nanoseconds.
    pub open spec fn wall_clock(&self) -> Seq<int> {
        wall_clock_times(self.measurements@)
    }

    /// The wall-clock times of the runs, in nanoseconds.
    pub fn wall_clock_nanos(&self) -> (r: Vec<u64>)
        ensures
            as_ints(r@) == self.wall_clock(),
    {
        let ms = &self.measurements;
        let mut r: Vec<u64> = Vec::new();
        let mut i: usize = 0;
        while i < ms.len()
            invariant
                i <= ms@.len(),
                r@ == ms@.subrange(0, i as int).map_values(|m: Measurement| m.time_wall_clock.nanos),
            decreases ms@.len() - i,
        {
            r.push(ms[i].time_wall_clock.nanos);
            i = i + 1;
            assert(r@ =~= ms@.subrange(0, i as int).map_values(
                |m: Measurement| m.time_wall_clock.nanos,
            ));
        }
        assert(ms@.subrange(0, i as int) =~= ms@);
        assert(as_ints(r@) =~= self.wall_clock());
        r
    }

    /// The user CPU times of the runs, in nanoseconds.
    pub fn user_nanos(&self) -> (r: Vec<u64>)
        ensures
            r@ == self.measurements@.map_values(|m: Measurement| m.time_user.nanos),
    {
        let ms = &self.measurements;
        let mut r: Vec<u64> = Vec::new();
        let mut i: usize = 0;
        while i < ms.len()
            invariant
                i <= ms@.len(),
                r@ == ms@.subrange(0, i as int).map_values(|m: Measurement| m.time_user.nanos),
            decreases ms@.len() - i,
        {
            r.push(ms[i].time_user.nanos);
            i = i + 1;
            assert(r@ =~= ms@.subrange(0, i as int).map_values(|m: Measurement| m.time_user.nanos));
        }
        assert(ms@.subrange(0, i as int) =~= ms@);
        r
    }

    /// The system CPU times of the runs, in nanoseconds.
    pub fn system_nanos(&self) -> (r: Vec<u64>)
        ensures
            r@ == self.measurements@.map_values(|m: Measurement| m.time_system.nanos),
    {
        let ms = &self.measurements;
        let mut r: Vec<u64> = Vec::new();
        let mut i: usize = 0;
        while i < ms.len()
            invariant
                i <= ms@.len(),
                r@ == ms@.subrange(0, i as int).map_values(|m: Measurement| m.time_system.nanos),
            decreases ms@.len() - i,
        {
            r.push(ms[i].time_system.nanos);
            i = i + 1;
            assert(r@ =~= ms@.subrange(0, i as int).map_values(|m: Measurement| m.time_system.nanos));
        }
        assert(ms@.subrange(0, i as int) =~= ms@);
        r
    }

    /// The peak memory usage of the runs, in bytes.
    pub fn memory_bytes(&self) -> (r: Vec<u64>)
        ensures
            r@ == self.measurements@.map_values(|m: Measurement| m.peak_memory_usage.bytes),
    {
        let ms = &self.measurements;
        let mut r: Vec<u64> = Vec::new();
        let mut i: usize = 0;
        while i < ms.len()
            invariant
                i <= ms@.len(),
                r@ == ms@.subrange(0, i as int).map_values(|m: Measurement| m.peak_memory_usage.bytes),
            decreases ms@.len() - i,
        {
            r.push(ms[i].peak_memory_usage.bytes);
            i = i + 1;
            assert(r@ =~= ms@.subrange(0, i as int).map_values(
                |m: Measurement| m.peak_memory_usage.bytes,
            ));
        }
        assert(ms@.subrange(0, i as int) =~= ms@);
        r
    }
}

pub open spec fn wall_clock_times(ms: Seq<Measurement>) -> Seq<int> {
    ms.map_values(|m: Measurement| m.time_wall_clock.nanos as int)
}

/// Plain values as integers.
pub open spec fn as_ints(xs: Seq<u64>) -> Seq<int> {
    xs.map_values(|x: u64| x as int)
}

/// One benchmarked command: its label, its runs and its parameters.
#[derive(Clone, Debug)]
pub struct BenchmarkResult {
    pub command: String,
    pub measurements: Measurements,
    pub parameters: Vec<(String, String)>,
}

/// The sum of a sequence.
pub open spec fn total(xs: Seq<int>) -> int
    decreases xs.len(),
{
    if xs.len() == 0 { 0 } else { total(xs.drop_last()) + xs.last() }
}

/// The sum of `(n * x - s)^2` over the sequence. With `n` its length and `s` its sum,
/// this is `n^2` times the sum of squared deviations from the mean.
pub open spec fn spread(xs: Seq<int>, n: int, s: int) -> int
    decreases xs.len(),
{
    if xs.len() == 0 {
        0
    } else {
        spread(xs.drop_last(), n, s) + (n * xs.last() - s) * (n * xs.last() - s)
    }
}

pub open spec fn least(xs: Seq<int>) -> int
    decreases xs.len(),
{
    if xs.len() <= 1 {
        xs[0]
    } else {
        let m = least(xs.drop_last());
        if xs.last() < m { xs.last() } else { m }
    }
}

pub open spec fn greatest(xs: Seq<int>) -> int
    decreases xs.len(),
{
    if xs.len() <= 1 {
        xs[0]
    } else {
        let m = greatest(xs.drop_last());
        if xs.last() > m { xs.last() } else { m }
    }
}

/// The exact statistics of a non-empty sequence of wall-clock times.
pub struct Summary {
    pub count: usize,
    pub total: Natural,
    pub spread: Natural,
    pub min: u64,
    pub max: u64,
}

impl Summary {
    /// Whether this summary describes the sequence `xs`.
    pub open spec fn describes(&self, xs: Seq<int>) -> bool {
        &&& xs.len() > 0
        &&& self.count == xs.len()
        &&& self.total@ == total(xs)
        &&& self.spread@ == spread(xs, xs.len() as int, total(xs))
        &&& self.min == least(xs)
        &&& self.max == greatest(xs)
    }
}

proof fn lemma_prefix_step(xs: Seq<int>, i: int)
    requires
        0 <= i < xs.len(),
    ensures
        xs.subrange(0, i + 1).drop_last() == xs.subrange(0, i),
        xs.subrange(0, i + 1).last() == xs[i],
{
    assert(xs.subrange(0, i + 1).drop_last() =~= xs.subrange(0, i));
}

pub proof fn lemma_total_nonneg(xs: Seq<int>)
    requires
        forall|k: int| 0 <= k < xs.len() ==> xs[k] >= 0,
    ensures
        total(xs) >= 0,
    decreases xs.len(),
{
    if xs.len() > 0 {
        lemma_total_nonneg(xs.drop_last());
    }
}

pub proof fn lemma_spread_nonneg(xs: Seq<int>, n: int, s: int)
    ensures
        spread(xs, n, s) >= 0,
    decreases xs.len(),
{
    if xs.len() > 0 {
        lemma_spread_nonneg(xs.drop_last(), n, s);
        let d = n * xs.last() - s;
        assert(d * d >= 0) by (nonlinear_arith);
    }
}

proof fn lemma_total_constant(xs: Seq<int>, c: int)
    requires
        forall|k: int| 0 <= k < xs.len() ==> xs[k] == c,
    ensures
        total(xs) == xs.len() * c,
    decreases xs.len(),
{
    if xs.len() > 0 {
        lemma_total_constant(xs.drop_last(), c);
        assert((xs.len() - 1) * c + c == xs.len() * c) by (nonlinear_arith);
    }
}

proof fn lemma_spread_constant(xs: Seq<int>, c: int, n: int, s: int)
    requires
        forall|k: int| 0 <= k < xs.len() ==> xs[k] == c,
        n * c == s,
    ensures
        spread(xs, n, s) == 0,
    decreases xs.len(),
{
    if xs.len() > 0 {
        assert(xs.last() == xs[xs.len() - 1]);
        lemma_spread_constant(xs.drop_last(), c, n, s);
        assert(n * xs.last() - s == 0);
    }
}

proof fn lemma_extremes(xs: Seq<int>)
    requires
        xs.len() > 0,
    ensures
        forall|k: int| 0 <= k < xs.len() ==> least(xs) <= #[trigger] xs[k] <= greatest(xs),
        xs.len() * least(xs) <= total(xs) <= xs.len() * greatest(xs),
    decreases xs.len(),
{
    if xs.len() > 1 {
        let ys = xs.drop_last();
        lemma_extremes(ys);
        let n = ys.len() as int;
        let (a, b, lo, hi) = (least(ys), greatest(ys), least(xs), greatest(xs));
        assert(n * lo <= n * a && n * b <= n * hi) by (nonlinear_arith)
            requires n >= 0, lo <= a, b <= hi;
        assert((n + 1) * lo == n * lo + lo && (n + 1) * hi == n * hi + hi) by (nonlinear_arith);
        assert forall|k: int| 0 <= k < xs.len() implies least(xs) <= #[trigger] xs[k] <= greatest(xs) by {
            if k < n {
                assert(xs[k] == ys[k]);
            }
        }
    } else {
        assert(xs.drop_last().len() == 0);
        assert(total(xs) == total(xs.drop_last()) + xs[0]);
    }
}

/// Of every non-empty sequence of times: the mean (the total over the length) lies
/// between the least and the greatest time; the spread, from which the standard
/// deviation is taken, is not negative; and it is zero when there is one time or
/// all times are equal.
pub proof fn law_summary_bounds(xs: Seq<int>)
    requires
        xs.len() > 0,
    ensures
        xs.len() * least(xs) <= total(xs) <= xs.len() * greatest(xs),
        spread(xs, xs.len() as int, total(xs)) >= 0,
        (xs.len() == 1 || (forall|k: int| 0 <= k < xs.len() ==> #[trigger] xs[k] == xs[0]))
            ==> spread(xs, xs.len() as int, total(xs)) == 0,
{
    lemma_extremes(xs);
    lemma_spread_nonneg(xs, xs.len() as int, total(xs));
    if xs.len() == 1 || (forall|k: int| 0 <= k < xs.len() ==> #[trigger] xs[k] == xs[0]) {
        assert forall|k: int| 0 <= k < xs.len() implies #[trigger] xs[k] == xs[0] by {
            if xs.len() == 1 {
                assert(k == 0);
            }
        }
        lemma_total_constant(xs, xs[0]);
        lemma_spread_constant(xs, xs[0], xs.len() as int, total(xs));
    }
}

/// Summarizes a non-empty sequence of values of one quantity (times in
/// nanoseconds, or memory in bytes).
pub fn summarize(ms: &Vec<u64>) -> (r: Summary)
    requires
        ms@.len() > 0,
    ensures
        r.describes(as_ints(ms@)),
{
    let ghost xs = as_ints(ms@);
    let n = ms.len();
    let mut sum = Natural::zero();
    let mut min: u64 = ms[0];
    let mut max: u64 = ms[0];
    let mut i: usize = 0;
    proof {
        assert(xs.subrange(0, 0) =~= Seq::<int>::empty());
    }
    while i < n
        invariant
            n == ms@.len(),
            xs == as_ints(ms@),
            n > 0,
            i <= n,
            sum@ == total(xs.subrange(0, i as int)),
            i > 0 ==> min == least(xs.subrange(0, i as int)),
            i > 0 ==> max == greatest(xs.subrange(0, i as int)),
            i == 0 ==> min == xs[0] && max == xs[0],
        decreases n - i,
    {
        let x = ms[i];
        proof {
            lemma_prefix_step(xs, i as int);
        }
        sum = sum.add(&Natural::from_u128(x as u128));
        if x < min {
            min = x;
        }
        if x > max {
            max = x;
        }
        i = i + 1;
    }
    proof {
        assert(xs.subrange(0, n as int) =~= xs);
        assert forall|k: int| 0 <= k < xs.len() implies xs[k] >= 0 by {}
        lemma_total_nonneg(xs);
    }
    let count = Natural::from_u128(n as u128);
    let mut acc = Natural::zero();
    let mut j: usize = 0;
    proof {
        assert(xs.subrange(0, 0) =~= Seq::<int>::empty());
    }
    while j < n
        invariant
            n == ms@.len(),
            xs == as_ints(ms@),
            j <= n,
            count@ == n,
            sum@ == total(xs),
            acc@ == spread(xs.subrange(0, j as int), n as int, total(xs)),
        decreases n - j,
    {
        let x = ms[j];
        let scaled = count.mul(&Natural::from_u128(x as u128));
        let diff = if scaled.ge(&sum) { scaled.sub(&sum) } else { sum.sub(&scaled) };
        let square = diff.mul(&diff);
        proof {
            lemma_prefix_step(xs, j as int);
            let d = n as int * x as int - total(xs);
            assert(diff@ * diff@ == d * d) by (nonlinear_arith)
                requires diff@ == d || diff@ == -d;
        }
        acc = acc.add(&square);
        j = j + 1;
    }
    proof {
        assert(xs.subrange(0, n as int) =~= xs);
    }
    Summary { count: n, total: sum, spread: acc, min, max }
}

} // verus!
