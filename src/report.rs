//! The rows of a report: unit resolution, the fastest result, and the text of each cell.
use vstd::prelude::*;
use crate::benchmark::{greatest, least, spread, summarize, total, BenchmarkResult, Summary};
use crate::decimal::{fixed, push_fixed};
use crate::natural::Natural;
use crate::quantity::{nanos_per, Unit};
use crate::rounding::{above_half, nearest, nearest_integer, LIMIT};

verus! {

/// Why a report could not be made.
#[derive(Clone, Copy, Debug, PartialEq, Eq, Structural)]
pub enum ExportError {
    /// A result has no measurements.
    EmptySampleSet,
    /// A result's mean wall-clock time is zero, so no ratio against it is defined.
    UndefinedRatio,
    /// A number of the report is too large to be shown.
    ValueTooLarge,
}

/// The wall-clock times of a result, in nanoseconds.
pub open spec fn times(r: BenchmarkResult) -> Seq<int> {
    r.measurements.wall_clock()
}

/// `max(n - 1, 1)`: the divisor of the sample variance, where a single sample has none.
pub open spec fn dof(n: int) -> int {
    if n > 1 { n - 1 } else { 1 }
}

/// The sample variance of `xs` is `spread / variance_den`.
pub open spec fn variance_den(xs: Seq<int>) -> int {
    xs.len() * xs.len() * dof(xs.len() as int)
}

/// The unit of a report: the one asked for, else seconds where the first result's
/// mean is at least one second, else milliseconds.
pub open spec fn resolved_unit(explicit: Option<Unit>, first: Seq<int>) -> Unit {
    match explicit {
        Some(u) => u,
        None => if total(first) >= 1_000_000_000 * first.len() { Unit::Second } else { Unit::MilliSecond },
    }
}

/// Whether the mean of `a` is below the mean of `b`.
pub open spec fn mean_below(a: Seq<int>, b: Seq<int>) -> bool {
    total(a) * b.len() < total(b) * a.len()
}

/// Whether result `b` has the least mean among the first `upto`, the first such.
pub open spec fn fastest_among(rs: Seq<BenchmarkResult>, b: int, upto: int) -> bool {
    &&& 0 <= b < upto
    &&& forall|j: int| 0 <= j < upto ==> !mean_below(#[trigger] times(rs[j]), times(rs[b]))
    &&& forall|j: int| 0 <= j < b ==> mean_below(times(rs[b]), #[trigger] times(rs[j]))
}

/// Whether result `b` is the baseline: the least mean, the first such.
pub open spec fn is_baseline(rs: Seq<BenchmarkResult>, b: int) -> bool {
    fastest_among(rs, b, rs.len() as int)
}

/// Whether `v < 10` in the unit, for `num / den` nanoseconds (or its square root).
pub open spec fn below_ten(num: int, den: int, root: bool, unit: Unit) -> bool {
    let u = nanos_per(unit) as int;
    if root { num < 100 * u * u * den } else { num < 10 * u * den }
}

pub open spec fn places_for(num: int, den: int, root: bool, unit: Unit) -> nat {
    if below_ten(num, den, root, unit) { 3 } else { 1 }
}

/// Nanoseconds per last shown digit.
pub open spec fn step_for(num: int, den: int, root: bool, unit: Unit) -> int {
    if below_ten(num, den, root, unit) {
        nanos_per(unit) as int / 1000
    } else {
        nanos_per(unit) as int / 10
    }
}

pub open spec fn scaled_den(num: int, den: int, root: bool, unit: Unit) -> int {
    let q = step_for(num, den, root, unit);
    if root { den * q * q } else { den * q }
}

/// The shown digits of `num / den` nanoseconds (or of its square root) in the unit.
pub open spec fn shown_digits(num: int, den: int, root: bool, unit: Unit) -> int {
    nearest(num, scaled_den(num, den, root, unit), root)
}

pub open spec fn shown_fits(num: int, den: int, root: bool, unit: Unit) -> bool {
    above_half(LIMIT as int, num, scaled_den(num, den, root, unit), root)
}

/// The text of a time in the unit: three decimals below ten, else one.
pub open spec fn shown(num: int, den: int, root: bool, unit: Unit) -> Seq<char> {
    fixed(shown_digits(num, den, root, unit) as nat, places_for(num, den, root, unit))
}

/// The mean, sample standard deviation, least and greatest time of a result, in
/// the report's unit.
pub open spec fn mean_text(xs: Seq<int>, unit: Unit) -> Seq<char> {
    shown(total(xs), xs.len() as int, false, unit)
}

pub open spec fn stddev_text(xs: Seq<int>, unit: Unit) -> Seq<char> {
    shown(spread(xs, xs.len() as int, total(xs)), variance_den(xs), true, unit)
}

pub open spec fn min_text(xs: Seq<int>, unit: Unit) -> Seq<char> {
    shown(least(xs), 1, false, unit)
}

pub open spec fn max_text(xs: Seq<int>, unit: Unit) -> Seq<char> {
    shown(greatest(xs), 1, false, unit)
}

pub open spec fn times_fit(xs: Seq<int>, unit: Unit) -> bool {
    &&& shown_fits(total(xs), xs.len() as int, false, unit)
    &&& shown_fits(spread(xs, xs.len() as int, total(xs)), variance_den(xs), true, unit)
    &&& shown_fits(least(xs), 1, false, unit)
    &&& shown_fits(greatest(xs), 1, false, unit)
}

/// The ratio of means `x / b` is `ratio_num / ratio_den`; in hundredths with the 100.
pub open spec fn ratio_num(x: Seq<int>, b: Seq<int>) -> int {
    100 * total(x) * b.len()
}

pub open spec fn ratio_den(x: Seq<int>, b: Seq<int>) -> int {
    x.len() * total(b)
}

/// The propagated uncertainty of the ratio, in hundredths, is the square root of
/// `ratio_error_num / ratio_error_den`:
/// `ratio * sqrt((s_x / m_x)^2 + (s_b / m_b)^2)`, with `m` a mean and `s` a
/// sample standard deviation. It treats both errors as independent and small,
/// a first-order approximation.
pub open spec fn ratio_error_num(x: Seq<int>, b: Seq<int>) -> int {
    let (nx, nb) = (x.len() as int, b.len() as int);
    let (sx, sb) = (total(x), total(b));
    10000 * nb * nb * (spread(x, nx, sx) * dof(nb) * sb * sb + sx * sx * spread(b, nb, sb) * dof(nx))
}

pub open spec fn ratio_error_den(x: Seq<int>, b: Seq<int>) -> int {
    let (nx, nb) = (x.len() as int, b.len() as int);
    let sb = total(b);
    nx * nx * dof(nx) * dof(nb) * sb * sb * sb * sb
}

pub open spec fn relative_fits(x: Seq<int>, b: Seq<int>) -> bool {
    &&& above_half(LIMIT as int, ratio_num(x, b), ratio_den(x, b), false)
    &&& above_half(LIMIT as int, ratio_error_num(x, b), ratio_error_den(x, b), true)
}

/// The relative cell: `1.00` for the baseline, else the ratio and its uncertainty,
/// both with two decimals.
pub open spec fn relative_text(x: Seq<int>, b: Seq<int>, baseline: bool) -> Seq<char> {
    if baseline {
        "1.00"@
    } else {
        fixed(nearest(ratio_num(x, b), ratio_den(x, b), false) as nat, 2) + " ± "@ + fixed(
            nearest(ratio_error_num(x, b), ratio_error_den(x, b), true) as nat,
            2,
        )
    }
}

/// The text of a row's five cells: command, mean with deviation, least, greatest, relative.
pub type Cells = (Seq<char>, Seq<char>, Seq<char>, Seq<char>, Seq<char>);

/// One row of a report, its cells as text.
#[derive(Clone, Debug)]
pub struct Row {
    pub command: String,
    pub mean: String,
    pub min: String,
    pub max: String,
    pub relative: String,
}

impl Row {
    pub open spec fn cells(&self) -> Cells {
        (self.command@, self.mean@, self.min@, self.max@, self.relative@)
    }
}

/// The cells of the row of result `r`, against the baseline `b`.
pub open spec fn row_cells(r: BenchmarkResult, b: BenchmarkResult, baseline: bool, unit: Unit) -> Cells {
    let x = times(r);
    (
        r.command@,
        mean_text(x, unit) + " ± "@ + stddev_text(x, unit),
        min_text(x, unit),
        max_text(x, unit),
        relative_text(x, times(b), baseline),
    )
}

pub open spec fn row_fits(r: BenchmarkResult, b: BenchmarkResult, baseline: bool, unit: Unit) -> bool {
    times_fit(times(r), unit) && (baseline || relative_fits(times(r), times(b)))
}

/// Appends a time in the unit, where it fits.
fn push_shown(out: &mut String, num: &Natural, den: &Natural, root: bool, unit: Unit) -> (ok: bool)
    requires
        den@ > 0,
    ensures
        ok == shown_fits(num@ as int, den@ as int, root, unit),
        ok ==> final(out)@ == old(out)@ + shown(num@ as int, den@ as int, root, unit),
{
    let u: u128 = match unit {
        Unit::Second => 1_000_000_000,
        Unit::MilliSecond => 1_000_000,
    };
    let bound = if root {
        Natural::from_u128(100 * u * u).mul(den)
    } else {
        Natural::from_u128(10 * u).mul(den)
    };
    let small = !num.ge(&bound);
    let places: u32 = if small { 3 } else { 1 };
    let q: u128 = if small { u / 1000 } else { u / 10 };
    let nq = Natural::from_u128(q);
    let scaled = if root { den.mul(&nq).mul(&nq) } else { den.mul(&nq) };
    proof {
        let (d, qq) = (den@ as int, q as int);
        assert(d * qq * qq > 0 && d * qq > 0) by (nonlinear_arith)
            requires d > 0, qq > 0;
    }
    match nearest_integer(num, &scaled, root) {
        Some(v) => {
            push_fixed(out, v, places);
            true
        },
        None => false,
    }
}

/// Summarizes every result; fails where one has no measurements.
pub fn summarize_all(rs: &Vec<BenchmarkResult>) -> (r: Result<Vec<Summary>, ExportError>)
    ensures
        match r {
            Ok(v) => v@.len() == rs@.len() && forall|i: int|
                0 <= i < rs@.len() ==> (#[trigger] v@[i]).describes(times(rs@[i])),
            Err(e) => e == ExportError::EmptySampleSet && exists|i: int|
                0 <= i < rs@.len() && (#[trigger] times(rs@[i])).len() == 0,
        },
        r.is_ok() <==> forall|i: int| 0 <= i < rs@.len() ==> (#[trigger] times(rs@[i])).len() > 0,
{
    let mut out: Vec<Summary> = Vec::new();
    let mut i: usize = 0;
    while i < rs.len()
        invariant
            i <= rs@.len(),
            out@.len() == i,
            forall|k: int| 0 <= k < i ==> (#[trigger] out@[k]).describes(times(rs@[k])),
            forall|k: int| 0 <= k < i ==> (#[trigger] times(rs@[k])).len() > 0,
        decreases rs@.len() - i,
    {
        if rs[i].measurements.measurements.len() == 0 {
            assert(times(rs@[i as int]).len() == 0);
            return Err(ExportError::EmptySampleSet);
        }
        let times = rs[i].measurements.wall_clock_nanos();
        assert(crate::benchmark::as_ints(times@).len() == times@.len());
        out.push(summarize(&times));
        i = i + 1;
    }
    Ok(out)
}

/// The row of result `r`, against the baseline `b`, where all its numbers can be shown.
pub fn make_row(
    r: &BenchmarkResult,
    s: &Summary,
    b: &BenchmarkResult,
    bs: &Summary,
    baseline: bool,
    unit: Unit,
) -> (row: Result<Row, ExportError>)
    requires
        s.describes(times(*r)),
        bs.describes(times(*b)),
        total(times(*b)) > 0,
    ensures
        row.is_ok() == row_fits(*r, *b, baseline, unit),
        match row {
            Ok(row) => row.cells() == row_cells(*r, *b, baseline, unit),
            Err(e) => e == ExportError::ValueTooLarge,
        },
{
    let ghost x = times(*r);
    let ghost xb = times(*b);
    let divisor: u128 = if s.count > 1 { (s.count - 1) as u128 } else { 1 };
    let divisor_b: u128 = if bs.count > 1 { (bs.count - 1) as u128 } else { 1 };
    let n = Natural::from_u128(s.count as u128);
    let nb = Natural::from_u128(bs.count as u128);
    let one = Natural::from_u128(1);
    let var_den = n.mul(&n).mul(&Natural::from_u128(divisor));
    proof {
        let k = s.count as int;
        assert(k * k * dof(k) > 0) by (nonlinear_arith)
            requires k > 0, dof(k) > 0;
    }
    let mut mean = String::new();
    let mut min = String::new();
    let mut max = String::new();
    let fits = push_shown(&mut mean, &s.total, &n, false, unit);
    if !fits {
        return Err(ExportError::ValueTooLarge);
    }
    mean.append(" ± ");
    let fits = push_shown(&mut mean, &s.spread, &var_den, true, unit);
    if !fits {
        return Err(ExportError::ValueTooLarge);
    }
    let fits = push_shown(&mut min, &Natural::from_u128(s.min as u128), &one, false, unit);
    if !fits {
        return Err(ExportError::ValueTooLarge);
    }
    let fits = push_shown(&mut max, &Natural::from_u128(s.max as u128), &one, false, unit);
    if !fits {
        return Err(ExportError::ValueTooLarge);
    }
    let mut relative = String::new();
    if baseline {
        relative.append("1.00");
    } else {
        let ratio_num = Natural::from_u128(100).mul(&s.total).mul(&nb);
        let ratio_den = n.mul(&bs.total);
        let sb2 = bs.total.mul(&bs.total);
        let left = s.spread.mul(&Natural::from_u128(divisor_b)).mul(&sb2);
        let right = s.total.mul(&s.total).mul(&bs.spread).mul(&Natural::from_u128(divisor));
        let err_num = Natural::from_u128(10000).mul(&nb).mul(&nb).mul(&left.add(&right));
        let err_den = n.mul(&n).mul(&Natural::from_u128(divisor)).mul(&Natural::from_u128(divisor_b))
            .mul(&bs.total).mul(&bs.total).mul(&bs.total).mul(&bs.total);
        proof {
            let (k, kb, t) = (s.count as int, bs.count as int, total(xb));
            assert(k * t > 0) by (nonlinear_arith)
                requires k > 0, t > 0;
            assert(k * k * dof(k) * dof(kb) * t * t * t * t > 0) by (nonlinear_arith)
                requires k > 0, t > 0, dof(k) > 0, dof(kb) > 0;
            assert(left@ + right@ == spread(x, k, total(x)) * dof(kb) * t * t
                + total(x) * total(x) * spread(xb, kb, t) * dof(k)) by (nonlinear_arith)
                requires
                    left@ == spread(x, k, total(x)) * dof(kb) * (t * t),
                    right@ == total(x) * total(x) * spread(xb, kb, t) * dof(k);
        }
        let ratio = nearest_integer(&ratio_num, &ratio_den, false);
        let error = nearest_integer(&err_num, &err_den, true);
        match (ratio, error) {
            (Some(q), Some(e)) => {
                push_fixed(&mut relative, q, 2);
                relative.append(" ± ");
                push_fixed(&mut relative, e, 2);
            },
            _ => {
                return Err(ExportError::ValueTooLarge);
            },
        }
    }
    let row = Row { command: r.command.clone(), mean, min, max, relative };
    assert(row.cells() == row_cells(*r, *b, baseline, unit));
    Ok(row)
}

} // verus!
