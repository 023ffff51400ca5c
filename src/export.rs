//! Exporting a set of benchmark results as a table.
use vstd::prelude::*;
use crate::benchmark::{total, BenchmarkResult, Summary};
use crate::decimal::fixed;
use crate::natural::Natural;
use crate::order::{
    baseline_index, input_order, lemma_mean_below_chain, lemma_mean_order_unique, mean_order,
    sorted_by_mean, summarizes,
};
use crate::quantity::Unit;
use crate::report::{
    fastest_among, is_baseline, make_row, mean_below, ratio_den, ratio_num, relative_text,
    resolved_unit, row_cells, row_fits, summarize_all, times, Cells, ExportError, Row,
};
use crate::rounding::nearest;
use crate::table::{cells_of, render, table_text, Format};

verus! {

/// The order in which rows are shown.
#[derive(Clone, Copy, Debug, PartialEq, Eq, Structural)]
pub enum SortOrder {
    /// The order of the input.
    Command,
    /// Ascending mean wall-clock time; ties keep the order of the input.
    MeanTime,
}

/// The baseline result of a non-empty set.
pub open spec fn baseline(rs: Seq<BenchmarkResult>) -> int {
    choose|b: int| is_baseline(rs, b)
}

/// The unit of the report on `rs`.
pub open spec fn report_unit(rs: Seq<BenchmarkResult>, explicit: Option<Unit>) -> Unit {
    if rs.len() == 0 {
        match explicit {
            Some(u) => u,
            None => Unit::Second,
        }
    } else {
        resolved_unit(explicit, times(rs[0]))
    }
}

pub open spec fn row_order(rs: Seq<BenchmarkResult>, sort: SortOrder) -> Seq<usize> {
    match sort {
        SortOrder::Command => input_order(rs.len()),
        SortOrder::MeanTime => mean_order(rs),
    }
}

/// The cells of the rows of the report, in the order shown.
pub open spec fn report_rows(rs: Seq<BenchmarkResult>, explicit: Option<Unit>, sort: SortOrder) -> Seq<Cells> {
    let b = baseline(rs);
    let unit = report_unit(rs, explicit);
    row_order(rs, sort).map_values(|i: usize| row_cells(rs[i as int], rs[b], i == b, unit))
}

/// What exporting `rs` gives: the first error that applies, else the table.
pub open spec fn export_outcome(
    format: Format,
    rs: Seq<BenchmarkResult>,
    explicit: Option<Unit>,
    sort: SortOrder,
) -> Result<Seq<char>, ExportError> {
    let b = baseline(rs);
    let unit = report_unit(rs, explicit);
    if exists|i: int| 0 <= i < rs.len() && (#[trigger] times(rs[i])).len() == 0 {
        Err(ExportError::EmptySampleSet)
    } else if exists|i: int| 0 <= i < rs.len() && total(#[trigger] times(rs[i])) == 0 {
        Err(ExportError::UndefinedRatio)
    } else if exists|i: int| 0 <= i < rs.len() && !row_fits(#[trigger] rs[i], rs[b], i == b, unit) {
        Err(ExportError::ValueTooLarge)
    } else {
        Ok(table_text(format, report_rows(rs, explicit, sort), unit))
    }
}

/// The relative cell of result `i`'s row, in a report in unit `u`.
pub open spec fn relative_cell(rs: Seq<BenchmarkResult>, i: int, u: Unit) -> Seq<char> {
    let b = baseline(rs);
    row_cells(rs[i], rs[b], i == b, u).4
}

proof fn lemma_fixed_two_long(r: nat)
    ensures
        fixed(r, 2).len() >= 4,
{
    reveal_with_fuel(crate::decimal::padded, 3);
    reveal_with_fuel(crate::decimal::pow10, 3);
}

/// Two baselines of one set are the same result.
pub proof fn lemma_baseline_unique(rs: Seq<BenchmarkResult>, a: int, c: int)
    requires
        is_baseline(rs, a),
        is_baseline(rs, c),
    ensures
        a == c,
{
    if a < c {
        assert(mean_below(times(rs[c]), times(rs[a])));
    } else if c < a {
        assert(mean_below(times(rs[a]), times(rs[c])));
    }
}

proof fn lemma_fastest_exists(rs: Seq<BenchmarkResult>, upto: int)
    requires
        1 <= upto <= rs.len(),
        forall|i: int| 0 <= i < rs.len() ==> (#[trigger] times(rs[i])).len() > 0,
    ensures
        exists|b: int| #[trigger] fastest_among(rs, b, upto),
    decreases upto,
{
    if upto == 1 {
        assert(fastest_among(rs, 0, 1));
    } else {
        lemma_fastest_exists(rs, upto - 1);
        let b = choose|b: int| #[trigger] fastest_among(rs, b, upto - 1);
        let i = upto - 1;
        if mean_below(times(rs[i]), times(rs[b])) {
            assert forall|j: int| 0 <= j < i implies mean_below(times(rs[i]), #[trigger] times(rs[j])) by {
                lemma_mean_below_chain(times(rs[i]), times(rs[b]), times(rs[j]));
            }
            assert(fastest_among(rs, i, upto));
        } else {
            assert(fastest_among(rs, b, upto));
        }
    }
}

/// Of every non-empty set of results, each with measurements, exactly one is the
/// baseline; the relative cell of a row is `1.00`, with no uncertainty, exactly when
/// its result is the baseline, and every other row shows a ratio with its
/// uncertainty.
pub proof fn law_one_baseline(rs: Seq<BenchmarkResult>)
    requires
        rs.len() > 0,
        forall|i: int| 0 <= i < rs.len() ==> (#[trigger] times(rs[i])).len() > 0,
    ensures
        is_baseline(rs, baseline(rs)),
        forall|a: int| #[trigger] is_baseline(rs, a) ==> a == baseline(rs),
        forall|i: int, u: Unit|
            0 <= i < rs.len() ==> (#[trigger] relative_cell(rs, i, u) == "1.00"@ <==> i
                == baseline(rs)),
{
    lemma_fastest_exists(rs, rs.len() as int);
    let w = choose|w: int| #[trigger] fastest_among(rs, w, rs.len() as int);
    assert(is_baseline(rs, w));
    let b = baseline(rs);
    assert(is_baseline(rs, b));
    assert forall|a: int| #[trigger] is_baseline(rs, a) implies a == b by {
        lemma_baseline_unique(rs, a, b);
    }
    assert forall|i: int, u: Unit|
        0 <= i < rs.len() implies (#[trigger] relative_cell(rs, i, u) == "1.00"@ <==> i == b) by {
        if i != b {
            let (x, y) = (times(rs[i]), times(rs[b]));
            lemma_fixed_two_long(nearest(ratio_num(x, y), ratio_den(x, y), false) as nat);
            reveal_strlit("1.00");
            reveal_strlit(" ± ");
            assert(relative_text(x, y, false).len() > 4);
        }
    }
}

/// The sort order changes only the order of the rows: the row shown at place `k`
/// when sorted by mean (`p`) is the row of result `p[k]` in input order, with the
/// same unit, baseline and numbers.
pub proof fn law_sort_only_reorders(
    rs: Seq<BenchmarkResult>,
    explicit: Option<Unit>,
    p: Seq<usize>,
    k: int,
)
    requires
        crate::order::is_mean_order(rs, p),
        0 <= k < rs.len(),
    ensures
        report_rows(rs, explicit, SortOrder::MeanTime).len() == rs.len(),
        report_rows(rs, explicit, SortOrder::Command).len() == rs.len(),
        report_rows(rs, explicit, SortOrder::MeanTime)[k]
            == report_rows(rs, explicit, SortOrder::Command)[p[k] as int],
{
    lemma_mean_order_unique(rs, p);
}

/// Exporting is deterministic: the outcome, table text or error, is a function of
/// the format, the results, the unit asked for and the sort order, so two exports of
/// the same input give the same text.
pub proof fn law_export_deterministic(
    format: Format,
    rs: Seq<BenchmarkResult>,
    explicit: Option<Unit>,
    sort: SortOrder,
    first: Result<Seq<char>, ExportError>,
    second: Result<Seq<char>, ExportError>,
)
    requires
        first == export_outcome(format, rs, explicit, sort),
        second == export_outcome(format, rs, explicit, sort),
    ensures
        first == second,
{
}

/// The unit of a report: the one asked for, else the one that suits the mean of
/// the reference result (the first one listed).
pub fn resolve_unit(explicit: Option<Unit>, reference: &Summary) -> (u: Unit)
    ensures
        u == match explicit {
            Some(e) => e,
            None => if reference.total@ >= 1_000_000_000 * reference.count {
                Unit::Second
            } else {
                Unit::MilliSecond
            },
        },
{
    match explicit {
        Some(e) => e,
        None => {
            let second = Natural::from_u128(1_000_000_000 * reference.count as u128);
            if reference.total.ge(&second) {
                Unit::Second
            } else {
                Unit::MilliSecond
            }
        },
    }
}

fn identity_order(n: usize) -> (p: Vec<usize>)
    ensures
        p@ == input_order(n as nat),
{
    let mut p: Vec<usize> = Vec::new();
    let mut i: usize = 0;
    while i < n
        invariant
            i <= n,
            p@ == input_order(i as nat),
        decreases n - i,
    {
        p.push(i);
        i = i + 1;
        assert(p@ =~= input_order(i as nat));
    }
    p
}

/// Whether every result's mean is above zero.
fn check_means(results: &Vec<BenchmarkResult>, sums: &Vec<Summary>) -> (ok: bool)
    requires
        summarizes(sums@, results@),
    ensures
        ok == forall|k: int| 0 <= k < results@.len() ==> total(#[trigger] times(results@[k])) != 0,
{
    let ghost rs = results@;
    let n = sums.len();
    let one = Natural::from_u128(1);
    let mut i: usize = 0;
    while i < n
        invariant
            n == rs.len(),
            summarizes(sums@, rs),
            rs == results@,
            one@ == 1,
            i <= n,
            forall|k: int| 0 <= k < i ==> total(#[trigger] times(rs[k])) != 0,
        decreases n - i,
    {
        assert(sums@[i as int].describes(times(rs[i as int])));
        if !sums[i].total.ge(&one) {
            assert(total(times(results@[i as int])) == 0);
            assert(!(forall|k: int| 0 <= k < results@.len() ==> total(#[trigger] times(results@[k])) != 0));
            return false;
        }
        i = i + 1;
    }
    true
}

/// The rows of the results listed in `order`, against the baseline `b`.
fn build_rows(
    results: &Vec<BenchmarkResult>,
    sums: &Vec<Summary>,
    order: &Vec<usize>,
    b: usize,
    unit: Unit,
) -> (r: Result<Vec<Row>, ExportError>)
    requires
        summarizes(sums@, results@),
        forall|j: int| 0 <= j < order@.len() ==> #[trigger] order@[j] < results@.len(),
        b < results@.len(),
        total(times(results@[b as int])) > 0,
    ensures
        match r {
            Ok(rows) => {
                &&& cells_of(rows@) == order@.map_values(
                    |i: usize| row_cells(results@[i as int], results@[b as int], i == b, unit),
                )
                &&& forall|j: int| 0 <= j < order@.len() ==> row_fits(
                    results@[#[trigger] order@[j] as int],
                    results@[b as int],
                    order@[j] == b,
                    unit,
                )
            },
            Err(e) => e == ExportError::ValueTooLarge && exists|j: int|
                0 <= j < order@.len() && !row_fits(
                    results@[#[trigger] order@[j] as int],
                    results@[b as int],
                    order@[j] == b,
                    unit,
                ),
        },
{
    let ghost rs = results@;
    let ghost want = order@.map_values(|i: usize| row_cells(rs[i as int], rs[b as int], i == b, unit));
    assert(sums@[b as int].describes(times(rs[b as int])));
    let mut rows: Vec<Row> = Vec::new();
    let mut k: usize = 0;
    while k < order.len()
        invariant
            summarizes(sums@, rs),
            rs == results@,
            want == order@.map_values(|i: usize| row_cells(rs[i as int], rs[b as int], i == b, unit)),
            forall|j: int| 0 <= j < order@.len() ==> #[trigger] order@[j] < rs.len(),
            b < rs.len(),
            sums@[b as int].describes(times(rs[b as int])),
            total(times(rs[b as int])) > 0,
            k <= order@.len(),
            rows@.len() == k,
            forall|j: int| 0 <= j < k ==> row_fits(
                rs[#[trigger] order@[j] as int],
                rs[b as int],
                order@[j] == b,
                unit,
            ),
            cells_of(rows@) == want.subrange(0, k as int),
        decreases order@.len() - k,
    {
        let i = order[k];
        assert(i < rs.len());
        assert(sums@[i as int].describes(times(rs[i as int])));
        match make_row(&results[i], &sums[i], &results[b], &sums[b], i == b, unit) {
            Ok(row) => {
                rows.push(row);
                assert(cells_of(rows@) =~= want.subrange(0, k + 1));
            },
            Err(e) => {
                assert(!row_fits(rs[order@[k as int] as int], rs[b as int], order@[k as int] == b, unit));
                return Err(e);
            },
        }
        k = k + 1;
    }
    assert(cells_of(rows@) =~= want);
    Ok(rows)
}

/// Exports the results as a table in the format: rows in the sort order, times in
/// the unit asked for or resolved from the first result.
pub fn get_output(
    format: Format,
    results: &Vec<BenchmarkResult>,
    unit: Option<Unit>,
    sort_order: SortOrder,
) -> (r: Result<String, ExportError>)
    ensures
        match r {
            Ok(text) => export_outcome(format, results@, unit, sort_order) == Ok::<Seq<char>, ExportError>(text@),
            Err(e) => export_outcome(format, results@, unit, sort_order) == Err::<Seq<char>, ExportError>(e),
        },
{
    let ghost rs = results@;
    let sums = match summarize_all(results) {
        Ok(s) => s,
        Err(e) => {
            return Err(e);
        },
    };
    assert(summarizes(sums@, rs));
    if !check_means(results, &sums) {
        return Err(ExportError::UndefinedRatio);
    }
    let n = results.len();
    if n == 0 {
        let u = match unit {
            Some(u) => u,
            None => Unit::Second,
        };
        let rows: Vec<Row> = Vec::new();
        proof {
            assert(crate::order::is_mean_order(rs, Seq::<usize>::empty()));
            assert(report_rows(rs, unit, sort_order) =~= cells_of(rows@));
        }
        return Ok(render(format, &rows, u));
    }
    assert(sums@[0].describes(times(rs[0])));
    let resolved = resolve_unit(unit, &sums[0]);
    let b = baseline_index(results, &sums);
    proof {
        assert(is_baseline(rs, baseline(rs)));
        lemma_baseline_unique(rs, b as int, baseline(rs));
        assert(sums@[b as int].describes(times(rs[b as int])));
        assert(total(times(rs[b as int])) != 0);
    }
    let order = match sort_order {
        SortOrder::Command => identity_order(n),
        SortOrder::MeanTime => sorted_by_mean(results, &sums),
    };
    assert(order@ == row_order(rs, sort_order));
    assert forall|j: usize| j < n implies #[trigger] order@.contains(j) by {
        if sort_order == SortOrder::Command {
            assert(order@[j as int] == j);
        }
    }
    assert forall|j: int| 0 <= j < order@.len() implies #[trigger] order@[j] < n by {
        if sort_order == SortOrder::Command {
            assert(order@[j] == j);
        }
    }
    match build_rows(results, &sums, &order, b, resolved) {
        Ok(rows) => {
            proof {
                assert forall|j: int| 0 <= j < rs.len() implies row_fits(
                    #[trigger] rs[j],
                    rs[b as int],
                    j == b,
                    resolved,
                ) by {
                    assert(order@.contains(j as usize));
                    let m = choose|m: int| 0 <= m < order@.len() && order@[m] == j as usize;
                    assert(row_fits(rs[order@[m] as int], rs[b as int], order@[m] == b, resolved));
                }
            }
            Ok(render(format, &rows, resolved))
        },
        Err(e) => Err(e),
    }
}

impl Format {
    /// The table as UTF-8 bytes.
    pub fn serialize(
        &self,
        results: &Vec<BenchmarkResult>,
        unit: Option<Unit>,
        sort_order: SortOrder,
    ) -> (r: Result<Vec<u8>, ExportError>)
        ensures
            match r {
                Ok(bytes) => exists|text: Seq<char>|
                    export_outcome(*self, results@, unit, sort_order) == Ok::<Seq<char>, ExportError>(text)
                        && bytes@ == vstd::utf8::encode_utf8(text),
                Err(e) => export_outcome(*self, results@, unit, sort_order) == Err::<Seq<char>, ExportError>(e),
            },
    {
        match get_output(*self, results, unit, sort_order) {
            Ok(text) => Ok(text.as_str().as_bytes_vec()),
            Err(e) => Err(e),
        }
    }
}

} // verus!
