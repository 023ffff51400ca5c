use hyperfine::benchmark::{summarize, BenchmarkResult, Measurement, Measurements};
use hyperfine::decimal::push_fixed;
use hyperfine::export::{get_output, resolve_unit, SortOrder};
use hyperfine::natural::Natural;
use hyperfine::order::{baseline_index, sorted_by_mean};
use hyperfine::quantity::{Byte, Second, Unit};
use hyperfine::report::{summarize_all, ExportError};
use hyperfine::rounding::nearest_integer;
use hyperfine::table::Format;

fn run_nanos(n: u64) -> Measurement {
    Measurement {
        time_wall_clock: Second::from_nanos(n),
        time_user: Second::from_nanos(n),
        time_system: Second::zero(),
        peak_memory_usage: Byte::new(1024),
        exit_code: Some(0),
    }
}

fn result_nanos(command: &str, times: &[u64]) -> BenchmarkResult {
    BenchmarkResult {
        command: String::from(command),
        measurements: Measurements::new(times.iter().map(|t| run_nanos(*t)).collect()),
        parameters: Vec::new(),
    }
}

fn ms(v: u64) -> u64 {
    v * 1_000_000
}

fn equals(a: &Natural, v: u128) -> bool {
    let b = Natural::from_u128(v);
    a.ge(&b) && b.ge(a)
}

fn body_lines(text: &str) -> Vec<String> {
    text.lines().skip(2).map(|l| l.to_string()).collect()
}

#[test]
fn summary_mean_lies_between_min_and_max() {
    let runs = Measurements::new(vec![run_nanos(ms(90)), run_nanos(ms(100)), run_nanos(ms(140))]);
    let s = summarize(&runs.wall_clock_nanos());
    assert_eq!(s.count, 3);
    assert!(equals(&s.total, 330_000_000));
    assert_eq!(s.min, 90_000_000);
    assert_eq!(s.max, 140_000_000);
    assert!(3 * (s.min as u128) <= 330_000_000 && 330_000_000 <= 3 * (s.max as u128));
    // sum of (3x - 330ms)^2 over the runs: (-60ms)^2 + (-30ms)^2 + (90ms)^2
    let expected: u128 = 60_000_000u128.pow(2) + 30_000_000u128.pow(2) + 90_000_000u128.pow(2);
    assert!(equals(&s.spread, expected));
}

#[test]
fn single_run_has_zero_deviation() {
    let s = summarize(&vec![ms(500)]);
    assert!(equals(&s.spread, 0));
    let results = vec![result_nanos("one", &[ms(500)])];
    let text = get_output(Format::Markdown, &results, None, SortOrder::Command).unwrap();
    assert_eq!(body_lines(&text), vec!["| `one` | 500.0 ± 0.000 | 500.0 | 500.0 | 1.00 |"]);
}

#[test]
fn identical_runs_have_zero_deviation() {
    let s = summarize(&vec![7, 7, 7, 7]);
    assert!(equals(&s.spread, 0));
    assert!(equals(&s.total, 28));
}

#[test]
fn exactly_one_row_is_the_baseline() {
    let results = vec![
        result_nanos("a", &[ms(300), ms(310)]),
        result_nanos("b", &[ms(100), ms(120)]),
        result_nanos("c", &[ms(200), ms(220)]),
    ];
    let text = get_output(Format::Markdown, &results, None, SortOrder::Command).unwrap();
    let rows = body_lines(&text);
    let baseline_rows: Vec<&String> = rows.iter().filter(|r| r.ends_with("| 1.00 |")).collect();
    assert_eq!(baseline_rows.len(), 1);
    assert!(baseline_rows[0].starts_with("| `b` |"));
    assert_eq!(rows.iter().filter(|r| r.contains(" ± ") && !r.ends_with("| 1.00 |")).count(), 2);
}

#[test]
fn baseline_tie_goes_to_first_listed() {
    let results = vec![
        result_nanos("slow", &[ms(50)]),
        result_nanos("first", &[ms(10)]),
        result_nanos("second", &[ms(10)]),
    ];
    let sums = summarize_all(&results).unwrap();
    assert_eq!(baseline_index(&results, &sums), 1);
    let text = get_output(Format::Markdown, &results, None, SortOrder::Command).unwrap();
    let rows = body_lines(&text);
    assert!(rows[1].ends_with("| 1.00 |"));
    assert!(rows[2].ends_with("| 1.00 ± 0.00 |"));
}

#[test]
fn sort_by_mean_only_reorders_rows() {
    let results = vec![
        result_nanos("sleep 2", &[2_010_000_000, 2_020_000_000, 2_030_000_000]),
        result_nanos("sleep 0.1", &[110_000_000, 120_000_000, 130_000_000]),
    ];
    let by_input = get_output(Format::Orgmode, &results, None, SortOrder::Command).unwrap();
    let by_mean = get_output(Format::Orgmode, &results, None, SortOrder::MeanTime).unwrap();
    let a = body_lines(&by_input);
    let b = body_lines(&by_mean);
    assert_eq!(a.len(), 2);
    assert_eq!(a[0], b[1]);
    assert_eq!(a[1], b[0]);
    assert_eq!(by_input.lines().next(), by_mean.lines().next());
    assert!(by_input.starts_with("| Command  |  Mean [s] |"));
    assert_eq!(a[0], "| =sleep 2=  |  2.020 ± 0.010 |  2.010 |  2.030 |  16.83 ± 1.41 |");
}

#[test]
fn sort_by_mean_is_stable() {
    let results = vec![
        result_nanos("c", &[ms(30)]),
        result_nanos("a", &[ms(10)]),
        result_nanos("d", &[ms(30)]),
        result_nanos("b", &[ms(20)]),
    ];
    let sums = summarize_all(&results).unwrap();
    assert_eq!(sorted_by_mean(&results, &sums), vec![1, 3, 0, 2]);
}

#[test]
fn export_twice_gives_identical_bytes() {
    let results = vec![
        result_nanos("x", &[ms(12), ms(13), ms(17)]),
        result_nanos("y", &[ms(40), ms(41)]),
    ];
    for format in [Format::Markdown, Format::Asciidoc, Format::Orgmode] {
        let first = format.serialize(&results, None, SortOrder::MeanTime).unwrap();
        let second = format.serialize(&results, None, SortOrder::MeanTime).unwrap();
        assert_eq!(first, second);
    }
}

#[test]
fn serialize_gives_utf8_text() {
    let results = vec![result_nanos("x", &[ms(12), ms(14)])];
    let bytes = Format::Markdown.serialize(&results, None, SortOrder::Command).unwrap();
    let text = get_output(Format::Markdown, &results, None, SortOrder::Command).unwrap();
    assert_eq!(bytes, text.as_bytes().to_vec());
    assert!(String::from_utf8(bytes).unwrap().contains("| 13.0 ± 1.414 | 12.0 | 14.0 |"));
}

#[test]
fn empty_sample_set_is_an_error() {
    let results = vec![result_nanos("ok", &[ms(5)]), result_nanos("none", &[])];
    assert_eq!(
        get_output(Format::Markdown, &results, None, SortOrder::Command),
        Err(ExportError::EmptySampleSet)
    );
    let with_zero = vec![result_nanos("zero", &[0]), result_nanos("none", &[])];
    assert_eq!(
        get_output(Format::Asciidoc, &with_zero, None, SortOrder::Command),
        Err(ExportError::EmptySampleSet)
    );
}

#[test]
fn zero_mean_is_an_undefined_ratio() {
    let results = vec![result_nanos("ok", &[ms(5)]), result_nanos("zero", &[0, 0])];
    assert_eq!(
        get_output(Format::Orgmode, &results, Some(Unit::Second), SortOrder::MeanTime),
        Err(ExportError::UndefinedRatio)
    );
}

#[test]
fn no_results_give_header_only() {
    let results: Vec<BenchmarkResult> = Vec::new();
    assert_eq!(
        get_output(Format::Markdown, &results, None, SortOrder::Command).unwrap(),
        "| Command | Mean [s] | Min [s] | Max [s] | Relative |\n|:---|---:|---:|---:|---:|\n"
    );
    assert_eq!(
        get_output(Format::Asciidoc, &results, Some(Unit::MilliSecond), SortOrder::Command).unwrap(),
        "[cols=\"<,>,>,>,>\"]\n|===\n| Command \n| Mean [ms] \n| Min [ms] \n| Max [ms] \n| Relative \n|===\n"
    );
}

#[test]
fn unit_follows_first_result() {
    let one_second = summarize(&vec![1_000_000_000]);
    let just_below = summarize(&vec![999_999_999]);
    assert_eq!(resolve_unit(None, &one_second), Unit::Second);
    assert_eq!(resolve_unit(None, &just_below), Unit::MilliSecond);
    assert_eq!(resolve_unit(Some(Unit::MilliSecond), &one_second), Unit::MilliSecond);
    assert_eq!(resolve_unit(Some(Unit::Second), &just_below), Unit::Second);
}

#[test]
fn precision_depends_on_magnitude() {
    let results = vec![
        result_nanos("small", &[9_999_600]),
        result_nanos("large", &[12_345_678_900]),
    ];
    let text = get_output(Format::Markdown, &results, None, SortOrder::Command).unwrap();
    let rows = body_lines(&text);
    assert_eq!(rows[0], "| `small` | 10.000 ± 0.000 | 10.000 | 10.000 | 1.00 |");
    assert_eq!(rows[1], "| `large` | 12345.7 ± 0.000 | 12345.7 | 12345.7 | 1234.62 ± 0.00 |");
}

#[test]
fn natural_arithmetic() {
    let a = Natural::from_u128(u64::MAX as u128 + 2);
    let b = Natural::from_u128(u64::MAX as u128);
    let p = a.mul(&b);
    assert!(equals(&p, u128::MAX));
    let big = p.mul(&p);
    assert!(big.ge(&p) && !p.ge(&big));
    let sum = p.add(&Natural::from_u128(1));
    assert!(sum.ge(&p) && !p.ge(&sum));
    assert!(equals(&sum.sub(&p), 1));
    assert!(equals(&Natural::from_u128(12345).mul_digit(1000), 12_345_000));
    assert!(equals(&Natural::from_u128(7).shifted(), 7u128 << 32));
    assert!(equals(&Natural::zero(), 0));
}

#[test]
fn rounding_to_nearest() {
    let n = |v: u128| Natural::from_u128(v);
    assert_eq!(nearest_integer(&n(7), &n(2), false), Some(4));
    assert_eq!(nearest_integer(&n(5), &n(2), false), Some(3));
    assert_eq!(nearest_integer(&n(13), &n(5), false), Some(3));
    assert_eq!(nearest_integer(&n(10), &n(1), true), Some(3));
    assert_eq!(nearest_integer(&n(49), &n(4), true), Some(4));
    assert_eq!(nearest_integer(&n(0), &n(9), true), Some(0));
    assert_eq!(nearest_integer(&n(u128::MAX), &n(1), false), None);
}

#[test]
fn fixed_point_text() {
    let mut s = String::new();
    push_fixed(&mut s, 1100, 1);
    assert_eq!(s, "110.0");
    let mut s = String::new();
    push_fixed(&mut s, 50, 3);
    assert_eq!(s, "0.050");
    let mut s = String::new();
    push_fixed(&mut s, 2727, 2);
    assert_eq!(s, "27.27");
}

#[test]
fn other_quantities_summarize_alike() {
    let mut runs = vec![run_nanos(ms(10)), run_nanos(ms(30))];
    runs[0].peak_memory_usage = Byte::new(2048);
    runs[1].time_system = Second::from_nanos(ms(4));
    let m = Measurements::new(runs);
    assert_eq!(m.user_nanos(), vec![ms(10), ms(30)]);
    assert_eq!(m.system_nanos(), vec![0, ms(4)]);
    assert_eq!(m.memory_bytes(), vec![2048, 1024]);
    let memory = summarize(&m.memory_bytes());
    assert!(equals(&memory.total, 3072));
    assert_eq!((memory.min, memory.max), (1024, 2048));
    // (2 * 2048 - 3072)^2 + (2 * 1024 - 3072)^2
    assert!(equals(&memory.spread, 2 * 1024u128 * 1024));
    let user = summarize(&m.user_nanos());
    assert_eq!((user.min, user.max, user.count), (ms(10), ms(30), 2));
}
