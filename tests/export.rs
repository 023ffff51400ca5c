use hyperfine::benchmark::{BenchmarkResult, Measurement, Measurements};
use hyperfine::export::{get_output, SortOrder};
use hyperfine::quantity::{Byte, Second, Unit};
use hyperfine::report::ExportError;
use hyperfine::table::Format;

fn nanos(secs: f64) -> u64 {
    (secs * 1e9).round() as u64
}

fn run(secs: f64) -> Measurement {
    Measurement {
        time_wall_clock: Second::from_nanos(nanos(secs)),
        time_user: Second::from_nanos(nanos(secs)),
        time_system: Second::zero(),
        peak_memory_usage: Byte::new(1024),
        exit_code: Some(0),
    }
}

fn result(command: &str, times: &[f64]) -> BenchmarkResult {
    BenchmarkResult {
        command: String::from(command),
        measurements: Measurements::new(times.iter().map(|t| run(*t)).collect()),
        parameters: Vec::new(),
    }
}

fn out(format: Format, results: &Vec<BenchmarkResult>, unit: Option<Unit>, sort: SortOrder) -> String {
    get_output(format, results, unit, sort).unwrap()
}

#[test]
fn test_markup_export_auto_ms() {
    let results = vec![
        result("sleep 0.1", &[0.09, 0.10, 0.14]),
        result("sleep 2", &[2.0, 3.0, 4.0]),
    ];
    assert_eq!(
        out(Format::Markdown, &results, None, SortOrder::Command),
        "| Command | Mean [ms] | Min [ms] | Max [ms] | Relative |\n\
|:---|---:|---:|---:|---:|\n\
| `sleep 0.1` | 110.0 ± 26.5 | 90.0 | 140.0 | 1.00 |\n\
| `sleep 2` | 3000.0 ± 1000.0 | 2000.0 | 4000.0 | 27.27 ± 11.21 |\n"
    );
    assert_eq!(
        out(Format::Asciidoc, &results, None, SortOrder::Command),
        "[cols=\"<,>,>,>,>\"]\n\
|===\n\
| Command \n\
| Mean [ms] \n\
| Min [ms] \n\
| Max [ms] \n\
| Relative \n\
\n\
| `sleep 0.1` \n\
| 110.0 ± 26.5 \n\
| 90.0 \n\
| 140.0 \n\
| 1.00 \n\
\n\
| `sleep 2` \n\
| 3000.0 ± 1000.0 \n\
| 2000.0 \n\
| 4000.0 \n\
| 27.27 ± 11.21 \n\
|===\n"
    );
    assert_eq!(
        out(Format::Orgmode, &results, None, SortOrder::Command),
        "| Command  |  Mean [ms] |  Min [ms] |  Max [ms] |  Relative |\n\
|--+--+--+--+--|\n\
| =sleep 0.1=  |  110.0 ± 26.5 |  90.0 |  140.0 |  1.00 |\n\
| =sleep 2=  |  3000.0 ± 1000.0 |  2000.0 |  4000.0 |  27.27 ± 11.21 |\n"
    );
}

#[test]
fn test_markup_export_auto_s() {
    let results = vec![
        result("sleep 2", &[2.1, 2.2, 2.3]),
        result("sleep 0.1", &[0.1, 0.2, 0.3]),
    ];
    assert_eq!(
        out(Format::Markdown, &results, None, SortOrder::Command),
        "| Command | Mean [s] | Min [s] | Max [s] | Relative |\n\
|:---|---:|---:|---:|---:|\n\
| `sleep 2` | 2.200 ± 0.100 | 2.100 | 2.300 | 11.00 ± 5.52 |\n\
| `sleep 0.1` | 0.200 ± 0.100 | 0.100 | 0.300 | 1.00 |\n"
    );
    assert_eq!(
        out(Format::Asciidoc, &results, None, SortOrder::Command),
        "[cols=\"<,>,>,>,>\"]\n\
|===\n\
| Command \n\
| Mean [s] \n\
| Min [s] \n\
| Max [s] \n\
| Relative \n\
\n\
| `sleep 2` \n\
| 2.200 ± 0.100 \n\
| 2.100 \n\
| 2.300 \n\
| 11.00 ± 5.52 \n\
\n\
| `sleep 0.1` \n\
| 0.200 ± 0.100 \n\
| 0.100 \n\
| 0.300 \n\
| 1.00 \n\
|===\n"
    );
    assert_eq!(
        out(Format::Orgmode, &results, None, SortOrder::Command),
        "| Command  |  Mean [s] |  Min [s] |  Max [s] |  Relative |\n\
|--+--+--+--+--|\n\
| =sleep 2=  |  2.200 ± 0.100 |  2.100 |  2.300 |  11.00 ± 5.52 |\n\
| =sleep 0.1=  |  0.200 ± 0.100 |  0.100 |  0.300 |  1.00 |\n"
    );
}

#[test]
fn test_markup_export_manual_ms() {
    let timing_results = vec![
        result("sleep 2", &[2.1, 2.2, 2.3]),
        result("sleep 0.1", &[0.1, 0.2, 0.3]),
    ];
    let unit = Some(Unit::MilliSecond);
    assert_eq!(
        out(Format::Markdown, &timing_results, unit, SortOrder::Command),
        "| Command | Mean [ms] | Min [ms] | Max [ms] | Relative |\n\
|:---|---:|---:|---:|---:|\n\
| `sleep 2` | 2200.0 ± 100.0 | 2100.0 | 2300.0 | 11.00 ± 5.52 |\n\
| `sleep 0.1` | 200.0 ± 100.0 | 100.0 | 300.0 | 1.00 |\n"
    );
    assert_eq!(
        out(Format::Asciidoc, &timing_results, unit, SortOrder::Command),
        "[cols=\"<,>,>,>,>\"]\n\
|===\n\
| Command \n\
| Mean [ms] \n\
| Min [ms] \n\
| Max [ms] \n\
| Relative \n\
\n\
| `sleep 2` \n\
| 2200.0 ± 100.0 \n\
| 2100.0 \n\
| 2300.0 \n\
| 11.00 ± 5.52 \n\
\n\
| `sleep 0.1` \n\
| 200.0 ± 100.0 \n\
| 100.0 \n\
| 300.0 \n\
| 1.00 \n\
|===\n"
    );
    assert_eq!(
        out(Format::Orgmode, &timing_results, unit, SortOrder::Command),
        "| Command  |  Mean [ms] |  Min [ms] |  Max [ms] |  Relative |\n\
|--+--+--+--+--|\n\
| =sleep 2=  |  2200.0 ± 100.0 |  2100.0 |  2300.0 |  11.00 ± 5.52 |\n\
| =sleep 0.1=  |  200.0 ± 100.0 |  100.0 |  300.0 |  1.00 |\n"
    );
}

#[test]
fn test_markup_export_manual_s() {
    let results = vec![
        result("sleep 2", &[2.01, 2.02, 2.03]),
        result("sleep 0.1", &[0.11, 0.12, 0.13]),
    ];
    let unit = Some(Unit::Second);
    assert_eq!(
        out(Format::Markdown, &results, unit, SortOrder::Command),
        "| Command | Mean [s] | Min [s] | Max [s] | Relative |\n\
|:---|---:|---:|---:|---:|\n\
| `sleep 2` | 2.020 ± 0.010 | 2.010 | 2.030 | 16.83 ± 1.41 |\n\
| `sleep 0.1` | 0.120 ± 0.010 | 0.110 | 0.130 | 1.00 |\n"
    );
    assert_eq!(
        out(Format::Markdown, &results, unit, SortOrder::MeanTime),
        "| Command | Mean [s] | Min [s] | Max [s] | Relative |\n\
|:---|---:|---:|---:|---:|\n\
| `sleep 0.1` | 0.120 ± 0.010 | 0.110 | 0.130 | 1.00 |\n\
| `sleep 2` | 2.020 ± 0.010 | 2.010 | 2.030 | 16.83 ± 1.41 |\n"
    );
    assert_eq!(
        out(Format::Asciidoc, &results, unit, SortOrder::Command),
        "[cols=\"<,>,>,>,>\"]\n\
|===\n\
| Command \n\
| Mean [s] \n\
| Min [s] \n\
| Max [s] \n\
| Relative \n\
\n\
| `sleep 2` \n\
| 2.020 ± 0.010 \n\
| 2.010 \n\
| 2.030 \n\
| 16.83 ± 1.41 \n\
\n\
| `sleep 0.1` \n\
| 0.120 ± 0.010 \n\
| 0.110 \n\
| 0.130 \n\
| 1.00 \n\
|===\n"
    );
}
