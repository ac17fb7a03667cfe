use rle_bitmap_compare::access_plan::{build_bitmap, build_rle, BuiltPlan, PlanRepr};
use rle_bitmap_compare::cli::{QueryArgs, Strategy};
use rle_bitmap_compare::report::{header, measurement, selectors_column, topk};
use rle_bitmap_compare::runner::ResultRow;
use rle_bitmap_compare::Pattern;

#[test]
fn the_header_names_what_is_measured() {
    let args = QueryArgs {
        files: 40,
        threads: 8,
        repeats: 5,
        pattern: Pattern::Clustered,
        strategy: Strategy::IndexBitmap,
    };
    let dashes = "-".repeat(103);
    assert_eq!(
        header(&args),
        format!(
            "dataset : 40 files x 5000000 rows (200000000 total), threads=8\n\
             pattern : clustered (jittered runs, ~8K hits per 24K rows)\n\
             strategy: with FTS index (bitmap)\n\
             timing  : 1 warmup + 5 timed iterations (exec ms: min / mean / max)\n\n\
             {:<28} | {:>13} | {:>9} | {:>30} | {:>8}\n{dashes}\n",
            "strategy", "selectors", "plan(ms)", "exec(ms) min / mean / max", "groups",
        )
    );
}

#[test]
fn measurements_are_aligned() {
    let exec = format!("{:>7.1} / {:>7.1} / {:>7.1}", 140.25f64, 145.0f64, 12345678.9f64);
    assert_eq!(
        measurement(
            "with FTS index (RLE)",
            "17834",
            &format!("{:.1}", 1234.56f64),
            &format!("{:.1}", 140.25f64),
            &format!("{:.1}", 145.0f64),
            &format!("{:.1}", 12345678.9f64),
            10,
        ),
        format!(
            "{:<28} | {:>13} | {:>9.1} | {exec:>30} | {:>8}\n",
            "with FTS index (RLE)", "17834", 1234.56f64, 10,
        )
    );
}

#[test]
fn unmeasured_times_are_shown_as_they_are() {
    let none = format!("{:.1}", f64::INFINITY);
    let line = measurement("no index (post-filter)", "-", "0.0", &none, "NaN", &none, 0);
    let exec = "    inf /     NaN /     inf";
    assert_eq!(
        line,
        format!("{:<28} | {:>13} | {:>9} | {exec:>30} | {:>8}\n", "no index (post-filter)", "-", "0.0", 0)
    );
}

#[test]
fn run_plans_show_their_selectors() {
    let built = vec![build_rle(&[0, 2]), build_rle(&[1]), build_rle(&[])];
    assert_eq!(selectors_column(&built, PlanRepr::Rle), Some("7".to_string()));
    let none: Vec<BuiltPlan> = Vec::new();
    assert_eq!(selectors_column(&none, PlanRepr::Rle), Some("0".to_string()));
}

#[test]
fn bitmap_plans_show_a_dash() {
    let built = vec![build_bitmap(&[0, 2])];
    assert_eq!(selectors_column(&built, PlanRepr::Bitmap), Some("-".to_string()));
}

#[test]
fn too_many_selectors_are_not_shown() {
    let mut built = vec![build_rle(&[1]), build_rle(&[])];
    built[1].selectors = usize::MAX;
    assert_eq!(selectors_column(&built, PlanRepr::Rle), None);
    built[0].selectors = 0;
    assert_eq!(
        selectors_column(&built, PlanRepr::Rle),
        Some("18446744073709551615".to_string())
    );
}

#[test]
fn results_are_listed() {
    let rows: Vec<ResultRow> = vec![("svc-49".to_string(), 52123), ("a-very-long-service".to_string(), -7)];
    let dashes = "-".repeat(33);
    assert_eq!(
        topk(&rows),
        format!(
            "\ntop-10 (asc by cnt):\n  service_name     |          cnt\n  {dashes}\n  \
             svc-49           |        52123\n  a-very-long-service |           -7\n"
        )
    );
    assert_eq!(
        topk(&[]),
        format!("\ntop-10 (asc by cnt):\n  service_name     |          cnt\n  {dashes}\n")
    );
}
