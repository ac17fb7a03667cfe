//! The report that `query` prints: header, measurement, and result rows.

use vstd::prelude::*;
use vstd::string::*;
use crate::access_plan::{BuiltPlan, PlanRepr};
use crate::cli;
use crate::cli::{QueryArgs, Strategy};
use crate::runner::ResultRow;
use crate::text;
use crate::text::{
    decimal_text, push_decimal, push_pad_left, push_pad_right, push_repeated, push_signed,
};
use crate::workload;
use crate::workload::{Pattern, ROWS_PER_FILE};

verus! {

// ---------------------------------------------------------------------------
// Header
// ---------------------------------------------------------------------------

/// One line of the table of measurements, without its end: the five columns as they
/// are aligned.
pub open spec fn table_line(
    label: Seq<char>,
    selectors: Seq<char>,
    plan: Seq<char>,
    exec: Seq<char>,
    groups: Seq<char>,
) -> Seq<char> {
    text::pad_right(label, 28, ' ') + " | "@ + text::pad_left(selectors, 13, ' ') + " | "@
        + text::pad_left(plan, 9, ' ') + " | "@ + text::pad_left(exec, 30, ' ') + " | "@
        + text::pad_left(groups, 8, ' ')
}

/// The header: what is measured, and the head of the table.
pub open spec fn header_text(args: QueryArgs) -> Seq<char> {
    "dataset : "@ + text::decimal(args.files as nat) + " files x "@ + text::decimal(
        ROWS_PER_FILE as nat,
    ) + " rows ("@ + text::decimal((args.files * ROWS_PER_FILE) as nat) + " total), threads="@
        + text::decimal(args.threads as nat) + "\npattern : "@ + workload::description(args.pattern)
        + "\nstrategy: "@ + cli::strategy_label(args.strategy) + "\ntiming  : 1 warmup + "@
        + text::decimal(args.repeats as nat)
        + " timed iterations (exec ms: min / mean / max)\n\n"@ + table_line(
        "strategy"@,
        "selectors"@,
        "plan(ms)"@,
        "exec(ms) min / mean / max"@,
        "groups"@,
    ) + "\n"@ + text::repeated('-', 103) + "\n"@
}

fn push_table_line(
    out: &mut String,
    label: &str,
    selectors: &str,
    plan: &str,
    exec: &str,
    groups: &str,
)
    ensures
        final(out)@ == old(out)@ + table_line(label@, selectors@, plan@, exec@, groups@),
{
    push_pad_right(out, label, 28, ' ');
    out.append(" | ");
    push_pad_left(out, selectors, 13, ' ');
    out.append(" | ");
    push_pad_left(out, plan, 9, ' ');
    out.append(" | ");
    push_pad_left(out, exec, 30, ' ');
    out.append(" | ");
    push_pad_left(out, groups, 8, ' ');
    assert(final(out)@ =~= old(out)@ + table_line(label@, selectors@, plan@, exec@, groups@));
}

/// The header of the report.
pub fn header(args: &QueryArgs) -> (out: String)
    requires
        args.files * ROWS_PER_FILE <= usize::MAX,
    ensures
        out@ == header_text(*args),
{
    let mut out = "dataset : ".to_owned();
    push_decimal(&mut out, args.files as u64);
    out.append(" files x ");
    push_decimal(&mut out, ROWS_PER_FILE as u64);
    out.append(" rows (");
    push_decimal(&mut out, (args.files * ROWS_PER_FILE) as u64);
    out.append(" total), threads=");
    push_decimal(&mut out, args.threads as u64);
    out.append("\npattern : ");
    out.append(args.pattern.describe());
    out.append("\nstrategy: ");
    out.append(args.strategy.label());
    out.append("\ntiming  : 1 warmup + ");
    push_decimal(&mut out, args.repeats as u64);
    out.append(" timed iterations (exec ms: min / mean / max)\n\n");
    push_table_line(
        &mut out,
        "strategy",
        "selectors",
        "plan(ms)",
        "exec(ms) min / mean / max",
        "groups",
    );
    out.append("\n");
    push_repeated(&mut out, '-', 103);
    out.append("\n");
    assert(out@ =~= header_text(*args));
    out
}

// ---------------------------------------------------------------------------
// Measurement
// ---------------------------------------------------------------------------

/// Number of runs in the first `n` plans.
pub open spec fn selector_sum(built: Seq<BuiltPlan>, n: nat) -> nat
    decreases n,
{
    if n == 0 {
        0
    } else {
        selector_sum(built, (n - 1) as nat) + built[n - 1].selectors as nat
    }
}

proof fn lemma_sum_grows(built: Seq<BuiltPlan>, n: nat, m: nat)
    requires
        n <= m,
    ensures
        selector_sum(built, n) <= selector_sum(built, m),
    decreases m,
{
    if n < m {
        lemma_sum_grows(built, n, (m - 1) as nat);
    }
}

/// The column that says how many runs the plans hold: a dash where they hold
/// bitmaps. `None` where the number of runs does not fit.
pub fn selectors_column(built: &Vec<BuiltPlan>, repr: PlanRepr) -> (column: Option<String>)
    ensures
        match repr {
            PlanRepr::Bitmap => column matches Some(shown) && shown@ == "-"@,
            PlanRepr::Rle => if selector_sum(built@, built@.len()) <= usize::MAX {
                column matches Some(shown) && shown@ == text::decimal(
                    selector_sum(built@, built@.len()),
                )
            } else {
                column is None
            },
        },
{
    match repr {
        PlanRepr::Bitmap => Some("-".to_owned()),
        PlanRepr::Rle => {
            let mut sum: usize = 0;
            let mut f: usize = 0;
            while f < built.len()
                invariant
                    f <= built@.len(),
                    sum == selector_sum(built@, f as nat),
                    repr is Rle,
                decreases built@.len() - f,
            {
                proof {
                    lemma_sum_grows(built@, (f + 1) as nat, built@.len());
                }
                if built[f].selectors > usize::MAX - sum {
                    return None;
                }
                sum += built[f].selectors;
                f += 1;
            }
            Some(decimal_text(sum as u64))
        },
    }
}

/// The column of the shortest, mean and longest execution.
pub open spec fn exec_text(min: Seq<char>, mean: Seq<char>, max: Seq<char>) -> Seq<char> {
    text::pad_left(min, 7, ' ') + " / "@ + text::pad_left(mean, 7, ' ') + " / "@ + text::pad_left(
        max,
        7,
        ' ',
    )
}

/// The line of the table for one strategy. The times are given as they are to be
/// shown, in milliseconds.
pub fn measurement(
    label: &str,
    selectors: &str,
    plan_ms: &str,
    min: &str,
    mean: &str,
    max: &str,
    groups: usize,
) -> (out: String)
    ensures
        out@ == table_line(
            label@,
            selectors@,
            plan_ms@,
            exec_text(min@, mean@, max@),
            text::decimal(groups as nat),
        ) + "\n"@,
{
    let mut exec = String::new();
    push_pad_left(&mut exec, min, 7, ' ');
    exec.append(" / ");
    push_pad_left(&mut exec, mean, 7, ' ');
    exec.append(" / ");
    push_pad_left(&mut exec, max, 7, ' ');
    assert(exec@ =~= exec_text(min@, mean@, max@));
    let count = decimal_text(groups as u64);
    let mut out = String::new();
    push_table_line(&mut out, label, selectors, plan_ms, exec.as_str(), count.as_str());
    out.append("\n");
    assert(out@ =~= table_line(
        label@,
        selectors@,
        plan_ms@,
        exec_text(min@, mean@, max@),
        text::decimal(groups as nat),
    ) + "\n"@);
    out
}

// ---------------------------------------------------------------------------
// Result rows
// ---------------------------------------------------------------------------

/// One line of the result table.
pub open spec fn result_line(service: Seq<char>, count: Seq<char>) -> Seq<char> {
    "  "@ + text::pad_right(service, 16, ' ') + " | "@ + text::pad_left(count, 12, ' ') + "\n"@
}

/// The lines of the first `n` result rows.
pub open spec fn result_lines(rows: Seq<ResultRow>, n: nat) -> Seq<char>
    decreases n,
{
    if n == 0 {
        Seq::empty()
    } else {
        result_lines(rows, (n - 1) as nat) + result_line(
            rows[n - 1].0@,
            text::signed_decimal(rows[n - 1].1 as int),
        )
    }
}

/// The result table: its head and one line per row.
pub open spec fn topk_text(rows: Seq<ResultRow>) -> Seq<char> {
    "\ntop-10 (asc by cnt):\n"@ + result_line("service_name"@, "cnt"@) + "  "@ + text::repeated(
        '-',
        33,
    ) + "\n"@ + result_lines(rows, rows.len())
}

fn push_result_line(out: &mut String, service: &str, count: &str)
    ensures
        final(out)@ == old(out)@ + result_line(service@, count@),
{
    out.append("  ");
    push_pad_right(out, service, 16, ' ');
    out.append(" | ");
    push_pad_left(out, count, 12, ' ');
    out.append("\n");
    assert(final(out)@ =~= old(out)@ + result_line(service@, count@));
}

/// The result table.
pub fn topk(rows: &[ResultRow]) -> (out: String)
    ensures
        out@ == topk_text(rows@),
{
    let mut out = "\ntop-10 (asc by cnt):\n".to_owned();
    push_result_line(&mut out, "service_name", "cnt");
    out.append("  ");
    push_repeated(&mut out, '-', 33);
    out.append("\n");
    let ghost head = out@;
    let mut r: usize = 0;
    assert(out@ =~= head + result_lines(rows@, 0));
    while r < rows.len()
        invariant
            r <= rows@.len(),
            out@ == head + result_lines(rows@, r as nat),
        decreases rows@.len() - r,
    {
        let mut count = String::new();
        push_signed(&mut count, rows[r].1);
        assert(count@ =~= text::signed_decimal(rows@[r as int].1 as int));
        push_result_line(&mut out, rows[r].0.as_str(), count.as_str());
        r += 1;
        assert(out@ =~= head + result_lines(rows@, r as nat));
    }
    assert(out@ =~= topk_text(rows@));
    out
}

// ---------------------------------------------------------------------------
// What the report shows
// ---------------------------------------------------------------------------

/// The header says how many files, rows and threads there are, which pattern and which
/// strategy is measured, and how often, and ends in the head of the table.
pub proof fn law_header_says_what_is_measured(args: QueryArgs)
    ensures
        ({
            let first = "dataset : "@ + text::decimal(args.files as nat) + " files x "@
                + text::decimal(5_000_000) + " rows ("@ + text::decimal(
                (args.files * 5_000_000) as nat,
            ) + " total), threads="@ + text::decimal(args.threads as nat);
            let second = "pattern : "@ + (match args.pattern {
                Pattern::Fragmented => "fragmented (i%3==0)"@,
                Pattern::Clustered => "clustered (jittered runs, ~8K hits per 24K rows)"@,
            });
            let third = "strategy: "@ + (match args.strategy {
                Strategy::IndexRle => "with FTS index (RLE)"@,
                Strategy::IndexBitmap => "with FTS index (bitmap)"@,
                Strategy::NoIndex => "no index (post-filter)"@,
            });
            let fourth = "timing  : 1 warmup + "@ + text::decimal(args.repeats as nat)
                + " timed iterations (exec ms: min / mean / max)"@;
            let head = table_line(
                "strategy"@,
                "selectors"@,
                "plan(ms)"@,
                "exec(ms) min / mean / max"@,
                "groups"@,
            );
            header_text(args) == first + "\n"@ + second + "\n"@ + third + "\n"@ + fourth
                + "\n\n"@ + head + "\n"@ + text::repeated('-', 103) + "\n"@
        }),
{
    reveal_strlit("\npattern : ");
    reveal_strlit("pattern : ");
    reveal_strlit("\nstrategy: ");
    reveal_strlit("strategy: ");
    reveal_strlit("\ntiming  : 1 warmup + ");
    reveal_strlit("timing  : 1 warmup + ");
    reveal_strlit(" timed iterations (exec ms: min / mean / max)\n\n");
    reveal_strlit(" timed iterations (exec ms: min / mean / max)");
    reveal_strlit("\n");
    reveal_strlit("\n\n");
    assert("\npattern : "@ =~= "\n"@ + "pattern : "@);
    assert("\nstrategy: "@ =~= "\n"@ + "strategy: "@);
    assert("\ntiming  : 1 warmup + "@ =~= "\n"@ + "timing  : 1 warmup + "@);
    assert(" timed iterations (exec ms: min / mean / max)\n\n"@
        =~= " timed iterations (exec ms: min / mean / max)"@ + "\n\n"@);
    let dataset = "dataset : "@ + text::decimal(args.files as nat) + " files x "@ + text::decimal(
        5_000_000,
    ) + " rows ("@ + text::decimal((args.files * 5_000_000) as nat) + " total), threads="@
        + text::decimal(args.threads as nat);
    let described = workload::description(args.pattern);
    let label = cli::strategy_label(args.strategy);
    let count = text::decimal(args.repeats as nat);
    let timed = " timed iterations (exec ms: min / mean / max)"@;
    lemma_joins(dataset, "\n"@, "pattern : "@);
    lemma_joins(dataset + "\n"@, "pattern : "@, described);
    let two = dataset + "\n"@ + ("pattern : "@ + described);
    lemma_joins(two, "\n"@, "strategy: "@);
    lemma_joins(two + "\n"@, "strategy: "@, label);
    let three = two + "\n"@ + ("strategy: "@ + label);
    lemma_joins(three, "\n"@, "timing  : 1 warmup + "@);
    lemma_joins(three + "\n"@ + "timing  : 1 warmup + "@ + count, timed, "\n\n"@);
    lemma_joins(three + "\n"@, "timing  : 1 warmup + "@ + count, timed);
    lemma_joins(three + "\n"@, "timing  : 1 warmup + "@, count);
}

proof fn lemma_joins(a: Seq<char>, b: Seq<char>, c: Seq<char>)
    ensures
        a + (b + c) == a + b + c,
{
    assert(a + (b + c) =~= a + b + c);
}

/// In the table the columns stand one behind the other, apart by ` | `: the label to the
/// left of its field, the others to the right. A column too wide for its field is not
/// cut.
pub proof fn law_table_lines_show_all_columns(
    label: Seq<char>,
    selectors: Seq<char>,
    plan: Seq<char>,
    exec: Seq<char>,
    groups: Seq<char>,
)
    ensures
        table_line(label, selectors, plan, exec, groups) == text::pad_right(label, 28, ' ')
            + " | "@ + text::pad_left(selectors, 13, ' ') + " | "@ + text::pad_left(plan, 9, ' ')
            + " | "@ + text::pad_left(exec, 30, ' ') + " | "@ + text::pad_left(groups, 8, ' '),
        label.len() <= 28 && selectors.len() <= 13 && plan.len() <= 9 && exec.len() <= 30
            && groups.len() <= 8 ==> ({
            let line = table_line(label, selectors, plan, exec, groups);
            &&& line.len() == 100
            &&& line.subrange(0, label.len() as int) == label
            &&& line.subrange(28, 31) == " | "@
            &&& line.subrange(44 - selectors.len(), 44) == selectors
            &&& line.subrange(44, 47) == " | "@
            &&& line.subrange(56 - plan.len(), 56) == plan
            &&& line.subrange(56, 59) == " | "@
            &&& line.subrange(89 - exec.len(), 89) == exec
            &&& line.subrange(89, 92) == " | "@
            &&& line.subrange(100 - groups.len(), 100) == groups
        }),
{
    reveal_strlit(" | ");
    let line = table_line(label, selectors, plan, exec, groups);
    if label.len() <= 28 && selectors.len() <= 13 && plan.len() <= 9 && exec.len() <= 30
        && groups.len() <= 8 {
        assert(line.len() == 100);
        assert(line.subrange(0, label.len() as int) =~= label);
        assert(line.subrange(28, 31) =~= " | "@);
        assert(line.subrange(44 - selectors.len(), 44) =~= selectors);
        assert(line.subrange(44, 47) =~= " | "@);
        assert(line.subrange(56 - plan.len(), 56) =~= plan);
        assert(line.subrange(56, 59) =~= " | "@);
        assert(line.subrange(89 - exec.len(), 89) =~= exec);
        assert(line.subrange(89, 92) =~= " | "@);
        assert(line.subrange(100 - groups.len(), 100) =~= groups);
    }
}

/// The times of the executions stand in the order shortest, mean, longest.
pub proof fn law_times_stand_in_order(min: Seq<char>, mean: Seq<char>, max: Seq<char>)
    ensures
        exec_text(min, mean, max) == text::pad_left(min, 7, ' ') + " / "@ + text::pad_left(
            mean,
            7,
            ' ',
        ) + " / "@ + text::pad_left(max, 7, ' '),
        min.len() <= 7 && mean.len() <= 7 && max.len() <= 7 ==> ({
            let shown = exec_text(min, mean, max);
            &&& shown.len() == 27
            &&& shown.subrange(7 - min.len(), 7) == min
            &&& shown.subrange(17 - mean.len(), 17) == mean
            &&& shown.subrange(27 - max.len(), 27) == max
        }),
{
    reveal_strlit(" / ");
    let shown = exec_text(min, mean, max);
    if min.len() <= 7 && mean.len() <= 7 && max.len() <= 7 {
        assert(shown.subrange(7 - min.len(), 7) =~= min);
        assert(shown.subrange(17 - mean.len(), 17) =~= mean);
        assert(shown.subrange(27 - max.len(), 27) =~= max);
    }
}

/// The number of runs of all plans is the sum over the plans: each adds its own.
pub proof fn law_every_plan_adds_its_selectors(built: Seq<BuiltPlan>, one: BuiltPlan)
    ensures
        selector_sum(Seq::empty(), 0) == 0,
        selector_sum(built.push(one), built.len() + 1) == selector_sum(built, built.len())
            + one.selectors,
{
    lemma_sum_of_front(built, one, built.len());
}

proof fn lemma_sum_of_front(built: Seq<BuiltPlan>, one: BuiltPlan, n: nat)
    requires
        n <= built.len(),
    ensures
        selector_sum(built.push(one), n) == selector_sum(built, n),
    decreases n,
{
    if n > 0 {
        lemma_sum_of_front(built, one, (n - 1) as nat);
    }
}

/// What the table of result rows shows for one row.
pub open spec fn shown_row(row: ResultRow) -> Seq<char> {
    "  "@ + text::pad_right(row.0@, 16, ' ') + " | "@ + text::pad_left(
        text::signed_decimal(row.1 as int),
        12,
        ' ',
    ) + "\n"@
}

/// One more result row adds one line at the end, with its service name and its count;
/// without rows there are the three head lines only.
pub proof fn law_every_row_adds_its_line(rows: Seq<ResultRow>, row: ResultRow)
    ensures
        topk_text(rows.push(row)) == topk_text(rows) + shown_row(row),
        topk_text(Seq::empty()) == "\ntop-10 (asc by cnt):\n"@ + ("  "@ + text::pad_right(
            "service_name"@,
            16,
            ' ',
        ) + " | "@ + text::pad_left("cnt"@, 12, ' ') + "\n"@) + "  "@ + text::repeated('-', 33)
            + "\n"@,
{
    let more = rows.push(row);
    lemma_lines_of_front(rows, row, rows.len());
    let head = "\ntop-10 (asc by cnt):\n"@ + result_line("service_name"@, "cnt"@) + "  "@
        + text::repeated('-', 33) + "\n"@;
    assert(more[rows.len() as int] == row);
    lemma_joins(head, result_lines(rows, rows.len()), shown_row(row));
    assert(topk_text(Seq::empty()) =~= head);
}

proof fn lemma_lines_of_front(rows: Seq<ResultRow>, row: ResultRow, n: nat)
    requires
        n <= rows.len(),
    ensures
        result_lines(rows.push(row), n) == result_lines(rows, n),
    decreases n,
{
    if n > 0 {
        lemma_lines_of_front(rows, row, (n - 1) as nat);
        assert(rows.push(row)[n - 1] == rows[n - 1]);
    }
}

/// The table lists every result row, in their order: behind the lines of the rows
/// before it stands the line of row `k`, and behind that the lines of the others.
pub proof fn law_every_row_is_listed(rows: Seq<ResultRow>, k: int)
    requires
        0 <= k < rows.len(),
    ensures
        (topk_text(rows.take(k)) + shown_row(rows[k])).is_prefix_of(topk_text(rows)),
    decreases rows.len(),
{
    let shorter = rows.drop_last();
    law_every_row_adds_its_line(shorter, rows.last());
    assert(shorter.push(rows.last()) =~= rows);
    if k < shorter.len() {
        law_every_row_is_listed(shorter, k);
        assert(shorter.take(k) =~= rows.take(k));
        let front = topk_text(rows.take(k)) + shown_row(rows[k]);
        assert(topk_text(rows).subrange(0, front.len() as int) =~= topk_text(shorter).subrange(
            0,
            front.len() as int,
        ));
    } else {
        assert(rows.take(k) =~= shorter);
    }
}

} // verus!
