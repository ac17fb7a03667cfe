//! What the plans promise: they read exactly the rows that the query asks for, in
//! either encoding, and what each encoding costs.

use vstd::prelude::*;
use crate::access_plan;
use crate::access_plan::{BuiltPlan, GroupAccess, PlanRepr, Selection};
use crate::batch;
use crate::dataset;
use crate::report;
use crate::row_runs;
use crate::workload;
use crate::workload::{Pattern, HIT_TOKEN_UPPER, ROWS_PER_FILE, ROW_GROUP_SIZE, SUPER_BLOCK};

verus! {

// ---------------------------------------------------------------------------
// Which rows are read
// ---------------------------------------------------------------------------

/// The rows that `group` reads of a row group of `rows` rows, one bit per row.
pub open spec fn rows_read(group: GroupAccess, rows: nat) -> Seq<bool> {
    match group {
        GroupAccess::Skip => Seq::new(rows, |k: int| false),
        GroupAccess::Scan => Seq::new(rows, |k: int| true),
        GroupAccess::Select(Selection::Runs(runs)) => row_runs::expand(runs),
        GroupAccess::Select(Selection::Mask(bits)) => bits,
    }
}

/// A plan reads of each row group the rows that it was made for, whichever encoding
/// it uses.
pub proof fn law_plan_reads_what_was_asked(repr: PlanRepr, masks: Seq<Seq<bool>>, g: int)
    requires
        0 <= g < masks.len(),
        masks[g].len() <= usize::MAX,
    ensures
        rows_read(access_plan::planned(repr, masks)[g], masks[g].len()) == masks[g],
{
    let bits = masks[g];
    if access_plan::any_set(bits) {
        row_runs::law_rle_decodes_to_its_bitmap(bits);
    } else {
        assert forall|k: int| 0 <= k < bits.len() implies !#[trigger] bits[k] by {}
        assert(rows_read(GroupAccess::Skip, bits.len()) =~= bits);
    }
}

/// Plans made of runs and plans made of bitmaps read the same rows.
pub proof fn law_encodings_agree(masks: Seq<Seq<bool>>, g: int)
    requires
        0 <= g < masks.len(),
        masks[g].len() <= usize::MAX,
    ensures
        rows_read(access_plan::planned(PlanRepr::Rle, masks)[g], masks[g].len()) == rows_read(
            access_plan::planned(PlanRepr::Bitmap, masks)[g],
            masks[g].len(),
        ),
{
    law_plan_reads_what_was_asked(PlanRepr::Rle, masks, g);
    law_plan_reads_what_was_asked(PlanRepr::Bitmap, masks, g);
}

/// The access that the plan of file `f` has for its row group `g`.
pub open spec fn file_access(repr: PlanRepr, pattern: Pattern, f: int, g: int) -> GroupAccess {
    access_plan::planned(repr, access_plan::hit_masks(pattern, access_plan::file_base(f)))[g]
}

/// Number of rows in row group `g`.
pub open spec fn group_rows(g: int) -> nat {
    (access_plan::group_end(g) - access_plan::group_start(g)) as nat
}

/// The plan of a file reads a row exactly where the row hits.
pub proof fn law_plans_read_the_hits(repr: PlanRepr, pattern: Pattern, f: int, row: int)
    requires
        0 <= f,
        0 <= row < ROWS_PER_FILE,
    ensures
        ({
            let g = row / ROW_GROUP_SIZE as int;
            &&& 0 <= g < access_plan::row_groups()
            &&& rows_read(file_access(repr, pattern, f, g), group_rows(g))[row
                - access_plan::group_start(g)] == workload::hit(
                pattern,
                access_plan::file_base(f) + row,
            )
        }),
{
    let g = row / ROW_GROUP_SIZE as int;
    let masks = access_plan::hit_masks(pattern, access_plan::file_base(f));
    access_plan::lemma_row_groups();
    assert(ROW_GROUP_SIZE == 131_072);
    access_plan::law_row_groups_cut_the_file(g, row);
    law_plan_reads_what_was_asked(repr, masks, g);
    let k = row - access_plan::group_start(g);
    assert(masks[g][k] == workload::hit(
        pattern,
        access_plan::file_base(f) + access_plan::group_start(g) + k,
    ));
}

/// Where the body column of `pattern` stands among the columns of the dataset.
pub open spec fn body_position(pattern: Pattern) -> int {
    match pattern {
        Pattern::Fragmented => 1,
        Pattern::Clustered => 2,
    }
}

/// The column that the query searches is the body column of the pattern in the
/// schema as in the batches.
pub proof fn law_body_columns_stand_in_the_schema(pattern: Pattern, start: u64, n: nat)
    ensures
        dataset::dataset_fields()[body_position(pattern)].name == workload::body_column_name(
            pattern,
        ),
        dataset::dataset_columns(start, n)[body_position(pattern)].name
            == workload::body_column_name(pattern),
        dataset::dataset_columns(start, n).len() == dataset::dataset_fields().len(),
{
}

/// The plan of a file answers the predicate of the query: of row group `g`, which is
/// written as one batch, it reads row `k` exactly where the body of that row, in the
/// column of the pattern, holds the token, upper and lower case taken as one.
pub proof fn law_plans_answer_the_predicate(
    repr: PlanRepr,
    pattern: Pattern,
    f: int,
    g: int,
    k: int,
)
    requires
        0 <= f,
        access_plan::file_in_range(f),
        0 <= g < access_plan::row_groups(),
        0 <= k < group_rows(g),
    ensures
        ({
            let start = (access_plan::file_base(f) + access_plan::group_start(g)) as u64;
            let columns = dataset::dataset_columns(start, group_rows(g));
            &&& columns[body_position(pattern)].values matches batch::Column::Text(bodies)
            &&& rows_read(file_access(repr, pattern, f, g), group_rows(g))[k]
                <==> dataset::contains_ignoring_case(bodies[k], HIT_TOKEN_UPPER@)
        }),
{
    let row = access_plan::group_start(g) + k;
    access_plan::law_row_groups_cut_the_file(g, row);
    law_plans_read_the_hits(repr, pattern, f, row);
    let i = (access_plan::file_base(f) + row) as u64;
    dataset::law_token_marks_hits(i, workload::hit(pattern, i as int));
}

/// A hit stands among the next two super blocks of rows, under either pattern.
proof fn lemma_hit_ahead(pattern: Pattern, base: int) -> (k: int)
    requires
        0 <= base,
    ensures
        0 <= k < 2 * SUPER_BLOCK,
        workload::hit(pattern, base + k),
{
    match pattern {
        Pattern::Fragmented => (3 - base % 3) % 3,
        Pattern::Clustered => {
            let block = base / 24_576 + 1;
            let offset = workload::run_start(block);
            let row = block * 24_576 + offset;
            assert(0 <= offset < 8192);
            assert(row / 24_576 == block && row % 24_576 == offset);
            assert(workload::run_len(block) > 0);
            assert(SUPER_BLOCK == 24_576);
            row - base
        },
    }
}

/// Every file has hits under either pattern, so none is left without a plan that
/// reads something.
pub proof fn law_every_file_has_hits(repr: PlanRepr, pattern: Pattern, f: int)
    requires
        0 <= f,
        access_plan::file_in_range(f),
    ensures
        file_access(repr, pattern, f, 0) is Select,
{
    let base = access_plan::file_base(f);
    let bits = access_plan::hit_masks(pattern, base)[0];
    access_plan::lemma_row_groups();
    let k = lemma_hit_ahead(pattern, base);
    assert(bits[k] == workload::hit(pattern, base + access_plan::group_start(0) + k));
    assert(access_plan::any_set(bits));
}

/// Of a file without hits nothing is read, and the plan for it is the one that no ids
/// at all give, in either encoding.
pub proof fn law_files_without_hits_are_not_read(repr: PlanRepr, g: int)
    requires
        0 <= g < access_plan::row_groups(),
    ensures
        rows_read(access_plan::nothing_read()[g], group_rows(g)) == Seq::new(
            group_rows(g),
            |k: int| false,
        ),
        access_plan::planned(repr, access_plan::id_masks(Seq::empty()))
            == access_plan::nothing_read(),
{
    let masks = access_plan::id_masks(Seq::empty());
    assert forall|h: int| 0 <= h < masks.len() implies !access_plan::any_set(
        #[trigger] masks[h],
    ) by {}
    assert(access_plan::planned(repr, masks) =~= access_plan::nothing_read());
}

// ---------------------------------------------------------------------------
// What the query counts
// ---------------------------------------------------------------------------

/// The plan of file `f` reads its row `row`.
pub open spec fn row_is_read(repr: PlanRepr, pattern: Pattern, f: int, row: int) -> bool {
    let g = row / ROW_GROUP_SIZE as int;
    rows_read(file_access(repr, pattern, f, g), group_rows(g))[row - access_plan::group_start(g)]
}

/// The number of row `row` of file `f` in the dataset.
pub open spec fn row_number(f: int, row: int) -> u64 {
    (access_plan::file_base(f) + row) as u64
}

/// Row `row` of file `f` meets the predicate of the query.
pub open spec fn row_matches(pattern: Pattern, f: int, row: int) -> bool {
    dataset::contains_ignoring_case(
        dataset::column_text(pattern, row_number(f, row)),
        HIT_TOKEN_UPPER@,
    )
}

/// How many of the first `rows` rows of file `f` are of `service` and are counted.
pub open spec fn file_count(
    service: Seq<char>,
    f: int,
    rows: nat,
    counted: spec_fn(int, int) -> bool,
) -> nat
    decreases rows,
{
    if rows == 0 {
        0
    } else {
        let row = rows - 1;
        let this = dataset::service_text(row_number(f, row)) == service && counted(f, row);
        file_count(service, f, row as nat, counted) + (if this {
            1nat
        } else {
            0nat
        })
    }
}

/// How many rows of the first `files` files are of `service` and are counted.
pub open spec fn service_count(
    service: Seq<char>,
    files: nat,
    counted: spec_fn(int, int) -> bool,
) -> nat
    decreases files,
{
    if files == 0 {
        0
    } else {
        service_count(service, (files - 1) as nat, counted) + file_count(
            service,
            files - 1,
            ROWS_PER_FILE as nat,
            counted,
        )
    }
}

/// The plan of a file reads a row exactly where the row meets the predicate.
proof fn lemma_read_rows_match(repr: PlanRepr, pattern: Pattern, f: int, row: int)
    requires
        0 <= f,
        access_plan::file_in_range(f),
        0 <= row < ROWS_PER_FILE,
    ensures
        row_is_read(repr, pattern, f, row) == row_matches(pattern, f, row),
{
    law_plans_read_the_hits(repr, pattern, f, row);
    let i = row_number(f, row);
    dataset::law_token_marks_hits(i, workload::hit(pattern, i as int));
}

proof fn lemma_file_counts_agree(
    repr: PlanRepr,
    pattern: Pattern,
    service: Seq<char>,
    f: int,
    rows: nat,
)
    requires
        0 <= f,
        access_plan::file_in_range(f),
        rows <= ROWS_PER_FILE,
    ensures
        file_count(service, f, rows, |h: int, row: int| row_is_read(repr, pattern, h, row))
            == file_count(service, f, rows, |h: int, row: int| row_matches(pattern, h, row)),
    decreases rows,
{
    if rows > 0 {
        lemma_file_counts_agree(repr, pattern, service, f, (rows - 1) as nat);
        lemma_read_rows_match(repr, pattern, f, rows - 1);
    }
}

/// With the index and without it the query has the same rows to count: for every
/// service the plans of the files read as many rows as meet the predicate, whichever
/// encoding they use.
pub proof fn law_index_keeps_the_counts(
    repr: PlanRepr,
    pattern: Pattern,
    service: Seq<char>,
    files: nat,
)
    requires
        files > 0 ==> access_plan::file_in_range(files - 1),
    ensures
        service_count(service, files, |f: int, row: int| row_is_read(repr, pattern, f, row))
            == service_count(service, files, |f: int, row: int| row_matches(pattern, f, row)),
    decreases files,
{
    if files > 0 {
        lemma_file_counts_agree(repr, pattern, service, files - 1, ROWS_PER_FILE as nat);
        law_index_keeps_the_counts(repr, pattern, service, (files - 1) as nat);
    }
}

// ---------------------------------------------------------------------------
// What a plan costs
// ---------------------------------------------------------------------------

/// Number of stretches of selected rows, counted by their ends.
pub open spec fn stretches(bits: Seq<bool>) -> nat
    decreases bits.len(),
{
    if bits.len() == 0 {
        0
    } else {
        stretches(bits.drop_first()) + (if bits[0] && (bits.len() == 1 || !bits[1]) {
            1nat
        } else {
            0nat
        })
    }
}

/// Number of selected rows.
pub open spec fn selected_rows(bits: Seq<bool>) -> nat
    decreases bits.len(),
{
    if bits.len() == 0 {
        0
    } else {
        selected_rows(bits.drop_first()) + (if bits[0] {
            1nat
        } else {
            0nat
        })
    }
}

/// 1 where `b` holds, else 0.
pub open spec fn one_if(b: bool) -> int {
    if b {
        1
    } else {
        0
    }
}

/// The leading run is one stretch where it is selected, and none where it is not.
proof fn lemma_lead_stretch(bits: Seq<bool>)
    requires
        bits.len() > 0,
    ensures
        stretches(bits) == stretches(bits.skip(row_runs::lead(bits) as int)) + one_if(bits[0]),
    decreases bits.len(),
{
    let tail = bits.drop_first();
    if bits.len() > 1 && bits[0] == bits[1] {
        lemma_lead_stretch(tail);
        row_runs::lemma_lead(tail);
        assert(bits.skip(row_runs::lead(bits) as int) =~= tail.skip(row_runs::lead(tail) as int));
    } else {
        assert(bits.skip(row_runs::lead(bits) as int) =~= tail);
    }
}

/// A bitmap costs two runs per stretch of selected rows, less one, and one more for
/// each end at which rows are skipped.
pub proof fn law_runs_count_stretches(bits: Seq<bool>)
    requires
        bits.len() > 0,
    ensures
        row_runs::rle(bits).len() == 2 * stretches(bits) + one_if(!bits[0]) + one_if(!bits.last())
            - 1,
    decreases bits.len(),
{
    row_runs::lemma_lead(bits);
    lemma_lead_stretch(bits);
    let n = row_runs::lead(bits) as int;
    let rest = bits.skip(n);
    if rest.len() > 0 {
        law_runs_count_stretches(rest);
        assert(rest[0] == bits[n]);
        assert(rest.last() == bits.last());
    } else {
        assert(bits.last() == bits[bits.len() - 1]);
        assert(row_runs::rle(rest).len() == 0);
        assert(stretches(rest) == 0);
    }
}

/// Where no two neighbouring rows are selected, every selected row is a stretch of
/// its own.
proof fn lemma_scattered(bits: Seq<bool>)
    requires
        forall|k: int| 0 <= k < bits.len() - 1 ==> !(#[trigger] bits[k] && bits[k + 1]),
    ensures
        stretches(bits) == selected_rows(bits),
    decreases bits.len(),
{
    if bits.len() > 0 {
        let tail = bits.drop_first();
        assert forall|k: int| 0 <= k < tail.len() - 1 implies !(#[trigger] tail[k] && tail[k
            + 1]) by {
            assert(tail[k] == bits[k + 1]);
            assert(tail[k + 1] == bits[k + 1 + 1]);
        }
        lemma_scattered(tail);
        if bits.len() > 1 {
            assert(!(bits[0] && bits[0int + 1]));
        }
    }
}

/// The hits of the `n` rows from row `start` on, one bit per row.
pub open spec fn window(pattern: Pattern, start: int, n: nat) -> Seq<bool> {
    Seq::new(n, |k: int| workload::hit(pattern, start + k))
}

proof fn lemma_window_tail(pattern: Pattern, start: int, n: nat)
    requires
        n > 0,
    ensures
        window(pattern, start, n).drop_first() == window(pattern, start + 1, (n - 1) as nat),
{
    assert(window(pattern, start, n).drop_first() =~= window(
        pattern,
        start + 1,
        (n - 1) as nat,
    ));
}

/// Under the fragmented pattern one row in three hits.
proof fn lemma_fragmented_rows(start: int, n: nat)
    requires
        0 <= start,
    ensures
        selected_rows(window(Pattern::Fragmented, start, n)) == (start + n + 2) / 3 - (start + 2)
            / 3,
    decreases n,
{
    if n > 0 {
        lemma_window_tail(Pattern::Fragmented, start, n);
        lemma_fragmented_rows(start + 1, (n - 1) as nat);
    }
}

/// Under the fragmented pattern every hit is a stretch of its own.
proof fn lemma_fragmented_stretches(start: int, n: nat)
    requires
        0 <= start,
    ensures
        stretches(window(Pattern::Fragmented, start, n)) == selected_rows(
            window(Pattern::Fragmented, start, n),
        ),
{
    let bits = window(Pattern::Fragmented, start, n);
    assert forall|k: int| 0 <= k < bits.len() - 1 implies !(#[trigger] bits[k] && bits[k + 1]) by {
        workload::law_fragmented_hits_every_third_row(start + k);
    }
    lemma_scattered(bits);
}

/// Where a stretch is there, some row is selected.
proof fn lemma_stretch_is_set(bits: Seq<bool>)
    requires
        stretches(bits) > 0,
    ensures
        access_plan::any_set(bits),
    decreases bits.len(),
{
    if !bits[0] {
        let tail = bits.drop_first();
        lemma_stretch_is_set(tail);
        let k = choose|k: int| 0 <= k < tail.len() && #[trigger] tail[k];
        assert(bits[k + 1]);
    }
}

/// Under the fragmented pattern a plan made of runs costs a run for each row that it
/// reads, and nearly as many between them: about two for every three rows of the row
/// group.
pub proof fn law_fragmented_runs_grow_with_the_hits(f: int, g: int)
    requires
        0 <= f,
        0 <= g < access_plan::row_groups(),
    ensures
        ({
            let bits = access_plan::hit_masks(Pattern::Fragmented, access_plan::file_base(f))[g];
            &&& stretches(bits) == selected_rows(bits)
            &&& group_rows(g) as int / 3 <= selected_rows(bits) <= group_rows(g) as int / 3 + 1
            &&& 2 * selected_rows(bits) - 1 <= access_plan::group_selectors(bits) <= 2
                * selected_rows(bits) + 1
        }),
{
    let base = access_plan::file_base(f);
    let bits = access_plan::hit_masks(Pattern::Fragmented, base)[g];
    let start = base + access_plan::group_start(g);
    let n = group_rows(g);
    assert(n >= 3) by {
        access_plan::lemma_row_groups();
        assert(access_plan::group_start(g) == g * 131_072);
        assert(access_plan::group_end(g) - access_plan::group_start(g) >= 3);
    }
    assert(0 <= start);
    assert(bits =~= window(Pattern::Fragmented, start, n));
    lemma_fragmented_stretches(start, n);
    lemma_fragmented_rows(start, n);
    law_runs_count_stretches(bits);
    lemma_stretch_is_set(bits);
}

/// The exact number of runs of some rows under the fragmented pattern.
proof fn lemma_fragmented_runs(start: int, n: nat)
    requires
        0 <= start,
        n >= 3,
    ensures
        access_plan::group_selectors(window(Pattern::Fragmented, start, n)) == 2 * ((start + n + 2)
            / 3 - (start + 2) / 3) + one_if(start % 3 != 0) + one_if((start + n - 1) % 3 != 0) - 1,
{
    let bits = window(Pattern::Fragmented, start, n);
    lemma_fragmented_stretches(start, n);
    lemma_fragmented_rows(start, n);
    law_runs_count_stretches(bits);
    lemma_stretch_is_set(bits);
    assert(bits[0] == workload::hit(Pattern::Fragmented, start + 0));
    assert(bits.last() == workload::hit(Pattern::Fragmented, start + (n - 1)));
}

/// The number of runs of `n` rows from `start` on, for the two sizes of row groups.
proof fn lemma_fragmented_sizes(start: int, n: int)
    requires
        0 <= start,
        n == 131_072 || n == 19_264,
    ensures
        2 * ((start + n + 2) / 3 - (start + 2) / 3) + one_if(start % 3 != 0) + one_if(
            (start + n - 1) % 3 != 0,
        ) - 1 == (if n == 19_264 {
            12_843
        } else if start % 3 == 1 {
            87_381
        } else {
            87_382int
        }),
{
}

/// Where a row group begins, modulo three.
proof fn lemma_group_residue(f: int, g: int)
    ensures
        (f * 5_000_000 + g * 131_072) % 3 == 1 <==> (f + g) % 3 == 2,
{
}

/// What row group `g` of file `f` costs in runs under the fragmented pattern: it
/// depends on where the file's first hit stands.
proof fn lemma_fragmented_group(f: int, g: int)
    requires
        0 <= f,
        0 <= g < access_plan::row_groups(),
    ensures
        access_plan::group_selectors(
            access_plan::hit_masks(Pattern::Fragmented, access_plan::file_base(f))[g],
        ) == (if g == 38 {
            12_843
        } else if (f + g) % 3 == 2 {
            87_381
        } else {
            87_382int
        }),
{
    let base = access_plan::file_base(f);
    let start = base + access_plan::group_start(g);
    let n = group_rows(g);
    access_plan::law_files_follow_one_another(f, g);
    assert(n == (if g == 38 {
        19_264int
    } else {
        131_072int
    }));
    assert(access_plan::hit_masks(Pattern::Fragmented, base)[g] =~= window(
        Pattern::Fragmented,
        start,
        n,
    ));
    lemma_fragmented_runs(start, n);
    lemma_fragmented_sizes(start, n as int);
    lemma_group_residue(f, g);
}

/// What the first `n` row groups of file `f` cost, short of the last one.
proof fn lemma_fragmented_groups(f: int, costs: Seq<nat>, n: int)
    requires
        0 <= f,
        0 <= n <= 38 < costs.len(),
        forall|g: int|
            0 <= g < 38 ==> #[trigger] costs[g] == (if (f + g) % 3 == 2 {
                87_381
            } else {
                87_382int
            }),
    ensures
        access_plan::total(costs.take(n)) == 87_382 * n - (n + f % 3) / 3,
    decreases n,
{
    if n > 0 {
        lemma_fragmented_groups(f, costs, n - 1);
        assert(costs.take(n).drop_last() =~= costs.take(n - 1));
        assert(costs.take(n).last() == costs[n - 1]);
    }
}

/// Under the fragmented pattern the plan of a file costs exactly 3,333,346 runs, and one
/// more where the number of the file is divisible by three.
pub proof fn law_fragmented_files_cost_exactly(f: int)
    requires
        0 <= f,
    ensures
        access_plan::selector_total(
            access_plan::hit_masks(Pattern::Fragmented, access_plan::file_base(f)),
        ) == 3_333_346 + one_if(f % 3 == 0),
{
    let masks = access_plan::hit_masks(Pattern::Fragmented, access_plan::file_base(f));
    let costs = Seq::new(masks.len(), |g: int| access_plan::group_selectors(masks[g]));
    access_plan::lemma_row_groups();
    assert forall|g: int| 0 <= g < 38 implies #[trigger] costs[g] == (if (f + g) % 3 == 2 {
        87_381
    } else {
        87_382int
    }) by {
        lemma_fragmented_group(f, g);
    }
    lemma_fragmented_group(f, 38);
    lemma_fragmented_groups(f, costs, 38);
    assert(costs.drop_last() =~= costs.take(38));
    assert(costs.last() == costs[38]);
}

/// Under the fragmented pattern the plans of all files cost exactly 3,333,346 runs each,
/// and one more for every third file: 133,333,854 runs for 40 files, 333,334,634 for 100.
pub proof fn law_fragmented_plans_cost_exactly(built: Seq<BuiltPlan>, files: nat)
    requires
        files <= built.len(),
        forall|f: int|
            0 <= f < files ==> (#[trigger] built[f]).selectors == access_plan::selector_total(
                access_plan::hit_masks(Pattern::Fragmented, access_plan::file_base(f)),
            ),
    ensures
        report::selector_sum(built, files) == 3_333_346 * files + (files + 2) / 3,
        files == 40 ==> report::selector_sum(built, files) == 133_333_854,
        files == 100 ==> report::selector_sum(built, files) == 333_334_634,
    decreases files,
{
    if files > 0 {
        law_fragmented_plans_cost_exactly(built, (files - 1) as nat);
        law_fragmented_files_cost_exactly(files - 1);
        assert(built[files - 1].selectors == 3_333_346 + one_if((files - 1) % 3 == 0));
    }
}

/// Row `i` stands before the end of the run of its super block.
spec fn before_run_end(i: int) -> bool {
    let block = i / SUPER_BLOCK as int;
    let offset = i % SUPER_BLOCK as int;
    offset < workload::run_start(block) + workload::run_len(block)
}

/// Under the clustered pattern each super block ends at most one stretch.
proof fn lemma_clustered_stretches(start: int, n: nat)
    requires
        0 <= start,
        start + n <= u64::MAX,
        n > 0,
    ensures
        stretches(window(Pattern::Clustered, start, n)) <= (start + n - 1) / SUPER_BLOCK as int
            - start / SUPER_BLOCK as int + one_if(before_run_end(start)),
    decreases n,
{
    let bits = window(Pattern::Clustered, start, n);
    let block = start / SUPER_BLOCK as int;
    workload::law_clustered_block_has_one_run(block);
    if n == 1 {
        assert(bits.drop_first().len() == 0);
        assert(stretches(bits.drop_first()) == 0);
    } else {
        lemma_window_tail(Pattern::Clustered, start, n);
        lemma_clustered_stretches(start + 1, (n - 1) as nat);
        assert(bits[1] == workload::hit(Pattern::Clustered, start + 1));
        let next = (start + 1) / SUPER_BLOCK as int;
        if start % SUPER_BLOCK as int + 1 < SUPER_BLOCK {
            assert(next == block);
            assert((start + 1) % SUPER_BLOCK as int == start % SUPER_BLOCK as int + 1);
        } else {
            assert(next == block + 1);
        }
    }
}

/// Under the clustered pattern a plan made of runs costs a few runs per super block,
/// however many rows it reads: at most fifteen for a row group.
pub proof fn law_clustered_runs_stay_few(f: int, g: int)
    requires
        0 <= f,
        access_plan::file_in_range(f),
        0 <= g < access_plan::row_groups(),
    ensures
        ({
            let bits = access_plan::hit_masks(Pattern::Clustered, access_plan::file_base(f))[g];
            &&& stretches(bits) <= (group_rows(g) + SUPER_BLOCK - 2) / SUPER_BLOCK as int + 1
            &&& access_plan::group_selectors(bits) <= 15
        }),
{
    let base = access_plan::file_base(f);
    let bits = access_plan::hit_masks(Pattern::Clustered, base)[g];
    let start = base + access_plan::group_start(g);
    let n = group_rows(g);
    access_plan::law_row_groups_cut_the_file(g, 0);
    assert(bits =~= window(Pattern::Clustered, start, n));
    lemma_clustered_stretches(start, n);
    law_runs_count_stretches(bits);
}

/// A plan made of bitmaps costs one bit per row of each row group that it reads of,
/// and no runs, whatever is selected.
pub proof fn law_bitmaps_cost_one_bit_per_row(pattern: Pattern, f: int, g: int)
    requires
        0 <= f,
        0 <= g < access_plan::row_groups(),
    ensures
        file_access(PlanRepr::Bitmap, pattern, f, g) is Skip || (file_access(
            PlanRepr::Bitmap,
            pattern,
            f,
            g,
        ) matches GroupAccess::Select(Selection::Mask(bits)) && bits.len() == group_rows(g)),
{
    access_plan::law_row_groups_cut_the_file(g, 0);
}

} // verus!
