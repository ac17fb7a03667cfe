//! Per-file access plans: which rows of which row groups to read, encoded either
//! as runs or as bitmaps.
//!
//! - [`PlanRepr::Rle`]: select / skip runs. Costs one selector per run, so it
//!   grows with the matched rows where hits are scattered.
//! - [`PlanRepr::Bitmap`]: one bit per row, whatever is selected.

use vstd::prelude::*;
use vstd::slice::slice_subrange;
use arrow::array::builder::BooleanBufferBuilder;
use arrow::buffer::BooleanBuffer;
use datafusion_datasource_parquet::ParquetAccessPlan;
use parquet::arrow::arrow_reader::{RowSelection, RowSelector};
use rayon::iter::{IntoParallelIterator, ParallelIterator};
use crate::row_runs;
use crate::row_runs::{rle_runs, RowRun};
use crate::workload;
use crate::workload::{Pattern, ROWS_PER_FILE, ROW_GROUP_SIZE};

verus! {

// ---------------------------------------------------------------------------
// What the outside types hold
// ---------------------------------------------------------------------------

#[verifier::external_type_specification]
#[verifier::external_body]
pub struct ExParquetAccessPlan(ParquetAccessPlan);

#[verifier::external_type_specification]
#[verifier::external_body]
pub struct ExRowSelection(RowSelection);

#[verifier::external_type_specification]
#[verifier::external_body]
pub struct ExBooleanBufferBuilder(BooleanBufferBuilder);

#[verifier::external_type_specification]
#[verifier::external_body]
pub struct ExBooleanBuffer(BooleanBuffer);

/// How the rows of one row group are chosen: by runs or by a bitmap.
pub enum Selection {
    Runs(Seq<RowRun>),
    Mask(Seq<bool>),
}

/// What a plan does with one row group.
pub enum GroupAccess {
    /// Nothing of the row group is read.
    Skip,
    /// All of it is read.
    Scan,
    /// The selected rows are read.
    Select(Selection),
}

/// The accesses that `plan` holds, one per row group.
pub uninterp spec fn plan_groups(plan: ParquetAccessPlan) -> Seq<GroupAccess>;

/// The runs or the bits that `selection` holds.
pub uninterp spec fn selected(selection: RowSelection) -> Selection;

/// The bits that have been appended to `builder`.
pub uninterp spec fn builder_bits(builder: BooleanBufferBuilder) -> Seq<bool>;

/// The bits of `buffer`.
pub uninterp spec fn buffer_bits(buffer: BooleanBuffer) -> Seq<bool>;

/// `ParquetAccessPlan::new_none` makes a plan that skips every row group. It panics
/// on a number of row groups for which no vector can be had.
pub assume_specification[ ParquetAccessPlan::new_none ](row_group_count: usize) -> (plan:
    ParquetAccessPlan)
    requires
        row_group_count <= u16::MAX,
    ensures
        plan_groups(plan) == Seq::new(row_group_count as nat, |g: int| GroupAccess::Skip),
;

/// `ParquetAccessPlan::scan` sets one row group to be read as a whole. It panics
/// where there is no such row group.
pub assume_specification[ ParquetAccessPlan::scan ](plan: &mut ParquetAccessPlan, idx: usize)
    requires
        idx < plan_groups(*old(plan)).len(),
    ensures
        plan_groups(*final(plan)) == plan_groups(*old(plan)).update(idx as int, GroupAccess::Scan),
;

/// `ParquetAccessPlan::scan_selection` narrows a row group that is read as a whole
/// to `selection`, and leaves a skipped one skipped. It panics where there is no
/// such row group. What it makes of a row group that has a selection already, the
/// intersection of the two, is left out: such a row group is not passed to it.
pub assume_specification[ ParquetAccessPlan::scan_selection ](
    plan: &mut ParquetAccessPlan,
    idx: usize,
    selection: RowSelection,
)
    requires
        idx < plan_groups(*old(plan)).len(),
        !(plan_groups(*old(plan))[idx as int] is Select),
    ensures
        plan_groups(*final(plan)) == (if plan_groups(*old(plan))[idx as int] is Scan {
            plan_groups(*old(plan)).update(idx as int, GroupAccess::Select(selected(selection)))
        } else {
            plan_groups(*old(plan))
        }),
;

/// `RowSelection::from` on a vector of `RowSelector`s drops empty ones and combines
/// neighbours of one kind, so what it holds is the run-length encoding of the rows
/// that they describe. It panics where the combined row count does not fit.
#[verifier::external_body]
fn selection_from_runs(runs: Vec<RowRun>) -> (selection: RowSelection)
    requires
        row_runs::expand(runs@).len() <= usize::MAX,
    ensures
        selected(selection) == Selection::Runs(row_runs::rle(row_runs::expand(runs@))),
{
    let selectors: Vec<RowSelector> = runs.into_iter()
        .map(|run| RowSelector { row_count: run.rows, skip: run.skip })
        .collect();
    RowSelection::from(selectors)
}

/// `RowSelection::from_boolean_buffer` keeps the bitmap as it is.
pub assume_specification[ RowSelection::from_boolean_buffer ](mask: BooleanBuffer) -> (selection:
    RowSelection)
    ensures
        selected(selection) == Selection::Mask(buffer_bits(mask)),
;

/// `BooleanBufferBuilder::new` makes a builder without any bits.
pub assume_specification[ BooleanBufferBuilder::new ](capacity: usize) -> (builder:
    BooleanBufferBuilder)
    ensures
        builder_bits(builder) == Seq::<bool>::empty(),
;

/// `BooleanBufferBuilder::append_n` on a builder without bits makes it hold
/// `additional` bits of value `v`. Appending to bits that are there already is left
/// out.
pub assume_specification[ BooleanBufferBuilder::append_n ](
    builder: &mut BooleanBufferBuilder,
    additional: usize,
    v: bool,
)
    requires
        builder_bits(*old(builder)).len() == 0,
    ensures
        builder_bits(*final(builder)) == Seq::new(additional as nat, |k: int| v),
;

/// `BooleanBufferBuilder::set_bit` sets one of the bits that are there. It may
/// panic on an index beyond them.
pub assume_specification[ BooleanBufferBuilder::set_bit ](
    builder: &mut BooleanBufferBuilder,
    index: usize,
    v: bool,
)
    requires
        index < builder_bits(*old(builder)).len(),
    ensures
        builder_bits(*final(builder)) == builder_bits(*old(builder)).update(index as int, v),
;

/// `BooleanBufferBuilder::finish` hands out the bits and empties the builder.
pub assume_specification[ BooleanBufferBuilder::finish ](builder: &mut BooleanBufferBuilder) -> (
buffer: BooleanBuffer)
    ensures
        buffer_bits(buffer) == builder_bits(*old(builder)),
        builder_bits(*final(builder)) == Seq::<bool>::empty(),
;

/// Rayon's parallel map over the range `0..n`, collected into a vector: item `i`
/// is what one call of `build` on `i` returned, in the order of the range. Collecting
/// panics on a number of items for which no vector can be had.
#[verifier::external_body]
fn parallel_plans<F: Fn(usize) -> BuiltPlan + Sync + Send>(n: usize, build: F) -> (built: Vec<
    BuiltPlan,
>)
    requires
        n <= usize::MAX / 0x1000,
        forall|i: usize| i < n ==> call_requires(build, (i,)),
    ensures
        built@.len() == n,
        forall|i: int| 0 <= i < n ==> call_ensures(build, (i as usize,), #[trigger] built@[i]),
{
    (0..n).into_par_iter().map(build).collect()
}

// ---------------------------------------------------------------------------
// Row groups
// ---------------------------------------------------------------------------

/// Number of row groups in a data file.
pub open spec fn row_groups() -> int {
    (ROWS_PER_FILE + ROW_GROUP_SIZE - 1) / ROW_GROUP_SIZE as int
}

/// First row of row group `g`.
pub open spec fn group_start(g: int) -> int {
    g * ROW_GROUP_SIZE
}

/// One past the last row of row group `g`.
pub open spec fn group_end(g: int) -> int {
    if g * ROW_GROUP_SIZE + ROW_GROUP_SIZE < ROWS_PER_FILE {
        g * ROW_GROUP_SIZE + ROW_GROUP_SIZE
    } else {
        ROWS_PER_FILE as int
    }
}

/// A data file has 39 row groups.
pub proof fn lemma_row_groups()
    ensures
        row_groups() == 39,
{
}

/// The row groups cut a file into adjoining pieces of `ROW_GROUP_SIZE` rows, but
/// for the last one, and a row lies in the group that its number gives.
pub proof fn law_row_groups_cut_the_file(g: int, row: int)
    requires
        0 <= g < row_groups(),
    ensures
        0 <= group_start(g) < group_end(g) <= ROWS_PER_FILE,
        group_start(0) == 0,
        g + 1 < row_groups() ==> group_end(g) == group_start(g + 1) && group_end(g) - group_start(g)
            == ROW_GROUP_SIZE,
        group_end(row_groups() - 1) == ROWS_PER_FILE,
        0 <= row < ROWS_PER_FILE ==> (group_start(g) <= row < group_end(g) <==> row
            / ROW_GROUP_SIZE as int == g),
{
    lemma_row_groups();
}

/// The row ids of one row group: `ids[lo..hi]` of the ids they were taken from.
#[derive(Clone, Copy, Debug, PartialEq, Eq, Structural)]
pub struct GroupSpan {
    pub rg: usize,
    pub rg_start: usize,
    pub rg_end: usize,
    pub lo: usize,
    pub hi: usize,
}

/// `span` names a row group that has ids, and exactly its ids.
pub open spec fn span_fits(ids: Seq<u32>, span: GroupSpan) -> bool {
    &&& span.rg < row_groups()
    &&& span.rg_start == group_start(span.rg as int)
    &&& span.rg_end == group_end(span.rg as int)
    &&& span.lo < span.hi <= ids.len()
    &&& forall|i: int|
        0 <= i < ids.len() ==> (span.lo <= i < span.hi <==> span.rg_start <= #[trigger] ids[i]
            < span.rg_end)
}

/// `spans` are the row groups that have ids, in order, and between them they hold
/// every id.
pub open spec fn spans_fit(ids: Seq<u32>, spans: Seq<GroupSpan>) -> bool {
    &&& forall|s: int| 0 <= s < spans.len() ==> span_fits(ids, #[trigger] spans[s])
    &&& forall|s: int, t: int| 0 <= s < t < spans.len() ==> spans[s].rg < spans[t].rg
    &&& spans.len() == 0 <==> ids.len() == 0
    &&& spans.len() > 0 ==> spans[0].lo == 0 && spans.last().hi == ids.len()
    &&& forall|s: int| 0 < s < spans.len() ==> spans[s - 1].hi == (#[trigger] spans[s]).lo
}

/// Cuts sorted `ids` of one file into its row groups: one span for each row group
/// that has at least one id, in order.
pub fn row_group_spans(ids: &[u32]) -> (spans: Vec<GroupSpan>)
    requires
        row_runs::sorted(ids@),
        row_runs::within(ids@, 0, ROWS_PER_FILE as int),
    ensures
        spans_fit(ids@, spans@),
{
    let mut spans: Vec<GroupSpan> = Vec::new();
    let mut i: usize = 0;
    while i < ids.len()
        invariant
            row_runs::sorted(ids@),
            row_runs::within(ids@, 0, ROWS_PER_FILE as int),
            i <= ids@.len(),
            forall|s: int| 0 <= s < spans@.len() ==> span_fits(ids@, #[trigger] spans@[s]),
            forall|s: int, t: int| 0 <= s < t < spans@.len() ==> spans@[s].rg < spans@[t].rg,
            spans@.len() == 0 <==> i == 0,
            spans@.len() > 0 ==> spans@[0].lo == 0 && spans@.last().hi == i,
            forall|s: int| 0 < s < spans@.len() ==> spans@[s - 1].hi == (#[trigger] spans@[s]).lo,
            0 < i < ids@.len() ==> ids@[i as int] >= spans@.last().rg_end,
        decreases ids@.len() - i,
    {
        let ghost before = spans@;
        let rg: usize = ids[i] as usize / ROW_GROUP_SIZE;
        let rg_start: usize = rg * ROW_GROUP_SIZE;
        let rg_end: usize = if rg_start + ROW_GROUP_SIZE < ROWS_PER_FILE {
            rg_start + ROW_GROUP_SIZE
        } else {
            ROWS_PER_FILE
        };
        let lo: usize = i;
        proof {
            assert(rg_start <= ids@[lo as int] < rg_end);
            if lo > 0 {
                let last = before.last();
                assert(span_fits(ids@, last));
                assert(last.rg_end == group_end(last.rg as int));
                assert(last.rg < rg);
                assert(last.rg_end <= rg_start);
            }
        }
        while i < ids.len() && (ids[i] as usize) < rg_end
            invariant
                lo <= i <= ids@.len(),
                forall|k: int| lo <= k < i ==> #[trigger] ids@[k] < rg_end,
            decreases ids@.len() - i,
        {
            i += 1;
        }
        let span = GroupSpan { rg, rg_start, rg_end, lo, hi: i };
        proof {
            assert forall|k: int| 0 <= k < ids@.len() implies (lo <= k < i <==> rg_start
                <= #[trigger] ids@[k] < rg_end) by {
                if lo <= k < i {
                    assert(ids@[lo as int] <= ids@[k]);
                } else if k < lo {
                    let last = before.last();
                    assert(span_fits(ids@, last));
                    assert(ids@[k] <= ids@[lo - 1]);
                    assert(ids@[lo - 1] < last.rg_end);
                } else {
                    assert(ids@[i as int] <= ids@[k]);
                }
            }
            assert(span_fits(ids@, span));
        }
        spans.push(span);
    }
    spans
}

/// Every position among the ids lies in one of the spans.
proof fn lemma_covered(ids: Seq<u32>, spans: Seq<GroupSpan>, i: int, upto: int) -> (s: int)
    requires
        spans_fit(ids, spans),
        0 <= upto < spans.len(),
        0 <= i < spans[upto].hi,
    ensures
        0 <= s <= upto,
        spans[s].lo <= i < spans[s].hi,
    decreases upto,
{
    if spans[upto].lo <= i {
        upto
    } else {
        assert(upto > 0);
        assert(spans[upto - 1].hi == spans[upto].lo);
        lemma_covered(ids, spans, i, upto - 1)
    }
}

// ---------------------------------------------------------------------------
// Plans
// ---------------------------------------------------------------------------

/// How a plan encodes the rows to read.
#[derive(Clone, Copy, Debug, PartialEq, Eq, Structural)]
pub enum PlanRepr {
    Rle,
    Bitmap,
}

/// The plan of one file.
pub struct BuiltPlan {
    pub plan: ParquetAccessPlan,
    /// Number of runs in all its row groups (none where it holds bitmaps).
    pub selectors: usize,
}

/// Some row is selected.
pub open spec fn any_set(bits: Seq<bool>) -> bool {
    exists|k: int| 0 <= k < bits.len() && #[trigger] bits[k]
}

/// The access to a row group whose rows are selected as `bits` say: skipped where
/// nothing is selected, else the selection in the encoding asked for.
pub open spec fn access(repr: PlanRepr, bits: Seq<bool>) -> GroupAccess {
    if !any_set(bits) {
        GroupAccess::Skip
    } else {
        match repr {
            PlanRepr::Rle => GroupAccess::Select(Selection::Runs(row_runs::rle(bits))),
            PlanRepr::Bitmap => GroupAccess::Select(Selection::Mask(bits)),
        }
    }
}

/// The accesses for a file whose row groups are selected as `masks` say.
pub open spec fn planned(repr: PlanRepr, masks: Seq<Seq<bool>>) -> Seq<GroupAccess> {
    Seq::new(masks.len(), |g: int| access(repr, masks[g]))
}

/// Number of runs that a row group costs in a plan made of runs.
pub open spec fn group_selectors(bits: Seq<bool>) -> nat {
    if any_set(bits) {
        row_runs::rle(bits).len()
    } else {
        0
    }
}

/// The sum of `costs`.
pub open spec fn total(costs: Seq<nat>) -> nat
    decreases costs.len(),
{
    if costs.len() == 0 {
        0
    } else {
        total(costs.drop_last()) + costs.last()
    }
}

/// Number of runs that a file costs in a plan made of runs.
pub open spec fn selector_total(masks: Seq<Seq<bool>>) -> nat {
    total(Seq::new(masks.len(), |g: int| group_selectors(masks[g])))
}

/// Those of `ids` that lie in row group `g`.
pub open spec fn ids_in_group(ids: Seq<u32>, g: int) -> Seq<u32> {
    ids.filter(|id: u32| group_start(g) <= id < group_end(g))
}

/// The runs that reading off the ids of row group `g` gives.
pub open spec fn id_runs(ids: Seq<u32>, g: int) -> Seq<RowRun> {
    row_runs::runs_of(group_start(g), group_end(g), ids_in_group(ids, g))
}

/// The access to row group `g` by the runs of its ids: skipped where it has none.
pub open spec fn id_access(ids: Seq<u32>, g: int) -> GroupAccess {
    if ids_in_group(ids, g).len() == 0 {
        GroupAccess::Skip
    } else {
        GroupAccess::Select(Selection::Runs(row_runs::rle(row_runs::expand(id_runs(ids, g)))))
    }
}

/// Number of runs that row group `g` costs.
pub open spec fn id_selectors(ids: Seq<u32>, g: int) -> nat {
    if ids_in_group(ids, g).len() == 0 {
        0
    } else {
        id_runs(ids, g).len()
    }
}

/// Per row group of a file, one bit per row: whether the row is one of `ids`.
pub open spec fn id_masks(ids: Seq<u32>) -> Seq<Seq<bool>> {
    Seq::new(
        row_groups() as nat,
        |g: int| row_runs::mask(group_start(g), group_end(g), ids),
    )
}

/// Per row group of the file whose first row is row `base` of the dataset, one bit
/// per row: whether the row hits under `pattern`.
pub open spec fn hit_masks(pattern: Pattern, base: int) -> Seq<Seq<bool>> {
    Seq::new(
        row_groups() as nat,
        |g: int|
            Seq::new(
                (group_end(g) - group_start(g)) as nat,
                |k: int| workload::hit(pattern, base + group_start(g) + k),
            ),
    )
}

/// The first row of file `f` in the dataset.
pub open spec fn file_base(f: int) -> int {
    f * ROWS_PER_FILE
}

/// The rows of file `f` can be numbered.
pub open spec fn file_in_range(f: int) -> bool {
    f * ROWS_PER_FILE <= usize::MAX && f * ROWS_PER_FILE + ROWS_PER_FILE - 1 <= u64::MAX
}

/// Whether the rows of file `f` can be numbered.
pub fn can_number_rows(f: usize) -> (can: bool)
    ensures
        can == file_in_range(f as int),
{
    match f.checked_mul(ROWS_PER_FILE) {
        Some(base) => base as u64 <= u64::MAX - (ROWS_PER_FILE - 1) as u64,
        None => false,
    }
}

/// No id lies in row group `g`.
spec fn no_ids(ids: Seq<u32>, g: int) -> bool {
    forall|i: int| 0 <= i < ids.len() ==> !(group_start(g) <= #[trigger] ids[i] < group_end(g))
}

/// The row groups up to the next span have no ids.
proof fn lemma_none_between(ids: Seq<u32>, spans: Seq<GroupSpan>, s: int, g: int)
    requires
        spans_fit(ids, spans),
        0 <= s <= spans.len(),
        s > 0 ==> spans[s - 1].rg < g,
        s < spans.len() ==> g < spans[s].rg,
        0 <= g < row_groups(),
    ensures
        no_ids(ids, g),
{
    assert forall|i: int| 0 <= i < ids.len() implies !(group_start(g) <= #[trigger] ids[i]
        < group_end(g)) by {
        if group_start(g) <= ids[i] < group_end(g) {
            let t = lemma_covered(ids, spans, i, spans.len() - 1);
            assert(span_fits(ids, spans[t]));
            assert(spans[t].rg == g);
        }
    }
}

/// A row group without ids has no row selected.
proof fn lemma_none_set(ids: Seq<u32>, g: int)
    requires
        no_ids(ids, g),
        0 <= g < row_groups(),
    ensures
        !any_set(id_masks(ids)[g]),
{
    let bits = id_masks(ids)[g];
    if any_set(bits) {
        let k = choose|k: int| 0 <= k < bits.len() && #[trigger] bits[k];
        assert(row_runs::holds(ids, group_start(g) + k));
    }
}

/// Filtering by a condition that holds on one stretch only gives that stretch.
proof fn lemma_filter_stretch(ids: Seq<u32>, keep: spec_fn(u32) -> bool, lo: int, hi: int)
    requires
        0 <= lo <= hi <= ids.len(),
        forall|i: int| 0 <= i < ids.len() ==> (keep(#[trigger] ids[i]) <==> lo <= i < hi),
    ensures
        ids.filter(keep) == ids.subrange(lo, hi),
    decreases ids.len(),
{
    reveal(Seq::filter);
    if ids.len() > 0 {
        let shorter = ids.drop_last();
        let last = ids.len() - 1;
        assert forall|i: int| 0 <= i < shorter.len() implies (keep(#[trigger] shorter[i]) <==> lo
            <= i < hi) by {
            assert(shorter[i] == ids[i]);
        }
        if hi == ids.len() && lo < hi {
            assert forall|i: int| 0 <= i < shorter.len() implies (keep(#[trigger] shorter[i])
                <==> lo <= i < last) by {
                assert(shorter[i] == ids[i]);
            }
            lemma_filter_stretch(shorter, keep, lo, last);
            assert(keep(ids[last]));
            assert(ids.subrange(lo, hi) =~= shorter.subrange(lo, last).push(ids[last]));
        } else if hi == ids.len() {
            assert(!keep(ids[last]));
            lemma_filter_stretch(shorter, keep, 0, 0);
            assert(ids.subrange(lo, hi) =~= shorter.subrange(0, 0));
        } else {
            assert(!keep(ids[last]));
            lemma_filter_stretch(shorter, keep, lo, hi);
            assert(ids.subrange(lo, hi) =~= shorter.subrange(lo, hi));
        }
    } else {
        assert(ids.subrange(lo, hi) =~= ids.filter(keep));
    }
}

/// The ids of a row group are those of its span.
proof fn lemma_span_ids(ids: Seq<u32>, span: GroupSpan)
    requires
        span_fits(ids, span),
    ensures
        ids_in_group(ids, span.rg as int) == ids.subrange(span.lo as int, span.hi as int),
{
    let keep = |id: u32| group_start(span.rg as int) <= id < group_end(span.rg as int);
    lemma_filter_stretch(ids, keep, span.lo as int, span.hi as int);
}

/// The ids of a span give its row group's bits, and some of them are set.
proof fn lemma_span_bits(ids: Seq<u32>, span: GroupSpan)
    requires
        span_fits(ids, span),
    ensures
        row_runs::mask(
            span.rg_start as int,
            span.rg_end as int,
            ids.subrange(span.lo as int, span.hi as int),
        ) == id_masks(ids)[span.rg as int],
        any_set(id_masks(ids)[span.rg as int]),
        row_runs::within(
            ids.subrange(span.lo as int, span.hi as int),
            span.rg_start as int,
            span.rg_end as int,
        ),
{
    let here = ids.subrange(span.lo as int, span.hi as int);
    let bits = id_masks(ids)[span.rg as int];
    let own = row_runs::mask(span.rg_start as int, span.rg_end as int, here);
    law_row_groups_cut_the_file(span.rg as int, 0);
    assert forall|k: int| 0 <= k < bits.len() implies own[k] == bits[k] by {
        let row = span.rg_start + k;
        if row_runs::holds(ids, row) {
            let i = choose|i: int| 0 <= i < ids.len() && #[trigger] ids[i] == row;
            assert(here[i - span.lo] == row);
        }
        if row_runs::holds(here, row) {
            let i = choose|i: int| 0 <= i < here.len() && #[trigger] here[i] == row;
            assert(ids[i + span.lo] == row);
        }
    }
    assert(own =~= bits);
    assert forall|i: int| 0 <= i < here.len() implies span.rg_start <= #[trigger] here[i]
        < span.rg_end by {
        assert(here[i] == ids[i + span.lo]);
    }
    let first = ids[span.lo as int] - span.rg_start;
    assert(here[0] == ids[span.lo as int]);
    assert(bits[first]);
}

/// Row groups that cost nothing add nothing.
proof fn lemma_total_skips(costs: Seq<nat>, from: int, to: int)
    requires
        0 <= from <= to <= costs.len(),
        forall|g: int| from <= g < to ==> #[trigger] costs[g] == 0,
    ensures
        total(costs.take(to)) == total(costs.take(from)),
    decreases to - from,
{
    if from < to {
        lemma_total_skips(costs, from, to - 1);
        assert(costs.take(to).drop_last() =~= costs.take(to - 1));
        assert(costs.take(to).last() == costs[to - 1]);
    }
}

/// Increasing ids below `end` are at most `end` many.
proof fn lemma_id_count(ids: Seq<u32>, end: int, i: int)
    requires
        row_runs::increasing(ids),
        row_runs::within(ids, 0, end),
        0 <= i < ids.len(),
    ensures
        i <= ids[i] < end,
    decreases i,
{
    if i > 0 {
        lemma_id_count(ids, end, i - 1);
    }
}

/// Row groups done once the first `s` spans are: all up to the last of them.
spec fn groups_done(spans: Seq<GroupSpan>, s: int) -> int {
    if s == 0 {
        0
    } else {
        spans[s - 1].rg + 1
    }
}

/// Ids done once the first `s` spans are.
spec fn ids_done(spans: Seq<GroupSpan>, s: int) -> int {
    if s == 0 {
        0
    } else {
        spans[s - 1].hi as int
    }
}

/// `groups` is as `target` for each row group below `done`, and skips the others.
spec fn planned_upto(groups: Seq<GroupAccess>, target: Seq<GroupAccess>, done: int) -> bool {
    &&& groups.len() == target.len()
    &&& forall|g: int|
        0 <= g < groups.len() ==> #[trigger] groups[g] == (if g < done {
            target[g]
        } else {
            GroupAccess::Skip
        })
}

/// In `target`, and at `costs`, row groups without ids are skipped at no cost.
spec fn skips_for_free(ids: Seq<u32>, target: Seq<GroupAccess>, costs: Seq<nat>) -> bool {
    &&& target.len() == row_groups()
    &&& costs.len() == row_groups()
    &&& forall|g: int|
        #![trigger target[g]]
        #![trigger costs[g]]
        0 <= g < row_groups() && no_ids(ids, g) ==> target[g] == GroupAccess::Skip && costs[g] == 0
}

/// Handling one more span carries a plan on to the next row group with ids.
proof fn lemma_next_span(
    ids: Seq<u32>,
    spans: Seq<GroupSpan>,
    s: int,
    target: Seq<GroupAccess>,
    costs: Seq<nat>,
    before: Seq<GroupAccess>,
    after: Seq<GroupAccess>,
)
    requires
        spans_fit(ids, spans),
        0 <= s < spans.len(),
        skips_for_free(ids, target, costs),
        planned_upto(before, target, groups_done(spans, s)),
        after == before.update(spans[s].rg as int, target[spans[s].rg as int]),
    ensures
        planned_upto(after, target, groups_done(spans, s + 1)),
        total(costs.take(groups_done(spans, s + 1))) == total(costs.take(groups_done(spans, s)))
            + costs[spans[s].rg as int],
{
    let from = groups_done(spans, s);
    let rg = spans[s].rg as int;
    assert(span_fits(ids, spans[s]));
    assert forall|g: int| from <= g < rg implies #[trigger] costs[g] == 0 && target[g]
        == GroupAccess::Skip by {
        lemma_none_between(ids, spans, s, g);
    }
    lemma_total_skips(costs, from, rg);
    assert(costs.take(rg + 1).drop_last() =~= costs.take(rg));
    assert(costs.take(rg + 1).last() == costs[rg]);
    assert forall|g: int| 0 <= g < after.len() implies #[trigger] after[g] == (if g < rg + 1 {
        target[g]
    } else {
        GroupAccess::Skip
    }) by {
        if from <= g < rg {
            assert(costs[g] == 0);
        }
    }
}

/// With all spans handled the whole plan stands.
proof fn lemma_last_span(
    ids: Seq<u32>,
    spans: Seq<GroupSpan>,
    target: Seq<GroupAccess>,
    costs: Seq<nat>,
    groups: Seq<GroupAccess>,
)
    requires
        spans_fit(ids, spans),
        skips_for_free(ids, target, costs),
        planned_upto(groups, target, groups_done(spans, spans.len() as int)),
    ensures
        groups == target,
        total(costs.take(groups_done(spans, spans.len() as int))) == total(costs),
{
    let done = groups_done(spans, spans.len() as int);
    if spans.len() > 0 {
        assert(span_fits(ids, spans[spans.len() - 1]));
    }
    assert forall|g: int| done <= g < costs.len() implies #[trigger] costs[g] == 0 && target[g]
        == GroupAccess::Skip by {
        lemma_none_between(ids, spans, spans.len() as int, g);
    }
    lemma_total_skips(costs, done, costs.len() as int);
    assert(costs.take(costs.len() as int) =~= costs);
    assert forall|g: int| 0 <= g < groups.len() implies #[trigger] groups[g] == target[g] by {
        if done <= g {
            assert(costs[g] == 0);
        }
    }
    assert(groups =~= target);
}

/// The accesses to all row groups by the runs of their ids.
pub open spec fn id_accesses(ids: Seq<u32>) -> Seq<GroupAccess> {
    Seq::new(row_groups() as nat, |g: int| id_access(ids, g))
}

/// What each row group costs in runs.
pub open spec fn id_costs(ids: Seq<u32>) -> Seq<nat> {
    Seq::new(row_groups() as nat, |g: int| id_selectors(ids, g))
}

proof fn lemma_runs_skip(ids: Seq<u32>)
    ensures
        skips_for_free(ids, id_accesses(ids), id_costs(ids)),
{
    assert forall|g: int|
        #![trigger id_accesses(ids)[g]]
        #![trigger id_costs(ids)[g]]
        0 <= g < row_groups() && no_ids(ids, g) implies id_accesses(ids)[g] == GroupAccess::Skip
        && id_costs(ids)[g] == 0 by {
        let keep = |id: u32| group_start(g) <= id < group_end(g);
        lemma_filter_stretch(ids, keep, 0, 0);
    }
}

proof fn lemma_bitmaps_skip(ids: Seq<u32>)
    ensures
        skips_for_free(
            ids,
            planned(PlanRepr::Bitmap, id_masks(ids)),
            Seq::new(row_groups() as nat, |g: int| 0nat),
        ),
{
    let target = planned(PlanRepr::Bitmap, id_masks(ids));
    assert forall|g: int| 0 <= g < row_groups() && no_ids(ids, g) implies #[trigger] target[g]
        == GroupAccess::Skip by {
        lemma_none_set(ids, g);
    }
}

/// The plan made of the runs of increasing ids reads exactly the rows that they name,
/// each row group by the run-length encoding of its bitmap.
pub proof fn law_run_plans_encode_the_ids(ids: Seq<u32>)
    requires
        row_runs::increasing(ids),
    ensures
        id_accesses(ids) == planned(PlanRepr::Rle, id_masks(ids)),
        total(id_costs(ids)) == selector_total(id_masks(ids)),
{
    let masks = id_masks(ids);
    assert forall|g: int| 0 <= g < row_groups() implies id_access(ids, g) == access(
        PlanRepr::Rle,
        #[trigger] masks[g],
    ) && id_selectors(ids, g) == group_selectors(masks[g]) by {
        lemma_group_runs(ids, g);
    }
    assert(id_accesses(ids) =~= planned(PlanRepr::Rle, masks));
    assert(id_costs(ids) =~= Seq::new(masks.len(), |g: int| group_selectors(masks[g])));
}

/// As [`law_run_plans_encode_the_ids`], for one row group.
proof fn lemma_group_runs(ids: Seq<u32>, g: int)
    requires
        row_runs::increasing(ids),
        0 <= g < row_groups(),
    ensures
        id_access(ids, g) == access(PlanRepr::Rle, id_masks(ids)[g]),
        id_selectors(ids, g) == group_selectors(id_masks(ids)[g]),
{
    let bits = id_masks(ids)[g];
    let here = ids_in_group(ids, g);
    let start = group_start(g);
    let end = group_end(g);
    law_row_groups_cut_the_file(g, 0);
    lemma_filtered_ids(ids, |id: u32| start <= id < end);
    assert(here =~= ids.filter(|id: u32| start <= id < end));
    assert(row_runs::mask(start, end, here) =~= bits) by {
        let own = row_runs::mask(start, end, here);
        assert forall|k: int| 0 <= k < end - start implies #[trigger] own[k] == bits[k] by {
            if row_runs::holds(ids, start + k) {
                let i = choose|i: int| 0 <= i < ids.len() && #[trigger] ids[i] == start + k;
                assert(here.contains(ids[i]));
            }
            if row_runs::holds(here, start + k) {
                let i = choose|i: int| 0 <= i < here.len() && #[trigger] here[i] == start + k;
                assert(here.contains(here[i]));
                assert(ids.contains(here[i]));
            }
        }
    }
    assert(row_runs::within(here, start, end)) by {
        assert forall|i: int| 0 <= i < here.len() implies start <= #[trigger] here[i] < end by {
            assert(here.contains(here[i]));
        }
    }
    row_runs::law_runs_encode_the_bitmap(start, end, here);
    if here.len() > 0 {
        assert(row_runs::holds(here, here[0] as int));
        assert(bits[here[0] - start]);
    }
    if any_set(bits) {
        let k = choose|k: int| 0 <= k < bits.len() && #[trigger] bits[k];
        assert(row_runs::holds(here, start + k));
    }
}

/// Filtering keeps increasing ids increasing, and exactly those that are to be kept.
proof fn lemma_filtered_ids(ids: Seq<u32>, keep: spec_fn(u32) -> bool)
    requires
        row_runs::increasing(ids),
    ensures
        row_runs::increasing(ids.filter(keep)),
        forall|id: u32| #[trigger]
            ids.filter(keep).contains(id) <==> ids.contains(id) && keep(id),
    decreases ids.len(),
{
    reveal(Seq::filter);
    if ids.len() > 0 {
        let shorter = ids.drop_last();
        let last = ids.last();
        let kept = ids.filter(keep);
        let before = shorter.filter(keep);
        lemma_filtered_ids(shorter, keep);
        assert forall|id: u32| #[trigger] kept.contains(id) <==> ids.contains(id) && keep(id) by {
            if ids.contains(id) {
                let i = choose|i: int| 0 <= i < ids.len() && ids[i] == id;
                if i < shorter.len() {
                    assert(shorter[i] == id);
                    assert(shorter.contains(id));
                }
            }
            if shorter.contains(id) {
                let i = choose|i: int| 0 <= i < shorter.len() && shorter[i] == id;
                assert(ids[i] == id);
            }
            if before.contains(id) {
                let i = choose|i: int| 0 <= i < before.len() && before[i] == id;
                assert(kept[i] == id);
            }
            if keep(last) {
                assert(kept[before.len() as int] == last);
                assert(ids[ids.len() - 1] == last);
            }
            if kept.contains(id) {
                let i = choose|i: int| 0 <= i < kept.len() && kept[i] == id;
                if i < before.len() {
                    assert(before[i] == id);
                    assert(before.contains(id));
                }
            }
        }
        assert forall|i: int, j: int| 0 <= i < j < kept.len() implies kept[i] < kept[j] by {
            assert(kept[i] == before[i]);
            if j == before.len() {
                assert(before.contains(before[i]));
                assert(shorter.contains(before[i]));
                let k = choose|k: int| 0 <= k < shorter.len() && shorter[k] == before[i];
                assert(ids[k] < ids[ids.len() - 1]);
            }
        }
    }
}

fn row_group_count() -> (n: usize)
    ensures
        n == row_groups() == 39,
{
    proof {
        lemma_row_groups();
    }
    (ROWS_PER_FILE + ROW_GROUP_SIZE - 1) / ROW_GROUP_SIZE
}

/// The accesses for a file of which nothing is read: each row group is skipped.
pub open spec fn nothing_read() -> Seq<GroupAccess> {
    Seq::new(row_groups() as nat, |g: int| GroupAccess::Skip)
}

/// The plan for a file without hits.
pub fn empty_plan() -> (plan: ParquetAccessPlan)
    ensures
        plan_groups(plan) == nothing_read(),
{
    ParquetAccessPlan::new_none(row_group_count())
}

/// Builds the plan that reads the rows `ids` of one file by select / skip runs.
pub fn build_rle(ids: &[u32]) -> (built: BuiltPlan)
    requires
        row_runs::sorted(ids@),
        row_runs::within(ids@, 0, ROWS_PER_FILE as int),
        3 * ids@.len() <= usize::MAX,
    ensures
        plan_groups(built.plan) == id_accesses(ids@),
        built.selectors == total(id_costs(ids@)),
        row_runs::increasing(ids@) ==> {
            &&& plan_groups(built.plan) == planned(PlanRepr::Rle, id_masks(ids@))
            &&& built.selectors == selector_total(id_masks(ids@))
        },
{
    let mut plan = empty_plan();
    let mut selectors: usize = 0;
    let spans = row_group_spans(ids);
    let ghost target = id_accesses(ids@);
    let ghost costs = id_costs(ids@);
    proof {
        lemma_runs_skip(ids@);
        assert(costs.take(0) =~= Seq::<nat>::empty());
    }
    let mut s: usize = 0;
    while s < spans.len()
        invariant
            row_runs::sorted(ids@),
            3 * ids@.len() <= usize::MAX,
            spans_fit(ids@, spans@),
            target == id_accesses(ids@),
            costs == id_costs(ids@),
            skips_for_free(ids@, target, costs),
            s <= spans@.len(),
            planned_upto(plan_groups(plan), target, groups_done(spans@, s as int)),
            selectors == total(costs.take(groups_done(spans@, s as int))),
            selectors <= 3 * ids_done(spans@, s as int),
        decreases spans@.len() - s,
    {
        let span = spans[s];
        let ghost before = plan_groups(plan);
        assert(span_fits(ids@, span));
        assert(s > 0 ==> spans@[s - 1].hi == spans@[s as int].lo);
        let here = slice_subrange(ids, span.lo, span.hi);
        proof {
            law_row_groups_cut_the_file(span.rg as int, 0);
            lemma_span_ids(ids@, span);
            lemma_span_bits(ids@, span);
            row_runs::lemma_runs_size(span.rg_start as int, span.rg_end as int, here@);
        }
        let runs = rle_runs(span.rg_start, span.rg_end, here);
        selectors += runs.len();
        plan.scan(span.rg);
        let rows = selection_from_runs(runs);
        plan.scan_selection(span.rg, rows);
        proof {
            assert(plan_groups(plan) =~= before.update(span.rg as int, target[span.rg as int]));
            lemma_next_span(ids@, spans@, s as int, target, costs, before, plan_groups(plan));
        }
        s += 1;
    }
    proof {
        lemma_last_span(ids@, spans@, target, costs, plan_groups(plan));
        if row_runs::increasing(ids@) {
            law_run_plans_encode_the_ids(ids@);
        }
    }
    BuiltPlan { plan, selectors }
}

/// Builds the plan that reads the rows `ids` of one file by bitmaps.
pub fn build_bitmap(ids: &[u32]) -> (built: BuiltPlan)
    requires
        row_runs::sorted(ids@),
        row_runs::within(ids@, 0, ROWS_PER_FILE as int),
    ensures
        plan_groups(built.plan) == planned(PlanRepr::Bitmap, id_masks(ids@)),
        built.selectors == 0,
{
    let mut plan = empty_plan();
    let spans = row_group_spans(ids);
    let ghost target = planned(PlanRepr::Bitmap, id_masks(ids@));
    let ghost costs = Seq::new(row_groups() as nat, |g: int| 0nat);
    proof {
        lemma_bitmaps_skip(ids@);
    }
    let mut s: usize = 0;
    while s < spans.len()
        invariant
            spans_fit(ids@, spans@),
            target == planned(PlanRepr::Bitmap, id_masks(ids@)),
            skips_for_free(ids@, target, costs),
            s <= spans@.len(),
            planned_upto(plan_groups(plan), target, groups_done(spans@, s as int)),
        decreases spans@.len() - s,
    {
        let span = spans[s];
        let ghost before = plan_groups(plan);
        assert(span_fits(ids@, span));
        let here = slice_subrange(ids, span.lo, span.hi);
        proof {
            lemma_span_bits(ids@, span);
        }
        let bits = group_bitmap(span.rg_start, span.rg_end, here);
        plan.scan(span.rg);
        plan.scan_selection(span.rg, RowSelection::from_boolean_buffer(bits));
        proof {
            assert(plan_groups(plan) =~= before.update(span.rg as int, target[span.rg as int]));
            lemma_next_span(ids@, spans@, s as int, target, costs, before, plan_groups(plan));
        }
        s += 1;
    }
    proof {
        lemma_last_span(ids@, spans@, target, costs, plan_groups(plan));
    }
    BuiltPlan { plan, selectors: 0 }
}

/// One bit per row of `rg_start..rg_end`, set where the row is one of `ids`.
fn group_bitmap(rg_start: usize, rg_end: usize, ids: &[u32]) -> (bits: BooleanBuffer)
    requires
        rg_start <= rg_end,
        row_runs::within(ids@, rg_start as int, rg_end as int),
    ensures
        buffer_bits(bits) == row_runs::mask(rg_start as int, rg_end as int, ids@),
{
    let rg_rows: usize = rg_end - rg_start;
    let mut b = BooleanBufferBuilder::new(rg_rows);
    b.append_n(rg_rows, false);
    let mut i: usize = 0;
    assert(builder_bits(b) =~= row_runs::mask(rg_start as int, rg_end as int, ids@.take(0)));
    while i < ids.len()
        invariant
            rg_rows == rg_end - rg_start,
            row_runs::within(ids@, rg_start as int, rg_end as int),
            i <= ids@.len(),
            builder_bits(b) == row_runs::mask(
                rg_start as int,
                rg_end as int,
                ids@.take(i as int),
            ),
        decreases ids@.len() - i,
    {
        let ghost bits = builder_bits(b);
        b.set_bit(ids[i] as usize - rg_start, true);
        proof {
            let shorter = ids@.take(i as int);
            let longer = ids@.take(i + 1);
            let at = ids@[i as int] - rg_start;
            let target = row_runs::mask(rg_start as int, rg_end as int, longer);
            assert forall|k: int| 0 <= k < rg_rows implies #[trigger] builder_bits(b)[k]
                == target[k] by {
                assert(k != at ==> builder_bits(b)[k] == row_runs::holds(shorter, rg_start + k));
                if row_runs::holds(longer, rg_start + k) {
                    let j = choose|j: int|
                        0 <= j < longer.len() && #[trigger] longer[j] == rg_start + k;
                    if j < i {
                        assert(shorter[j] == rg_start + k);
                    }
                }
                if row_runs::holds(shorter, rg_start + k) {
                    let j = choose|j: int|
                        0 <= j < shorter.len() && #[trigger] shorter[j] == rg_start + k;
                    assert(longer[j] == rg_start + k);
                }
                assert(longer[i as int] == rg_start + at);
            }
            assert(builder_bits(b) =~= target);
        }
        i += 1;
    }
    assert(ids@.take(i as int) =~= ids@);
    b.finish()
}

/// The rows of file `f` that hit under `pat`, counted from the file's first row.
pub fn hit_ids(f: usize, pat: Pattern) -> (ids: Vec<u32>)
    requires
        file_in_range(f as int),
    ensures
        row_runs::increasing(ids@),
        row_runs::within(ids@, 0, ROWS_PER_FILE as int),
        forall|k: int|
            0 <= k < ROWS_PER_FILE ==> (#[trigger] row_runs::holds(ids@, k) <==> workload::hit(
                pat,
                file_base(f as int) + k,
            )),
{
    let base: u64 = (f * ROWS_PER_FILE) as u64;
    let mut ids: Vec<u32> = Vec::new();
    let mut k: u64 = 0;
    while k < ROWS_PER_FILE as u64
        invariant
            base == file_base(f as int),
            base + ROWS_PER_FILE - 1 <= u64::MAX,
            k <= ROWS_PER_FILE,
            row_runs::increasing(ids@),
            row_runs::within(ids@, 0, k as int),
            forall|j: int|
                0 <= j < k ==> (#[trigger] row_runs::holds(ids@, j) <==> workload::hit(
                    pat,
                    base + j,
                )),
        decreases ROWS_PER_FILE - k,
    {
        let ghost before = ids@;
        if pat.is_hit(base + k) {
            ids.push(k as u32);
        }
        proof {
            assert forall|j: int| 0 <= j < k + 1 implies (#[trigger] row_runs::holds(ids@, j)
                <==> workload::hit(pat, base + j)) by {
                if row_runs::holds(before, j) {
                    let i = choose|i: int| 0 <= i < before.len() && #[trigger] before[i] == j;
                    assert(ids@[i] == j);
                }
                if row_runs::holds(ids@, j) && j < k {
                    let i = choose|i: int| 0 <= i < ids@.len() && #[trigger] ids@[i] == j;
                    assert(before[i] == j);
                }
                if j == k && ids@.len() > before.len() {
                    assert(ids@[before.len() as int] == k);
                }
            }
        }
        k += 1;
    }
    ids
}

/// Builds the plan that reads the rows of file `f` that hit under `pat`.
pub fn build_plan(f: usize, pat: Pattern, repr: PlanRepr) -> (built: BuiltPlan)
    requires
        file_in_range(f as int),
    ensures
        plan_groups(built.plan) == planned(repr, hit_masks(pat, file_base(f as int))),
        built.selectors == (match repr {
            PlanRepr::Rle => selector_total(hit_masks(pat, file_base(f as int))),
            PlanRepr::Bitmap => 0,
        }),
{
    let ids = hit_ids(f, pat);
    proof {
        if ids@.len() > 0 {
            lemma_id_count(ids@, ROWS_PER_FILE as int, ids@.len() - 1);
        }
        let base = file_base(f as int);
        let own = id_masks(ids@);
        let hits = hit_masks(pat, base);
        assert forall|g: int| 0 <= g < row_groups() implies #[trigger] own[g] == hits[g] by {
            law_row_groups_cut_the_file(g, 0);
            assert forall|k: int| 0 <= k < own[g].len() implies own[g][k] == hits[g][k] by {
                assert(row_runs::holds(ids@, group_start(g) + k) <==> workload::hit(
                    pat,
                    base + (group_start(g) + k),
                ));
            }
            assert(own[g] =~= hits[g]);
        }
        assert(own =~= hits);
    }
    match repr {
        PlanRepr::Rle => build_rle(ids.as_slice()),
        PlanRepr::Bitmap => build_bitmap(ids.as_slice()),
    }
}

/// Builds one plan per file, in parallel across files.
pub fn build_plans(files: usize, pat: Pattern, repr: PlanRepr) -> (plans: Vec<BuiltPlan>)
    requires
        files > 0 ==> file_in_range(files - 1),
    ensures
        plans@.len() == files,
        forall|f: int|
            0 <= f < files ==> plan_groups((#[trigger] plans@[f]).plan) == planned(
                repr,
                hit_masks(pat, file_base(f)),
            ) && plans@[f].selectors == (match repr {
                PlanRepr::Rle => selector_total(hit_masks(pat, file_base(f))),
                PlanRepr::Bitmap => 0,
            }),
{
    let build = |f: usize| -> (built: BuiltPlan)
        requires
            file_in_range(f as int),
        ensures
            plan_groups(built.plan) == planned(repr, hit_masks(pat, file_base(f as int))),
            built.selectors == (match repr {
                PlanRepr::Rle => selector_total(hit_masks(pat, file_base(f as int))),
                PlanRepr::Bitmap => 0,
            }),
        {
            build_plan(f, pat, repr)
        };
    parallel_plans(files, build)
}

// ---------------------------------------------------------------------------
// What plans consist of
// ---------------------------------------------------------------------------

/// A file has five million rows in 39 row groups: 38 of 131,072 rows, and a last one
/// with the rest. The files follow one another in the dataset, and the rows of a file
/// can be numbered where the last of them still has a number in 64 bits.
pub proof fn law_files_follow_one_another(f: int, g: int)
    ensures
        row_groups() == 39,
        group_start(g) == 131_072 * g,
        g < 38 ==> group_end(g) == 131_072 * g + 131_072,
        g == 38 ==> group_end(g) == 5_000_000,
        file_base(f) == 5_000_000 * f,
        file_in_range(f) <==> 5_000_000 * f <= usize::MAX && 5_000_000 * f + 4_999_999
            <= 0xFFFF_FFFF_FFFF_FFFF,
{
    lemma_row_groups();
}

/// The bitmaps of a file mark exactly its ids, row group by row group.
pub proof fn law_file_masks_mark_the_ids(ids: Seq<u32>, g: int, k: int)
    requires
        0 <= g < 39,
        0 <= k < group_end(g) - group_start(g),
    ensures
        id_masks(ids).len() == 39,
        id_masks(ids)[g].len() == group_end(g) - group_start(g),
        id_masks(ids)[g][k] <==> exists|j: int|
            0 <= j < ids.len() && #[trigger] ids[j] == 131_072 * g + k,
{
    law_files_follow_one_another(0, g);
    row_runs::law_masks_mark_the_ids(group_start(g), group_end(g), ids, k);
}

/// The bitmaps of the hits of a file mark exactly the rows that hit.
pub proof fn law_hit_masks_mark_the_hits(pattern: Pattern, f: int, g: int, k: int)
    requires
        0 <= g < 39,
        0 <= k < group_end(g) - group_start(g),
    ensures
        hit_masks(pattern, file_base(f)).len() == 39,
        hit_masks(pattern, file_base(f))[g].len() == group_end(g) - group_start(g),
        hit_masks(pattern, file_base(f))[g][k] <==> workload::hit(
            pattern,
            5_000_000 * f + 131_072 * g + k,
        ),
{
    law_files_follow_one_another(f, g);
}

/// A row group of which no row is selected is skipped, and no other is. The others hold
/// what was asked for: alternating runs, none of them empty, or the bitmap itself.
pub proof fn law_encodings_keep_their_kind(masks: Seq<Seq<bool>>, g: int)
    requires
        0 <= g < masks.len(),
        masks[g].len() <= usize::MAX,
    ensures
        planned(PlanRepr::Rle, masks).len() == masks.len(),
        planned(PlanRepr::Bitmap, masks).len() == masks.len(),
        (forall|k: int| 0 <= k < masks[g].len() ==> !#[trigger] masks[g][k]) ==> planned(
            PlanRepr::Rle,
            masks,
        )[g] == GroupAccess::Skip && planned(PlanRepr::Bitmap, masks)[g] == GroupAccess::Skip,
        (exists|k: int| 0 <= k < masks[g].len() && #[trigger] masks[g][k]) ==> {
            &&& planned(PlanRepr::Bitmap, masks)[g] == GroupAccess::Select(
                Selection::Mask(masks[g]),
            )
            &&& planned(PlanRepr::Rle, masks)[g] matches GroupAccess::Select(Selection::Runs(runs))
            &&& row_runs::expand(runs) == masks[g]
            &&& forall|k: int| 0 <= k < runs.len() ==> (#[trigger] runs[k]).rows > 0
            &&& forall|k: int| 0 <= k < runs.len() - 1 ==> (#[trigger] runs[k]).skip != runs[k
                + 1].skip
        },
{
    row_runs::law_rle_decodes_to_its_bitmap(masks[g]);
}

/// Number of runs that one access holds.
pub open spec fn runs_held(access: GroupAccess) -> nat {
    match access {
        GroupAccess::Select(Selection::Runs(runs)) => runs.len(),
        _ => 0,
    }
}

/// The selectors counted for a plan are the runs that its row groups hold: one more row
/// group adds its own.
pub proof fn law_selectors_are_the_runs_held(masks: Seq<Seq<bool>>, bits: Seq<bool>)
    ensures
        selector_total(Seq::empty()) == 0,
        selector_total(masks.push(bits)) == selector_total(masks) + runs_held(
            planned(PlanRepr::Rle, masks.push(bits))[masks.len() as int],
        ),
{
    let longer = masks.push(bits);
    let costs = Seq::new(longer.len(), |g: int| group_selectors(longer[g]));
    assert(costs.drop_last() =~= Seq::new(masks.len(), |g: int| group_selectors(masks[g])));
}

/// The spans of sorted ids are their row groups: each id lies in the row group of its
/// span, which is its number divided by 131,072; spans adjoin, and follow the order of
/// the row groups.
pub proof fn law_spans_are_row_groups(ids: Seq<u32>, spans: Seq<GroupSpan>, s: int, i: int)
    requires
        spans_fit(ids, spans),
        0 <= s < spans.len(),
        0 <= i < ids.len(),
    ensures
        spans[s].rg < 39,
        spans[s].rg_start == 131_072 * spans[s].rg,
        spans[s].rg_end == (if spans[s].rg == 38 {
            5_000_000int
        } else {
            131_072 * spans[s].rg + 131_072
        }),
        spans[s].lo < spans[s].hi <= ids.len(),
        ids[i] < 5_000_000 ==> (spans[s].lo <= i < spans[s].hi <==> ids[i] / 131_072
            == spans[s].rg),
        s == 0 ==> spans[s].lo == 0,
        s > 0 ==> spans[s].lo == spans[s - 1].hi && spans[s - 1].rg < spans[s].rg,
        s + 1 == spans.len() ==> spans[s].hi == ids.len(),
{
    assert(span_fits(ids, spans[s]));
    lemma_row_groups();
    law_row_groups_cut_the_file(spans[s].rg as int, ids[i] as int);
    assert(ROW_GROUP_SIZE == 131_072);
}

/// A plan made of ids, repeated or not: the ids of a row group are kept in their order, a
/// row group without ids is skipped, and any other is read by the rows that the runs of
/// its ids describe, at the cost of those runs.
pub proof fn law_ids_are_read_by_their_runs(ids: Seq<u32>, id: u32, g: int)
    requires
        0 <= g < 39,
        row_runs::expand(
            row_runs::runs_of(group_start(g), group_end(g), ids_in_group(ids, g)),
        ).len() <= usize::MAX,
    ensures
        ids_in_group(Seq::empty(), g).len() == 0,
        ids_in_group(ids.push(id), g) == (if group_start(g) <= id < group_end(g) {
            ids_in_group(ids, g).push(id)
        } else {
            ids_in_group(ids, g)
        }),
        id_accesses(ids).len() == 39,
        id_costs(ids).len() == 39,
        ids_in_group(ids, g).len() == 0 ==> id_accesses(ids)[g] == GroupAccess::Skip && id_costs(
            ids,
        )[g] == 0,
        ids_in_group(ids, g).len() > 0 ==> {
            let runs = row_runs::runs_of(group_start(g), group_end(g), ids_in_group(ids, g));
            &&& id_costs(ids)[g] == runs.len()
            &&& id_accesses(ids)[g] matches GroupAccess::Select(Selection::Runs(kept))
            &&& row_runs::expand(kept) == row_runs::expand(runs)
        },
{
    lemma_row_groups();
    reveal(Seq::filter);
    assert(ids.push(id).drop_last() =~= ids);
    row_runs::law_rle_decodes_to_its_bitmap(row_runs::expand(id_runs(ids, g)));
}

/// The costs add up: each adds its own.
pub proof fn law_costs_add_up(costs: Seq<nat>, cost: nat)
    ensures
        total(Seq::empty()) == 0,
        total(costs.push(cost)) == total(costs) + cost,
{
    assert(costs.push(cost).drop_last() =~= costs);
}

} // verus!
