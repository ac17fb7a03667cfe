//! Two encodings of "which rows of a row group to read": one bit per row, or
//! alternating select / skip runs.

use vstd::prelude::*;

verus! {

/// `rows` consecutive rows, either all skipped or all selected.
#[derive(Clone, Copy, Debug, PartialEq, Eq, Structural)]
pub struct RowRun {
    pub rows: usize,
    pub skip: bool,
}

/// A run of `rows` selected rows.
pub open spec fn select_run(rows: int) -> RowRun {
    RowRun { rows: rows as usize, skip: false }
}

/// A run of `rows` skipped rows.
pub open spec fn skip_run(rows: int) -> RowRun {
    RowRun { rows: rows as usize, skip: true }
}

/// The rows that `runs` describe, one bit per row: `true` where the row is selected.
pub open spec fn expand(runs: Seq<RowRun>) -> Seq<bool>
    decreases runs.len(),
{
    if runs.len() == 0 {
        Seq::empty()
    } else {
        Seq::new(runs[0].rows as nat, |k: int| !runs[0].skip) + expand(runs.drop_first())
    }
}

/// No run is empty and neighbouring runs differ in kind.
pub open spec fn normal(runs: Seq<RowRun>) -> bool {
    &&& forall|k: int| 0 <= k < runs.len() ==> (#[trigger] runs[k]).rows > 0
    &&& forall|k: int|
        0 <= k < runs.len() - 1 ==> (#[trigger] runs[k]).skip != runs[k + 1].skip
}

/// Number of leading bits that equal the first one.
pub open spec fn lead(bits: Seq<bool>) -> nat
    decreases bits.len(),
{
    if bits.len() <= 1 {
        bits.len()
    } else if bits[0] == bits[1] {
        1 + lead(bits.drop_first())
    } else {
        1
    }
}

/// The run-length encoding of `bits`: one run per maximal stretch of equal bits.
pub open spec fn rle(bits: Seq<bool>) -> Seq<RowRun>
    decreases bits.len(),
{
    if bits.len() == 0 {
        Seq::empty()
    } else {
        proof {
            lemma_lead(bits);
        }
        seq![RowRun { rows: lead(bits) as usize, skip: !bits[0] }] + rle(
            bits.skip(lead(bits) as int),
        )
    }
}

/// The leading run is a prefix of equal bits, and no longer one is.
pub proof fn lemma_lead(bits: Seq<bool>)
    ensures
        lead(bits) <= bits.len(),
        bits.len() > 0 ==> lead(bits) > 0,
        forall|k: int| 0 <= k < lead(bits) ==> #[trigger] bits[k] == bits[0],
        lead(bits) < bits.len() ==> bits[lead(bits) as int] != bits[0],
    decreases bits.len(),
{
    if bits.len() > 1 && bits[0] == bits[1] {
        let tail = bits.drop_first();
        lemma_lead(tail);
        assert forall|k: int| 0 <= k < lead(bits) implies #[trigger] bits[k] == bits[0] by {
            if k > 0 {
                assert(bits[k] == tail[k - 1]);
            }
        }
        assert(lead(bits) < bits.len() ==> bits[lead(bits) as int] == tail[lead(tail) as int]);
    }
}

/// The leading run of `n` equal bits ends where the first different bit stands.
proof fn lemma_lead_exact(bits: Seq<bool>, n: int)
    requires
        0 < n <= bits.len(),
        forall|k: int| 0 <= k < n ==> #[trigger] bits[k] == bits[0],
        n < bits.len() ==> bits[n] != bits[0],
    ensures
        lead(bits) == n,
{
    lemma_lead(bits);
    if lead(bits) < n {
        assert(bits[lead(bits) as int] == bits[0]);
    }
    if n < lead(bits) {
        assert(bits[n] == bits[0]);
    }
}

/// Decoding the run-length encoding of a bitmap gives the bitmap back, and the
/// encoding is normal: no empty run, neighbouring runs of different kinds.
pub proof fn law_rle_decodes_to_its_bitmap(bits: Seq<bool>)
    requires
        bits.len() <= usize::MAX,
    ensures
        expand(rle(bits)) == bits,
        normal(rle(bits)),
    decreases bits.len(),
{
    if bits.len() > 0 {
        lemma_lead(bits);
        let n = lead(bits) as int;
        let rest = bits.skip(n);
        law_rle_decodes_to_its_bitmap(rest);
        let runs = rle(bits);
        assert(runs.drop_first() =~= rle(rest));
        assert(expand(runs) =~= bits);
        if rest.len() > 0 {
            lemma_lead(rest);
            assert(rest[0] == bits[n]);
            assert(runs[1] == rle(rest)[0]);
        }
        assert forall|k: int| 0 <= k < runs.len() implies (#[trigger] runs[k]).rows > 0 by {
            if k > 0 {
                assert(runs[k] == rle(rest)[k - 1]);
            }
        }
        assert forall|k: int| 0 <= k < runs.len() - 1 implies (#[trigger] runs[k]).skip
            != runs[k + 1].skip by {
            if k > 0 {
                assert(runs[k] == rle(rest)[k - 1]);
                assert(runs[k + 1] == rle(rest)[k]);
            }
        }
    }
}

/// A bitmap has one normal encoding only: normal runs are the encoding of what
/// they expand to.
pub proof fn law_normal_runs_are_unique(runs: Seq<RowRun>)
    requires
        normal(runs),
    ensures
        rle(expand(runs)) == runs,
    decreases runs.len(),
{
    if runs.len() > 0 {
        let tail = runs.drop_first();
        let bits = expand(runs);
        let n = runs[0].rows as int;
        assert forall|k: int| 0 <= k < tail.len() implies (#[trigger] tail[k]).rows > 0 by {
            assert(tail[k] == runs[k + 1]);
        }
        assert forall|k: int| 0 <= k < tail.len() - 1 implies (#[trigger] tail[k]).skip != tail[k
            + 1].skip by {
            assert(tail[k] == runs[k + 1]);
            assert(tail[k + 1] == runs[k + 2]);
        }
        law_normal_runs_are_unique(tail);
        if tail.len() > 0 {
            assert(tail[0].rows > 0);
            assert(runs[0].skip != runs[0int + 1].skip);
            assert(expand(tail)[0] == !tail[0].skip);
            assert(bits[n] == expand(tail)[0]);
        }
        lemma_lead_exact(bits, n);
        assert(bits.skip(n) =~= expand(tail));
        assert(rle(bits) =~= runs);
    }
}

/// `row` is one of `ids`.
pub open spec fn holds(ids: Seq<u32>, row: int) -> bool {
    exists|j: int| 0 <= j < ids.len() && #[trigger] ids[j] == row
}

/// `ids` never decrease.
pub open spec fn sorted(ids: Seq<u32>) -> bool {
    forall|i: int, j: int| 0 <= i <= j < ids.len() ==> ids[i] <= ids[j]
}

/// `ids` increase from each to the next.
pub open spec fn increasing(ids: Seq<u32>) -> bool {
    forall|i: int, j: int| 0 <= i < j < ids.len() ==> ids[i] < ids[j]
}

/// Every id lies in `start..end`.
pub open spec fn within(ids: Seq<u32>, start: int, end: int) -> bool {
    forall|i: int| 0 <= i < ids.len() ==> start <= #[trigger] ids[i] < end
}

/// One bit per row of `start..end`: whether the row is one of `ids`.
pub open spec fn mask(start: int, end: int, ids: Seq<u32>) -> Seq<bool> {
    Seq::new((end - start) as nat, |k: int| holds(ids, start + k))
}

/// Number of leading ids that count up by one, as long as they stay below `end`.
pub open spec fn leading_run(ids: Seq<u32>, end: int) -> nat
    decreases ids.len(),
{
    if ids.len() >= 2 && ids[1] == ids[0] + 1 && ids[1] < end {
        1 + leading_run(ids.drop_first(), end)
    } else {
        1
    }
}

/// The skip run that leads from row `from` to row `to`, if there is a gap.
pub open spec fn gap(from: int, to: int) -> Seq<RowRun> {
    if from < to {
        seq![skip_run(to - from)]
    } else {
        Seq::empty()
    }
}

/// The runs that reading `ids` off from row `cursor` gives: for each stretch of
/// ids that count up by one, the gap before it and then its rows; at last the
/// gap up to `end`.
pub open spec fn runs_of(cursor: int, end: int, ids: Seq<u32>) -> Seq<RowRun>
    decreases ids.len(),
{
    if ids.len() == 0 {
        gap(cursor, end)
    } else {
        proof {
            lemma_leading_run(ids, end);
        }
        let n = leading_run(ids, end) as int;
        gap(cursor, ids[0] as int) + seq![select_run(n)] + runs_of(ids[0] + n, end, ids.skip(n))
    }
}

/// The leading run is a prefix of ids that count up by one, and it ends where
/// they stop doing so or reach `end`.
pub proof fn lemma_leading_run(ids: Seq<u32>, end: int)
    requires
        ids.len() > 0,
    ensures
        0 < leading_run(ids, end) <= ids.len(),
        forall|k: int| 0 <= k < leading_run(ids, end) ==> #[trigger] ids[k] == ids[0] + k,
        ({
            let n = leading_run(ids, end) as int;
            n < ids.len() ==> ids[n] != ids[0] + n || ids[n] >= end
        }),
    decreases ids.len(),
{
    if ids.len() >= 2 && ids[1] == ids[0] + 1 && ids[1] < end {
        let tail = ids.drop_first();
        lemma_leading_run(tail, end);
        assert forall|k: int| 0 <= k < leading_run(ids, end) implies #[trigger] ids[k] == ids[0]
            + k by {
            if k > 0 {
                assert(ids[k] == tail[k - 1]);
            }
        }
        let n = leading_run(ids, end) as int;
        if n < ids.len() {
            assert(ids[n] == tail[n - 1]);
        }
    }
}

/// The rows of a run in front of other runs come first.
proof fn lemma_expand_first(run: RowRun, more: Seq<RowRun>)
    ensures
        expand(seq![run] + more) == Seq::new(run.rows as nat, |k: int| !run.skip) + expand(more),
{
    let runs = seq![run] + more;
    assert(runs.drop_first() =~= more);
    assert(runs[0] == run);
}

/// The bitmap of increasing ids, cut at the first stretch of ids: the rows before
/// it, its own rows, and the bitmap of the other ids.
proof fn lemma_mask_cut(cursor: int, end: int, ids: Seq<u32>, n: int)
    requires
        0 <= cursor <= end,
        increasing(ids),
        within(ids, cursor, end),
        0 < n <= ids.len(),
        forall|k: int| 0 <= k < n ==> #[trigger] ids[k] == ids[0] + k,
    ensures
        ids[0] + n <= end,
        mask(cursor, end, ids) == Seq::new((ids[0] - cursor) as nat, |k: int| false) + (Seq::new(
            n as nat,
            |k: int| true,
        ) + mask(ids[0] + n, end, ids.skip(n))),
{
    let first = ids[0] as int;
    let next = first + n;
    let rest = ids.skip(n);
    let bits = mask(cursor, end, ids);
    let cut = Seq::new((first - cursor) as nat, |k: int| false) + (Seq::new(n as nat, |k: int| true)
        + mask(next, end, rest));
    assert(ids[n - 1] == next - 1);
    assert(bits.len() == cut.len());
    assert forall|k: int| 0 <= k < bits.len() implies bits[k] == cut[k] by {
        let row = cursor + k;
        assert(bits[k] == holds(ids, row));
        if row < first {
            assert(!holds(ids, row)) by {
                assert(forall|j: int| 0 <= j < ids.len() ==> ids[0] <= #[trigger] ids[j]);
            }
        } else if row < next {
            assert(ids[row - first] == row);
        } else {
            assert(cut[k] == mask(next, end, rest)[row - next]);
            if holds(ids, row) {
                let j = choose|j: int| 0 <= j < ids.len() && #[trigger] ids[j] == row;
                assert(j >= n);
                assert(rest[j - n] == row);
            }
            if holds(rest, row) {
                let j = choose|j: int| 0 <= j < rest.len() && #[trigger] rest[j] == row;
                assert(ids[j + n] == row);
            }
        }
    }
    assert(bits =~= cut);
}

/// A normal sequence of runs stays normal behind a run of the other kind.
proof fn lemma_normal_first(run: RowRun, more: Seq<RowRun>)
    requires
        run.rows > 0,
        normal(more),
        more.len() > 0 ==> more[0].skip != run.skip,
    ensures
        normal(seq![run] + more),
{
    let runs = seq![run] + more;
    assert forall|k: int| 0 <= k < runs.len() implies (#[trigger] runs[k]).rows > 0 by {
        if k > 0 {
            assert(runs[k] == more[k - 1]);
        }
    }
    assert forall|k: int| 0 <= k < runs.len() - 1 implies (#[trigger] runs[k]).skip != runs[k
        + 1].skip by {
        assert(runs[k + 1] == more[k]);
        if k > 0 {
            assert(runs[k] == more[k - 1]);
        }
    }
}

/// On increasing ids inside `cursor..end` the runs are normal and expand to the
/// bitmap of the ids; there are at most two per id, and one more.
proof fn lemma_runs_of(cursor: int, end: int, ids: Seq<u32>)
    requires
        0 <= cursor <= end <= usize::MAX,
        increasing(ids),
        within(ids, cursor, end),
    ensures
        expand(runs_of(cursor, end, ids)) == mask(cursor, end, ids),
        normal(runs_of(cursor, end, ids)),
        runs_of(cursor, end, ids).len() > 0 ==> runs_of(cursor, end, ids)[0].skip == !(ids.len() > 0
            && ids[0] == cursor),
        runs_of(cursor, end, ids).len() <= 2 * ids.len() + 1,
    decreases ids.len(),
{
    let runs = runs_of(cursor, end, ids);
    let none = Seq::<RowRun>::empty();
    assert(normal(none));
    if ids.len() == 0 {
        if cursor < end {
            lemma_expand_first(skip_run(end - cursor), none);
            lemma_normal_first(skip_run(end - cursor), none);
            assert(runs =~= seq![skip_run(end - cursor)] + none);
        }
        assert(expand(runs) =~= mask(cursor, end, ids));
    } else {
        lemma_leading_run(ids, end);
        let n = leading_run(ids, end) as int;
        let first = ids[0] as int;
        let next = first + n;
        let rest = ids.skip(n);
        assert(ids[n - 1] == next - 1);
        assert forall|i: int| 0 <= i < rest.len() implies next <= #[trigger] rest[i] < end by {
            assert(rest[i] == ids[i + n]);
            assert(ids[n - 1] < ids[i + n]);
        }
        if rest.len() > 0 {
            assert(rest[0] == ids[n]);
        }
        assert(increasing(rest));
        lemma_mask_cut(cursor, end, ids, n);
        lemma_runs_of(next, end, rest);
        let more = runs_of(next, end, rest);
        let tail = seq![select_run(n)] + more;
        lemma_expand_first(select_run(n), more);
        lemma_normal_first(select_run(n), more);
        if cursor < first {
            lemma_expand_first(skip_run(first - cursor), tail);
            lemma_normal_first(skip_run(first - cursor), tail);
            assert(runs =~= seq![skip_run(first - cursor)] + tail);
        } else {
            assert(runs =~= tail);
        }
        assert(expand(runs) =~= mask(cursor, end, ids));
    }
}

/// For the sorted row ids of a row group, the runs read off from the ids are the
/// run-length encoding of the group's bitmap. Their number is at most two per
/// id and one more, however many rows the group has.
pub proof fn law_runs_encode_the_bitmap(start: int, end: int, ids: Seq<u32>)
    requires
        0 <= start <= end <= usize::MAX,
        increasing(ids),
        within(ids, start, end),
    ensures
        runs_of(start, end, ids) == rle(mask(start, end, ids)),
        expand(runs_of(start, end, ids)) == mask(start, end, ids),
        runs_of(start, end, ids).len() <= 2 * ids.len() + 1,
{
    lemma_runs_of(start, end, ids);
    law_normal_runs_are_unique(runs_of(start, end, ids));
}

/// However often ids repeat, there are at most two runs per id and one more, and they
/// describe at most two rows per id more than the row group has.
pub proof fn lemma_runs_size(cursor: int, end: int, ids: Seq<u32>)
    requires
        0 <= cursor <= end <= usize::MAX,
        sorted(ids),
        within(ids, 0, end),
        ids.len() > 0 ==> cursor <= ids[0] + 1,
    ensures
        runs_of(cursor, end, ids).len() <= 2 * ids.len() + 1,
        expand(runs_of(cursor, end, ids)).len() <= end - cursor + 2 * ids.len(),
    decreases ids.len(),
{
    let none = Seq::<RowRun>::empty();
    if ids.len() == 0 {
        if cursor < end {
            lemma_expand_first(skip_run(end - cursor), none);
            assert(gap(cursor, end) =~= seq![skip_run(end - cursor)] + none);
        }
    } else {
        lemma_leading_run(ids, end);
        let n = leading_run(ids, end) as int;
        let first = ids[0] as int;
        let rest = ids.skip(n);
        assert(ids[n - 1] == first + n - 1);
        assert forall|i: int| 0 <= i < rest.len() implies 0 <= #[trigger] rest[i] < end by {
            assert(rest[i] == ids[i + n]);
        }
        if rest.len() > 0 {
            assert(rest[0] == ids[n]);
            assert(ids[n - 1] <= ids[n]);
        }
        lemma_runs_size(first + n, end, rest);
        let more = runs_of(first + n, end, rest);
        let tail = seq![select_run(n)] + more;
        lemma_expand_first(select_run(n), more);
        if cursor < first {
            lemma_expand_first(skip_run(first - cursor), tail);
            assert(runs_of(cursor, end, ids) =~= seq![skip_run(first - cursor)] + tail);
        } else {
            assert(runs_of(cursor, end, ids) =~= tail);
        }
    }
}

/// Converts sorted `ids` inside one row group into select / skip runs.
pub fn rle_runs(rg_start: usize, rg_end: usize, ids: &[u32]) -> (out: Vec<RowRun>)
    requires
        within(ids@, 0, usize::MAX as int),
    ensures
        out@ == runs_of(rg_start as int, rg_end as int, ids@),
        rg_start <= rg_end && increasing(ids@) && within(ids@, rg_start as int, rg_end as int)
            ==> out@ == rle(mask(rg_start as int, rg_end as int, ids@)),
{
    let mut out: Vec<RowRun> = Vec::new();
    let mut cursor: usize = rg_start;
    let mut i: usize = 0;
    assert(ids@.skip(0) =~= ids@);
    while i < ids.len()
        invariant
            within(ids@, 0, usize::MAX as int),
            i <= ids@.len(),
            out@ + runs_of(cursor as int, rg_end as int, ids@.skip(i as int)) == runs_of(
                rg_start as int,
                rg_end as int,
                ids@,
            ),
        decreases ids@.len() - i,
    {
        let ghost first = i as int;
        let ghost before = out@;
        let ghost from = cursor as int;
        let run_start = ids[i] as usize;
        let mut run_end: usize = run_start + 1;
        i += 1;
        while i < ids.len() && ids[i] as usize == run_end && run_end < rg_end
            invariant
                within(ids@, 0, usize::MAX as int),
                0 <= first < i <= ids@.len(),
                run_start == ids@[first],
                ids@[i - 1] + 1 == run_end,
                run_end == run_start + (i - first),
                leading_run(ids@.skip(first), rg_end as int) == (i - 1 - first) + leading_run(
                    ids@.skip(i - 1),
                    rg_end as int,
                ),
            decreases ids@.len() - i,
        {
            assert(ids@.skip(i - 1).drop_first() =~= ids@.skip(i as int));
            run_end += 1;
            i += 1;
        }
        proof {
            let here = ids@.skip(first);
            assert(leading_run(ids@.skip(i - 1), rg_end as int) == 1);
            assert(here.skip(i - first) =~= ids@.skip(i as int));
            assert(here[0] == run_start);
        }
        if run_start > cursor {
            out.push(RowRun { rows: run_start - cursor, skip: true });
        }
        out.push(RowRun { rows: run_end - run_start, skip: false });
        cursor = run_end;
        proof {
            let n = i - first;
            let more = runs_of(cursor as int, rg_end as int, ids@.skip(i as int));
            assert(out@ =~= before + gap(from, run_start as int) + seq![select_run(n)]);
            assert(out@ + more =~= before + (gap(from, run_start as int) + seq![select_run(n)]
                + more));
        }
    }
    proof {
        assert(ids@.skip(i as int).len() == 0);
    }
    if cursor < rg_end {
        out.push(RowRun { rows: rg_end - cursor, skip: true });
    }
    proof {
        if rg_start <= rg_end && increasing(ids@) && within(ids@, rg_start as int, rg_end as int) {
            law_runs_encode_the_bitmap(rg_start as int, rg_end as int, ids@);
        }
    }
    out
}

/// Runs describe their rows one run behind the other, each as many as it says, all
/// selected or all skipped.
pub proof fn law_runs_describe_their_rows(run: RowRun, more: Seq<RowRun>)
    ensures
        expand(Seq::empty()).len() == 0,
        expand(seq![run] + more).len() == run.rows + expand(more).len(),
        expand(seq![run] + more).skip(run.rows as int) == expand(more),
        forall|k: int| 0 <= k < run.rows ==> #[trigger] expand(seq![run] + more)[k] == !run.skip,
{
    lemma_expand_first(run, more);
    assert(expand(seq![run] + more).skip(run.rows as int) =~= expand(more));
}

/// A bitmap has one bit per row, set exactly where the row is among the ids.
pub proof fn law_masks_mark_the_ids(start: int, end: int, ids: Seq<u32>, k: int)
    requires
        0 <= k < end - start,
    ensures
        mask(start, end, ids).len() == end - start,
        mask(start, end, ids)[k] <==> exists|j: int|
            0 <= j < ids.len() && #[trigger] ids[j] == start + k,
{
}

/// Number of rows in the select runs of `runs`.
pub open spec fn rows_selected(runs: Seq<RowRun>) -> nat
    decreases runs.len(),
{
    if runs.len() == 0 {
        0
    } else {
        rows_selected(runs.drop_last()) + (if runs.last().skip {
            0nat
        } else {
            runs.last().rows as nat
        })
    }
}

proof fn lemma_rows_selected_joined(front: Seq<RowRun>, back: Seq<RowRun>)
    ensures
        rows_selected(front + back) == rows_selected(front) + rows_selected(back),
    decreases back.len(),
{
    if back.len() > 0 {
        lemma_rows_selected_joined(front, back.drop_last());
        assert((front + back).drop_last() =~= front + back.drop_last());
    } else {
        assert(front + back =~= front);
    }
}

/// Whatever the ids are, in order or not, the runs select one row for each of them, and
/// no run is empty.
pub proof fn law_runs_select_a_row_per_id(cursor: int, end: int, ids: Seq<u32>)
    requires
        0 <= cursor <= usize::MAX,
        0 <= end <= usize::MAX,
        within(ids, 0, usize::MAX as int),
    ensures
        rows_selected(runs_of(cursor, end, ids)) == ids.len(),
        forall|k: int|
            0 <= k < runs_of(cursor, end, ids).len() ==> (#[trigger] runs_of(
                cursor,
                end,
                ids,
            )[k]).rows > 0,
    decreases ids.len(),
{
    reveal_with_fuel(rows_selected, 3);
    let runs = runs_of(cursor, end, ids);
    if ids.len() == 0 {
        if cursor < end {
            assert(gap(cursor, end).drop_last() =~= Seq::empty());
        }
    } else {
        lemma_leading_run(ids, end);
        let n = leading_run(ids, end) as int;
        let first = ids[0] as int;
        let rest = ids.skip(n);
        assert(ids[n - 1] == first + n - 1);
        assert forall|i: int| 0 <= i < rest.len() implies 0 <= #[trigger] rest[i] < usize::MAX by {
            assert(rest[i] == ids[i + n]);
        }
        law_runs_select_a_row_per_id(first + n, end, rest);
        let more = runs_of(first + n, end, rest);
        let before = gap(cursor, first);
        if cursor < first {
            assert(before.drop_last() =~= Seq::empty());
        }
        assert(rows_selected(before) == 0);
        let own = seq![select_run(n)];
        assert(own.drop_last() =~= Seq::empty());
        assert(rows_selected(own) == n);
        lemma_rows_selected_joined(before, own);
        lemma_rows_selected_joined(before + own, more);
        assert forall|k: int| 0 <= k < runs.len() implies (#[trigger] runs[k]).rows > 0 by {
            if k >= before.len() + 1 {
                assert(runs[k] == more[k - before.len() - 1]);
            }
        }
    }
}

/// What is said of ids: that a row is among them, that they never decrease, that they
/// increase, and that they lie in a range.
pub proof fn law_ids_are_as_they_are_called(ids: Seq<u32>, row: u32, start: int, end: int)
    ensures
        holds(ids, row as int) <==> ids.contains(row),
        sorted(ids) <==> forall|i: int, j: int|
            0 <= i < j < ids.len() ==> #[trigger] ids[i] <= #[trigger] ids[j],
        increasing(ids) <==> forall|i: int, j: int|
            0 <= i < j < ids.len() ==> #[trigger] ids[i] < #[trigger] ids[j],
        within(ids, start, end) <==> forall|i: int|
            0 <= i < ids.len() ==> start <= #[trigger] ids[i] && ids[i] < end,
{
    if holds(ids, row as int) {
        let j = choose|j: int| 0 <= j < ids.len() && #[trigger] ids[j] == row;
        assert(ids[j] == row);
    }
    if ids.contains(row) {
        let j = choose|j: int| 0 <= j < ids.len() && ids[j] == row;
        assert(ids[j] == row as int);
    }
}

/// In the leading run all ids but the first are below `end`.
proof fn lemma_leading_run_below(ids: Seq<u32>, end: int)
    requires
        ids.len() > 0,
    ensures
        forall|k: int| 1 <= k < leading_run(ids, end) ==> #[trigger] ids[k] < end,
    decreases ids.len(),
{
    if ids.len() >= 2 && ids[1] == ids[0] + 1 && ids[1] < end {
        let tail = ids.drop_first();
        lemma_leading_run(ids, end);
        lemma_leading_run_below(tail, end);
        assert forall|k: int| 1 <= k < leading_run(ids, end) implies #[trigger] ids[k] < end by {
            if k > 1 {
                assert(ids[k] == tail[k - 1]);
            }
        }
    }
}

/// Where the first `n` ids count up by one below `end`, and no more of them do, the runs
/// begin with the gap before them, if there is one, and one run of `n` rows; the runs of
/// the other ids follow. Behind the last id there is only the gap up to `end`.
pub proof fn law_runs_follow_the_stretches(cursor: int, end: int, ids: Seq<u32>, n: int)
    requires
        0 < n <= ids.len(),
        forall|k: int| 0 <= k < n ==> #[trigger] ids[k] == ids[0] + k,
        forall|k: int| 1 <= k < n ==> #[trigger] ids[k] < end,
        n < ids.len() ==> ids[n] != ids[0] + n || ids[n] >= end,
    ensures
        runs_of(cursor, end, ids) == (if cursor < ids[0] {
            seq![RowRun { rows: (ids[0] - cursor) as usize, skip: true }]
        } else {
            Seq::empty()
        }) + seq![RowRun { rows: n as usize, skip: false }] + runs_of(
            ids[0] + n,
            end,
            ids.skip(n),
        ),
        runs_of(cursor, end, Seq::empty()) == (if cursor < end {
            seq![RowRun { rows: (end - cursor) as usize, skip: true }]
        } else {
            Seq::empty()
        }),
{
    lemma_leading_run(ids, end);
    lemma_leading_run_below(ids, end);
    let found = leading_run(ids, end) as int;
    if found < n {
        assert(ids[found] == ids[0] + found && ids[found] < end);
    }
    if n < found {
        assert(ids[n] == ids[0] + n && ids[n] < end);
    }
}

} // verus!
