use datafusion_datasource_parquet::{ParquetAccessPlan, RowGroupAccess};
use parquet::arrow::arrow_reader::{RowSelection, RowSelector};
use rayon::iter::{IntoParallelIterator, ParallelIterator};
use rle_bitmap_compare::access_plan::{
    build_bitmap, build_plan, build_plans, build_rle, can_number_rows, empty_plan, hit_ids,
    row_group_spans, GroupSpan, PlanRepr,
};
use rle_bitmap_compare::dataset::{bodies, service_name};
use rle_bitmap_compare::row_runs::{rle_runs, RowRun};
use rle_bitmap_compare::{Pattern, HIT_TOKEN_UPPER, ROWS_PER_FILE, ROW_GROUP_SIZE};
use std::collections::BTreeMap;

const GROUPS: usize = 39;

fn select(rows: usize) -> RowRun {
    RowRun { rows, skip: false }
}

fn skip(rows: usize) -> RowRun {
    RowRun { rows, skip: true }
}

fn group_rows(g: usize) -> usize {
    ROW_GROUP_SIZE.min(ROWS_PER_FILE - g * ROW_GROUP_SIZE)
}

/// The selectors of a row group, and whether it holds a bitmap.
fn selectors_of(selection: &RowSelection) -> (Vec<RowSelector>, bool) {
    (selection.clone().into(), selection.as_mask().is_some())
}

/// The rows that a plan reads.
fn rows_of(plan: &ParquetAccessPlan) -> Vec<u32> {
    let mut rows: Vec<u32> = Vec::new();
    for (g, access) in plan.inner().iter().enumerate() {
        let mut at = g * ROW_GROUP_SIZE;
        match access {
            RowGroupAccess::Skip => {}
            RowGroupAccess::Scan => rows.extend((at..at + group_rows(g)).map(|r| r as u32)),
            RowGroupAccess::Selection(selection) => {
                for selector in selectors_of(selection).0 {
                    if !selector.skip {
                        rows.extend((at..at + selector.row_count).map(|r| r as u32));
                    }
                    at += selector.row_count;
                }
                assert_eq!(at, g * ROW_GROUP_SIZE + group_rows(g));
            }
        }
    }
    rows
}

#[test]
fn runs_cover_a_row_group() {
    assert_eq!(rle_runs(0, 10, &[]), vec![skip(10)]);
    assert_eq!(rle_runs(0, 10, &[0, 1, 2, 3, 4, 5, 6, 7, 8, 9]), vec![select(10)]);
    assert_eq!(rle_runs(0, 10, &[0]), vec![select(1), skip(9)]);
    assert_eq!(rle_runs(0, 10, &[9]), vec![skip(9), select(1)]);
    assert_eq!(
        rle_runs(100, 110, &[101, 102, 105, 108]),
        vec![skip(1), select(2), skip(2), select(1), skip(2), select(1), skip(1)]
    );
    assert_eq!(rle_runs(7, 7, &[]), vec![]);
}

#[test]
fn runs_stop_at_the_end_of_the_row_group() {
    assert_eq!(rle_runs(0, 2, &[0, 1, 2, 3]), vec![select(2), select(1), select(1)]);
    assert_eq!(rle_runs(0, 4, &[1, 1]), vec![skip(1), select(1), select(1), skip(2)]);
    assert_eq!(rle_runs(4, 2, &[]), vec![]);
}

#[test]
fn ids_are_cut_by_row_group() {
    let ids = [0u32, 5, 131_071, 131_072, 400_000, 4_980_736, 4_999_999];
    let spans = row_group_spans(&ids);
    assert_eq!(
        spans,
        vec![
            GroupSpan { rg: 0, rg_start: 0, rg_end: 131_072, lo: 0, hi: 3 },
            GroupSpan { rg: 1, rg_start: 131_072, rg_end: 262_144, lo: 3, hi: 4 },
            GroupSpan { rg: 3, rg_start: 393_216, rg_end: 524_288, lo: 4, hi: 5 },
            GroupSpan { rg: 38, rg_start: 4_980_736, rg_end: 5_000_000, lo: 5, hi: 7 },
        ]
    );
    assert!(row_group_spans(&[]).is_empty());
}

#[test]
fn without_ids_nothing_is_read() {
    assert_eq!(empty_plan(), ParquetAccessPlan::new_none(GROUPS));
    assert!(rows_of(&empty_plan()).is_empty());
    for built in [build_rle(&[]), build_bitmap(&[])] {
        assert_eq!(built.plan, ParquetAccessPlan::new_none(GROUPS));
        assert_eq!(built.selectors, 0);
    }
}

#[test]
fn run_plans_hold_runs() {
    let ids = [0u32, 1, 2, 131_073, 4_999_999];
    let built = build_rle(&ids);
    assert_eq!(built.selectors, 2 + 3 + 2);
    assert_eq!(built.plan.len(), GROUPS);
    for (g, access) in built.plan.inner().iter().enumerate() {
        let expected = match g {
            0 => vec![RowSelector::select(3), RowSelector::skip(131_069)],
            1 => vec![RowSelector::skip(1), RowSelector::select(1), RowSelector::skip(131_070)],
            38 => vec![RowSelector::skip(19_263), RowSelector::select(1)],
            _ => {
                assert_eq!(access, &RowGroupAccess::Skip);
                continue;
            }
        };
        match access {
            RowGroupAccess::Selection(selection) => {
                assert_eq!(selectors_of(selection), (expected, false));
            }
            _ => panic!("row group {g} has no selection"),
        }
    }
    assert_eq!(rows_of(&built.plan), ids.to_vec());
}

#[test]
fn bitmap_plans_hold_one_bit_per_row() {
    let ids = [0u32, 1, 2, 131_073, 4_999_999];
    let built = build_bitmap(&ids);
    assert_eq!(built.selectors, 0);
    for (g, access) in built.plan.inner().iter().enumerate() {
        match access {
            RowGroupAccess::Selection(selection) => {
                let mask = selection.as_mask().unwrap();
                assert_eq!(mask.len(), group_rows(g));
                for k in 0..mask.len() {
                    assert_eq!(mask.value(k), ids.contains(&((g * ROW_GROUP_SIZE + k) as u32)));
                }
            }
            _ => {
                assert_eq!(access, &RowGroupAccess::Skip);
                assert!(g != 0 && g != 1 && g != 38);
            }
        }
    }
    assert_eq!(rows_of(&built.plan), ids.to_vec());
}

#[test]
fn repeated_ids_set_one_bit() {
    let built = build_bitmap(&[3, 3, 4]);
    assert_eq!(rows_of(&built.plan), vec![3, 4]);
}

#[test]
fn repeated_ids_stand_in_the_runs_as_often_as_given() {
    let built = build_rle(&[1, 1, 2]);
    assert_eq!(built.selectors, 4);
    match &built.plan.inner()[0] {
        RowGroupAccess::Selection(selection) => {
            let expected = vec![
                RowSelector::skip(1),
                RowSelector::select(3),
                RowSelector::skip(131_069),
            ];
            assert_eq!(selectors_of(selection), (expected, false));
        }
        _ => panic!("row group 0 has no selection"),
    }
}

#[test]
fn a_fully_selected_row_group_is_one_run() {
    let ids: Vec<u32> = (131_072..262_144).collect();
    let built = build_rle(&ids);
    assert_eq!(built.selectors, 1);
    assert_eq!(rows_of(&built.plan), ids);
    assert_eq!(rows_of(&build_bitmap(&ids).plan), ids);
}

#[test]
fn hits_are_counted_from_the_start_of_the_file() {
    let ids = hit_ids(1, Pattern::Fragmented);
    assert_eq!(ids.len(), 1_666_667);
    assert_eq!(&ids[..3], &[1, 4, 7]);
    let ids = hit_ids(0, Pattern::Clustered);
    assert_eq!(ids[0], 7407);
    assert_eq!(ids[9511 - 1], 7407 + 9511 - 1);
    assert_eq!(ids[9511], 24_576 + 4974);
}

#[test]
fn rows_are_numbered_in_64_bits() {
    assert!(can_number_rows(0));
    assert!(can_number_rows(100));
    let last = (u64::MAX - 4_999_999) / 5_000_000;
    assert!(can_number_rows(last as usize));
    assert!(!can_number_rows(last as usize + 1));
    assert!(!can_number_rows(usize::MAX));
}

#[test]
fn both_encodings_read_exactly_the_hits() {
    for pattern in [Pattern::Fragmented, Pattern::Clustered] {
        let hits = hit_ids(2, pattern);
        let rle = build_plan(2, pattern, PlanRepr::Rle);
        let bitmap = build_plan(2, pattern, PlanRepr::Bitmap);
        assert_eq!(rows_of(&rle.plan), hits);
        assert_eq!(rows_of(&bitmap.plan), hits);
        assert_eq!(bitmap.selectors, 0);
    }
}

#[test]
fn the_index_keeps_the_counts_of_the_services() {
    for pattern in [Pattern::Fragmented, Pattern::Clustered] {
        let mut filtered: BTreeMap<String, usize> = BTreeMap::new();
        for (row, line) in bodies(pattern, 0, ROW_GROUP_SIZE).iter().enumerate() {
            if line.to_uppercase().contains(HIT_TOKEN_UPPER) {
                *filtered.entry(service_name(row as u64)).or_default() += 1;
            }
        }
        for repr in [PlanRepr::Rle, PlanRepr::Bitmap] {
            let mut read: BTreeMap<String, usize> = BTreeMap::new();
            for row in rows_of(&build_plan(0, pattern, repr).plan) {
                if (row as usize) < ROW_GROUP_SIZE {
                    *read.entry(service_name(row as u64)).or_default() += 1;
                }
            }
            assert_eq!(read, filtered);
            assert_eq!(read.len(), 50);
        }
    }
}

#[test]
fn a_row_group_without_hits_is_skipped() {
    for repr in [PlanRepr::Rle, PlanRepr::Bitmap] {
        let built = build_plan(6, Pattern::Clustered, repr);
        assert_eq!(built.plan.inner()[38], RowGroupAccess::Skip);
        assert!(built.plan.inner()[..38].iter().all(|a| matches!(a, RowGroupAccess::Selection(_))));
    }
}

#[test]
fn plans_come_in_the_order_of_the_files() {
    let plans = build_plans(3, Pattern::Clustered, PlanRepr::Rle);
    assert_eq!(plans.len(), 3);
    for (f, built) in plans.iter().enumerate() {
        let alone = build_plan(f, Pattern::Clustered, PlanRepr::Rle);
        assert_eq!(built.plan, alone.plan);
        assert_eq!(built.selectors, alone.selectors);
    }
    assert!(build_plans(0, Pattern::Clustered, PlanRepr::Bitmap).is_empty());
}

#[test]
fn fragmented_selectors_of_the_whole_dataset() {
    let by_residue: Vec<usize> = (0..3)
        .map(|f| build_plan(f, Pattern::Fragmented, PlanRepr::Rle).selectors)
        .collect();
    assert_eq!(by_residue, vec![3_333_347, 3_333_346, 3_333_346]);
    let total = |files: usize| -> usize { (0..files).map(|f| by_residue[f % 3]).sum() };
    assert_eq!(total(40), 133_333_854);
    assert_eq!(total(100), 333_334_634);
}

#[test]
fn clustered_selectors_of_the_whole_dataset() {
    let plans = build_plans(40, Pattern::Clustered, PlanRepr::Rle);
    assert_eq!(plans[0].selectors, 446);
    assert_eq!(plans.iter().map(|p| p.selectors).sum::<usize>(), 17_834);
}

fn clustered_selectors(files: std::ops::Range<usize>) -> usize {
    files
        .into_par_iter()
        .map(|f| build_plan(f, Pattern::Clustered, PlanRepr::Rle).selectors)
        .sum()
}

#[test]
fn clustered_selectors_of_files_40_to_59() {
    assert_eq!(clustered_selectors(40..60), 8917);
}

#[test]
fn clustered_selectors_of_files_60_to_79() {
    assert_eq!(clustered_selectors(60..80), 8918);
}

#[test]
fn clustered_selectors_of_files_80_to_99() {
    assert_eq!(clustered_selectors(80..100), 8917);
    assert_eq!(17_834 + 8917 + 8918 + 8917, 44_586);
}

#[test]
fn clustered_row_groups_cost_few_selectors() {
    let built = build_plan(0, Pattern::Clustered, PlanRepr::Rle);
    for access in built.plan.inner() {
        match access {
            RowGroupAccess::Selection(selection) => assert!(selectors_of(selection).0.len() <= 15),
            _ => panic!("a row group without hits"),
        }
    }
}

#[test]
fn fragmented_row_groups_cost_a_selector_per_hit() {
    let built = build_plan(0, Pattern::Fragmented, PlanRepr::Rle);
    for (g, access) in built.plan.inner().iter().enumerate() {
        match access {
            RowGroupAccess::Selection(selection) => {
                let runs = selectors_of(selection).0;
                let selected = runs.iter().filter(|r| !r.skip).count();
                assert!(runs.iter().all(|r| r.skip || r.row_count == 1));
                assert!(selected == group_rows(g) / 3 || selected == group_rows(g) / 3 + 1);
                assert!(runs.len() + 1 >= 2 * selected && runs.len() <= 2 * selected + 1);
            }
            _ => panic!("a row group without hits"),
        }
    }
}
