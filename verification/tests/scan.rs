use datafusion_datasource::file_groups::FileGroup;
use datafusion_datasource::PartitionedFile;
use datafusion_datasource_parquet::ParquetAccessPlan;
use rle_bitmap_compare::access_plan::{build_plans, PlanRepr};
use rle_bitmap_compare::runner::{plans_by_file, NoFileId, PlanList};
use rle_bitmap_compare::scan::attach_to_groups;
use rle_bitmap_compare::Pattern;

fn group(locations: &[&str]) -> FileGroup {
    FileGroup::new(
        locations
            .iter()
            .map(|location| PartitionedFile::new(location.to_string(), 1))
            .collect(),
    )
}

fn plan_of(file: &PartitionedFile) -> Option<&ParquetAccessPlan> {
    file.extension::<ParquetAccessPlan>()
}

#[test]
fn every_file_of_a_scan_carries_its_plan() {
    let plans: PlanList = plans_by_file(build_plans(2, Pattern::Clustered, PlanRepr::Rle));
    let groups = vec![
        group(&["data-fts/part-0001.parquet", "data-fts/part-0000.parquet"]),
        group(&[]),
        group(&["data-fts/part-0002.parquet"]),
    ];
    let attached = attach_to_groups(&groups, &plans).unwrap();
    assert_eq!(attached.len(), 3);
    let first = attached[0].files();
    assert_eq!(first.len(), 2);
    assert_eq!(first[0].path().as_ref(), "data-fts/part-0001.parquet");
    assert_eq!(first[1].path().as_ref(), "data-fts/part-0000.parquet");
    assert_eq!(plan_of(&first[0]), plans[1].as_ref());
    assert_eq!(plan_of(&first[1]), plans[0].as_ref());
    assert!(plan_of(&first[0]).is_some());
    assert_ne!(plan_of(&first[0]), plan_of(&first[1]));
    assert!(attached[1].is_empty());
    let third = attached[2].files();
    assert_eq!(third.len(), 1);
    assert_eq!(plan_of(&third[0]), None);
    assert_eq!(third[0].object_meta.size, 1);
}

#[test]
fn a_plan_attached_before_is_replaced() {
    let plans: PlanList = vec![Some(ParquetAccessPlan::new_none(2)), None];
    let old = ParquetAccessPlan::new_all(2);
    let groups = vec![FileGroup::new(vec![
        PartitionedFile::new("part-0000.parquet", 1).with_extension(old.clone()),
        PartitionedFile::new("part-0001.parquet", 1).with_extension(old.clone()),
    ])];
    let attached = attach_to_groups(&groups, &plans).unwrap();
    assert_eq!(plan_of(&attached[0].files()[0]), plans[0].as_ref());
    assert_eq!(plan_of(&attached[0].files()[1]), Some(&ParquetAccessPlan::new_none(39)));
}

#[test]
fn nothing_is_read_of_a_file_without_hits() {
    let plans: PlanList = vec![None];
    let groups = vec![group(&["data-fts/part-0000.parquet"])];
    let attached = attach_to_groups(&groups, &plans).unwrap();
    let file = &attached[0].files()[0];
    assert_eq!(file.path().as_ref(), "data-fts/part-0000.parquet");
    assert_eq!(plan_of(file), Some(&ParquetAccessPlan::new_none(39)));
    assert!(plan_of(file).unwrap().row_group_indexes().is_empty());
}

#[test]
fn a_file_beyond_the_list_stays_as_it_was() {
    let plans: PlanList = vec![None];
    let old = ParquetAccessPlan::new_all(2);
    let groups = vec![FileGroup::new(vec![
        PartitionedFile::new("part-0001.parquet", 7),
        PartitionedFile::new("part-0002.parquet", 8).with_extension(old.clone()),
    ])];
    let attached = attach_to_groups(&groups, &plans).unwrap();
    let files = attached[0].files();
    assert_eq!(plan_of(&files[0]), None);
    assert_eq!(plan_of(&files[1]), Some(&old));
    assert_eq!((files[0].object_meta.size, files[1].object_meta.size), (7, 8));
}

#[test]
fn a_file_without_a_number_is_refused() {
    let plans: PlanList = Vec::new();
    let groups = vec![
        group(&["data-fts/part-0000.parquet"]),
        group(&["data-fts/part-0001.parquet", "data-fts/notes.txt"]),
    ];
    assert_eq!(attach_to_groups(&groups, &plans).err(), Some(NoFileId));
    assert!(attach_to_groups(&Vec::new(), &plans).unwrap().is_empty());
}
