use arrow::array::{ArrayRef, Int64Array, RecordBatch, StringArray};
use arrow::datatypes::{DataType, Field, Schema};
use rle_bitmap_compare::access_plan::{build_plans, PlanRepr};
use rle_bitmap_compare::batch::Batch;
use rle_bitmap_compare::file_path;
use rle_bitmap_compare::runner::{
    build_sql, entry_for_path, plans_by_file, plans_in_use, push_rows, NoFileId, PlanList, ResultRow,
    BATCH_SIZE,
};
use rle_bitmap_compare::Pattern;
use std::sync::Arc;

fn batch_of(names: &[&str], types: &[DataType], columns: Vec<ArrayRef>) -> Batch {
    let fields: Vec<Field> = names
        .iter()
        .zip(types)
        .map(|(name, kind)| Field::new(*name, kind.clone(), false))
        .collect();
    Batch {
        inner: RecordBatch::try_new(Arc::new(Schema::new(fields)), columns).unwrap(),
    }
}

#[test]
fn the_index_answers_the_predicate() {
    let indexed = "SELECT service_name, COUNT(*) AS cnt FROM t \
                   GROUP BY service_name ORDER BY cnt LIMIT 10";
    assert_eq!(build_sql(Pattern::Fragmented, true), indexed);
    assert_eq!(build_sql(Pattern::Clustered, true), indexed);
}

#[test]
fn without_index_the_query_filters() {
    assert_eq!(
        build_sql(Pattern::Fragmented, false),
        "SELECT service_name, COUNT(*) AS cnt FROM t \
         WHERE body_fragmented ILIKE '%SVC-C3500%' \
         GROUP BY service_name ORDER BY cnt LIMIT 10"
    );
    assert_eq!(
        build_sql(Pattern::Clustered, false),
        "SELECT service_name, COUNT(*) AS cnt FROM t \
         WHERE body_clustered ILIKE '%SVC-C3500%' \
         GROUP BY service_name ORDER BY cnt LIMIT 10"
    );
    assert_eq!(BATCH_SIZE, 8192);
}

#[test]
fn files_get_the_entry_of_their_number() {
    let built = build_plans(2, Pattern::Clustered, PlanRepr::Bitmap);
    let mut plans: PlanList = plans_by_file(built);
    plans.push(None);
    assert_eq!(plans.len(), 3);
    for f in 0..2usize {
        let path = file_path(f);
        let found = entry_for_path(&plans, path.to_str().unwrap());
        assert_eq!(found, Ok(Some(&plans[f])));
        assert!(found.unwrap().unwrap().is_some());
        let elsewhere = format!("srv/bench/{}", path.to_str().unwrap());
        assert_eq!(entry_for_path(&plans, &elsewhere), Ok(Some(&plans[f])));
    }
    assert_ne!(plans[0], plans[1]);
    assert_eq!(entry_for_path(&plans, "data-fts/part-0002.parquet"), Ok(Some(&None)));
    assert_eq!(entry_for_path(&plans, "data-fts/part-0003.parquet"), Ok(None));
    assert_eq!(entry_for_path(&plans, "data-fts/notes.txt"), Err(NoFileId));
}

#[test]
fn plans_are_used_with_the_index_only() {
    let plans: PlanList = vec![None, None];
    assert_eq!(plans_in_use(true, Some(&plans)), Some(&plans));
    assert_eq!(plans_in_use(false, Some(&plans)), None);
    assert_eq!(plans_in_use(true, None), None);
    assert_eq!(plans_in_use(false, None), None);
}

#[test]
fn result_rows_are_appended_in_order() {
    let mut rows: Vec<ResultRow> = vec![("svc-00".to_string(), 1)];
    let batch = batch_of(
        &["service_name", "cnt"],
        &[DataType::Utf8, DataType::Int64],
        vec![
            Arc::new(StringArray::from(vec!["svc-49", "svc-48"])),
            Arc::new(Int64Array::from(vec![12, -3])),
        ],
    );
    assert!(push_rows(&mut rows, &batch));
    assert!(push_rows(&mut rows, &batch));
    assert_eq!(
        rows,
        vec![
            ("svc-00".to_string(), 1),
            ("svc-49".to_string(), 12),
            ("svc-48".to_string(), -3),
            ("svc-49".to_string(), 12),
            ("svc-48".to_string(), -3),
        ]
    );
}

#[test]
fn other_columns_are_refused() {
    let names: ArrayRef = Arc::new(StringArray::from(vec!["a"]));
    let counts: ArrayRef = Arc::new(Int64Array::from(vec![1]));
    let mut rows: Vec<ResultRow> = Vec::new();
    let swapped = batch_of(
        &["cnt", "service_name"],
        &[DataType::Int64, DataType::Utf8],
        vec![counts.clone(), names.clone()],
    );
    assert!(!push_rows(&mut rows, &swapped));
    let texts = batch_of(
        &["a", "b"],
        &[DataType::Utf8, DataType::Utf8],
        vec![names.clone(), names.clone()],
    );
    assert!(!push_rows(&mut rows, &texts));
    let single = batch_of(&["a"], &[DataType::Utf8], vec![names]);
    assert!(!push_rows(&mut rows, &single));
    assert!(rows.is_empty());
}
