use arrow::array::{Array, StringArray};
use arrow::datatypes::DataType;
use rle_bitmap_compare::dataset::{
    batch_ranges, bodies, body, build_batch, can_stamp, service_bucket, service_name,
    service_names, BATCH_ROWS, SERVICE_BUCKETS, TS_BASE,
};
use rle_bitmap_compare::{schema, Pattern, ROWS_PER_FILE, ROW_GROUP_SIZE};

fn column(batch: &rle_bitmap_compare::batch::Batch, index: usize) -> Vec<String> {
    let array = batch.inner.column(index).as_any().downcast_ref::<StringArray>().unwrap();
    (0..array.len()).map(|r| array.value(r).to_string()).collect()
}

#[test]
fn the_schema_has_a_name_and_two_bodies() {
    let schema = schema();
    let names: Vec<&str> = schema.fields().iter().map(|f| f.name().as_str()).collect();
    assert_eq!(names, vec!["service_name", "body_fragmented", "body_clustered"]);
    for field in schema.fields() {
        assert_eq!(field.data_type(), &DataType::Utf8);
        assert!(!field.is_nullable());
    }
}

#[test]
fn services_are_hashed_by_row() {
    assert_eq!(service_name(0), "svc-22");
    assert_eq!(service_name(1), "svc-12");
    assert_eq!(service_name(2), "svc-11");
    assert_eq!(service_name(3), "svc-13");
    assert_eq!(service_name(4_999_999), "svc-00");
    assert_eq!(service_name(5_000_000), "svc-11");
    assert_eq!(service_name(u64::MAX), "svc-23");
    assert_eq!(service_names(1, 3), vec!["svc-12", "svc-11", "svc-13"]);
    assert!(service_names(9, 0).is_empty());
}

#[test]
fn buckets_weigh_less_and_less() {
    let total = SERVICE_BUCKETS * (SERVICE_BUCKETS + 1) / 2;
    assert_eq!(total, 1275);
    let mut counts = vec![0u64; SERVICE_BUCKETS as usize];
    for h in 0..total {
        counts[service_bucket(h) as usize] += 1;
    }
    for (b, count) in counts.iter().enumerate() {
        assert_eq!(*count, SERVICE_BUCKETS - b as u64);
    }
    assert_eq!(service_bucket(0), 0);
    assert_eq!(service_bucket(49), 0);
    assert_eq!(service_bucket(50), 1);
    assert_eq!(service_bucket(1274), 49);
}

#[test]
fn bodies_are_log_lines() {
    assert_eq!(
        body(0, true),
        "1760000000000000 info [SVC-C3500] GET /api/v1/object/list?offset=0 status=200 \
         latency=25ms trace_id=0c43e472e67f8767 span_id=a48faa9d \
         caller=handler/object.go:188 msg=\"request finished successfully, \
         cache=miss backend=primary retry=0\""
    );
    assert_eq!(
        body(1, false),
        "1760000000000137 info [SVC-OTHER] GET /api/v1/object/list?offset=1 status=200 \
         latency=1627ms trace_id=b06c96be512c52f6 span_id=c0778421 \
         caller=handler/object.go:188 msg=\"request finished successfully, \
         cache=miss backend=primary retry=0\""
    );
    assert_eq!(
        body(123_456_789, true),
        "1760016913580093 info [SVC-C3500] GET /api/v1/object/list?offset=789 status=200 \
         latency=1425ms trace_id=f03d0753c4a403c5 span_id=7c78c63f \
         caller=handler/object.go:188 msg=\"request finished successfully, \
         cache=miss backend=primary retry=0\""
    );
    assert_eq!(
        body(u64::MAX, false),
        "1759999999999863 info [SVC-OTHER] GET /api/v1/object/list?offset=615 status=200 \
         latency=677ms trace_id=93eb243785f1892b span_id=e32fee86 \
         caller=handler/object.go:188 msg=\"request finished successfully, \
         cache=miss backend=primary retry=0\""
    );
}

#[test]
fn bodies_hold_the_token_where_rows_hit() {
    for pattern in [Pattern::Fragmented, Pattern::Clustered] {
        let lines = bodies(pattern, 7000, 2000);
        assert_eq!(lines.len(), 2000);
        for (k, line) in lines.iter().enumerate() {
            let found = line.to_uppercase().contains("SVC-C3500");
            assert_eq!(found, pattern.is_hit(7000 + k as u64));
        }
    }
}

#[test]
fn the_token_stands_once_and_is_all_that_differs() {
    for i in [0u64, 5, 123_456_789] {
        let hit = body(i, true);
        let miss = body(i, false);
        assert_eq!(hit.matches("SVC-C3500").count(), 1);
        assert_eq!(miss.matches("SVC-C3500").count(), 0);
        assert_eq!(hit.find("SVC-C3500"), Some(23));
        assert_eq!(hit.len(), miss.len());
        assert_eq!(hit[..23], miss[..23]);
        assert_eq!(hit[32..], miss[32..]);
    }
}

#[test]
fn batches_hold_all_columns_side_by_side() {
    let batch = build_batch(7405, 6);
    assert_eq!(batch.inner.num_rows(), 6);
    assert_eq!(batch.inner.num_columns(), 3);
    assert_eq!(batch.inner.schema(), schema());
    for k in 0..6usize {
        let i = 7405 + k as u64;
        assert_eq!(column(&batch, 0)[k], service_name(i));
        assert_eq!(column(&batch, 1)[k], body(i, i % 3 == 0));
        assert_eq!(column(&batch, 2)[k], body(i, i >= 7407));
    }
}

#[test]
fn empty_batches_keep_their_columns() {
    let batch = build_batch(5, 0);
    assert_eq!(batch.inner.num_rows(), 0);
    assert_eq!(batch.inner.num_columns(), 3);
}

#[test]
fn full_batches_fit() {
    assert!(can_stamp(0, BATCH_ROWS));
    let batch = build_batch(0, BATCH_ROWS);
    assert_eq!(batch.inner.num_rows(), BATCH_ROWS);
}

#[test]
fn stamps_must_fit_in_64_bits() {
    let top = ((i64::MAX - TS_BASE) / 137) as u64;
    assert!(can_stamp(top, 1));
    assert!(!can_stamp(top + 1, 1));
    assert!(!can_stamp(top, 2));
    assert!(can_stamp(top - 1, 2));
    assert!(can_stamp(top + 1, 0));
    assert!(can_stamp(u64::MAX - 1, 1));
    assert!(!can_stamp(u64::MAX, 1));
    assert!(!can_stamp(1 << 63, 1));
    assert!(!can_stamp(0, usize::MAX));
}

#[test]
fn files_are_written_in_batches() {
    for f in [0usize, 3] {
        let ranges = batch_ranges(f);
        assert_eq!(ranges.len(), 39);
        let mut next = (f * ROWS_PER_FILE) as u64;
        for range in &ranges {
            assert_eq!(range.start, next);
            next += range.rows as u64;
        }
        assert_eq!(next, ((f + 1) * ROWS_PER_FILE) as u64);
        assert!(ranges[..38].iter().all(|r| r.rows == BATCH_ROWS && r.rows == ROW_GROUP_SIZE));
        assert_eq!(ranges[38].rows, 19_264);
    }
}
