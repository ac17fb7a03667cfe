use parquet::basic::{Compression, ZstdLevel};
use parquet::schema::types::ColumnPath;
use rle_bitmap_compare::storage::{writer_props, WRITE_BATCH_SIZE};
use rle_bitmap_compare::ROW_GROUP_SIZE;

#[test]
fn files_are_written_in_compressed_row_groups() {
    let props = writer_props();
    assert_eq!(props.write_batch_size(), 8192);
    assert_eq!(props.write_batch_size(), WRITE_BATCH_SIZE);
    assert_eq!(props.max_row_group_row_count(), Some(ROW_GROUP_SIZE));
    for column in ["service_name", "body_fragmented", "body_clustered"] {
        assert!(props.dictionary_enabled(&ColumnPath::from(column)));
        assert_eq!(
            props.compression(&ColumnPath::from(column)),
            Compression::ZSTD(ZstdLevel::try_new(1).unwrap())
        );
    }
}
