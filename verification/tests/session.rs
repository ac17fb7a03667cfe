use rle_bitmap_compare::session::session_config;

#[test]
fn sessions_run_on_the_threads_given() {
    for threads in [1usize, 3, 64] {
        let config = session_config(threads);
        assert_eq!(config.batch_size(), 8192);
        assert_eq!(config.target_partitions(), threads);
        assert!(!config.options().execution.parquet.pushdown_filters);
    }
}

#[test]
fn without_a_thread_count_the_engine_takes_its_own() {
    let config = session_config(0);
    assert_eq!(config.batch_size(), 8192);
    assert!(config.target_partitions() > 0);
    assert!(!config.options().execution.parquet.pushdown_filters);
}
