use rle_bitmap_compare::{
    splitmix64, Pattern, BASE_RUN, DATA_DIR, HIT_TOKEN, HIT_TOKEN_UPPER, MISS_TOKEN, ROWS_PER_FILE,
    ROW_GROUP_SIZE, SUPER_BLOCK,
};

#[test]
fn constants_describe_the_workload() {
    assert_eq!(ROWS_PER_FILE, 5_000_000);
    assert_eq!(ROW_GROUP_SIZE, 131_072);
    assert_eq!(BASE_RUN, 8192);
    assert_eq!(SUPER_BLOCK, 24_576);
    assert_eq!(HIT_TOKEN, "svc-c3500");
    assert_eq!(HIT_TOKEN_UPPER, "SVC-C3500");
    assert_eq!(MISS_TOKEN, "svc-other");
    assert_eq!(DATA_DIR, "data-fts");
    assert_eq!(40 * ROWS_PER_FILE, 200_000_000);
}

#[test]
fn splitmix64_mixes() {
    assert_eq!(splitmix64(0), 0xe220a8397b1dcdaf);
    assert_eq!(splitmix64(1), 0x910a2dec89025cc1);
    assert_eq!(splitmix64(2), 0x975835de1c9756ce);
    assert_eq!(splitmix64(u64::MAX), 0xe4d971771b652c20);
    assert_eq!(splitmix64(0xCAFE_BABE_5EED_F00D), 0x0cf4cd27582c1cef);
}

#[test]
fn patterns_parse_by_name() {
    assert_eq!(Pattern::parse("fragmented"), Ok(Pattern::Fragmented));
    assert_eq!(Pattern::parse("clustered"), Ok(Pattern::Clustered));
}

#[test]
fn other_pattern_names_are_refused() {
    assert_eq!(
        Pattern::parse("Fragmented"),
        Err("unknown pattern: Fragmented (fragmented|clustered)".to_string())
    );
    assert_eq!(
        Pattern::parse(""),
        Err("unknown pattern:  (fragmented|clustered)".to_string())
    );
    assert_eq!(
        Pattern::parse("clusteredé"),
        Err("unknown pattern: clusteredé (fragmented|clustered)".to_string())
    );
}

#[test]
fn patterns_have_columns_and_descriptions() {
    assert_eq!(Pattern::Fragmented.body_column(), "body_fragmented");
    assert_eq!(Pattern::Clustered.body_column(), "body_clustered");
    assert_eq!(Pattern::Fragmented.describe(), "fragmented (i%3==0)");
    assert_eq!(
        Pattern::Clustered.describe(),
        "clustered (jittered runs, ~8K hits per 24K rows)"
    );
}

#[test]
fn fragmented_hits_every_third_row() {
    for i in 0..3000u64 {
        assert_eq!(Pattern::Fragmented.is_hit(i), i % 3 == 0);
    }
    assert!(Pattern::Fragmented.is_hit(u64::MAX));
    assert!(!Pattern::Fragmented.is_hit(u64::MAX - 1));
}

#[test]
fn clustered_runs_stand_where_the_hash_puts_them() {
    let runs: [(u64, u64); 4] = [(7407, 9511), (4974, 10073), (7299, 8611), (2865, 7323)];
    for (block, (start, len)) in runs.iter().enumerate() {
        for p in 0..SUPER_BLOCK {
            let hit = Pattern::Clustered.is_hit(block as u64 * SUPER_BLOCK + p);
            assert_eq!(hit, *start <= p && p < start + len);
        }
    }
}

#[test]
fn each_super_block_holds_one_run_of_the_right_size() {
    for block in [5u64, 77, 8138, u64::MAX / SUPER_BLOCK - 1] {
        let hits: Vec<u64> = (0..SUPER_BLOCK)
            .filter(|p| Pattern::Clustered.is_hit(block * SUPER_BLOCK + p))
            .collect();
        let first = hits[0];
        let last = hits[hits.len() - 1];
        assert!(first < BASE_RUN);
        assert_eq!(last - first + 1, hits.len() as u64);
        assert!(hits.len() as u64 >= BASE_RUN * 3 / 4);
        assert!((hits.len() as u64) < BASE_RUN * 5 / 4);
        assert!(last + 1 < SUPER_BLOCK);
    }
}

#[test]
fn a_third_of_the_rows_hit() {
    let clustered = (0..ROWS_PER_FILE as u64).filter(|i| Pattern::Clustered.is_hit(*i)).count();
    assert!(clustered > 1_600_000 && clustered < 1_750_000);
    let fragmented = (0..ROWS_PER_FILE as u64).filter(|i| Pattern::Fragmented.is_hit(*i)).count();
    assert_eq!(fragmented, 1_666_667);
}
