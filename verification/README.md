# rle_bitmap_compare

A benchmark of row selections in Parquet access plans on a synthetic full-text search
workload: select / skip runs against bitmaps against no index. What the dataset holds,
which rows hit, and which rows the plans read is verified with Verus.

## Workload

- 40 files of 5 million rows, in row groups of 128 K rows, in `data-fts/`.
- Columns `service_name`, `body_fragmented` and `body_clustered`, all text.
- The token `SVC-C3500` stands in `body_fragmented` on every third row, and in
  `body_clustered` in one jittered run of about 8 K rows per 24 K rows.
- The query, with `<col>` one of the body columns:

  ```sql
  SELECT service_name, COUNT(*) AS cnt
  FROM t WHERE <col> ILIKE '%SVC-C3500%'
  GROUP BY service_name ORDER BY cnt LIMIT 10
  ```

  The strategies `rle` and `bitmap` drop the `WHERE`, which the access plans answer;
  `no-index` keeps it.

## Running

```bash
rle_bitmap_compare generate [--files N] [--threads N]
rle_bitmap_compare query --pattern fragmented|clustered --strategy rle|bitmap|no-index \
    [--files N] [--threads N] [--repeats N]
```

## Layout

- `src/` is the verified library. `guarantees.rs` states what it is for: the plans of
  either encoding read exactly the rows whose body holds the token, so the index keeps
  the counts of every service; scattered hits cost a run each, clustered ones a few
  runs per row group, bitmaps one bit per row.
- `app/` holds the two programs: command lines, files, the query engine, timing.
- `tests/` runs the library with the outside crates linked.
