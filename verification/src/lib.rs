//! A benchmark of row selections in Parquet access plans, on a synthetic full-text
//! search workload: select / skip runs against bitmaps against no index at all.
//!
//! The programs `generate` and `query` share these definitions, so the dataset and
//! the plans built for it cannot drift apart.
//!
//! - [`workload`]: constants, [`Pattern`], and which rows hit.
//! - [`dataset`]: the rows of the dataset, [`schema`], and record batches.
//! - [`storage`]: how the data files are stored.
//! - [`batch`]: schemas and record batches, as the columns that they hold.
//! - [`paths`]: names and numbers of the data files.
//! - [`row_runs`]: runs and bitmaps, and how one becomes the other.
//! - [`access_plan`]: the plan of each file, in either encoding.
//! - [`guarantees`]: what the plans read, and what they cost.
//! - [`runner`]: the query, the plan for each file, the rows of the result.
//! - [`scan`]: the files of a scan, with the plans attached to them.
//! - [`session`]: the session in which the query runs.
//! - [`timing`]: the runs of a measurement.
//! - [`cli`]: command lines.
//! - [`report`]: the printed report.
//! - [`text`]: text building and parsing.

pub mod access_plan;
pub mod batch;
pub mod cli;
pub mod dataset;
pub mod guarantees;
pub mod paths;
pub mod report;
pub mod row_runs;
pub mod runner;
pub mod scan;
pub mod session;
pub mod storage;
pub mod text;
pub mod timing;
pub mod workload;

pub use dataset::schema;
pub use paths::file_path;
pub use workload::{
    splitmix64, Pattern, BASE_RUN, DATA_DIR, HIT_TOKEN, HIT_TOKEN_UPPER, MISS_TOKEN, ROWS_PER_FILE,
    ROW_GROUP_SIZE, SUPER_BLOCK,
};
