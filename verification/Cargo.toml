[package]
name = "rle_bitmap_compare"
version = "0.1.0"
edition = "2021"
publish = false

[dependencies]
arrow = { version = "=59.3.2", default-features = false }
datafusion-common = { version = "=55.2.0", default-features = false }
datafusion-datasource = { version = "=55.2.0", default-features = false }
datafusion-datasource-parquet = { version = "=55.2.0", default-features = false }
datafusion-execution = { version = "=55.2.0", default-features = false }
datafusion-physical-plan = { version = "=55.2.0", default-features = false }
futures = "=0.3.34"
parquet = { version = "=59.3.2", default-features = false, features = ["arrow", "zstd"] }
rayon = "=1.12.0"
tokio = { version = "=1.54.1", features = ["rt-multi-thread"] }
