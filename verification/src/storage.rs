//! How the data files are stored.

use vstd::prelude::*;
use parquet::basic::Compression;
use parquet::file::properties::WriterProperties;
use crate::workload::ROW_GROUP_SIZE;

verus! {

#[verifier::external_type_specification]
#[verifier::external_body]
pub struct ExWriterProperties(WriterProperties);

/// Values that the writer encodes at a time.
pub const WRITE_BATCH_SIZE: usize = 8192;

/// How the pages of a file are compressed.
pub enum Codec {
    /// Zstandard at that level.
    Zstd(int),
    Other,
}

/// The settings of a writer that matter here. All others are at their defaults.
pub struct WriterSettings {
    pub write_batch_size: nat,
    /// The most rows that a row group gets; without limit where there is none.
    pub row_group_rows: Option<nat>,
    /// The compression of every column.
    pub compression: Codec,
    /// Every column is dictionary encoded.
    pub dictionary: bool,
}

/// The settings that `props` hold.
pub uninterp spec fn writer_settings(props: WriterProperties) -> WriterSettings;

/// `WriterProperties::builder` with a write batch size, a limit on the rows of a row
/// group, and Zstandard compression at its default level, which is 1. Dictionary
/// encoding is on for every column unless it is switched off. Setting the limit panics
/// where it is 0.
#[verifier::external_body]
fn zstd_properties(write_batch_size: usize, row_group_rows: usize) -> (props: WriterProperties)
    requires
        row_group_rows > 0,
    ensures
        writer_settings(props) == (WriterSettings {
            write_batch_size: write_batch_size as nat,
            row_group_rows: Some(row_group_rows as nat),
            compression: Codec::Zstd(1),
            dictionary: true,
        }),
{
    WriterProperties::builder()
        .set_write_batch_size(write_batch_size)
        .set_max_row_group_row_count(Some(row_group_rows))
        .set_compression(Compression::ZSTD(Default::default()))
        .build()
}

/// The settings for the data files: row groups of [`ROW_GROUP_SIZE`] rows, compressed
/// and dictionary encoded.
pub fn writer_props() -> (props: WriterProperties)
    ensures
        writer_settings(props) == (WriterSettings {
            write_batch_size: WRITE_BATCH_SIZE as nat,
            row_group_rows: Some(ROW_GROUP_SIZE as nat),
            compression: Codec::Zstd(1),
            dictionary: true,
        }),
{
    zstd_properties(WRITE_BATCH_SIZE, ROW_GROUP_SIZE)
}

} // verus!
