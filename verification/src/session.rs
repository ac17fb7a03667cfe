//! The session in which the query runs.

use vstd::prelude::*;
use datafusion_execution::config::SessionConfig;
use crate::runner::BATCH_SIZE;

verus! {

#[verifier::external_type_specification]
#[verifier::external_body]
pub struct ExSessionConfig(SessionConfig);

/// The settings of a session that matter here.
pub struct SessionSettings {
    /// Rows per batch that the engine works on.
    pub batch_size: nat,
    /// Partitions in which the engine runs a query.
    pub partitions: nat,
    /// The Parquet reader filters rows itself.
    pub pushdown_filters: bool,
}

/// The settings that `config` holds.
pub uninterp spec fn session_settings(config: SessionConfig) -> SessionSettings;

/// `SessionConfig::new` with a batch size, a number of partitions, and filter pushdown
/// switched on or off. Setting the batch size panics where it is 0. For 0 partitions
/// the engine takes a number of its own, which depends on the machine and is left open.
#[verifier::external_body]
fn engine_config(batch_size: usize, partitions: usize, pushdown_filters: bool) -> (config:
    SessionConfig)
    requires
        batch_size > 0,
    ensures
        session_settings(config).batch_size == batch_size,
        partitions > 0 ==> session_settings(config).partitions == partitions,
        session_settings(config).pushdown_filters == pushdown_filters,
{
    let mut config = SessionConfig::new()
        .with_batch_size(batch_size)
        .with_target_partitions(partitions);
    config.options_mut().execution.parquet.pushdown_filters = pushdown_filters;
    config
}

/// The settings of the session: one partition per thread, and no filter pushdown, so
/// that without the index every row is decoded before it is filtered.
pub fn session_config(threads: usize) -> (config: SessionConfig)
    ensures
        session_settings(config).batch_size == BATCH_SIZE,
        threads > 0 ==> session_settings(config).partitions == threads,
        !session_settings(config).pushdown_filters,
{
    engine_config(BATCH_SIZE, threads, false)
}

} // verus!
