//! The decisions of the router and worker executors: how the execution
//! context is configured, which queries are slow, and how a worker's results
//! are cut for the wire.
use vstd::prelude::*;
use crate::batch::{all_chunk_sizes, common_schema, concat_col, regroup_batches, schema_view, sizes, ColumnBatch};
use crate::error::CubeError;

verus! {

/// Rows per batch that the execution context reads.
pub const BATCH_SIZE: usize = 4096;

/// Partitions that the execution context runs at once.
pub const CONCURRENCY: usize = 1;

/// Queries slower than this many milliseconds are reported.
pub const SLOW_QUERY_MS: u128 = 200;

/// Runs query plans on the router and on workers.
#[derive(Debug)]
pub struct QueryExecutorImpl;

impl QueryExecutorImpl {
    /// Batch size and concurrency of the execution context, on the router and
    /// on workers alike.
    pub fn context_config(&self) -> (r: (usize, usize))
        ensures
            r == (BATCH_SIZE, CONCURRENCY),
    {
        (BATCH_SIZE, CONCURRENCY)
    }

    /// Whether a query that took `elapsed_ms` milliseconds is reported as slow.
    pub fn is_slow_query(&self, elapsed_ms: u128) -> (r: bool)
        ensures
            r == (elapsed_ms > SLOW_QUERY_MS),
    {
        elapsed_ms > SLOW_QUERY_MS
    }

    /// What a worker returns: without a worker marker in its plan an error;
    /// else its results cut into batches of at most the marker's row count.
    pub fn worker_results(&self, max_batch_rows: Option<usize>, results: &Vec<ColumnBatch>) -> (r: Result<Vec<ColumnBatch>, CubeError>)
        requires
            max_batch_rows matches Some(n) ==> n >= 1,
            results.len() > 0 ==> common_schema(results@, schema_view(results@[0].schema)),
        ensures
            max_batch_rows is None ==> r == Err::<Vec<ColumnBatch>, CubeError>(CubeError::NoWorkerMarker),
            max_batch_rows matches Some(n) ==> (r matches Ok(out) && sizes(out@) == all_chunk_sizes(results@, n as nat)
                && (forall|i: int| 0 <= i < out.len() ==> 1 <= (#[trigger] out@[i]).num_rows <= n)
                && (results.len() > 0 ==> common_schema(out@, schema_view(results@[0].schema)))
                && (results.len() > 0 ==> forall|c: int| 0 <= c < schema_view(results@[0].schema).len() ==> #[trigger] concat_col(out@, c) == concat_col(results@, c))),
    {
        match max_batch_rows {
            None => Err(CubeError::NoWorkerMarker),
            Some(n) => Ok(regroup_batches(results, n)),
        }
    }
}

} // verus!
