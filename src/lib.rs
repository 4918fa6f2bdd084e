//! Query execution core of a columnar OLAP store: worker assignment over a
//! multi-partition tree, assembly of partition readers for one cube-table
//! scan, merging and last-write-wins deduplication of sorted rows, batch
//! regrouping and row conversion, all stated over plain values.
use vstd::prelude::*;

pub mod model;
pub mod product;
pub mod names;
pub mod logical;
pub mod distribute;
pub mod cluster_send;
pub mod batch;
pub mod error;
pub mod dataframe;
pub mod dialect;
pub mod executor;
pub mod codec;
pub mod scan;
pub mod dedup;
pub mod coverage;
pub mod merge;

verus! {

} // verus!
