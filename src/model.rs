//! Plain-value model of the stored data: cell values, key rows and ranges,
//! partitions, chunks and index snapshots.
use vstd::prelude::*;
use std::collections::HashMap;

verus! {

/// One cell of a row or of a column.
///
/// `Float` holds the bit pattern of an IEEE-754 double; `UInt` is only found
/// in columns of an unsigned integer type.
#[derive(Debug)]
pub enum Value {
    Null,
    Int(i64),
    UInt(u64),
    Decimal(i64),
    Float(u64),
    Timestamp(i64),
    String(String),
    Bytes(Vec<u8>),
    Boolean(bool),
}

/// Mathematical counterpart of `Value`.
pub enum ValueV {
    Null,
    Int(i64),
    UInt(u64),
    Decimal(i64),
    Float(u64),
    Timestamp(i64),
    String(Seq<char>),
    Bytes(Seq<u8>),
    Boolean(bool),
}

impl View for Value {
    type V = ValueV;

    open spec fn view(&self) -> ValueV {
        match self {
            Value::Null => ValueV::Null,
            Value::Int(v) => ValueV::Int(*v),
            Value::UInt(v) => ValueV::UInt(*v),
            Value::Decimal(v) => ValueV::Decimal(*v),
            Value::Float(v) => ValueV::Float(*v),
            Value::Timestamp(v) => ValueV::Timestamp(*v),
            Value::String(s) => ValueV::String(s@),
            Value::Bytes(b) => ValueV::Bytes(b@),
            Value::Boolean(b) => ValueV::Boolean(*b),
        }
    }
}

impl Value {
    /// A copy with the same view.
    pub fn copy(&self) -> (r: Value)
        ensures
            r@ == self@,
    {
        match self {
            Value::Null => Value::Null,
            Value::Int(v) => Value::Int(*v),
            Value::UInt(v) => Value::UInt(*v),
            Value::Decimal(v) => Value::Decimal(*v),
            Value::Float(v) => Value::Float(*v),
            Value::Timestamp(v) => Value::Timestamp(*v),
            Value::String(s) => Value::String(s.clone()),
            Value::Bytes(b) => {
                let c = b.clone();
                assert(c@ =~= b@);
                Value::Bytes(c)
            },
            Value::Boolean(b) => Value::Boolean(*b),
        }
    }
}

/// The view of a row of cells.
pub open spec fn row_view(r: Seq<Value>) -> Seq<ValueV> {
    r.map_values(|v: Value| v@)
}

/// A copy of a row, cell by cell.
pub fn copy_row(r: &Vec<Value>) -> (c: Vec<Value>)
    ensures
        row_view(c@) == row_view(r@),
{
    let mut c: Vec<Value> = Vec::new();
    let mut i: usize = 0;
    while i < r.len()
        invariant
            i <= r.len(),
            c.len() == i,
            forall|j: int| 0 <= j < i ==> c@[j]@ == r@[j]@,
        decreases r.len() - i,
    {
        c.push(r[i].copy());
        i += 1;
    }
    assert(row_view(c@) =~= row_view(r@));
    c
}

/// The view of an optional row.
pub open spec fn opt_row_view(o: Option<Vec<Value>>) -> Option<Seq<ValueV>> {
    match o {
        Some(r) => Some(row_view(r@)),
        None => None,
    }
}

/// A copy of an optional row.
pub fn copy_opt_row(o: &Option<Vec<Value>>) -> (c: Option<Vec<Value>>)
    ensures
        opt_row_view(c) == opt_row_view(*o),
{
    match o {
        Some(r) => Some(copy_row(r)),
        None => None,
    }
}

/// A half-open key range `[start, end)`; a missing bound is unbounded.
#[derive(Debug)]
pub struct RowRange {
    pub start: Option<Vec<Value>>,
    pub end: Option<Vec<Value>>,
}

/// Mathematical counterpart of `RowRange`.
pub struct RangeV {
    pub start: Option<Seq<ValueV>>,
    pub end: Option<Seq<ValueV>>,
}

impl View for RowRange {
    type V = RangeV;

    open spec fn view(&self) -> RangeV {
        RangeV { start: opt_row_view(self.start), end: opt_row_view(self.end) }
    }
}

/// The range that is unbounded on both ends.
pub open spec fn full_range() -> RangeV {
    RangeV { start: None, end: None }
}

impl Default for RowRange {
    fn default() -> (r: RowRange)
        ensures
            r@ == full_range(),
    {
        RowRange { start: None, end: None }
    }
}

impl RowRange {
    /// A copy with the same view.
    pub fn copy(&self) -> (r: RowRange)
        ensures
            r@ == self@,
    {
        RowRange { start: copy_opt_row(&self.start), end: copy_opt_row(&self.end) }
    }
}

/// An OR of key ranges.
#[derive(Debug)]
pub struct RowFilter {
    pub or_filters: Vec<RowRange>,
}

/// The view of a sequence of ranges.
pub open spec fn ranges_view(rs: Seq<RowRange>) -> Seq<RangeV> {
    rs.map_values(|r: RowRange| r@)
}

impl View for RowFilter {
    type V = Seq<RangeV>;

    open spec fn view(&self) -> Seq<RangeV> {
        ranges_view(self.or_filters@)
    }
}

impl Default for RowFilter {
    fn default() -> (r: RowFilter)
        ensures
            r@ == Seq::<RangeV>::empty(),
    {
        RowFilter { or_filters: Vec::new() }
    }
}

impl RowFilter {
    /// A copy with the same view.
    pub fn copy(&self) -> (r: RowFilter)
        ensures
            r@ == self@,
    {
        let mut r = RowFilter::default();
        let mut i: usize = 0;
        while i < self.or_filters.len()
            invariant
                i <= self.or_filters.len(),
                r@ =~= self@.subrange(0, i as int),
            decreases self.or_filters.len() - i,
        {
            r.append_or(self.or_filters[i].copy());
            i += 1;
        }
        assert(self@.subrange(0, i as int) =~= self@);
        r
    }

    /// Adds one more range to the disjunction.
    pub fn append_or(&mut self, r: RowRange)
        ensures
            final(self)@ == old(self)@.push(r@),
    {
        self.or_filters.push(r);
        assert(ranges_view(self.or_filters@) =~= ranges_view(old(self).or_filters@).push(r@));
    }
}

/// An immutable unit of storage of one index.
#[derive(Debug)]
pub struct Partition {
    pub id: u64,
    pub multi_partition_id: Option<u64>,
    pub min_val: Option<Vec<Value>>,
    pub max_val: Option<Vec<Value>>,
    /// Remote name of the partition's columnar file, if it has one.
    pub file_name: Option<String>,
}

/// Mathematical counterpart of `Partition`.
pub struct PartitionV {
    pub id: u64,
    pub multi_id: Option<u64>,
    pub min_val: Option<Seq<ValueV>>,
    pub max_val: Option<Seq<ValueV>>,
    pub file_name: Option<Seq<char>>,
}

pub open spec fn opt_str_view(o: Option<String>) -> Option<Seq<char>> {
    match o {
        Some(s) => Some(s@),
        None => None,
    }
}

impl View for Partition {
    type V = PartitionV;

    open spec fn view(&self) -> PartitionV {
        PartitionV {
            id: self.id,
            multi_id: self.multi_partition_id,
            min_val: opt_row_view(self.min_val),
            max_val: opt_row_view(self.max_val),
            file_name: opt_str_view(self.file_name),
        }
    }
}

impl Partition {
    /// A copy with the same view.
    pub fn copy(&self) -> (r: Partition)
        ensures
            r@ == self@,
    {
        Partition {
            id: self.id,
            multi_partition_id: self.multi_partition_id,
            min_val: copy_opt_row(&self.min_val),
            max_val: copy_opt_row(&self.max_val),
            file_name: match &self.file_name {
                Some(s) => Some(s.clone()),
                None => None,
            },
        }
    }
}

/// The views of a sequence of partitions.
pub open spec fn parts_view(ps: Seq<Partition>) -> Seq<PartitionV> {
    ps.map_values(|p: Partition| p@)
}

/// Delta data over a partition, in memory or in a remote columnar file.
#[derive(Debug)]
pub struct Chunk {
    pub id: u64,
    pub in_memory: bool,
    pub file_name: String,
}

/// A partition together with its chunks.
#[derive(Debug)]
pub struct PartitionSnapshot {
    pub partition: Partition,
    pub chunks: Vec<Chunk>,
}

/// A column of a table.
#[derive(Debug)]
pub struct ColumnDef {
    pub name: String,
    pub column_type: ColumnType,
}

/// Column types of the row-oriented side.
#[derive(Debug, Clone, Copy, PartialEq, Eq, Structural)]
pub enum ColumnType {
    String,
    Int,
    Bytes,
    Timestamp,
    Decimal { scale: i32, precision: i32 },
    Float,
    Boolean,
}

/// A table: its columns, and the unique key with its sequence column if declared.
#[derive(Debug)]
pub struct TableDef {
    pub columns: Vec<ColumnDef>,
    /// Positions in `columns` of the unique-key columns.
    pub unique_key: Option<Vec<usize>>,
    /// Position in `columns` of the sequence column.
    pub seq_column: Option<usize>,
}

/// An index: a materialized order of (some of) the table's columns; the first
/// `sort_key_size` columns form the sort key.
#[derive(Debug)]
pub struct IndexDef {
    pub columns: Vec<String>,
    pub sort_key_size: usize,
}

/// A read-time view of one index of one table.
#[derive(Debug)]
pub struct IndexSnapshot {
    pub table: TableDef,
    pub index: IndexDef,
    pub partitions: Vec<PartitionSnapshot>,
    pub sort_on: Option<Vec<String>>,
}

/// A node of the multi-partition forest.
#[derive(Debug, Clone, Copy, PartialEq, Eq, Structural)]
pub struct MultiPartition {
    pub id: u64,
    pub parent: Option<u64>,
}

/// Time units of timestamp columns.
#[derive(Debug, Clone, Copy, PartialEq, Eq, Structural)]
pub enum TimeUnit {
    Second,
    Millisecond,
    Microsecond,
    Nanosecond,
}

/// Types of columns of a record batch.
#[derive(Debug, Clone, Copy, PartialEq, Eq, Structural)]
pub enum DataType {
    Null,
    Boolean,
    Int8,
    Int16,
    Int32,
    Int64,
    UInt8,
    UInt16,
    UInt32,
    UInt64,
    Float16,
    Float32,
    Float64,
    /// A 64-bit decimal with the given number of digits after the point.
    Int64Decimal(i32),
    /// A timestamp; the flag says whether it carries a time zone.
    Timestamp(TimeUnit, bool),
    Date32,
    Date64,
    Binary,
    LargeBinary,
    Utf8,
    LargeUtf8,
}

/// A named, typed column of a record batch.
#[derive(Debug)]
pub struct Field {
    pub name: String,
    pub data_type: DataType,
    pub nullable: bool,
}

/// The columns of a record batch.
#[derive(Debug)]
pub struct BatchSchema {
    pub fields: Vec<Field>,
}

/// A plan in its wire form, with what planning recorded and the filters of
/// the partitions that a worker is to read.
#[derive(Debug)]
pub struct SerializedPlan {
    pub logical_plan: Vec<u8>,
    /// The multi-partition forest, keyed by node id.
    pub multi_part_subtree: HashMap<u64, MultiPartition>,
    pub partition_ids_to_execute: Vec<(u64, RowFilter)>,
}

/// The view of a list of (partition id, filter) pairs.
pub open spec fn id_filters_view(v: Seq<(u64, RowFilter)>) -> Seq<(u64, Seq<RangeV>)> {
    v.map_values(|x: (u64, RowFilter)| (x.0, x.1@))
}

impl SerializedPlan {
    /// The same plan, bound to the given partition filters.
    pub fn with_partition_id_to_execute(&self, ps: Vec<(u64, RowFilter)>) -> (r: SerializedPlan)
        ensures
            r.logical_plan@ == self.logical_plan@,
            r.multi_part_subtree@ == self.multi_part_subtree@,
            id_filters_view(r.partition_ids_to_execute@) == id_filters_view(ps@),
    {
        let bytes = self.logical_plan.clone();
        assert(bytes@ =~= self.logical_plan@);
        SerializedPlan {
            logical_plan: bytes,
            multi_part_subtree: self.multi_part_subtree.clone(),
            partition_ids_to_execute: ps,
        }
    }
}

} // verus!
