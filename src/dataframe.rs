//! Conversion of columnar batches to untyped rows.
use vstd::prelude::*;
use crate::batch::{cols_view, ColumnBatch};
use crate::error::CubeError;
use crate::model::{row_view, ColumnType, DataType, Field, TimeUnit, Value, ValueV};

verus! {

/// The row-side column type of a columnar type, if it has one.
pub open spec fn column_type_of(dt: DataType) -> Option<ColumnType> {
    match dt {
        DataType::Binary => Some(ColumnType::Bytes),
        DataType::Utf8 | DataType::LargeUtf8 => Some(ColumnType::String),
        DataType::Timestamp(_, _) => Some(ColumnType::Timestamp),
        DataType::Float16 | DataType::Float64 => Some(ColumnType::Float),
        DataType::Int64Decimal(scale) => Some(ColumnType::Decimal { scale, precision: 18 }),
        DataType::Boolean => Some(ColumnType::Boolean),
        DataType::Int8 | DataType::Int16 | DataType::Int32 | DataType::Int64 | DataType::UInt8
        | DataType::UInt16 | DataType::UInt32 | DataType::UInt64 => Some(ColumnType::Int),
        _ => None,
    }
}

/// The row-side column type of a columnar type.
pub fn arrow_to_column_type(dt: DataType) -> (r: Result<ColumnType, CubeError>)
    ensures
        match column_type_of(dt) {
            Some(t) => r == Ok::<ColumnType, CubeError>(t),
            None => r == Err::<ColumnType, CubeError>(CubeError::UnsupportedType),
        },
{
    match dt {
        DataType::Binary => Ok(ColumnType::Bytes),
        DataType::Utf8 | DataType::LargeUtf8 => Ok(ColumnType::String),
        DataType::Timestamp(_, _) => Ok(ColumnType::Timestamp),
        DataType::Float16 | DataType::Float64 => Ok(ColumnType::Float),
        DataType::Int64Decimal(scale) => Ok(ColumnType::Decimal { scale, precision: 18 }),
        DataType::Boolean => Ok(ColumnType::Boolean),
        DataType::Int8 | DataType::Int16 | DataType::Int32 | DataType::Int64 | DataType::UInt8
        | DataType::UInt16 | DataType::UInt32 | DataType::UInt64 => Ok(ColumnType::Int),
        _ => Err(CubeError::UnsupportedType),
    }
}

/// An unsigned 64-bit integer read as a signed one, two's complement.
pub open spec fn u64_as_i64(v: u64) -> i64 {
    if v <= i64::MAX as u64 {
        v as i64
    } else {
        (v as int - 0x1_0000_0000_0000_0000int) as i64
    }
}

/// The row value of a cell of a column of type `dt`: integers of every width
/// become `Int`, floats `Float`, decimals `Decimal`, microsecond timestamps
/// are scaled to nanoseconds, strings, bytes and booleans stay; `None` where
/// the type is not handled, the cell does not fit it, or a timestamp would
/// not fit in 64 bits.
pub open spec fn convert_cell(dt: DataType, v: ValueV) -> Option<ValueV> {
    match (dt, v) {
        (DataType::Int8, ValueV::Null) | (DataType::Int16, ValueV::Null) | (DataType::Int32, ValueV::Null)
        | (DataType::Int64, ValueV::Null) | (DataType::UInt8, ValueV::Null) | (DataType::UInt16, ValueV::Null)
        | (DataType::UInt32, ValueV::Null) | (DataType::UInt64, ValueV::Null) | (DataType::Float16, ValueV::Null)
        | (DataType::Float64, ValueV::Null) | (DataType::Int64Decimal(_), ValueV::Null)
        | (DataType::Timestamp(TimeUnit::Microsecond, _), ValueV::Null)
        | (DataType::Timestamp(TimeUnit::Nanosecond, _), ValueV::Null) | (DataType::Utf8, ValueV::Null)
        | (DataType::LargeUtf8, ValueV::Null) | (DataType::Binary, ValueV::Null) | (DataType::Boolean, ValueV::Null) => Some(ValueV::Null),
        (DataType::Int8, ValueV::Int(x)) | (DataType::Int16, ValueV::Int(x)) | (DataType::Int32, ValueV::Int(x))
        | (DataType::Int64, ValueV::Int(x)) => Some(ValueV::Int(x)),
        (DataType::UInt8, ValueV::UInt(x)) | (DataType::UInt16, ValueV::UInt(x)) | (DataType::UInt32, ValueV::UInt(x))
        | (DataType::UInt64, ValueV::UInt(x)) => Some(ValueV::Int(u64_as_i64(x))),
        (DataType::Float16, ValueV::Float(x)) | (DataType::Float64, ValueV::Float(x)) => Some(ValueV::Float(x)),
        (DataType::Int64Decimal(_), ValueV::Decimal(x)) => Some(ValueV::Decimal(x)),
        (DataType::Timestamp(TimeUnit::Microsecond, _), ValueV::Timestamp(x)) =>
            if i64::MIN <= x * 1000 <= i64::MAX { Some(ValueV::Timestamp((x * 1000) as i64)) } else { None },
        (DataType::Timestamp(TimeUnit::Nanosecond, _), ValueV::Timestamp(x)) => Some(ValueV::Timestamp(x)),
        (DataType::Utf8, ValueV::String(s)) | (DataType::LargeUtf8, ValueV::String(s)) => Some(ValueV::String(s)),
        (DataType::Binary, ValueV::Bytes(b)) => Some(ValueV::Bytes(b)),
        (DataType::Boolean, ValueV::Boolean(b)) => Some(ValueV::Boolean(b)),
        _ => None,
    }
}

/// Converts one cell; see `convert_cell`.
pub fn convert_value(dt: DataType, v: &Value) -> (r: Option<Value>)
    ensures
        match convert_cell(dt, v@) {
            Some(x) => r is Some && r.unwrap()@ == x,
            None => r is None,
        },
{
    match (dt, v) {
        (DataType::Int8, Value::Null) | (DataType::Int16, Value::Null) | (DataType::Int32, Value::Null)
        | (DataType::Int64, Value::Null) | (DataType::UInt8, Value::Null) | (DataType::UInt16, Value::Null)
        | (DataType::UInt32, Value::Null) | (DataType::UInt64, Value::Null) | (DataType::Float16, Value::Null)
        | (DataType::Float64, Value::Null) | (DataType::Int64Decimal(_), Value::Null)
        | (DataType::Timestamp(TimeUnit::Microsecond, _), Value::Null)
        | (DataType::Timestamp(TimeUnit::Nanosecond, _), Value::Null) | (DataType::Utf8, Value::Null)
        | (DataType::LargeUtf8, Value::Null) | (DataType::Binary, Value::Null) | (DataType::Boolean, Value::Null) => Some(Value::Null),
        (DataType::Int8, Value::Int(x)) | (DataType::Int16, Value::Int(x)) | (DataType::Int32, Value::Int(x))
        | (DataType::Int64, Value::Int(x)) => Some(Value::Int(*x)),
        (DataType::UInt8, Value::UInt(x)) | (DataType::UInt16, Value::UInt(x)) | (DataType::UInt32, Value::UInt(x))
        | (DataType::UInt64, Value::UInt(x)) => {
            let y: i64 = if *x <= i64::MAX as u64 {
                *x as i64
            } else {
                let d: u64 = *x - 9223372036854775808u64;
                (d as i64) - 9223372036854775807i64 - 1
            };
            Some(Value::Int(y))
        },
        (DataType::Float16, Value::Float(x)) | (DataType::Float64, Value::Float(x)) => Some(Value::Float(*x)),
        (DataType::Int64Decimal(_), Value::Decimal(x)) => Some(Value::Decimal(*x)),
        (DataType::Timestamp(TimeUnit::Microsecond, _), Value::Timestamp(x)) => {
            match x.checked_mul(1000) {
                Some(y) => Some(Value::Timestamp(y)),
                None => None,
            }
        },
        (DataType::Timestamp(TimeUnit::Nanosecond, _), Value::Timestamp(x)) => Some(Value::Timestamp(*x)),
        (DataType::Utf8, Value::String(s)) | (DataType::LargeUtf8, Value::String(s)) => Some(Value::String(s.clone())),
        (DataType::Binary, Value::Bytes(b)) => {
            let c = b.clone();
            assert(c@ =~= b@);
            Some(Value::Bytes(c))
        },
        (DataType::Boolean, Value::Boolean(b)) => Some(Value::Boolean(*b)),
        _ => None,
    }
}

/// A column of a row-oriented result.
#[derive(Debug)]
pub struct DfColumn {
    pub name: String,
    pub column_type: ColumnType,
    pub index: usize,
}

/// An untyped row-oriented result: its columns and its rows.
#[derive(Debug)]
pub struct DataFrame {
    pub columns: Vec<DfColumn>,
    pub rows: Vec<Vec<Value>>,
}

/// Every field's type has a row-side column type.
pub open spec fn fields_supported(s: Seq<Field>) -> bool {
    forall|i: int| 0 <= i < s.len() ==> (#[trigger] column_type_of(s[i].data_type)) is Some
}

/// The columns of a result: name, row-side type and position of each field.
pub open spec fn df_columns_spec(s: Seq<Field>) -> Seq<(Seq<char>, ColumnType, nat)> {
    Seq::new(s.len(), |i: int| (s[i].name@, column_type_of(s[i].data_type).unwrap(), i as nat))
}

/// The view of the columns of a result.
pub open spec fn df_columns_view(c: Seq<DfColumn>) -> Seq<(Seq<char>, ColumnType, nat)> {
    c.map_values(|x: DfColumn| (x.name@, x.column_type, x.index as nat))
}

/// Every cell of the batch converts.
pub open spec fn batch_ok(b: ColumnBatch) -> bool {
    forall|r: int, c: int| 0 <= r < b.num_rows && 0 <= c < b.columns@.len() ==>
        (#[trigger] convert_cell(b.schema.fields@[c].data_type, cols_view(b)[c][r])) is Some
}

/// The converted rows of a batch.
pub open spec fn batch_rows(b: ColumnBatch) -> Seq<Seq<ValueV>> {
    Seq::new(b.num_rows as nat, |r: int| Seq::new(b.columns@.len(), |c: int| convert_cell(b.schema.fields@[c].data_type, cols_view(b)[c][r]).unwrap()))
}

/// The converted rows of all batches, one batch after another.
pub open spec fn all_rows(bs: Seq<ColumnBatch>) -> Seq<Seq<ValueV>>
    decreases bs.len(),
{
    if bs.len() == 0 {
        Seq::empty()
    } else {
        all_rows(bs.drop_last()) + batch_rows(bs.last())
    }
}

/// The view of the rows of a result.
pub open spec fn df_rows_view(rows: Seq<Vec<Value>>) -> Seq<Seq<ValueV>> {
    rows.map_values(|r: Vec<Value>| row_view(r@))
}

/// Converts the rows of one batch.
fn convert_batch(b: &ColumnBatch) -> (r: Option<Vec<Vec<Value>>>)
    requires
        b.wf(),
    ensures
        batch_ok(*b) <==> r is Some,
        r matches Some(rows) ==> df_rows_view(rows@) == batch_rows(*b),
{
    let mut rows: Vec<Vec<Value>> = Vec::new();
    let mut r: usize = 0;
    while r < b.num_rows
        invariant
            b.wf(),
            r <= b.num_rows,
            forall|q: int, c: int| 0 <= q < r && 0 <= c < b.columns@.len() ==>
                (#[trigger] convert_cell(b.schema.fields@[c].data_type, cols_view(*b)[c][q])) is Some,
            df_rows_view(rows@) =~= batch_rows(*b).subrange(0, r as int),
        decreases b.num_rows - r,
    {
        let mut row: Vec<Value> = Vec::new();
        let mut c: usize = 0;
        while c < b.columns.len()
            invariant
                b.wf(),
                r < b.num_rows,
                c <= b.columns.len(),
                row.len() == c,
                forall|k: int| 0 <= k < c ==> (#[trigger] convert_cell(b.schema.fields@[k].data_type, cols_view(*b)[k][r as int])) is Some,
                forall|k: int| 0 <= k < c ==> (#[trigger] row@[k])@ == convert_cell(b.schema.fields@[k].data_type, cols_view(*b)[k][r as int]).unwrap(),
            decreases b.columns.len() - c,
        {
            assert(b.columns@[c as int]@.len() == b.num_rows);
            assert(cols_view(*b)[c as int][r as int] == b.columns@[c as int]@[r as int]@);
            match convert_value(b.schema.fields[c].data_type, &b.columns[c][r]) {
                Some(v) => {
                    row.push(v);
                },
                None => {
                    return None;
                },
            }
            c += 1;
        }
        let ghost prev = df_rows_view(rows@);
        let ghost rv = row_view(row@);
        rows.push(row);
        assert(rv =~= batch_rows(*b)[r as int]);
        assert(df_rows_view(rows@) =~= prev.push(rv));
        r += 1;
    }
    assert(batch_rows(*b).subrange(0, r as int) =~= batch_rows(*b));
    Some(rows)
}

/// The columns of a result with the given fields.
fn df_columns(fields: &Vec<Field>) -> (r: Result<Vec<DfColumn>, CubeError>)
    ensures
        (r is Ok) == fields_supported(fields@),
        r matches Err(e) ==> e == CubeError::UnsupportedType,
        r matches Ok(cols) ==> df_columns_view(cols@) == df_columns_spec(fields@),
{
    let mut cols: Vec<DfColumn> = Vec::new();
    let mut i: usize = 0;
    while i < fields.len()
        invariant
            i <= fields.len(),
            forall|k: int| 0 <= k < i ==> (#[trigger] column_type_of(fields@[k].data_type)) is Some,
            df_columns_view(cols@) =~= df_columns_spec(fields@.subrange(0, i as int)),
        decreases fields.len() - i,
    {
        match arrow_to_column_type(fields[i].data_type) {
            Ok(t) => {
                let ghost prev = df_columns_view(cols@);
                let col = DfColumn { name: fields[i].name.clone(), column_type: t, index: i };
                cols.push(col);
                assert(df_columns_view(cols@) =~= prev.push((fields@[i as int].name@, t, i as nat)));
            },
            Err(e) => {
                assert(column_type_of(fields@[i as int].data_type) is None);
                return Err(e);
            },
        }
        i += 1;
    }
    assert(fields@.subrange(0, i as int) =~= fields@);
    Ok(cols)
}

/// The first batch's fields, if any, all have row-side types.
pub open spec fn columns_supported(bs: Seq<ColumnBatch>) -> bool {
    bs.len() == 0 || fields_supported(bs[0].schema.fields@)
}

/// Every cell of every batch converts.
pub open spec fn all_batches_ok(bs: Seq<ColumnBatch>) -> bool {
    forall|i: int| 0 <= i < bs.len() ==> batch_ok(#[trigger] bs[i])
}

/// Converts columnar batches to rows: the columns come from the first batch,
/// the rows of all batches follow one another.
pub fn batch_to_dataframe(batches: &Vec<ColumnBatch>) -> (r: Result<DataFrame, CubeError>)
    requires
        forall|i: int| 0 <= i < batches.len() ==> (#[trigger] batches@[i]).wf(),
    ensures
        (r is Ok) == (columns_supported(batches@) && all_batches_ok(batches@)),
        r matches Err(e) ==> e == (if !columns_supported(batches@) { CubeError::UnsupportedType } else { CubeError::BadCell }),
        r matches Ok(df) ==> df_rows_view(df.rows@) == all_rows(batches@) && df_columns_view(df.columns@) == (if batches.len() == 0 {
            Seq::empty()
        } else {
            df_columns_spec(batches@[0].schema.fields@)
        }),
{
    let mut cols: Vec<DfColumn> = Vec::new();
    if batches.len() > 0 {
        match df_columns(&batches[0].schema.fields) {
            Ok(c) => {
                cols = c;
            },
            Err(e) => {
                return Err(e);
            },
        }
    }
    assert(batches.len() == 0 ==> df_columns_view(cols@) =~= Seq::<(Seq<char>, ColumnType, nat)>::empty());
    let mut rows: Vec<Vec<Value>> = Vec::new();
    let mut k: usize = 0;
    while k < batches.len()
        invariant
            k <= batches.len(),
            forall|i: int| 0 <= i < batches.len() ==> (#[trigger] batches@[i]).wf(),
            forall|i: int| 0 <= i < k ==> batch_ok(#[trigger] batches@[i]),
            batches.len() > 0 ==> fields_supported(batches@[0].schema.fields@),
            batches.len() > 0 ==> df_columns_view(cols@) == df_columns_spec(batches@[0].schema.fields@),
            batches.len() == 0 ==> df_columns_view(cols@) == Seq::<(Seq<char>, ColumnType, nat)>::empty(),
            df_rows_view(rows@) == all_rows(batches@.subrange(0, k as int)),
        decreases batches.len() - k,
    {
        assert(batches@.subrange(0, k + 1).drop_last() =~= batches@.subrange(0, k as int));
        match convert_batch(&batches[k]) {
            Some(mut more) => {
                let ghost prev = df_rows_view(rows@);
                let ghost mv = df_rows_view(more@);
                rows.append(&mut more);
                assert(df_rows_view(rows@) =~= prev + mv);
            },
            None => {
                return Err(CubeError::BadCell);
            },
        }
        k += 1;
    }
    assert(batches@.subrange(0, k as int) =~= batches@);
    Ok(DataFrame { columns: cols, rows })
}

} // verus!
