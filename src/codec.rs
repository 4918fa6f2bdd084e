//! The wire form of one record batch: a framed columnar stream that carries
//! the batch with its schema.
use vstd::prelude::*;
use crate::error::CubeError;

verus! {

/// One batch in its wire form.
#[derive(Debug)]
pub struct SerializedRecordBatchStream {
    pub record_batch_file: Vec<u8>,
}

impl SerializedRecordBatchStream {
    /// Wraps the bytes of one framed stream.
    pub fn new(record_batch_file: Vec<u8>) -> (r: SerializedRecordBatchStream)
        ensures
            r.record_batch_file@ == record_batch_file@,
    {
        SerializedRecordBatchStream { record_batch_file }
    }

    /// The one batch that decoding a blob gave: an error for none or for more
    /// than one.
    pub fn single_batch<T>(decoded: Vec<T>) -> (r: Result<T, CubeError>)
        ensures
            decoded.len() == 0 ==> r == Err::<T, CubeError>(CubeError::ZeroBatches),
            decoded.len() > 1 ==> r == Err::<T, CubeError>(CubeError::ManyBatches),
            decoded.len() == 1 ==> r == Ok::<T, CubeError>(decoded@[0]),
    {
        let mut decoded = decoded;
        if decoded.len() == 0 {
            Err(CubeError::ZeroBatches)
        } else if decoded.len() > 1 {
            Err(CubeError::ManyBatches)
        } else {
            Ok(decoded.remove(0))
        }
    }
}

} // verus!
