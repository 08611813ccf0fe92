use vstd::prelude::*;

verus! {

/// Failure to address the persisted value table.
#[derive(Debug, Clone, Copy)]
pub struct Error(pub &'static str);

/// Number of records in a value-table file of `bytes` bytes: the table is a
/// dense array of eight-byte records.
pub fn record_count(bytes: usize) -> (r: u32)
    requires
        bytes / 8 <= u32::MAX,
    ensures
        r == bytes / 8,
{
    (bytes / 8) as u32
}

/// Byte offset of record `index` in a table of `count` records, or a range
/// error for an index past the table's end.
pub fn record_offset(index: u32, count: u32) -> (r: Result<usize, Error>)
    requires
        8 * count <= usize::MAX,
    ensures
        index < count <==> r is Ok,
        (r matches Ok(off) ==> off == 8 * index),
{
    if index < count {
        Ok(8 * (index as usize))
    } else {
        Err(Error("state index out of range"))
    }
}

} // verus!
