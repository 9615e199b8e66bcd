//! Keys, stored values and segment metadata of the LSM storage engine.

use vstd::prelude::*;
use vstd::utf8::encode_utf8;
use crate::{FabricId, be_bytes, uuid_bytes};
use crate::temporal::{TemporalBounds, Timestamp};

verus! {

/// Result type of the storage engine.
pub type Result<T> = std::result::Result<T, crate::error::CdfError>;

/// Key of a stored row: table name plus row identifier.
#[derive(Debug, Clone, PartialEq, Eq, Hash)]
pub struct RowKey {
    pub table: String,
    pub row_id: FabricId,
}

/// The byte encoding of a row key: the table name in UTF-8, a zero byte,
/// then the 16 big-endian bytes of the row identifier.
pub open spec fn encoded_key(table: Seq<char>, row_id: FabricId) -> Seq<u8> {
    encode_utf8(table) + seq![0u8] + be_bytes(row_id.0)
}

impl RowKey {
    pub fn new(table: &str, row_id: FabricId) -> (k: RowKey)
        ensures
            k.table@ == table@,
            k.row_id == row_id,
    {
        RowKey { table: String::from_str(table), row_id }
    }

    pub fn encode(&self) -> (buf: Vec<u8>)
        ensures
            buf@ == encoded_key(self.table@, self.row_id),
    {
        let table_bytes = self.table.as_str().as_bytes();
        let mut buf: Vec<u8> = Vec::new();
        let mut i: usize = 0;
        while i < table_bytes.len()
            invariant
                i <= table_bytes.len(),
                buf@ == table_bytes@.subrange(0, i as int),
            decreases table_bytes.len() - i,
        {
            buf.push(table_bytes[i]);
            assert(buf@ =~= table_bytes@.subrange(0, i + 1));
            i = i + 1;
        }
        assert(table_bytes@.subrange(0, table_bytes.len() as int) =~= table_bytes@);
        buf.push(0);
        let id_bytes = uuid_bytes(self.row_id.0);
        let ghost base = buf@;
        let mut j: usize = 0;
        while j < 16
            invariant
                j <= 16,
                id_bytes@.len() == 16,
                buf@ == base + id_bytes@.subrange(0, j as int),
            decreases 16 - j,
        {
            buf.push(id_bytes[j]);
            assert(buf@ =~= base + id_bytes@.subrange(0, j + 1));
            j = j + 1;
        }
        assert(id_bytes@.subrange(0, 16) =~= id_bytes@);
        buf
    }
}

/// A stored value: a live row, or the tombstone of a deleted one. The row
/// type is a parameter.
#[derive(Debug, PartialEq)]
pub enum InternalValue<R> {
    /// Active row with data.
    Active(R),
    /// Tombstone (deleted).
    Tombstone { row_id: FabricId, temporal: TemporalBounds },
}

impl<R: Clone> Clone for InternalValue<R> {
    /// A copy of the same kind: a live row's copy is the row's clone, a
    /// tombstone's copy is equal to it.
    fn clone(&self) -> (c: Self)
        ensures
            match *self {
                InternalValue::Active(a) => c matches InternalValue::Active(b) && cloned::<R>(a, b),
                InternalValue::Tombstone { .. } => c == *self,
            },
    {
        match self {
            InternalValue::Active(a) => InternalValue::Active(a.clone()),
            InternalValue::Tombstone { row_id, temporal } => InternalValue::Tombstone { row_id: *row_id, temporal: *temporal },
        }
    }
}

/// The row a stored value shows: the row if live, nothing if deleted.
pub open spec fn visible_row<R>(v: InternalValue<R>) -> Option<R> {
    match v {
        InternalValue::Active(r) => Some(r),
        InternalValue::Tombstone { .. } => None,
    }
}

/// Immutable segment file metadata.
#[derive(Debug, PartialEq, Eq)]
pub struct SegmentInfo {
    pub segment_id: u64,
    pub file_path: String,
    pub level: u32,
    pub key_range: (Vec<u8>, Vec<u8>),
    pub row_count: u64,
    pub size_bytes: u64,
    pub created_at: Timestamp,
}

impl Clone for SegmentInfo {
    fn clone(&self) -> (c: SegmentInfo)
        ensures
            c.segment_id == self.segment_id,
            c.file_path@ == self.file_path@,
            c.level == self.level,
            c.key_range.0@ == self.key_range.0@,
            c.key_range.1@ == self.key_range.1@,
            c.row_count == self.row_count,
            c.size_bytes == self.size_bytes,
            c.created_at == self.created_at,
    {
        SegmentInfo {
            segment_id: self.segment_id,
            file_path: self.file_path.clone(),
            level: self.level,
            key_range: (self.key_range.0.clone(), self.key_range.1.clone()),
            row_count: self.row_count,
            size_bytes: self.size_bytes,
            created_at: self.created_at,
        }
    }
}

} // verus!
