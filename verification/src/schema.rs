//! Dynamic schemas for poly-modal tables: column and index definitions,
//! builders, row validation and schema evolution.

use vstd::prelude::*;
use crate::error::CdfError;
use crate::keyed::StringMap;
use crate::principal::{contains_text, has_text};

verus! {

/// A JSON value, held opaquely.
#[verifier::external_type_specification]
#[verifier::external_body]
pub struct ExJsonValue(serde_json::Value);

/// Element types of tensors.
#[derive(Debug, Clone, Copy, PartialEq, Eq, Hash, Structural)]
pub enum TensorElementType {
    Float32,
    Float64,
    Int32,
    Int64,
}

/// Supported data types.
#[derive(Debug, Clone, PartialEq, Eq, Hash)]
pub enum DataType {
    Bool,
    Int8,
    Int16,
    Int32,
    Int64,
    UInt8,
    UInt16,
    UInt32,
    UInt64,
    Float32,
    Float64,
    String,
    Bytes,
    /// Embedding with known dimensionality.
    Vector { dimensions: usize, metric: String },
    /// Multi-dimensional tensor.
    Tensor { shape: Vec<u32>, dtype: TensorElementType },
    /// Probabilistic value.
    Distribution { family: String },
    /// Reference to external blob storage.
    BlobRef,
    /// Temporal bounds (auto-managed).
    Temporal,
    /// Graph edge reference.
    GraphEdge { edge_type: String },
    /// JSON-like unstructured data.
    Json,
}

/// A column definition.
#[derive(Debug, Clone)]
pub struct ColumnDef {
    pub name: String,
    pub dtype: DataType,
    pub nullable: bool,
    pub default: Option<serde_json::Value>,
    pub annotations: StringMap,
}

impl ColumnDef {
    /// A nullable column without default or annotations.
    pub fn new(name: &str, dtype: DataType) -> (c: ColumnDef)
        ensures
            c.name@ == name@,
            c.dtype == dtype,
            c.nullable,
            c.default.is_none(),
            c.annotations.wf(),
            c.annotations@ == Map::<Seq<char>, Seq<char>>::empty(),
    {
        ColumnDef {
            name: String::from_str(name),
            dtype,
            nullable: true,
            default: None,
            annotations: StringMap::new(),
        }
    }

    /// The column made non-nullable.
    pub fn required(self) -> (c: ColumnDef)
        ensures
            c == (ColumnDef { nullable: false, ..self }),
    {
        let mut c = self;
        c.nullable = false;
        c
    }

    /// The column with a default value.
    pub fn with_default(self, val: serde_json::Value) -> (c: ColumnDef)
        ensures
            c == (ColumnDef { default: Some(val), ..self }),
    {
        let mut c = self;
        c.default = Some(val);
        c
    }

    /// The column with annotation `key` set to `val`.
    pub fn with_annotation(self, key: &str, val: &str) -> (c: ColumnDef)
        requires
            self.annotations.wf(),
        ensures
            c.annotations.wf(),
            c.annotations@ == self.annotations@.insert(key@, val@),
            c.name == self.name,
            c.dtype == self.dtype,
            c.nullable == self.nullable,
            c.default == self.default,
    {
        let mut c = self;
        c.annotations.insert(String::from_str(key), String::from_str(val));
        c
    }
}

/// Index kinds.
#[derive(Debug, Clone, Copy, PartialEq, Eq, Hash, Structural)]
pub enum IndexType {
    /// B-tree for range queries.
    BTree,
    /// Inverted index for text search.
    Inverted,
    /// HNSW for vector similarity.
    Hnsw,
    /// Adjacency index for graph traversal.
    Graph,
    /// Temporal index for time-slice queries.
    Temporal,
}

/// Index definition for a table.
#[derive(Debug, Clone)]
pub struct IndexDef {
    pub name: String,
    pub index_type: IndexType,
    pub columns: Vec<String>,
    pub options: StringMap,
}

/// Table schema with a version for evolution tracking.
#[derive(Debug, Clone)]
pub struct TableSchema {
    pub name: String,
    pub version: u64,
    pub columns: Vec<ColumnDef>,
    pub primary_key: Vec<String>,
    pub indexes: Vec<IndexDef>,
    pub options: StringMap,
}

/// The position of the first column of `cols` named `name`, if any.
pub open spec fn first_column(cols: Seq<ColumnDef>, name: Seq<char>) -> Option<int> {
    if exists|i: int| 0 <= i < cols.len() && cols[i].name@ == name {
        Some(
            choose|i: int|
                0 <= i < cols.len() && cols[i].name@ == name && forall|j: int|
                    0 <= j < i ==> cols[j].name@ != name,
        )
    } else {
        None
    }
}

/// The position of the first required column of `cols` that `present` does
/// not name, if any.
pub open spec fn first_missing(cols: Seq<ColumnDef>, present: Seq<String>) -> Option<int> {
    if exists|i: int| 0 <= i < cols.len() && !cols[i].nullable && !has_text(present, cols[i].name@) {
        Some(
            choose|i: int|
                0 <= i < cols.len() && !cols[i].nullable && !has_text(present, cols[i].name@)
                    && forall|j: int|
                    0 <= j < i ==> cols[j].nullable || has_text(present, cols[j].name@),
        )
    } else {
        None
    }
}

impl TableSchema {
    /// Version 1 of an empty table keyed by `id`.
    pub fn new(name: &str) -> (s: TableSchema)
        ensures
            s.name@ == name@,
            s.version == 1,
            s.columns@.len() == 0,
            s.primary_key@.len() == 1,
            s.primary_key@[0]@ == "id"@,
            s.indexes@.len() == 0,
            s.options.wf(),
            s.options@ == Map::<Seq<char>, Seq<char>>::empty(),
    {
        TableSchema {
            name: String::from_str(name),
            version: 1,
            columns: Vec::new(),
            primary_key: vec![String::from_str("id")],
            indexes: Vec::new(),
            options: StringMap::new(),
        }
    }

    pub fn with_column(self, col: ColumnDef) -> (s: TableSchema)
        ensures
            s.columns@ == self.columns@.push(col),
            s.name == self.name,
            s.version == self.version,
            s.primary_key == self.primary_key,
            s.indexes == self.indexes,
            s.options == self.options,
    {
        let mut s = self;
        s.columns.push(col);
        s
    }

    pub fn with_primary_key(self, keys: Vec<String>) -> (s: TableSchema)
        ensures
            s == (TableSchema { primary_key: keys, ..self }),
    {
        let mut s = self;
        s.primary_key = keys;
        s
    }

    pub fn with_index(self, index: IndexDef) -> (s: TableSchema)
        ensures
            s.indexes@ == self.indexes@.push(index),
            s.name == self.name,
            s.version == self.version,
            s.columns == self.columns,
            s.primary_key == self.primary_key,
            s.options == self.options,
    {
        let mut s = self;
        s.indexes.push(index);
        s
    }

    pub fn with_option(self, key: &str, val: &str) -> (s: TableSchema)
        requires
            self.options.wf(),
        ensures
            s.options.wf(),
            s.options@ == self.options@.insert(key@, val@),
            s.name == self.name,
            s.version == self.version,
            s.columns == self.columns,
            s.primary_key == self.primary_key,
            s.indexes == self.indexes,
    {
        let mut s = self;
        s.options.insert(String::from_str(key), String::from_str(val));
        s
    }

    /// The first column named `name`.
    pub fn get_column(&self, name: &str) -> (c: Option<&ColumnDef>)
        ensures
            match first_column(self.columns@, name@) {
                Some(i) => c == Some(&self.columns@[i]),
                None => c.is_none(),
            },
    {
        let key = String::from_str(name);
        let mut i: usize = 0;
        while i < self.columns.len()
            invariant
                i <= self.columns.len(),
                key@ == name@,
                forall|j: int| 0 <= j < i ==> self.columns@[j].name@ != name@,
            decreases self.columns.len() - i,
        {
            if self.columns[i].name == key {
                proof {
                    let k = choose|k: int|
                        0 <= k < self.columns@.len() && self.columns@[k].name@ == name@ && forall|
                            j: int,
                        |
                            0 <= j < k ==> self.columns@[j].name@ != name@;
                    assert(k == i);
                }
                return Some(&self.columns[i]);
            }
            i = i + 1;
        }
        None
    }

    /// Validates a row, given the names of the columns it holds: every
    /// non-nullable column must be present. The first missing one (in column
    /// order) is reported.
    pub fn validate(&self, row_columns: &[String]) -> (r: crate::Result<()>)
        ensures
            match first_missing(self.columns@, row_columns@) {
                None => r is Ok,
                Some(i) => match r {
                    Err(CdfError::SchemaValidation { field, reason }) => field@
                        == self.columns@[i].name@ && reason@ == "required field missing"@,
                    _ => false,
                },
            },
    {
        let mut i: usize = 0;
        while i < self.columns.len()
            invariant
                i <= self.columns.len(),
                forall|j: int|
                    0 <= j < i ==> (#[trigger] self.columns@[j]).nullable || has_text(
                        row_columns@,
                        self.columns@[j].name@,
                    ),
            decreases self.columns.len() - i,
        {
            let col = &self.columns[i];
            let has_value = contains_text(row_columns, col.name.as_str());
            if !col.nullable && !has_value {
                proof {
                    let k = choose|k: int|
                        0 <= k < self.columns@.len() && !self.columns@[k].nullable && !has_text(
                            row_columns@,
                            self.columns@[k].name@,
                        ) && forall|j: int|
                            0 <= j < k ==> self.columns@[j].nullable || has_text(
                                row_columns@,
                                self.columns@[j].name@,
                            );
                    assert(k == i);
                }
                return Err(
                    CdfError::SchemaValidation {
                        field: col.name.clone(),
                        reason: String::from_str("required field missing"),
                    },
                );
            }
            i = i + 1;
        }
        Ok(())
    }

    /// A new schema version with `col` added.
    pub fn evolve_add_column(&self, col: ColumnDef) -> (s: TableSchema)
        requires
            self.version < u64::MAX,
        ensures
            s.name@ == self.name@,
            s.version == self.version + 1,
            s.columns@.len() == self.columns@.len() + 1,
            forall|i: int|
                0 <= i < self.columns@.len() ==> cloned::<ColumnDef>(
                    self.columns@[i],
                    #[trigger] s.columns@[i],
                ),
            s.columns@.last() == col,
            s.primary_key@.len() == self.primary_key@.len(),
            forall|i: int|
                0 <= i < self.primary_key@.len() ==> (#[trigger] s.primary_key@[i])@
                    == self.primary_key@[i]@,
            self.options.wf() ==> s.options.wf() && s.options@ == self.options@,
    {
        let mut columns = self.columns.clone();
        columns.push(col);
        let next = TableSchema {
            name: self.name.clone(),
            version: self.version + 1,
            columns,
            primary_key: self.primary_key.clone(),
            indexes: self.indexes.clone(),
            options: self.options.clone(),
        };
        next
    }
}

/// A registry of table schemas, implemented by the metadata service.
pub trait SchemaRegistry {
    fn register(&mut self, schema: TableSchema) -> crate::Result<()>;

    fn get(&self, name: &str) -> crate::Result<Option<TableSchema>>;

    fn get_version(&self, name: &str, version: u64) -> crate::Result<Option<TableSchema>>;

    fn list(&self) -> Vec<String>;
}

} // verus!
