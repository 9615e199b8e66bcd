//! The operation vocabulary of the unified data service and its error
//! payload.

use vstd::prelude::*;

verus! {

/// What the caller wants to do. The list is closed so the service can
/// validate at the boundary and route to the right pipeline.
#[derive(Debug, Clone, Copy, PartialEq, Eq, Hash, Structural)]
pub enum DataOp {
    Insert,
    BatchInsert,
    Get,
    Delete,
    Update,
    Scan,
    CreateTable,
    DropTable,
    VectorSearch,
    TextSearch,
    Embed,
    GraphAddEdge,
    GraphRemoveEdge,
    GraphTraverse,
    GraphNeighbors,
    DriftRegister,
    DriftCheck,
    TemporalQuery,
}

/// The operations that change stored state.
pub open spec fn op_writes(op: DataOp) -> bool {
    match op {
        DataOp::Insert | DataOp::BatchInsert | DataOp::Delete | DataOp::Update
        | DataOp::CreateTable | DataOp::DropTable | DataOp::GraphAddEdge
        | DataOp::GraphRemoveEdge | DataOp::DriftRegister => true,
        _ => false,
    }
}

/// The operations scoped to a table.
pub open spec fn op_needs_table(op: DataOp) -> bool {
    match op {
        DataOp::Insert | DataOp::BatchInsert | DataOp::Get | DataOp::Delete | DataOp::Update
        | DataOp::Scan | DataOp::VectorSearch | DataOp::TextSearch => true,
        _ => false,
    }
}

impl DataOp {
    pub fn is_write(&self) -> (b: bool)
        ensures
            b == op_writes(*self),
    {
        match self {
            DataOp::Insert | DataOp::BatchInsert | DataOp::Delete | DataOp::Update
            | DataOp::CreateTable | DataOp::DropTable | DataOp::GraphAddEdge
            | DataOp::GraphRemoveEdge | DataOp::DriftRegister => true,
            _ => false,
        }
    }

    pub fn needs_table(&self) -> (b: bool)
        ensures
            b == op_needs_table(*self),
    {
        match self {
            DataOp::Insert | DataOp::BatchInsert | DataOp::Get | DataOp::Delete
            | DataOp::Update | DataOp::Scan | DataOp::VectorSearch | DataOp::TextSearch => true,
            _ => false,
        }
    }
}

/// Error payload of a data response.
#[derive(Debug, Clone)]
pub struct DataError {
    pub code: String,
    pub message: String,
}

} // verus!
