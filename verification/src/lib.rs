//! Cognitive Data Fabric core: identifiers, bitemporal time, errors,
//! schemas, roles and access control, token lifetimes, graph adjacency and
//! traversal, temporal indexing, and the storage engine's write buffers,
//! reads and write-ahead-log framing.

use vstd::prelude::*;

pub mod acl;
pub mod bytes_order;
pub mod data;
pub mod engine;
pub mod error;
pub mod graph;
pub mod jwt;
pub mod keyed;
pub mod memtable;
pub mod principal;
pub mod prob;
pub mod rbac;
pub mod schema;
pub mod storage;
pub mod temporal;
pub mod temporal_index;
pub mod traversal;
pub mod vector;
pub mod wal;

pub use error::CdfError;
pub use temporal::{TemporalBounds, TemporalQuery, Timestamp};

verus! {

/// Result type alias using the fabric's unified error.
pub type Result<T> = std::result::Result<T, error::CdfError>;

/// The character of a hexadecimal digit (lower case).
pub open spec fn hex_char(d: nat) -> char {
    if d < 10 {
        ((d + 48) as u32) as char
    } else {
        ((d + 87) as u32) as char
    }
}

/// Lower-case hexadecimal text of a byte string: two digits per byte,
/// high nibble first.
pub open spec fn hex_lower(bytes: Seq<u8>) -> Seq<char>
    decreases bytes.len(),
{
    if bytes.len() == 0 {
        Seq::empty()
    } else {
        hex_lower(bytes.drop_last()) + seq![
            hex_char((bytes.last() / 16) as nat),
            hex_char((bytes.last() % 16) as nat),
        ]
    }
}

/// The `i`-th byte, most significant first, of the 16-byte big-endian
/// form of `v`.
pub open spec fn be_byte(v: u128, i: int) -> u8 {
    ((v as nat / vstd::arithmetic::power::pow(256, (15 - i) as nat) as nat) % 256) as u8
}

/// The 16 big-endian bytes of `v`.
pub open spec fn be_bytes(v: u128) -> Seq<u8> {
    Seq::new(16, |i: int| be_byte(v, i))
}

/// The hyphenated lower-case text of a 128-bit identifier:
/// 8-4-4-4-12 hexadecimal digits.
pub open spec fn hyphenated_text(v: u128) -> Seq<char> {
    let h = hex_lower(be_bytes(v));
    h.subrange(0, 8) + "-"@ + h.subrange(8, 12) + "-"@ + h.subrange(12, 16) + "-"@ + h.subrange(
        16,
        20,
    ) + "-"@ + h.subrange(20, 32)
}

/// The version nibble of a 128-bit identifier (bits 76 to 79).
pub open spec fn uuid_version(v: u128) -> nat {
    (v as nat / vstd::arithmetic::power::pow(2, 76) as nat) % 16
}

/// The two variant bits of a 128-bit identifier (bits 62 and 63).
pub open spec fn uuid_variant(v: u128) -> nat {
    (v as nat / vstd::arithmetic::power::pow(2, 62) as nat) % 4
}

/// Draws a random version-4 identifier (`uuid::Uuid::new_v4`) and returns
/// its 128-bit value (`Uuid::as_u128`). The value is random; `new_v4`
/// sets the version nibble to 4 and the variant bits to `10`.
#[verifier::external_body]
pub(crate) fn random_uuid_value() -> (v: u128)
    ensures
        uuid_version(v) == 4,
        uuid_variant(v) == 2,
{
    uuid::Uuid::new_v4().as_u128()
}

/// Renders the identifier with value `v` (`uuid::Uuid::from_u128`, then
/// `Display`): hyphenated lower-case hexadecimal.
#[verifier::external_body]
pub(crate) fn uuid_text(v: u128) -> (s: String)
    ensures
        s@ == hyphenated_text(v),
{
    uuid::Uuid::from_u128(v).to_string()
}

/// The bytes of the identifier with value `v` (`uuid::Uuid::from_u128`,
/// then `as_bytes`): its big-endian form.
#[verifier::external_body]
pub(crate) fn uuid_bytes(v: u128) -> (b: [u8; 16])
    ensures
        b@ == be_bytes(v),
{
    *uuid::Uuid::from_u128(v).as_bytes()
}

/// Unique identifier across the entire fabric: the 128-bit value of a UUID.
#[derive(Debug, Clone, Copy, PartialEq, Eq, PartialOrd, Ord, Hash, Structural)]
pub struct FabricId(pub u128);

impl FabricId {
    /// A fresh random (version 4) identifier.
    pub fn new() -> (id: FabricId)
        ensures
            uuid_version(id.0) == 4,
            uuid_variant(id.0) == 2,
    {
        FabricId(random_uuid_value())
    }

    /// The all-zero identifier.
    pub fn nil() -> (id: FabricId)
        ensures
            id.0 == 0,
    {
        FabricId(0)
    }

    /// The hyphenated lower-case text of the identifier.
    pub fn to_string(&self) -> (s: String)
        ensures
            s@ == hyphenated_text(self.0),
    {
        uuid_text(self.0)
    }
}

impl Default for FabricId {
    fn default() -> (id: FabricId)
        ensures
            uuid_version(id.0) == 4,
    {
        FabricId::new()
    }
}

/// What BLAKE3 computes of a byte string.
pub uninterp spec fn blake3_of(data: Seq<u8>) -> Seq<u8>;

/// Hashes `data` with `blake3::hash` and returns the 32 digest bytes
/// (`Hash::as_bytes`). The digest is a function of the input alone.
#[verifier::external_body]
fn blake3_digest(data: &[u8]) -> (h: [u8; 32])
    ensures
        h@ == blake3_of(data@),
{
    *blake3::hash(data).as_bytes()
}

/// Encodes bytes with `hex::encode`: two lower-case hexadecimal digits per
/// byte, high nibble first.
#[verifier::external_body]
fn hex_encode(data: &[u8]) -> (s: String)
    ensures
        s@ == hex_lower(data@),
{
    hex::encode(data)
}

/// Content-addressed hash using BLAKE3.
#[derive(Debug, Clone, Copy, PartialEq, Eq, Hash)]
pub struct ContentHash {
    pub hash: [u8; 32],
}

impl ContentHash {
    pub fn from_bytes(data: &[u8]) -> (h: ContentHash)
        ensures
            h.hash@ == blake3_of(data@),
    {
        ContentHash { hash: blake3_digest(data) }
    }

    pub fn to_hex(&self) -> (s: String)
        ensures
            s@ == hex_lower(self.hash@),
    {
        hex_encode(self.hash.as_slice())
    }
}

#[derive(Debug, Clone, Copy, PartialEq, Eq, Structural)]
pub enum TensorDtype {
    Float32,
    Float64,
    Int32,
    Int64,
}

/// Consistency levels for distributed operations.
#[derive(Debug, Clone, Copy, PartialEq, Eq, Hash, Structural)]
pub enum ConsistencyLevel {
    Eventual,
    Session,
    BoundedStaleness { max_lag_ms: u64 },
    Strong,
}

#[derive(Debug, Clone, Copy, PartialEq, Eq, Hash, Structural)]
pub enum NodeRole {
    Storage,
    Router,
    Meta,
    Embedder,
    Gateway,
}

/// Cluster node identity.
#[derive(Debug, Clone, PartialEq, Eq, Hash)]
pub struct NodeInfo {
    pub node_id: FabricId,
    pub address: String,
    pub role: NodeRole,
    pub shard_range: Option<(u64, u64)>,
}

/// A JSON object (`serde_json::Map`), held opaquely.
#[verifier::external_type_specification]
#[verifier::external_body]
#[verifier::reject_recursive_types(K)]
#[verifier::reject_recursive_types(V)]
pub struct ExJsonMap<K, V>(serde_json::Map<K, V>);

/// Copies a JSON object (`Clone` for `serde_json::Map<String, Value>`,
/// which clones the underlying map); the copy is the same object.
#[verifier::external_body]
pub(crate) fn clone_json_map(m: &serde_json::Map<String, serde_json::Value>) -> (r: serde_json::Map<
    String,
    serde_json::Value,
>)
    ensures
        r == *m,
{
    m.clone()
}

/// Reference to a graph edge.
#[derive(Debug)]
pub struct GraphEdgeRef {
    pub from_id: FabricId,
    pub to_id: FabricId,
    pub edge_type: String,
    pub properties: serde_json::Map<String, serde_json::Value>,
}

impl Clone for GraphEdgeRef {
    fn clone(&self) -> (e: GraphEdgeRef)
        ensures
            e == *self,
    {
        GraphEdgeRef {
            from_id: self.from_id,
            to_id: self.to_id,
            edge_type: self.edge_type.clone(),
            properties: clone_json_map(&self.properties),
        }
    }
}

/// Node identity in the fabric (entity, document, concept, ...).
#[derive(Debug)]
pub struct Node {
    pub id: FabricId,
    pub labels: Vec<String>,
    pub properties: serde_json::Map<String, serde_json::Value>,
}

impl Clone for Node {
    fn clone(&self) -> (n: Node)
        ensures
            n.id == self.id,
            n.labels@.len() == self.labels@.len(),
            forall|i: int| 0 <= i < self.labels@.len() ==> (#[trigger] n.labels@[i])@ == self.labels@[i]@,
            n.properties == self.properties,
    {
        Node { id: self.id, labels: self.labels.clone(), properties: clone_json_map(&self.properties) }
    }
}

/// Sequence number for ordered operations.
#[derive(Debug, Clone, Copy, PartialEq, Eq, PartialOrd, Ord, Hash, Structural)]
pub struct SequenceNumber(pub u64);

} // verus!
