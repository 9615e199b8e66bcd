use cdf::data::DataOp;
use cdf::error::{CdfError, ResultExt, ensure_found};
use cdf::schema::{ColumnDef, DataType, TableSchema};
use cdf::temporal::{TemporalBounds, TemporalQuery, Timestamp};
use cdf::vector::ProductQuantizer;
use cdf::{ContentHash, FabricId};

#[test]
fn test_data_op_is_write() {
    assert!(DataOp::Insert.is_write());
    assert!(DataOp::BatchInsert.is_write());
    assert!(DataOp::CreateTable.is_write());
    assert!(!DataOp::Get.is_write());
    assert!(!DataOp::Embed.is_write());
    assert!(!DataOp::TextSearch.is_write());
}

#[test]
fn test_data_op_needs_table() {
    assert!(DataOp::Insert.needs_table());
    assert!(DataOp::TextSearch.needs_table());
    assert!(!DataOp::Embed.needs_table());
    assert!(!DataOp::DriftRegister.needs_table());
}

#[test]
fn test_data_op_equality() {
    assert_eq!(DataOp::Insert, DataOp::Insert);
    assert_ne!(DataOp::Insert, DataOp::Delete);
}

#[test]
fn test_data_op_hash() {
    let mut s = std::collections::HashSet::new();
    s.insert(DataOp::Insert);
    s.insert(DataOp::Delete);
    s.insert(DataOp::Insert);
    assert_eq!(s.len(), 2);
}

#[test]
fn test_error_display() {
    let err = CdfError::VectorDimensionMismatch { expected: 384, got: 512 };
    assert_eq!(err.to_string(), "vector dimension mismatch: expected 384, got 512");
}

#[test]
fn test_result_ext() {
    let r: Result<i32, std::io::Error> = Ok(42);
    assert_eq!(r.context("test").unwrap(), 42);
}

#[test]
fn test_timestamp_ordering() {
    let t1 = Timestamp::from_secs(100);
    let t2 = Timestamp::from_secs(200);
    assert!(t1 < t2);
}

#[test]
fn test_temporal_bounds_contains() {
    let bounds = TemporalBounds::with_valid_range(Timestamp::from_secs(100), Timestamp::from_secs(200));
    assert!(bounds.valid_contains(Timestamp::from_secs(150)));
    assert!(!bounds.valid_contains(Timestamp::from_secs(200)));
    assert!(!bounds.valid_contains(Timestamp::from_secs(50)));
}

#[test]
fn test_temporal_query_default() {
    let q = TemporalQuery::default();
    assert!(matches!(q, TemporalQuery::Current));
}

#[test]
fn test_fabric_id_display() {
    let id = FabricId::nil();
    assert_eq!(id.to_string(), "00000000-0000-0000-0000-000000000000");
}

#[test]
fn test_content_hash() {
    let hash = ContentHash::from_bytes(b"hello world");
    assert_eq!(hash.hash.len(), 32);
    assert_eq!(hash.to_hex().len(), 64);
}

#[test]
fn test_schema_builder() {
    let schema = TableSchema::new("documents")
        .with_column(ColumnDef::new("id", DataType::String).required())
        .with_column(ColumnDef::new("title", DataType::String).required())
        .with_column(
            ColumnDef::new("embedding", DataType::Vector { dimensions: 384, metric: "cosine".to_string() })
                .with_annotation("model", "all-MiniLM-L6-v2"),
        );

    assert_eq!(schema.columns.len(), 3);
    assert_eq!(schema.get_column("id").unwrap().dtype, DataType::String);
    assert!(!schema.get_column("id").unwrap().nullable);
}

#[test]
fn test_validate_row() {
    let schema = TableSchema::new("test").with_column(ColumnDef::new("name", DataType::String).required());

    let row = vec!["name".to_string()];
    assert!(schema.validate(&row).is_ok());

    let empty: Vec<String> = Vec::new();
    assert!(schema.validate(&empty).is_err());
}

#[test]
fn content_hash_hex_is_blake3_of_input() {
    let hash = ContentHash::from_bytes(b"hello world");
    assert_eq!(hash.to_hex(), "d74981efa70a0c880b8d8c1985d075dbcbf679b99a5f9914e5aaf96b831a9e24");
}

#[test]
fn fabric_id_text_is_hyphenated_hex() {
    let id = FabricId(0x0123456789abcdef0011223344556677);
    assert_eq!(id.to_string(), "01234567-89ab-cdef-0011-223344556677");
}

#[test]
fn fresh_fabric_ids_are_version_four() {
    let id = FabricId::new();
    let text = id.to_string();
    assert_eq!(text.len(), 36);
    assert_eq!(text.as_bytes()[14], b'4');
    assert_ne!(FabricId::new(), FabricId::new());
}

#[test]
fn error_messages_name_their_fields() {
    assert_eq!(CdfError::StorageFull.to_string(), "storage full");
    assert_eq!(CdfError::QueryTimeout { elapsed_ms: 1500 }.to_string(), "query timed out after 1500ms");
    assert_eq!(
        CdfError::GraphCycle { path: vec!["a".to_string(), "b".to_string(), "a".to_string()] }.to_string(),
        "cycle detected: a -> b -> a"
    );
    assert_eq!(
        CdfError::InvalidArgument { name: "k".to_string(), value: "0".to_string() }.to_string(),
        "invalid argument k=0"
    );
    assert_eq!(
        CdfError::Internal { component: "wal".to_string(), reason: "boom".to_string() }.to_string(),
        "internal error in wal: boom"
    );
}

#[test]
fn context_wraps_errors_as_internal() {
    let r: Result<i32, String> = Err("disk gone".to_string());
    match r.context("storage") {
        Err(CdfError::Internal { component, reason }) => {
            assert_eq!(component, "storage");
            assert_eq!(reason, "disk gone");
        }
        _ => panic!("expected an internal error"),
    }
}

#[test]
fn ensure_found_reports_the_key() {
    assert_eq!(ensure_found(Some(7), "k").unwrap(), 7);
    match ensure_found::<i32>(None, "row-9") {
        Err(CdfError::StorageNotFound { key }) => assert_eq!(key, "row-9"),
        _ => panic!("expected not found"),
    }
}

#[test]
fn schema_rejects_missing_required_column() {
    let schema = TableSchema::new("t")
        .with_column(ColumnDef::new("a", DataType::Int64).required())
        .with_column(ColumnDef::new("b", DataType::Int64));
    assert!(schema.validate(&["a".to_string()]).is_ok());
    match schema.validate(&["b".to_string()]) {
        Err(CdfError::SchemaValidation { field, .. }) => assert_eq!(field, "a"),
        _ => panic!("expected a validation error"),
    }
}

#[test]
fn timestamp_nanos_and_durations() {
    assert_eq!(Timestamp::from_secs(2).as_nanos(), 2_000_000_000);
    let d = Timestamp::from_secs(10).duration_since(Timestamp::from_secs(4)).unwrap();
    assert_eq!(d.as_secs(), 6);
    assert!(Timestamp::from_secs(4).duration_since(Timestamp::from_secs(10)).is_none());
    assert!(Timestamp::now() > Timestamp::from_secs(0));
}

#[test]
fn product_quantizer_splits_dimensions() {
    let q = ProductQuantizer::new(384, 8, 256);
    assert_eq!(q.subspace_dim, 48);
    assert_eq!(q.num_subspaces, 8);
    assert_eq!(q.centroids_per_space, 256);
}

#[test]
fn timestamp_text_form() {
    assert_eq!(Timestamp::from_secs(100).to_string(), "100.0");
    assert_eq!(Timestamp { seconds: -5, nanos: 7 }.to_string(), "-5.7");
    assert_eq!(Timestamp { seconds: i64::MIN, nanos: 0 }.to_string(), "-9223372036854775808.0");
}
