//! The unified error type of the fabric, its rendered messages, and small
//! helpers for turning other failures into it.

use vstd::prelude::*;

verus! {

/// The single error type used across all components.
#[derive(Debug, Clone, PartialEq)]
pub enum CdfError {
    StorageCorruption { details: String },
    StorageNotFound { key: String },
    StorageFull,
    WalError { reason: String },
    Serialization { format: String, reason: String },
    VectorDimensionMismatch { expected: usize, got: usize },
    VectorIndexCorrupted { details: String },
    SchemaValidation { field: String, reason: String },
    SchemaConflict { table: String, existing: String, proposed: String },
    QueryParse { cql: String, reason: String },
    QueryPlan { reason: String },
    QueryTimeout { elapsed_ms: u64 },
    Network { target: String, operation: String, reason: String },
    QuorumUnavailable { required: usize, available: usize },
    ShardNotFound { shard_id: u64 },
    NodeUnavailable { node_id: String },
    TemporalViolation { reason: String },
    GraphCycle { path: Vec<String> },
    GraphNodeNotFound { node_id: String },
    ProbInvalid { reason: String },
    EmbedModelUnavailable { model_id: String },
    EmbedGenerationFailed { reason: String },
    Internal { component: String, reason: String },
    NotImplemented { feature: String },
    InvalidArgument { name: String, value: String },
}

/// The character of a decimal digit.
pub open spec fn digit_char(d: nat) -> char {
    ((d + 48) as u32) as char
}

/// The decimal rendering of a natural number, without leading zeros.
pub open spec fn decimal_text(n: nat) -> Seq<char>
    decreases n,
{
    if n < 10 {
        seq![digit_char(n)]
    } else {
        decimal_text(n / 10) + seq![digit_char(n % 10)]
    }
}

/// The items of `parts` joined by `sep`.
pub open spec fn joined(parts: Seq<Seq<char>>, sep: Seq<char>) -> Seq<char>
    decreases parts.len(),
{
    if parts.len() == 0 {
        Seq::empty()
    } else if parts.len() == 1 {
        parts[0]
    } else {
        joined(parts.drop_last(), sep) + sep + parts.last()
    }
}

/// The views of a vector of strings.
pub open spec fn string_views(v: Seq<String>) -> Seq<Seq<char>> {
    v.map_values(|s: String| s@)
}

/// The message that an error renders to.
pub open spec fn error_message(e: CdfError) -> Seq<char> {
    match e {
        CdfError::StorageCorruption { details } => "storage corruption: "@ + details@,
        CdfError::StorageNotFound { key } => "key not found: "@ + key@,
        CdfError::StorageFull => "storage full"@,
        CdfError::WalError { reason } => "WAL error: "@ + reason@,
        CdfError::Serialization { format, reason } => format@ + " serialization failed: "@
            + reason@,
        CdfError::VectorDimensionMismatch { expected, got } => "vector dimension mismatch: expected "@
            + decimal_text(expected as nat) + ", got "@ + decimal_text(got as nat),
        CdfError::VectorIndexCorrupted { details } => "vector index corrupted: "@ + details@,
        CdfError::SchemaValidation { field, reason } => "schema validation failed for '"@ + field@
            + "': "@ + reason@,
        CdfError::SchemaConflict { table, existing, proposed } => "schema conflict in '"@ + table@
            + "': existing="@ + existing@ + ", proposed="@ + proposed@,
        CdfError::QueryParse { cql, reason } => "failed to parse CQL '"@ + cql@ + "': "@ + reason@,
        CdfError::QueryPlan { reason } => "query planning failed: "@ + reason@,
        CdfError::QueryTimeout { elapsed_ms } => "query timed out after "@ + decimal_text(
            elapsed_ms as nat,
        ) + "ms"@,
        CdfError::Network { target, operation, reason } => "network error on "@ + target@
            + " during "@ + operation@ + ": "@ + reason@,
        CdfError::QuorumUnavailable { required, available } => "quorum unavailable: required "@
            + decimal_text(required as nat) + ", available "@ + decimal_text(available as nat),
        CdfError::ShardNotFound { shard_id } => "shard "@ + decimal_text(shard_id as nat)
            + " not found"@,
        CdfError::NodeUnavailable { node_id } => "node "@ + node_id@ + " unavailable"@,
        CdfError::TemporalViolation { reason } => "temporal violation: "@ + reason@,
        CdfError::GraphCycle { path } => "cycle detected: "@ + joined(
            string_views(path@),
            " -> "@,
        ),
        CdfError::GraphNodeNotFound { node_id } => "graph node "@ + node_id@ + " not found"@,
        CdfError::ProbInvalid { reason } => "invalid probabilistic value: "@ + reason@,
        CdfError::EmbedModelUnavailable { model_id } => "embedding model "@ + model_id@
            + " unavailable"@,
        CdfError::EmbedGenerationFailed { reason } => "embedding generation failed: "@ + reason@,
        CdfError::Internal { component, reason } => "internal error in "@ + component@ + ": "@
            + reason@,
        CdfError::NotImplemented { feature } => "feature not implemented: "@ + feature@,
        CdfError::InvalidArgument { name, value } => "invalid argument "@ + name@ + "="@ + value@,
    }
}

/// The one-character text of a decimal digit.
fn digit_str(d: u64) -> (s: &'static str)
    requires
        d < 10,
    ensures
        s@ == seq![digit_char(d as nat)],
{
    proof {
        reveal_strlit("0");
        reveal_strlit("1");
        reveal_strlit("2");
        reveal_strlit("3");
        reveal_strlit("4");
        reveal_strlit("5");
        reveal_strlit("6");
        reveal_strlit("7");
        reveal_strlit("8");
        reveal_strlit("9");
    }
    if d == 0 {
        "0"
    } else if d == 1 {
        "1"
    } else if d == 2 {
        "2"
    } else if d == 3 {
        "3"
    } else if d == 4 {
        "4"
    } else if d == 5 {
        "5"
    } else if d == 6 {
        "6"
    } else if d == 7 {
        "7"
    } else if d == 8 {
        "8"
    } else {
        "9"
    }
}

/// Appends the decimal rendering of `n` to `out`.
pub fn append_decimal(out: &mut String, n: u64)
    ensures
        final(out)@ == old(out)@ + decimal_text(n as nat),
    decreases n,
{
    if n >= 10 {
        append_decimal(out, n / 10);
    }
    let s = digit_str(n % 10);
    out.append(s);
    proof {
        if n >= 10 {
            assert(final(out)@ =~= old(out)@ + decimal_text(n as nat));
        }
    }
}

/// Appends the items of `parts` to `out`, separated by `sep`.
fn append_joined(out: &mut String, parts: &Vec<String>, sep: &str)
    ensures
        final(out)@ == old(out)@ + joined(string_views(parts@), sep@),
{
    let ghost start = out@;
    let mut i: usize = 0;
    while i < parts.len()
        invariant
            i <= parts.len(),
            out@ == start + joined(string_views(parts@.subrange(0, i as int)), sep@),
        decreases parts.len() - i,
    {
        let ghost before = out@;
        if i > 0 {
            out.append(sep);
        }
        out.append(parts[i].as_str());
        proof {
            let pre = string_views(parts@.subrange(0, i as int));
            let post = string_views(parts@.subrange(0, i + 1));
            assert(post.drop_last() =~= pre);
            assert(post.last() == parts@[i as int]@);
            if i == 0 {
                assert(pre =~= Seq::<Seq<char>>::empty());
                assert(post.len() == 1);
            }
            assert(out@ =~= start + joined(post, sep@));
        }
        i = i + 1;
    }
    assert(parts@.subrange(0, parts.len() as int) =~= parts@);
}

/// A string holding a copy of `s`.
fn text(s: &str) -> (r: String)
    ensures
        r@ == s@,
{
    String::from_str(s)
}

/// `a` followed by `b`.
fn cat2(a: &str, b: &str) -> (r: String)
    ensures
        r@ == a@ + b@,
{
    let mut r = String::from_str(a);
    r.append(b);
    r
}

/// `a`, `b`, `c` and `d` in turn.
fn cat4(a: &str, b: &str, c: &str, d: &str) -> (r: String)
    ensures
        r@ == a@ + b@ + c@ + d@,
{
    let mut r = String::from_str(a);
    r.append(b);
    r.append(c);
    r.append(d);
    r
}

/// `a` through `f` in turn.
fn cat6(a: &str, b: &str, c: &str, d: &str, e: &str, f: &str) -> (r: String)
    ensures
        r@ == a@ + b@ + c@ + d@ + e@ + f@,
{
    let mut r = String::from_str(a);
    r.append(b);
    r.append(c);
    r.append(d);
    r.append(e);
    r.append(f);
    r
}

impl CdfError {
    /// The human-readable message of this error.
    pub fn to_string(&self) -> (s: String)
        ensures
            s@ == error_message(*self),
    {
        match self {
            CdfError::StorageCorruption { details } => cat2("storage corruption: ", details.as_str()),
            CdfError::StorageNotFound { key } => cat2("key not found: ", key.as_str()),
            CdfError::StorageFull => text("storage full"),
            CdfError::WalError { reason } => cat2("WAL error: ", reason.as_str()),
            CdfError::Serialization { format, reason } => {
                let mut s = cat2(format.as_str(), " serialization failed: ");
                s.append(reason.as_str());
                s
            },
            CdfError::VectorDimensionMismatch { expected, got } => {
                let mut s = text("vector dimension mismatch: expected ");
                append_decimal(&mut s, *expected as u64);
                s.append(", got ");
                append_decimal(&mut s, *got as u64);
                s
            },
            CdfError::VectorIndexCorrupted { details } => cat2(
                "vector index corrupted: ",
                details.as_str(),
            ),
            CdfError::SchemaValidation { field, reason } => cat4(
                "schema validation failed for '",
                field.as_str(),
                "': ",
                reason.as_str(),
            ),
            CdfError::SchemaConflict { table, existing, proposed } => cat6(
                "schema conflict in '",
                table.as_str(),
                "': existing=",
                existing.as_str(),
                ", proposed=",
                proposed.as_str(),
            ),
            CdfError::QueryParse { cql, reason } => cat4(
                "failed to parse CQL '",
                cql.as_str(),
                "': ",
                reason.as_str(),
            ),
            CdfError::QueryPlan { reason } => cat2("query planning failed: ", reason.as_str()),
            CdfError::QueryTimeout { elapsed_ms } => {
                let mut s = text("query timed out after ");
                append_decimal(&mut s, *elapsed_ms);
                s.append("ms");
                s
            },
            CdfError::Network { target, operation, reason } => cat6(
                "network error on ",
                target.as_str(),
                " during ",
                operation.as_str(),
                ": ",
                reason.as_str(),
            ),
            CdfError::QuorumUnavailable { required, available } => {
                let mut s = text("quorum unavailable: required ");
                append_decimal(&mut s, *required as u64);
                s.append(", available ");
                append_decimal(&mut s, *available as u64);
                s
            },
            CdfError::ShardNotFound { shard_id } => {
                let mut s = text("shard ");
                append_decimal(&mut s, *shard_id);
                s.append(" not found");
                s
            },
            CdfError::NodeUnavailable { node_id } => {
                let mut s = cat2("node ", node_id.as_str());
                s.append(" unavailable");
                s
            },
            CdfError::TemporalViolation { reason } => cat2("temporal violation: ", reason.as_str()),
            CdfError::GraphCycle { path } => {
                let mut s = text("cycle detected: ");
                append_joined(&mut s, path, " -> ");
                s
            },
            CdfError::GraphNodeNotFound { node_id } => {
                let mut s = cat2("graph node ", node_id.as_str());
                s.append(" not found");
                s
            },
            CdfError::ProbInvalid { reason } => cat2(
                "invalid probabilistic value: ",
                reason.as_str(),
            ),
            CdfError::EmbedModelUnavailable { model_id } => {
                let mut s = cat2("embedding model ", model_id.as_str());
                s.append(" unavailable");
                s
            },
            CdfError::EmbedGenerationFailed { reason } => cat2(
                "embedding generation failed: ",
                reason.as_str(),
            ),
            CdfError::Internal { component, reason } => cat4(
                "internal error in ",
                component.as_str(),
                ": ",
                reason.as_str(),
            ),
            CdfError::NotImplemented { feature } => cat2(
                "feature not implemented: ",
                feature.as_str(),
            ),
            CdfError::InvalidArgument { name, value } => cat4(
                "invalid argument ",
                name.as_str(),
                "=",
                value.as_str(),
            ),
        }
    }
}


/// An opaque I/O failure of the standard library.
#[verifier::external_type_specification]
#[verifier::external_body]
pub struct ExIoError(std::io::Error);

/// Renders an I/O error through its `Display` impl
/// (`ToString::to_string` on `std::io::Error`). Nothing is promised of the
/// text.
#[verifier::external_body]
fn io_error_text(e: &std::io::Error) -> String {
    e.to_string()
}

/// Failures that can render themselves as text.
pub trait ErrorText {
    /// Whether the text follows from the value alone.
    spec fn text_known(&self) -> bool;

    /// The text, where it follows from the value.
    spec fn text_spec(&self) -> Seq<char>;

    fn error_text(&self) -> (s: String)
        ensures
            self.text_known() ==> s@ == self.text_spec(),
    ;
}

impl ErrorText for CdfError {
    open spec fn text_known(&self) -> bool {
        true
    }

    open spec fn text_spec(&self) -> Seq<char> {
        error_message(*self)
    }

    fn error_text(&self) -> (s: String) {
        self.to_string()
    }
}

impl ErrorText for String {
    open spec fn text_known(&self) -> bool {
        true
    }

    open spec fn text_spec(&self) -> Seq<char> {
        self@
    }

    fn error_text(&self) -> (s: String) {
        self.clone()
    }
}

/// An I/O error's text comes from the operating system, so nothing is
/// known of it here.
impl ErrorText for std::io::Error {
    open spec fn text_known(&self) -> bool {
        false
    }

    open spec fn text_spec(&self) -> Seq<char> {
        Seq::empty()
    }

    fn error_text(&self) -> (s: String) {
        io_error_text(self)
    }
}

/// Attaches context to a failed result by turning its error into
/// `CdfError::Internal`.
pub trait ResultExt<T>: Sized {
    fn context(self, msg: &str) -> std::result::Result<T, CdfError>;

    fn with_component(self, component: &str) -> std::result::Result<T, CdfError>;
}

/// What `context` and `with_component` give for a result: success passes
/// through, an error becomes `Internal` with `label` as the component and
/// the error's text as the reason.
pub open spec fn contextualized<T, E: ErrorText>(
    r: std::result::Result<T, E>,
    label: Seq<char>,
    out: std::result::Result<T, CdfError>,
) -> bool {
    match r {
        Ok(v) => out == Ok::<T, CdfError>(v),
        Err(e) => match out {
            Err(CdfError::Internal { component, reason }) => component@ == label && (e.text_known()
                ==> reason@ == e.text_spec()),
            _ => false,
        },
    }
}

impl<T, E: ErrorText> ResultExt<T> for std::result::Result<T, E> {
    fn context(self, msg: &str) -> (out: std::result::Result<T, CdfError>)
        ensures
            contextualized(self, msg@, out),
    {
        match self {
            Ok(v) => Ok(v),
            Err(e) => Err(CdfError::Internal { component: String::from_str(msg), reason: e.error_text() }),
        }
    }

    fn with_component(self, component: &str) -> (out: std::result::Result<T, CdfError>)
        ensures
            contextualized(self, component@, out),
    {
        match self {
            Ok(v) => Ok(v),
            Err(e) => Err(
                CdfError::Internal { component: String::from_str(component), reason: e.error_text() },
            ),
        }
    }
}

/// The value inside `opt`, or `StorageNotFound` naming `key`.
pub fn ensure_found<T>(opt: Option<T>, key: &str) -> (r: std::result::Result<T, CdfError>)
    ensures
        match opt {
            Some(v) => r == Ok::<T, CdfError>(v),
            None => match r {
                Err(CdfError::StorageNotFound { key: k }) => k@ == key@,
                _ => false,
            },
        },
{
    match opt {
        Some(v) => Ok(v),
        None => Err(CdfError::StorageNotFound { key: String::from_str(key) }),
    }
}

} // verus!
