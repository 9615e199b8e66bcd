//! The write-ahead log's record format: each entry is stored as a 4-byte
//! little-endian length followed by that many bytes of encoded entry.
//! Reading stops quietly at a torn (incomplete) final record and fails on a
//! length that cannot be genuine.

use vstd::prelude::*;
use crate::FabricId;
use crate::error::{CdfError, append_decimal, decimal_text};

verus! {

/// WAL entry: sequence number and operation.
#[derive(Debug, Clone, PartialEq)]
pub struct WalEntry {
    pub seq: u64,
    pub op: WalOp,
}

/// A logged mutation.
#[derive(Debug, Clone, PartialEq)]
pub enum WalOp {
    Insert { table: String, row_id: FabricId, data: Vec<u8> },
    Delete { table: String, row_id: FabricId },
    Update { table: String, row_id: FabricId, data: Vec<u8> },
}

/// The largest record length a reader accepts (64 MiB).
pub const MAX_RECORD_LEN: u32 = 67108864;

/// The 4 little-endian bytes of `n`.
pub open spec fn le_bytes4(n: nat) -> Seq<u8> {
    seq![(n % 256) as u8, ((n / 256) % 256) as u8, ((n / 65536) % 256) as u8, ((n / 16777216) % 256) as u8]
}

/// The number that 4 little-endian bytes stand for.
pub open spec fn le_value4(b: Seq<u8>) -> nat {
    (b[0] + 256 * b[1] + 65536 * b[2] + 16777216 * b[3]) as nat
}

/// The framed form of a payload: its length (modulo 2^32) then its bytes.
pub open spec fn frame(p: Seq<u8>) -> Seq<u8> {
    le_bytes4((p.len() % 4294967296) as nat) + p
}

/// The framed forms of payloads, one after another.
pub open spec fn frames(ps: Seq<Seq<u8>>) -> Seq<u8>
    decreases ps.len(),
{
    if ps.len() == 0 {
        Seq::empty()
    } else {
        frame(ps[0]) + frames(ps.drop_first())
    }
}

/// What reading a log front to back gives: the payloads of its records,
/// stopping quietly at a torn final record (fewer than 4 length bytes, or
/// fewer payload bytes than the length says); `Err(len)` for the first
/// length that exceeds the limit.
pub open spec fn wal_read(log: Seq<u8>) -> Result<Seq<Seq<u8>>, nat>
    decreases log.len(),
{
    if log.len() < 4 {
        Ok(Seq::empty())
    } else {
        let len = le_value4(log.subrange(0, 4));
        if len > MAX_RECORD_LEN {
            Err(len)
        } else if log.len() - 4 < len {
            Ok(Seq::empty())
        } else {
            match wal_read(log.subrange((4 + len) as int, log.len() as int)) {
                Ok(rest) => Ok(seq![log.subrange(4, (4 + len) as int)] + rest),
                Err(bad) => Err(bad),
            }
        }
    }
}

/// The byte ranges `spans` cut out of `log`.
pub open spec fn span_payloads(log: Seq<u8>, spans: Seq<(usize, usize)>) -> Seq<Seq<u8>> {
    spans.map_values(|sp: (usize, usize)| log.subrange(sp.0 as int, sp.1 as int))
}

/// The message of the error for an impossible record length.
pub open spec fn oversize_message(len: nat) -> Seq<char> {
    "entry length "@ + decimal_text(len) + " exceeds 64MB, WAL likely corrupt"@
}

proof fn lemma_le4_roundtrip(n: nat)
    requires
        n < 4294967296,
    ensures
        le_value4(le_bytes4(n)) == n,
        le_bytes4(n).len() == 4,
{
    let b = le_bytes4(n);
    assert(b[0] == n % 256);
    assert(b[1] == (n / 256) % 256);
    assert(b[2] == (n / 65536) % 256);
    assert(b[3] == (n / 16777216) % 256);
    assert((n % 256) + 256 * ((n / 256) % 256) + 65536 * ((n / 65536) % 256) + 16777216 * ((n
        / 16777216) % 256) == n) by (nonlinear_arith)
        requires
            n < 4294967296,
    ;
}

/// Frames a payload for appending to the log: its length as 4
/// little-endian bytes (truncated to 32 bits), then the payload.
pub fn frame_record(payload: &[u8]) -> (r: Vec<u8>)
    ensures
        r@ == frame(payload@),
{
    let plen: u64 = payload.len() as u64;
    #[verifier::truncate]
    let len = plen as u32;
    let ghost n = (payload@.len() % 4294967296) as nat;
    assert(len == plen % 4294967296) by (bit_vector)
        requires
            len == plen as u32,
    ;
    let mut r: Vec<u8> = Vec::new();
    r.push((len % 256) as u8);
    r.push(((len / 256) % 256) as u8);
    r.push(((len / 65536) % 256) as u8);
    r.push(((len / 16777216) % 256) as u8);
    assert(r@ =~= le_bytes4(n));
    let ghost base = r@;
    let mut i: usize = 0;
    while i < payload.len()
        invariant
            i <= payload.len(),
            r@ == base + payload@.subrange(0, i as int),
        decreases payload.len() - i,
    {
        r.push(payload[i]);
        assert(r@ =~= base + payload@.subrange(0, i + 1));
        i = i + 1;
    }
    assert(payload@.subrange(0, payload@.len() as int) =~= payload@);
    r
}

/// Reads the record that starts at `pos`: `Ok(Some((start, end)))` when a
/// whole record is there, its payload being `log[start..end]`; `Ok(None)`
/// at the end of the log or at a torn final record; an error when the
/// length exceeds the limit.
pub fn next_record(log: &[u8], pos: usize) -> (r: Result<Option<(usize, usize)>, CdfError>)
    requires
        pos <= log@.len(),
    ensures
        ({
            let rest = log@.subrange(pos as int, log@.len() as int);
            if rest.len() < 4 {
                r == Ok::<Option<(usize, usize)>, CdfError>(None)
            } else {
                let len = le_value4(rest.subrange(0, 4));
                if len > MAX_RECORD_LEN {
                    match r {
                        Err(CdfError::WalError { reason }) => reason@ == oversize_message(len),
                        _ => false,
                    }
                } else if rest.len() - 4 < len {
                    r == Ok::<Option<(usize, usize)>, CdfError>(None)
                } else {
                    r == Ok::<Option<(usize, usize)>, CdfError>(Some(((pos + 4) as usize, (pos + 4 + len) as usize)))
                }
            }
        }),
{
    let ghost rest = log@.subrange(pos as int, log@.len() as int);
    let remaining = log.len() - pos;
    if remaining < 4 {
        return Ok(None);
    }
    let b0 = log[pos] as u32;
    let b1 = log[pos + 1] as u32;
    let b2 = log[pos + 2] as u32;
    let b3 = log[pos + 3] as u32;
    let len: u32 = b0 + 256 * b1 + 65536 * b2 + 16777216 * b3;
    assert(len == le_value4(rest.subrange(0, 4)));
    if len > MAX_RECORD_LEN {
        let mut reason = String::from_str("entry length ");
        append_decimal(&mut reason, len as u64);
        reason.append(" exceeds 64MB, WAL likely corrupt");
        return Err(CdfError::WalError { reason });
    }
    let len = len as usize;
    if remaining - 4 < len {
        return Ok(None);
    }
    Ok(Some((pos + 4, pos + 4 + len)))
}

/// A whole frame in front of a log adds its payload in front of what the
/// log reads as.
proof fn lemma_records_step(p: Seq<u8>, r: Seq<u8>)
    requires
        p.len() <= MAX_RECORD_LEN,
    ensures
        wal_read(frame(p) + r) == (match wal_read(r) {
            Ok(rest) => Ok(seq![p] + rest),
            Err(bad) => Err::<Seq<Seq<u8>>, nat>(bad),
        }),
{
    lemma_le4_roundtrip(p.len());
    let log = frame(p) + r;
    assert(log.len() >= 4);
    assert(log.subrange(0, 4) =~= le_bytes4(p.len()));
    assert(log.subrange(4, (4 + p.len()) as int) =~= p);
    assert(log.subrange((4 + p.len()) as int, log.len() as int) =~= r);
}

/// A proper prefix of one frame reads as no records.
proof fn lemma_records_torn(q: Seq<u8>, tail: Seq<u8>)
    requires
        q.len() <= MAX_RECORD_LEN,
        tail.len() < frame(q).len(),
        tail == frame(q).subrange(0, tail.len() as int),
    ensures
        wal_read(tail) == Ok::<Seq<Seq<u8>>, nat>(Seq::empty()),
{
    if tail.len() >= 4 {
        lemma_le4_roundtrip(q.len());
        assert(tail.subrange(0, 4) =~= le_bytes4(q.len()));
    }
}

/// The frames of a non-empty list are the first frame followed by the rest.
proof fn lemma_frames_cons(ps: Seq<Seq<u8>>, tail: Seq<u8>)
    requires
        ps.len() > 0,
    ensures
        frames(ps) + tail == frame(ps[0]) + (frames(ps.drop_first()) + tail),
{
    assert(frames(ps) + tail =~= frame(ps[0]) + (frames(ps.drop_first()) + tail));
}

/// Reading framed records gives back the payloads: a log written as the
/// frames of `ps` reads as `ps`, and a torn final record after them (any
/// proper prefix of one more frame) is ignored.
pub proof fn lemma_frames_read_back(ps: Seq<Seq<u8>>, tail: Seq<u8>, q: Seq<u8>)
    requires
        forall|i: int| 0 <= i < ps.len() ==> (#[trigger] ps[i]).len() <= MAX_RECORD_LEN,
        q.len() <= MAX_RECORD_LEN,
        tail.len() < frame(q).len(),
        tail == frame(q).subrange(0, tail.len() as int),
    ensures
        wal_read(frames(ps) + tail) == Ok::<Seq<Seq<u8>>, nat>(ps),
    decreases ps.len(),
{
    if ps.len() == 0 {
        assert(frames(ps) + tail =~= tail);
        assert(ps =~= Seq::<Seq<u8>>::empty());
        lemma_records_torn(q, tail);
    } else {
        let p = ps[0];
        let rest = ps.drop_first();
        assert forall|i: int| 0 <= i < rest.len() implies (#[trigger] rest[i]).len() <= MAX_RECORD_LEN by {
            assert(rest[i] == ps[i + 1]);
        }
        lemma_frames_read_back(rest, tail, q);
        lemma_frames_cons(ps, tail);
        lemma_records_step(p, frames(rest) + tail);
        assert(seq![p] + rest =~= ps);
    }
}

/// Finds the records of a whole log: the byte range of each payload, in
/// order. Reading stops quietly at a torn final record; a length over the
/// limit is an error.
pub fn record_spans(log: &[u8]) -> (r: Result<Vec<(usize, usize)>, CdfError>)
    ensures
        match wal_read(log@) {
            Ok(ps) => match r {
                Ok(spans) => {
                    &&& span_payloads(log@, spans@) == ps
                    &&& forall|k: int| 0 <= k < spans@.len() ==> #[trigger] spans@[k].0 <= spans@[k].1 <= log@.len()
                },
                Err(_) => false,
            },
            Err(bad) => match r {
                Err(CdfError::WalError { reason }) => reason@ == oversize_message(bad),
                _ => false,
            },
        },
{
    let mut spans: Vec<(usize, usize)> = Vec::new();
    let mut pos: usize = 0;
    let n: usize = log.len();
    assert(log@.subrange(0, log@.len() as int) =~= log@);
    loop
        invariant
            n == log@.len(),
            pos <= log@.len(),
            forall|k: int| 0 <= k < spans@.len() ==> #[trigger] spans@[k].0 <= spans@[k].1 <= log@.len(),
            match wal_read(log@.subrange(pos as int, log@.len() as int)) {
                Ok(rest) => wal_read(log@) == Ok::<Seq<Seq<u8>>, nat>(span_payloads(log@, spans@) + rest),
                Err(bad) => wal_read(log@) == Err::<Seq<Seq<u8>>, nat>(bad),
            },
        decreases log@.len() - pos,
    {
        let ghost rest = log@.subrange(pos as int, log@.len() as int);
        let nr = next_record(log, pos);
        match nr {
            Err(e) => {
                return Err(e);
            },
            Ok(None) => {
                assert(wal_read(rest) == Ok::<Seq<Seq<u8>>, nat>(Seq::empty()));
                assert(span_payloads(log@, spans@) + Seq::<Seq<u8>>::empty() =~= span_payloads(log@, spans@));
                assert(wal_read(log@) == Ok::<Seq<Seq<u8>>, nat>(span_payloads(log@, spans@)));
                return Ok(spans);
            },
            Ok(Some((start, end))) => {
                let ghost len = le_value4(rest.subrange(0, 4));
                assert(rest.len() >= 4 && len <= MAX_RECORD_LEN && rest.len() - 4 >= len);
                assert(start == pos + 4 && end == pos + 4 + len);
                assert(rest.subrange((4 + len) as int, rest.len() as int) =~= log@.subrange(end as int, log@.len() as int));
                assert(rest.subrange(4, (4 + len) as int) =~= log@.subrange(start as int, end as int));
                let ghost old_spans = spans@;
                spans.push((start, end));
                assert(span_payloads(log@, spans@) =~= span_payloads(log@, old_spans) + seq![log@.subrange(start as int, end as int)]);
                proof {
                    match wal_read(log@.subrange(end as int, log@.len() as int)) {
                        Ok(more) => {
                            assert(span_payloads(log@, old_spans) + (seq![log@.subrange(start as int, end as int)] + more)
                                =~= span_payloads(log@, spans@) + more);
                        },
                        Err(_) => {},
                    }
                }
                pos = end;
            },
        }
    }
}

/// The sequence number a reopened log continues with: one past the last
/// entry it holds, or 1 for an empty log.
pub fn recovered_next_seq(last_seq: Option<u64>) -> (n: u64)
    requires
        last_seq matches Some(s) ==> s < u64::MAX,
    ensures
        n == match last_seq {
            Some(s) => s + 1,
            None => 1,
        },
{
    match last_seq {
        Some(s) => s + 1,
        None => 1,
    }
}

/// The sequence number of the last entry written, given the next one to
/// assign; 0 when nothing was written. A rotated log is archived under it,
/// and a reopened engine resumes its count from it.
pub fn last_seq(next_seq: u64) -> (n: u64)
    ensures
        n == if next_seq == 0 { 0 } else { next_seq - 1 },
{
    next_seq.saturating_sub(1)
}

/// The numbering decision of an append: when the entry was written, it
/// takes the next sequence number and the one after becomes the next; when
/// writing failed, no number is used and the next stays as it was.
pub fn append_outcome(next_seq: u64, written: bool) -> (r: (Option<u64>, u64))
    requires
        written ==> next_seq < u64::MAX,
    ensures
        written ==> r == (Some(next_seq), (next_seq + 1) as u64),
        !written ==> r == (None::<u64>, next_seq),
{
    if written {
        (Some(next_seq), next_seq + 1)
    } else {
        (None, next_seq)
    }
}

} // verus!
