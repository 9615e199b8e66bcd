//! Reads of the storage engine over its write buffers: the active buffer
//! first, then the frozen ones from newest to oldest.

use vstd::prelude::*;
use crate::storage::{RowKey, InternalValue, encoded_key};
use crate::memtable::{MemTable, entries_map, range_of, opt_bytes, key_in_range};
use crate::bytes_order::{bytes_equal, bytes_lt};
use crate::temporal::TemporalBounds;

verus! {

/// Engine settings. Sizes are in bytes.
#[derive(Debug, Clone)]
pub struct EngineConfig {
    pub data_dir: String,
    pub memtable_size: usize,
    pub wal_sync: bool,
    pub max_segment_size: u64,
}

impl Default for EngineConfig {
    /// Data under `./cdf-data`, 64 MiB write buffers, a synced log and
    /// 256 MiB segments.
    fn default() -> (c: EngineConfig)
        ensures
            c.data_dir@ == "./cdf-data"@,
            c.memtable_size == 67108864,
            c.wal_sync,
            c.max_segment_size == 268435456,
    {
        EngineConfig {
            data_dir: String::from_str("./cdf-data"),
            memtable_size: 67108864,
            wal_sync: true,
            max_segment_size: 268435456,
        }
    }
}

/// The buffers' contents, oldest first: the frozen buffers in order, then
/// the active one.
pub open spec fn buffer_views<V>(active: &MemTable<V>, frozen: &[MemTable<V>]) -> Seq<Seq<(Seq<u8>, V)>> {
    frozen@.map_values(|m: MemTable<V>| m@).push(active@)
}

/// The value the newest buffer holding `k` has for it.
pub open spec fn newest_value<V>(tables: Seq<Seq<(Seq<u8>, V)>>, k: Seq<u8>) -> Option<V>
    decreases tables.len(),
{
    if tables.len() == 0 {
        None
    } else if entries_map(tables.last()).contains_key(k) {
        Some(entries_map(tables.last())[k])
    } else {
        newest_value(tables.drop_last(), k)
    }
}

/// The row identifier a key names: its last 16 bytes.
pub open spec fn key_id(k: Seq<u8>) -> Seq<u8> {
    if k.len() >= 16 {
        k.subrange(k.len() - 16, k.len() as int)
    } else {
        k
    }
}

/// Whether some kept row has identifier `id`.
pub open spec fn has_id<R>(kept: Seq<(Seq<u8>, R)>, id: Seq<u8>) -> bool {
    exists|i: int| 0 <= i < kept.len() && kept[i].0 == id
}

/// The live rows of `s` in order, each with its identifier, keeping only
/// the first live row of each identifier; tombstones are skipped.
pub open spec fn live_rows<R>(s: Seq<(Seq<u8>, InternalValue<R>)>) -> Seq<(Seq<u8>, R)>
    decreases s.len(),
{
    if s.len() == 0 {
        Seq::empty()
    } else {
        let prev = live_rows(s.drop_last());
        match s.last().1 {
            InternalValue::Active(row) => if has_id(prev, key_id(s.last().0)) {
                prev
            } else {
                prev.push((key_id(s.last().0), row))
            },
            InternalValue::Tombstone { .. } => prev,
        }
    }
}

/// The entries from `start` on of each buffer, newest buffer first.
pub open spec fn scan_order<V>(tables: Seq<Seq<(Seq<u8>, V)>>, start: Seq<u8>) -> Seq<(Seq<u8>, V)>
    decreases tables.len(),
{
    if tables.len() == 0 {
        Seq::empty()
    } else {
        range_of(tables.last(), Some(start), None) + scan_order(tables.drop_last(), start)
    }
}

/// The scan prefix of a table: its name in UTF-8 and a zero byte.
pub open spec fn table_prefix(table: Seq<char>) -> Seq<u8> {
    vstd::utf8::encode_utf8(table).push(0u8)
}

/// The row a stored value shows: the row if live, nothing for a tombstone.
pub fn materialize<R>(val: InternalValue<R>) -> (r: Option<R>)
    ensures
        r == crate::storage::visible_row(val),
{
    match val {
        InternalValue::Active(row) => Some(row),
        InternalValue::Tombstone { .. } => None,
    }
}

/// The newest value of a key decides when the older buffers are dropped.
proof fn lemma_newest_prefix<V>(tables: Seq<Seq<(Seq<u8>, V)>>, i: int, k: Seq<u8>)
    requires
        0 <= i <= tables.len(),
        forall|j: int| i <= j < tables.len() ==> !entries_map(#[trigger] tables[j]).contains_key(k),
    ensures
        newest_value(tables, k) == newest_value(tables.subrange(0, i), k),
    decreases tables.len() - i,
{
    if i < tables.len() {
        let t = tables.drop_last();
        assert(!entries_map(tables[tables.len() - 1]).contains_key(k));
        assert forall|j: int| i <= j < t.len() implies !entries_map(#[trigger] t[j]).contains_key(k) by {
            assert(t[j] == tables[j]);
        }
        lemma_newest_prefix(t, i, k);
        assert(t.subrange(0, i) =~= tables.subrange(0, i));
    } else {
        assert(tables.subrange(0, i) =~= tables);
    }
}

/// Looks up the row stored under `key`: the newest buffer that holds the
/// key decides, the active one first; a tombstone there means no row.
pub fn lookup<R: Clone>(active: &MemTable<InternalValue<R>>, frozen: &[MemTable<InternalValue<R>>], key: &RowKey) -> (r: Option<R>)
    requires
        active.wf(),
        forall|i: int| 0 <= i < frozen@.len() ==> (#[trigger] frozen@[i]).wf(),
    ensures
        match newest_value(buffer_views(active, frozen), encoded_key(key.table@, key.row_id)) {
            Some(InternalValue::Active(row)) => r matches Some(x) && cloned::<R>(row, x),
            _ => r is None,
        },
{
    let ghost k = encoded_key(key.table@, key.row_id);
    let ghost tables = buffer_views(active, frozen);
    let ghost n = frozen@.len();
    assert(tables.last() == active@);
    if let Some(val) = active.get(key) {
        return materialize(val);
    }
    assert(tables.drop_last() =~= frozen@.map_values(|m: MemTable<InternalValue<R>>| m@));
    let mut i: usize = frozen.len();
    while i > 0
        invariant
            i <= n,
            n == frozen@.len(),
            tables == buffer_views(active, frozen),
            forall|j: int| 0 <= j < frozen@.len() ==> (#[trigger] frozen@[j]).wf(),
            newest_value(tables, k) == newest_value(tables.subrange(0, i as int), k),
            k == encoded_key(key.table@, key.row_id),
        decreases i,
    {
        i = i - 1;
        let ghost t = tables.subrange(0, i + 1);
        assert(t.last() == frozen@[i as int]@);
        assert(t.drop_last() =~= tables.subrange(0, i as int));
        if let Some(val) = frozen[i].get(key) {
            return materialize(val);
        }
    }
    assert(tables.subrange(0, 0).len() == 0);
    None
}

/// The last 16 bytes of a key (the whole key when it is shorter).
fn id_of(k: &Vec<u8>) -> (r: Vec<u8>)
    ensures
        r@ == key_id(k@),
{
    let n = k.len();
    let from: usize = if n >= 16 { n - 16 } else { 0 };
    let mut r: Vec<u8> = Vec::new();
    let mut i: usize = from;
    while i < n
        invariant
            from <= i <= n,
            n == k@.len(),
            from == (if n >= 16 { n - 16 } else { 0 }),
            r@ == k@.subrange(from as int, i as int),
        decreases n - i,
    {
        r.push(k[i]);
        assert(r@ =~= k@.subrange(from as int, i + 1));
        i = i + 1;
    }
    assert(n < 16 ==> k@.subrange(0, n as int) =~= k@);
    r
}

/// Whether `id` is one of `seen`.
fn seen_contains(seen: &Vec<Vec<u8>>, id: &Vec<u8>) -> (r: bool)
    ensures
        r == exists|i: int| 0 <= i < seen@.len() && (#[trigger] seen@[i])@ == id@,
{
    let mut i: usize = 0;
    while i < seen.len()
        invariant
            i <= seen@.len(),
            forall|j: int| 0 <= j < i ==> (#[trigger] seen@[j])@ != id@,
        decreases seen@.len() - i,
    {
        if bytes_equal(seen[i].as_slice(), id.as_slice()) {
            return true;
        }
        i = i + 1;
    }
    false
}

/// Adds the live rows of one buffer's scan to what was kept so far.
fn keep_live<R: Clone>(
    scanned: Vec<(Vec<u8>, InternalValue<R>)>,
    stored: Ghost<Seq<(Seq<u8>, InternalValue<R>)>>,
    done: Ghost<Seq<(Seq<u8>, InternalValue<R>)>>,
    rows: &mut Vec<R>,
    seen: &mut Vec<Vec<u8>>,
)
    requires
        scanned@.len() == stored@.len(),
        forall|i: int| 0 <= i < scanned@.len() ==> (#[trigger] scanned@[i]).0@ == stored@[i].0
            && cloned::<InternalValue<R>>(stored@[i].1, scanned@[i].1),
        old(rows)@.len() == live_rows(done@).len(),
        old(seen)@.len() == live_rows(done@).len(),
        forall|i: int| 0 <= i < old(rows)@.len() ==> cloned::<R>(live_rows(done@)[i].1, #[trigger] old(rows)@[i]),
        forall|i: int| 0 <= i < old(seen)@.len() ==> (#[trigger] old(seen)@[i])@ == live_rows(done@)[i].0,
    ensures
        final(rows)@.len() == live_rows(done@ + stored@).len(),
        final(seen)@.len() == live_rows(done@ + stored@).len(),
        forall|i: int| 0 <= i < final(rows)@.len() ==> cloned::<R>(live_rows(done@ + stored@)[i].1, #[trigger] final(rows)@[i]),
        forall|i: int| 0 <= i < final(seen)@.len() ==> (#[trigger] final(seen)@[i])@ == live_rows(done@ + stored@)[i].0,
{
    let ghost st = stored@;
    let ghost dn = done@;
    let mut scanned = scanned;
    let ghost sc = scanned@;
    let n = scanned.len();
    let mut items: Vec<(Vec<u8>, InternalValue<R>)> = Vec::new();
    // Take the entries out in reverse, then walk them front to back.
    while scanned.len() > 0
        invariant
            items@.len() + scanned@.len() == n,
            scanned@ == sc.subrange(0, scanned@.len() as int),
            forall|j: int| 0 <= j < items@.len() ==> (#[trigger] items@[j]) == sc[n - 1 - j],
            n == sc.len(),
        decreases scanned@.len(),
    {
        let ghost before = scanned@;
        let last = scanned.pop().unwrap();
        assert(last == sc[before.len() - 1]);
        assert(scanned@ =~= sc.subrange(0, scanned@.len() as int));
        items.push(last);
    }
    let mut i: usize = 0;
    while i < n
        invariant
            0 <= i <= n,
            n == sc.len(),
            n == st.len(),
            items@.len() == n - i,
            forall|j: int| 0 <= j < items@.len() ==> (#[trigger] items@[j]) == sc[n - 1 - j],
            forall|j: int| 0 <= j < sc.len() ==> (#[trigger] sc[j]).0@ == st[j].0 && cloned::<InternalValue<R>>(st[j].1, sc[j].1),
            rows@.len() == live_rows(dn + st.subrange(0, i as int)).len(),
            seen@.len() == live_rows(dn + st.subrange(0, i as int)).len(),
            forall|j: int| 0 <= j < rows@.len() ==> cloned::<R>(live_rows(dn + st.subrange(0, i as int))[j].1, #[trigger] rows@[j]),
            forall|j: int| 0 <= j < seen@.len() ==> (#[trigger] seen@[j])@ == live_rows(dn + st.subrange(0, i as int))[j].0,
        decreases n - i,
    {
        let ghost pre = dn + st.subrange(0, i as int);
        let ghost post = dn + st.subrange(0, i + 1);
        assert(post.drop_last() =~= pre);
        assert(post.last() == st[i as int]);
        let ghost kept = live_rows(pre);
        let (k, v) = items.pop().unwrap();
        assert(k@ == st[i as int].0);
        match v {
            InternalValue::Active(row) => {
                let id = id_of(&k);
                let dup = seen_contains(seen, &id);
                proof {
                    if dup {
                        let j = choose|j: int| 0 <= j < seen@.len() && (#[trigger] seen@[j])@ == id@;
                        assert(kept[j].0 == id@);
                    } else {
                        assert forall|j: int| 0 <= j < kept.len() implies kept[j].0 != key_id(st[i as int].0) by {
                            assert(seen@[j]@ == kept[j].0);
                        }
                    }
                    assert(st[i as int].1 matches InternalValue::Active(a) && cloned::<R>(a, row));
                }
                if !dup {
                    rows.push(row);
                    seen.push(id);
                    proof {
                        assert(live_rows(post) == kept.push((key_id(st[i as int].0), st[i as int].1->Active_0)));
                    }
                }
            },
            InternalValue::Tombstone { .. } => {
                assert(st[i as int].1 is Tombstone);
            },
        }
        i = i + 1;
    }
    assert(st.subrange(0, n as int) =~= st);
}

/// The rows of a table, newest first with one row per identifier: the
/// entries from the table's prefix on are read from the active buffer,
/// then from the frozen buffers newest to oldest, and the first live row
/// of each identifier is kept. Tombstones hide nothing from later
/// buffers. (The scan has no upper bound: tables whose names sort after
/// this one are read too.)
pub fn scan_rows<R: Clone>(active: &MemTable<InternalValue<R>>, frozen: &[MemTable<InternalValue<R>>], table: &str) -> (r: Vec<R>)
    requires
        active.wf(),
        forall|i: int| 0 <= i < frozen@.len() ==> (#[trigger] frozen@[i]).wf(),
    ensures
        r@.len() == live_rows(scan_order(buffer_views(active, frozen), table_prefix(table@))).len(),
        forall|i: int| 0 <= i < r@.len() ==> cloned::<R>(
            live_rows(scan_order(buffer_views(active, frozen), table_prefix(table@)))[i].1,
            #[trigger] r@[i],
        ),
{
    let ghost tables = buffer_views(active, frozen);
    let bytes = table.as_bytes();
    let mut prefix: Vec<u8> = Vec::new();
    let mut b: usize = 0;
    while b < bytes.len()
        invariant
            b <= bytes.len(),
            prefix@ == bytes@.subrange(0, b as int),
        decreases bytes.len() - b,
    {
        prefix.push(bytes[b]);
        assert(prefix@ =~= bytes@.subrange(0, b + 1));
        b = b + 1;
    }
    assert(bytes@.subrange(0, bytes@.len() as int) =~= bytes@);
    prefix.push(0);
    let ghost pf = prefix@;
    assert(pf == table_prefix(table@));
    let mut rows: Vec<R> = Vec::new();
    let mut seen: Vec<Vec<u8>> = Vec::new();
    let ghost done: Seq<(Seq<u8>, InternalValue<R>)> = Seq::empty();
    let start: &[u8] = prefix.as_slice();
    assert(opt_bytes(Some(start)) == Some(pf));
    let scanned = active.scan(Some(start), None);
    let ghost st = range_of(active@, Some(pf), None);
    keep_live(scanned, Ghost(st), Ghost(done), &mut rows, &mut seen);
    proof {
        assert(done + st =~= st);
        assert(tables.last() == active@);
    }
    let ghost mut acc = st;
    let ghost n = frozen@.len();
    assert(tables.drop_last() =~= frozen@.map_values(|m: MemTable<InternalValue<R>>| m@));
    let mut i: usize = frozen.len();
    proof {
        lemma_scan_order_split(tables, n as int, pf);
        assert(tables.subrange(n as int, tables.len() as int) =~= seq![active@]);
        assert(scan_order(seq![active@], pf) =~= st) by {
            let one = seq![active@];
            assert(one.drop_last() =~= Seq::<Seq<(Seq<u8>, InternalValue<R>)>>::empty());
            assert(scan_order(one.drop_last(), pf) == Seq::<(Seq<u8>, InternalValue<R>)>::empty());
            assert(one.last() == active@);
            assert(scan_order(one, pf) == st + Seq::<(Seq<u8>, InternalValue<R>)>::empty());
        }
    }
    while i > 0
        invariant
            i <= n,
            n == frozen@.len(),
            tables == buffer_views(active, frozen),
            tables.len() == n + 1,
            pf == table_prefix(table@),
            forall|j: int| 0 <= j < frozen@.len() ==> (#[trigger] frozen@[j]).wf(),
            acc == scan_order(tables.subrange(i as int, tables.len() as int), pf),
            scan_order(tables, pf) == acc + scan_order(tables.subrange(0, i as int), pf),
            rows@.len() == live_rows(acc).len(),
            seen@.len() == live_rows(acc).len(),
            forall|j: int| 0 <= j < rows@.len() ==> cloned::<R>(live_rows(acc)[j].1, #[trigger] rows@[j]),
            forall|j: int| 0 <= j < seen@.len() ==> (#[trigger] seen@[j])@ == live_rows(acc)[j].0,
            prefix@ == pf,
        decreases i,
    {
        i = i - 1;
        let start: &[u8] = prefix.as_slice();
        assert(opt_bytes(Some(start)) == Some(pf));
        let scanned = frozen[i].scan(Some(start), None);
        let ghost st = range_of(frozen@[i as int]@, Some(pf), None);
        assert(tables[i as int] == frozen@[i as int]@);
        keep_live(scanned, Ghost(st), Ghost(acc), &mut rows, &mut seen);
        proof {
            lemma_scan_order_step(tables, i as int, pf);
            lemma_scan_order_split(tables, i as int, pf);
            lemma_scan_order_split(tables, i + 1, pf);
            acc = acc + st;
        }
    }
    assert(tables.subrange(0, 0) =~= Seq::<Seq<(Seq<u8>, InternalValue<R>)>>::empty());
    assert(acc + Seq::<(Seq<u8>, InternalValue<R>)>::empty() =~= acc);
    rows
}

/// Scanning all buffers is scanning the newer ones, then the older ones.
proof fn lemma_scan_order_split<V>(tables: Seq<Seq<(Seq<u8>, V)>>, i: int, start: Seq<u8>)
    requires
        0 <= i <= tables.len(),
    ensures
        scan_order(tables, start) == scan_order(tables.subrange(i, tables.len() as int), start)
            + scan_order(tables.subrange(0, i), start),
    decreases tables.len() - i,
{
    if i == tables.len() {
        assert(tables.subrange(i, tables.len() as int) =~= Seq::<Seq<(Seq<u8>, V)>>::empty());
        assert(tables.subrange(0, i) =~= tables);
        assert(Seq::<(Seq<u8>, V)>::empty() + scan_order(tables, start) =~= scan_order(tables, start));
    } else {
        let t = tables.drop_last();
        lemma_scan_order_split(t, i, start);
        assert(t.subrange(0, i) =~= tables.subrange(0, i));
        let hi = tables.subrange(i, tables.len() as int);
        assert(hi.last() == tables.last());
        assert(hi.drop_last() =~= t.subrange(i, t.len() as int));
        assert(scan_order(tables, start) =~= scan_order(hi, start) + scan_order(tables.subrange(0, i), start));
    }
}

/// One more buffer at the old end of the newer part.
proof fn lemma_scan_order_step<V>(tables: Seq<Seq<(Seq<u8>, V)>>, i: int, start: Seq<u8>)
    requires
        0 <= i < tables.len(),
    ensures
        scan_order(tables.subrange(i, tables.len() as int), start) == scan_order(
            tables.subrange(i + 1, tables.len() as int),
            start,
        ) + range_of(tables[i], Some(start), None),
{
    let hi = tables.subrange(i, tables.len() as int);
    lemma_scan_order_split(hi, 1, start);
    assert(hi.subrange(1, hi.len() as int) =~= tables.subrange(i + 1, tables.len() as int));
    let one = hi.subrange(0, 1);
    assert(one.last() == tables[i]);
    assert(one.drop_last() =~= Seq::<Seq<(Seq<u8>, V)>>::empty());
    assert(scan_order(one.drop_last(), start) == Seq::<(Seq<u8>, V)>::empty());
    assert(scan_order(one, start) == range_of(tables[i], Some(start), None) + Seq::<(Seq<u8>, V)>::empty());
    assert(scan_order(one, start) =~= range_of(tables[i], Some(start), None));
}

/// Records a written row in the active buffer under its key. The result
/// tells whether the buffer has reached its budget, so that a flush is due.
pub fn apply_insert<R>(active: &mut MemTable<InternalValue<R>>, key: RowKey, row: R) -> (flush: bool)
    requires
        old(active).wf(),
    ensures
        final(active).wf(),
        entries_map(final(active)@) == entries_map(old(active)@).insert(
            encoded_key(key.table@, key.row_id),
            InternalValue::Active(row),
        ),
        final(active).budget() == old(active).budget(),
        flush == (final(active).size() >= final(active).budget()),
{
    let _ = active.insert(key, InternalValue::Active(row));
    active.at_capacity()
}

/// Records a deletion in the active buffer: a tombstone under the key.
pub fn apply_delete<R>(active: &mut MemTable<InternalValue<R>>, key: RowKey, temporal: TemporalBounds)
    requires
        old(active).wf(),
    ensures
        final(active).wf(),
        entries_map(final(active)@) == entries_map(old(active)@).insert(
            encoded_key(key.table@, key.row_id),
            InternalValue::Tombstone { row_id: key.row_id, temporal },
        ),
        final(active).budget() == old(active).budget(),
{
    let row_id = key.row_id;
    let _ = active.insert(key, InternalValue::Tombstone { row_id, temporal });
}

/// A read gives back the last write: once a row is recorded in the active
/// buffer under a key, looking the key up finds that row, whatever the
/// frozen buffers hold.
pub proof fn lemma_read_after_insert<R>(
    before: &MemTable<InternalValue<R>>,
    after: &MemTable<InternalValue<R>>,
    frozen: &[MemTable<InternalValue<R>>],
    k: Seq<u8>,
    row: R,
)
    requires
        entries_map(after@) == entries_map(before@).insert(k, InternalValue::Active(row)),
    ensures
        newest_value(buffer_views(after, frozen), k) == Some(InternalValue::Active(row)),
{
    assert(buffer_views(after, frozen).last() == after@);
}

/// A deleted row stays deleted: once a tombstone is recorded in the active
/// buffer under a key, looking the key up finds the tombstone, so no row.
pub proof fn lemma_read_after_delete<R>(
    before: &MemTable<InternalValue<R>>,
    after: &MemTable<InternalValue<R>>,
    frozen: &[MemTable<InternalValue<R>>],
    k: Seq<u8>,
    tombstone: InternalValue<R>,
)
    requires
        tombstone is Tombstone,
        entries_map(after@) == entries_map(before@).insert(k, tombstone),
    ensures
        newest_value(buffer_views(after, frozen), k) == Some(tombstone),
        newest_value(buffer_views(after, frozen), k) matches Some(v) && crate::storage::visible_row(v) is None,
{
    assert(buffer_views(after, frozen).last() == after@);
}

/// A table scan returns at most one row per identifier.
pub proof fn lemma_live_rows_distinct<R>(s: Seq<(Seq<u8>, InternalValue<R>)>)
    ensures
        forall|i: int, j: int| 0 <= i < j < live_rows(s).len() ==> (#[trigger] live_rows(s)[i]).0 != (#[trigger] live_rows(s)[j]).0,
    decreases s.len(),
{
    if s.len() > 0 {
        lemma_live_rows_distinct(s.drop_last());
        let prev = live_rows(s.drop_last());
        let cur = live_rows(s);
        assert forall|i: int, j: int| 0 <= i < j < cur.len() implies (#[trigger] cur[i]).0 != (#[trigger] cur[j]).0 by {
            if j < prev.len() {
                assert(cur[i] == prev[i] && cur[j] == prev[j]);
            } else {
                assert(cur[i] == prev[i]);
                if cur[i].0 == cur[j].0 {
                    assert(has_id(prev, cur[j].0));
                }
            }
        }
    }
}

/// Every entry a range scan yields is an entry of the buffer in the range.
proof fn lemma_range_of_member<V>(s: Seq<(Seq<u8>, V)>, st: Option<Seq<u8>>, en: Option<Seq<u8>>, j: int)
    requires
        0 <= j < range_of(s, st, en).len(),
    ensures
        exists|m: int| 0 <= m < s.len() && range_of(s, st, en)[j] == s[m] && key_in_range(s[m].0, st, en),
    decreases s.len(),
{
    let pre = range_of(s.drop_last(), st, en);
    let m = s.len() - 1;
    assert(s.last() == s[m]);
    if key_in_range(s.last().0, st, en) && j == pre.len() {
        assert(range_of(s, st, en)[j] == s[m]);
    } else {
        assert(range_of(s, st, en)[j] == pre[j]);
        lemma_range_of_member(s.drop_last(), st, en, j);
        let k = choose|k: int| 0 <= k < s.drop_last().len() && pre[j] == s.drop_last()[k] && key_in_range(s.drop_last()[k].0, st, en);
        assert(s.drop_last()[k] == s[k]);
    }
}

/// Every entry of a scan over the buffers is an entry of one of them, at or
/// after the start key.
proof fn lemma_scan_order_member<V>(tables: Seq<Seq<(Seq<u8>, V)>>, start: Seq<u8>, j: int)
    requires
        0 <= j < scan_order(tables, start).len(),
    ensures
        exists|b: int, m: int|
            0 <= b < tables.len() && 0 <= m < tables[b].len() && scan_order(tables, start)[j] == tables[b][m]
                && !bytes_lt(tables[b][m].0, start),
    decreases tables.len(),
{
    let last = tables.len() - 1;
    let first = range_of(tables.last(), Some(start), None);
    let more = scan_order(tables.drop_last(), start);
    assert(scan_order(tables, start) == first + more);
    assert(tables.last() == tables[last]);
    if j < first.len() {
        lemma_range_of_member(tables.last(), Some(start), None, j);
        let m = choose|m: int| 0 <= m < tables.last().len() && first[j] == tables.last()[m] && key_in_range(tables.last()[m].0, Some(start), None);
        assert(scan_order(tables, start)[j] == tables[last][m]);
    } else {
        assert(scan_order(tables, start)[j] == more[j - first.len()]);
        lemma_scan_order_member(tables.drop_last(), start, j - first.len());
        let (b, m) = choose|b: int, m: int|
            0 <= b < tables.drop_last().len() && 0 <= m < tables.drop_last()[b].len() && more[j - first.len()]
                == tables.drop_last()[b][m] && !bytes_lt(tables.drop_last()[b][m].0, start);
        assert(tables.drop_last()[b] == tables[b]);
    }
}

/// Every kept row is the live value of some scanned entry, under the
/// identifier that entry's key names.
proof fn lemma_live_rows_sound<R>(e: Seq<(Seq<u8>, InternalValue<R>)>, i: int)
    requires
        0 <= i < live_rows(e).len(),
    ensures
        exists|j: int| 0 <= j < e.len() && e[j].1 == InternalValue::Active(live_rows(e)[i].1) && key_id(e[j].0) == live_rows(e)[i].0,
    decreases e.len(),
{
    let prev = live_rows(e.drop_last());
    let last = e.len() - 1;
    assert(e.last() == e[last]);
    if i < prev.len() {
        assert(live_rows(e)[i] == prev[i]);
        lemma_live_rows_sound(e.drop_last(), i);
        let j = choose|j: int| 0 <= j < e.drop_last().len() && e.drop_last()[j].1 == InternalValue::Active(prev[i].1) && key_id(e.drop_last()[j].0) == prev[i].0;
        assert(e.drop_last()[j] == e[j]);
    } else {
        match e.last().1 {
            InternalValue::Active(row) => {
                assert(live_rows(e)[i] == (key_id(e.last().0), row));
            },
            InternalValue::Tombstone { .. } => {},
        }
    }
}

/// A table scan returns stored rows only: every row it returns is the live
/// value stored in one of the buffers under a key at or after the table's
/// prefix, and carries the identifier that key names.
pub proof fn lemma_scan_rows_sound<R>(tables: Seq<Seq<(Seq<u8>, InternalValue<R>)>>, start: Seq<u8>, i: int)
    requires
        0 <= i < live_rows(scan_order(tables, start)).len(),
    ensures
        exists|b: int, m: int|
            0 <= b < tables.len() && 0 <= m < tables[b].len()
                && tables[b][m].1 == InternalValue::Active(live_rows(scan_order(tables, start))[i].1)
                && key_id(tables[b][m].0) == live_rows(scan_order(tables, start))[i].0
                && !bytes_lt(tables[b][m].0, start),
{
    let e = scan_order(tables, start);
    lemma_live_rows_sound(e, i);
    let j = choose|j: int| 0 <= j < e.len() && e[j].1 == InternalValue::Active(live_rows(e)[i].1) && key_id(e[j].0) == live_rows(e)[i].0;
    lemma_scan_order_member(tables, start, j);
    let (b, m) = choose|b: int, m: int|
        0 <= b < tables.len() && 0 <= m < tables[b].len() && e[j] == tables[b][m] && !bytes_lt(tables[b][m].0, start);
    assert(tables[b][m] == e[j]);
}

/// The newest buffer holding a key decides a lookup: when the active buffer
/// does not hold `k` and `frozen[i]` is the newest frozen buffer (frozen
/// buffers are kept oldest first) that holds it, the lookup sees what
/// `frozen[i]` holds, whatever older buffers hold.
pub proof fn lemma_newest_frozen_wins<V>(active: &MemTable<V>, frozen: &[MemTable<V>], k: Seq<u8>, i: int)
    requires
        0 <= i < frozen@.len(),
        !entries_map(active@).contains_key(k),
        entries_map(frozen@[i]@).contains_key(k),
        forall|j: int| i < j < frozen@.len() ==> !entries_map(#[trigger] frozen@[j]@).contains_key(k),
    ensures
        newest_value(buffer_views(active, frozen), k) == Some(entries_map(frozen@[i]@)[k]),
{
    let tables = buffer_views(active, frozen);
    let n = frozen@.len();
    assert(tables.len() == n + 1);
    assert(tables[n as int] == active@);
    assert forall|j: int| 0 <= j < n implies #[trigger] tables[j] == frozen@[j]@ by {}
    assert forall|j: int| i + 1 <= j < tables.len() implies !entries_map(#[trigger] tables[j]).contains_key(k) by {
        if j < n {
            assert(tables[j] == frozen@[j]@);
        }
    }
    lemma_newest_prefix(tables, i + 1, k);
    let t = tables.subrange(0, i + 1);
    assert(t.last() == frozen@[i]@);
}

/// A table scan reads the active buffer first, then the newest frozen
/// buffer: its entries begin with those of the active buffer from the
/// start key on, followed by those of the last (newest) frozen buffer.
pub proof fn lemma_scan_reads_newest_first<V>(active: &MemTable<V>, frozen: &[MemTable<V>], start: Seq<u8>)
    requires
        frozen@.len() > 0,
    ensures
        ({
            let ra = range_of(active@, Some(start), None);
            let rf = range_of(frozen@[frozen@.len() - 1]@, Some(start), None);
            scan_order(buffer_views(active, frozen), start).subrange(0, (ra.len() + rf.len()) as int) == ra + rf
        }),
{
    let tables = buffer_views(active, frozen);
    let n = frozen@.len();
    let ra = range_of(active@, Some(start), None);
    let rf = range_of(frozen@[n - 1]@, Some(start), None);
    assert(tables.last() == active@);
    let t1 = tables.drop_last();
    assert(t1.last() == frozen@[n - 1]@);
    let rest = scan_order(t1.drop_last(), start);
    assert(scan_order(tables, start) == ra + scan_order(t1, start));
    assert(scan_order(t1, start) == rf + rest);
    assert(scan_order(tables, start) =~= (ra + rf) + rest);
    assert(scan_order(tables, start).subrange(0, (ra.len() + rf.len()) as int) =~= ra + rf);
}

} // verus!
