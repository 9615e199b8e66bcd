//! Temporal index: maps valid-time starts and transaction times to the
//! versions recorded at them, for time-slice queries.

use vstd::prelude::*;
use vstd::multiset::Multiset;
use crate::temporal::{TemporalBounds, TemporalQuery, Timestamp, ts_lt, ts_le, ts_less, ts_less_eq};

verus! {

/// Keys strictly increase along the sequence.
pub open spec fn keys_increasing<T>(s: Seq<(Timestamp, Seq<T>)>) -> bool {
    forall|i: int, j: int| 0 <= i < j < s.len() ==> ts_lt(s[i].0, s[j].0)
}

/// The entries of an ordered index as spec values.
pub open spec fn entries_view<T>(v: Seq<(Timestamp, Vec<T>)>) -> Seq<(Timestamp, Seq<T>)> {
    v.map_values(|e: (Timestamp, Vec<T>)| (e.0, e.1@))
}

/// The index after recording `item` under `key`: appended to the key's
/// list when the key is present, a new key in its ordered place otherwise.
pub open spec fn index_insert<T>(s: Seq<(Timestamp, Seq<T>)>, key: Timestamp, item: T) -> Seq<(Timestamp, Seq<T>)>
    decreases s.len(),
{
    if s.len() == 0 {
        seq![(key, seq![item])]
    } else if s[0].0 == key {
        s.update(0, (key, s[0].1.push(item)))
    } else if ts_lt(key, s[0].0) {
        seq![(key, seq![item])] + s
    } else {
        seq![s[0]] + index_insert(s.drop_first(), key, item)
    }
}

/// All items recorded under keys at or before `t`, in key order.
pub open spec fn collect_upto<T>(s: Seq<(Timestamp, Seq<T>)>, t: Timestamp) -> Seq<T>
    decreases s.len(),
{
    if s.len() == 0 {
        Seq::empty()
    } else if ts_le(s[0].0, t) {
        s[0].1 + collect_upto(s.drop_first(), t)
    } else {
        collect_upto(s.drop_first(), t)
    }
}

/// The items of the latest key, or nothing.
pub open spec fn latest_entry<T>(s: Seq<(Timestamp, Seq<T>)>) -> Seq<T> {
    if s.len() == 0 {
        Seq::empty()
    } else {
        s.last().1
    }
}

/// A version as the valid-time index keeps it: its sequence number, the
/// end of its valid time, and the transaction time it was recorded at.
#[derive(Debug, Clone, Copy, PartialEq, Eq, Structural)]
pub struct VersionRef {
    pub seq: u64,
    pub valid_end: Timestamp,
    pub recorded: Timestamp,
}

/// Whether a version whose valid time started at or before `t` is still
/// valid at `t`, and (when `known` is given) was recorded by then.
pub open spec fn version_selected(v: VersionRef, t: Timestamp, known: Option<Timestamp>) -> bool {
    ts_lt(t, v.valid_end) && match known {
        Some(k) => ts_le(v.recorded, k),
        None => true,
    }
}

/// The sequence numbers of the selected versions of a list, in order.
pub open spec fn pick_valid(vs: Seq<VersionRef>, t: Timestamp, known: Option<Timestamp>) -> Seq<u64>
    decreases vs.len(),
{
    if vs.len() == 0 {
        Seq::empty()
    } else if version_selected(vs.last(), t, known) {
        pick_valid(vs.drop_last(), t, known).push(vs.last().seq)
    } else {
        pick_valid(vs.drop_last(), t, known)
    }
}

/// The sequence numbers of the versions valid at `t` (valid time started at
/// or before `t` and ending after it), recorded by `known` when given: in
/// order of valid-time start, then of insertion.
pub open spec fn collect_valid(s: Seq<(Timestamp, Seq<VersionRef>)>, t: Timestamp, known: Option<Timestamp>) -> Seq<u64>
    decreases s.len(),
{
    if s.len() == 0 {
        Seq::empty()
    } else if ts_le(s[0].0, t) {
        pick_valid(s[0].1, t, known) + collect_valid(s.drop_first(), t, known)
    } else {
        collect_valid(s.drop_first(), t, known)
    }
}

/// Temporal index: two ordered maps, from valid-time starts to the
/// versions starting then, and from transaction times to the sequence
/// numbers recorded then.
pub struct TemporalIndex {
    valid_time_index: Vec<(Timestamp, Vec<VersionRef>)>,
    transaction_index: Vec<(Timestamp, Vec<u64>)>,
}

/// Records `seq` under `key` in an ordered index.
fn ordered_insert<T: Copy>(index: &mut Vec<(Timestamp, Vec<T>)>, key: Timestamp, seq: T)
    requires
        keys_increasing(entries_view(old(index)@)),
    ensures
        keys_increasing(entries_view(final(index)@)),
        entries_view(final(index)@) == index_insert(entries_view(old(index)@), key, seq),
{
    let ghost s0 = entries_view(index@);
    let mut i: usize = 0;
    while i < index.len() && ts_less(&index[i].0, &key)
        invariant
            i <= index.len(),
            index@ == old(index)@,
            s0 == entries_view(index@),
            keys_increasing(s0),
            forall|j: int| 0 <= j < i ==> ts_lt(#[trigger] s0[j].0, key),
        decreases index.len() - i,
    {
        i = i + 1;
    }
    assert(i < s0.len() ==> s0[i as int].0 == index@[i as int].0);
    proof {
        lemma_index_insert_at(s0, key, seq, i as int);
    }
    if i < index.len() && index[i].0.seconds == key.seconds && index[i].0.nanos == key.nanos {
        let mut entry = index.remove(i);
        entry.1.push(seq);
        index.insert(i, entry);
        proof {
            assert(entries_view(index@) =~= s0.update(i as int, (key, s0[i as int].1.push(seq))));
        }
    } else {
        let ghost pre = index@;
        let e = (key, vec![seq]);
        index.insert(i, e);
        proof {
            let target = s0.subrange(0, i as int) + seq![(key, seq![seq])] + s0.subrange(
                i as int,
                s0.len() as int,
            );
            assert(index@.len() == pre.len() + 1);
            assert forall|j: int| 0 <= j < index@.len() implies #[trigger] entries_view(index@)[j]
                == target[j] by {
                if j < i {
                    assert(index@[j] == pre[j]);
                } else if j > i {
                    assert(index@[j] == pre[j - 1]);
                }
            }
            assert(entries_view(index@) =~= target);
        }
    }
}

/// Where `index_insert` puts a key, given the first position whose key is
/// not below it.
proof fn lemma_index_insert_at<T>(s: Seq<(Timestamp, Seq<T>)>, key: Timestamp, seq: T, i: int)
    requires
        keys_increasing(s),
        0 <= i <= s.len(),
        forall|j: int| 0 <= j < i ==> ts_lt(#[trigger] s[j].0, key),
        i < s.len() ==> !ts_lt(s[i].0, key),
    ensures
        i < s.len() && s[i].0 == key ==> index_insert(s, key, seq) == s.update(
            i,
            (key, s[i].1.push(seq)),
        ),
        !(i < s.len() && s[i].0 == key) ==> index_insert(s, key, seq) == s.subrange(0, i) + seq![
            (key, seq![seq]),
        ] + s.subrange(i, s.len() as int),
        keys_increasing(index_insert(s, key, seq)),
    decreases s.len(),
{
    if s.len() == 0 {
        assert(s.subrange(0, i) + seq![(key, seq![seq])] + s.subrange(i, s.len() as int) =~= seq![
            (key, seq![seq]),
        ]);
    } else if i == 0 {
        if s[0].0 == key {
            assert(keys_increasing(s.update(0, (key, s[0].1.push(seq)))));
        } else {
            assert(ts_lt(key, s[0].0));
            assert(s.subrange(0, 0) + seq![(key, seq![seq])] + s.subrange(0, s.len() as int)
                =~= seq![(key, seq![seq])] + s);
            let r = seq![(key, seq![seq])] + s;
            assert forall|a: int, b: int| 0 <= a < b < r.len() implies ts_lt(r[a].0, r[b].0) by {
                if a > 0 {
                    assert(r[a] == s[a - 1] && r[b] == s[b - 1]);
                } else {
                    assert(r[b] == s[b - 1]);
                    if b > 1 {
                        assert(ts_lt(s[0].0, s[b - 1].0));
                    }
                }
            }
        }
    } else {
        let t = s.drop_first();
        assert(ts_lt(s[0].0, key));
        assert(keys_increasing(t));
        lemma_index_insert_at(t, key, seq, i - 1);
        let rt = index_insert(t, key, seq);
        let r = seq![s[0]] + rt;
        assert(index_insert(s, key, seq) == r);
        if i < s.len() && s[i].0 == key {
            assert(r =~= s.update(i, (key, s[i].1.push(seq))));
        } else {
            assert(r =~= s.subrange(0, i) + seq![(key, seq![seq])] + s.subrange(i, s.len() as int));
        }
        assert forall|a: int, b: int| 0 <= a < b < r.len() implies ts_lt(r[a].0, r[b].0) by {
            if a > 0 {
                assert(r[a] == rt[a - 1] && r[b] == rt[b - 1]);
            } else {
                assert(r[b] == rt[b - 1]);
                lemma_insert_keys_above(t, key, seq, s[0].0);
            }
        }
    }
}

/// Every key of `index_insert(s, key, _)` lies above `low` when `key` and
/// all keys of `s` do.
proof fn lemma_insert_keys_above<T>(s: Seq<(Timestamp, Seq<T>)>, key: Timestamp, seq: T, low: Timestamp)
    requires
        ts_lt(low, key),
        forall|j: int| 0 <= j < s.len() ==> ts_lt(low, #[trigger] s[j].0),
    ensures
        forall|j: int| 0 <= j < index_insert(s, key, seq).len() ==> ts_lt(low, #[trigger] index_insert(s, key, seq)[j].0),
    decreases s.len(),
{
    if s.len() == 0 {
    } else if s[0].0 == key {
        let r = index_insert(s, key, seq);
        assert forall|j: int| 0 <= j < r.len() implies ts_lt(low, #[trigger] r[j].0) by {
            if j > 0 {
                assert(r[j] == s[j]);
            }
        }
    } else if ts_lt(key, s[0].0) {
        let r = index_insert(s, key, seq);
        assert forall|j: int| 0 <= j < r.len() implies ts_lt(low, #[trigger] r[j].0) by {
            if j > 0 {
                assert(r[j] == s[j - 1]);
            }
        }
    } else {
        let t = s.drop_first();
        lemma_insert_keys_above(t, key, seq, low);
        let r = index_insert(s, key, seq);
        let rt = index_insert(t, key, seq);
        assert forall|j: int| 0 <= j < r.len() implies ts_lt(low, #[trigger] r[j].0) by {
            if j > 0 {
                assert(r[j] == rt[j - 1]);
            }
        }
    }
}

impl TemporalIndex {
    /// The valid-time index: start of valid time to the versions starting
    /// then, in insertion order.
    pub closed spec fn valid_view(&self) -> Seq<(Timestamp, Seq<VersionRef>)> {
        entries_view(self.valid_time_index@)
    }

    /// The transaction-time index: transaction time to the sequence numbers
    /// recorded then, in insertion order.
    pub closed spec fn transaction_view(&self) -> Seq<(Timestamp, Seq<u64>)> {
        entries_view(self.transaction_index@)
    }

    /// Keys of both indexes strictly increase.
    pub open spec fn wf(&self) -> bool {
        keys_increasing(self.valid_view()) && keys_increasing(self.transaction_view())
    }

    pub fn new() -> (t: TemporalIndex)
        ensures
            t.wf(),
            t.valid_view() == Seq::<(Timestamp, Seq<VersionRef>)>::empty(),
            t.transaction_view() == Seq::<(Timestamp, Seq<u64>)>::empty(),
    {
        let t = TemporalIndex { valid_time_index: Vec::new(), transaction_index: Vec::new() };
        assert(t.valid_view() =~= Seq::<(Timestamp, Seq<VersionRef>)>::empty());
        assert(t.transaction_view() =~= Seq::<(Timestamp, Seq<u64>)>::empty());
        t
    }

    /// Records version `seq`: under its valid-time start (with the end of
    /// its valid time and its transaction time) and under its transaction
    /// time.
    pub fn insert(&mut self, bounds: TemporalBounds, seq: u64)
        requires
            old(self).wf(),
        ensures
            final(self).wf(),
            final(self).valid_view() == index_insert(
                old(self).valid_view(),
                bounds.valid_time_start,
                VersionRef { seq, valid_end: bounds.valid_time_end, recorded: bounds.transaction_time },
            ),
            final(self).transaction_view() == index_insert(
                old(self).transaction_view(),
                bounds.transaction_time,
                seq,
            ),
    {
        let v = VersionRef { seq, valid_end: bounds.valid_time_end, recorded: bounds.transaction_time };
        ordered_insert(&mut self.valid_time_index, bounds.valid_time_start, v);
        ordered_insert(&mut self.transaction_index, bounds.transaction_time, seq);
    }

    /// The sequence numbers that a temporal query selects:
    /// - `Current`: those recorded at the latest transaction time;
    /// - `AsOfValid(t)`: the versions valid at `t` (valid time started at or
    ///   before `t` and ends after it), by valid-time start;
    /// - `AsOfTransaction(t)`: every version recorded at or before `t`,
    ///   whatever its valid time, by transaction time;
    /// - `Bitemporal`: the versions valid at the valid time among those
    ///   recorded by the transaction time, by valid-time start.
    ///
    /// Ties keep insertion order.
    pub fn query(&self, query: TemporalQuery) -> (r: Vec<u64>)
        requires
            self.wf(),
        ensures
            r@ == match query {
                TemporalQuery::Current => latest_entry(self.transaction_view()),
                TemporalQuery::AsOfValid(t) => collect_valid(self.valid_view(), t, None),
                TemporalQuery::AsOfTransaction(t) => collect_upto(self.transaction_view(), t),
                TemporalQuery::Bitemporal { valid_time, transaction_time } => collect_valid(
                    self.valid_view(),
                    valid_time,
                    Some(transaction_time),
                ),
            },
    {
        match query {
            TemporalQuery::Current => self.query_current(),
            TemporalQuery::AsOfValid(t) => self.query_valid(t, None),
            TemporalQuery::AsOfTransaction(t) => self.query_as_of_transaction(t),
            TemporalQuery::Bitemporal { valid_time, transaction_time } => self.query_valid(
                valid_time,
                Some(transaction_time),
            ),
        }
    }

    /// The sequence numbers recorded at the latest transaction time.
    fn query_current(&self) -> (r: Vec<u64>)
        ensures
            r@ == latest_entry(self.transaction_view()),
    {
        let n = self.transaction_index.len();
        if n == 0 {
            Vec::new()
        } else {
            self.transaction_index[n - 1].1.clone()
        }
    }

    /// The sequence numbers of the versions valid at `t`, recorded by
    /// `known` when given, in order of valid-time start.
    fn query_valid(&self, t: Timestamp, known: Option<Timestamp>) -> (r: Vec<u64>)
        requires
            self.wf(),
        ensures
            r@ == collect_valid(self.valid_view(), t, known),
    {
        let ghost s = self.valid_view();
        let mut out: Vec<u64> = Vec::new();
        let mut i: usize = 0;
        assert(s.subrange(0, s.len() as int) =~= s);
        assert(out@ + collect_valid(s, t, known) =~= collect_valid(s, t, known));
        while i < self.valid_time_index.len()
            invariant
                i <= self.valid_time_index.len(),
                s == entries_view(self.valid_time_index@),
                out@ + collect_valid(s.subrange(i as int, s.len() as int), t, known) == collect_valid(s, t, known),
            decreases self.valid_time_index.len() - i,
        {
            let ghost rest = s.subrange(i as int, s.len() as int);
            assert(rest.drop_first() =~= s.subrange(i + 1, s.len() as int));
            if ts_less_eq(&self.valid_time_index[i].0, &t) {
                let vals = &self.valid_time_index[i].1;
                let mut j: usize = 0;
                let ghost out0 = out@;
                assert(vals@.subrange(0, 0) =~= Seq::<VersionRef>::empty());
                assert(out@ =~= out0 + pick_valid(vals@.subrange(0, 0), t, known));
                while j < vals.len()
                    invariant
                        j <= vals.len(),
                        out@ == out0 + pick_valid(vals@.subrange(0, j as int), t, known),
                    decreases vals.len() - j,
                {
                    let v = vals[j];
                    let ghost pre = vals@.subrange(0, j as int);
                    assert(vals@.subrange(0, j + 1).drop_last() =~= pre);
                    assert(vals@.subrange(0, j + 1).last() == v);
                    let live = ts_less(&t, &v.valid_end);
                    let seen = match known {
                        Some(k) => ts_less_eq(&v.recorded, &k),
                        None => true,
                    };
                    if live && seen {
                        out.push(v.seq);
                        assert(out@ =~= out0 + pick_valid(pre, t, known).push(v.seq));
                    }
                    j = j + 1;
                }
                assert(vals@.subrange(0, vals.len() as int) =~= vals@);
                assert(out@ + collect_valid(s.subrange(i + 1, s.len() as int), t, known) =~= out0
                    + collect_valid(rest, t, known));
            }
            i = i + 1;
        }
        assert(s.subrange(s.len() as int, s.len() as int) =~= Seq::<(Timestamp, Seq<VersionRef>)>::empty());
        assert(out@ =~= collect_valid(s, t, known));
        out
    }

    /// The sequence numbers of every version recorded at or before `t`, in
    /// order of transaction time.
    fn query_as_of_transaction(&self, t: Timestamp) -> (r: Vec<u64>)
        requires
            self.wf(),
        ensures
            r@ == collect_upto(self.transaction_view(), t),
    {
        let ghost s = self.transaction_view();
        let mut out: Vec<u64> = Vec::new();
        let mut i: usize = 0;
        assert(s.subrange(0, s.len() as int) =~= s);
        assert(out@ + collect_upto(s, t) =~= collect_upto(s, t));
        while i < self.transaction_index.len()
            invariant
                i <= self.transaction_index.len(),
                s == entries_view(self.transaction_index@),
                out@ + collect_upto(s.subrange(i as int, s.len() as int), t) == collect_upto(s, t),
            decreases self.transaction_index.len() - i,
        {
            let ghost rest = s.subrange(i as int, s.len() as int);
            assert(rest.drop_first() =~= s.subrange(i + 1, s.len() as int));
            if ts_less_eq(&self.transaction_index[i].0, &t) {
                let vals = &self.transaction_index[i].1;
                let mut j: usize = 0;
                let ghost out0 = out@;
                while j < vals.len()
                    invariant
                        j <= vals.len(),
                        out@ == out0 + vals@.subrange(0, j as int),
                    decreases vals.len() - j,
                {
                    out.push(vals[j]);
                    assert(vals@.subrange(0, j + 1) =~= vals@.subrange(0, j as int).push(vals@[j as int]));
                    j = j + 1;
                }
                assert(vals@.subrange(0, vals.len() as int) =~= vals@);
                assert(out@ + collect_upto(s.subrange(i + 1, s.len() as int), t) =~= out0 + collect_upto(rest, t));
            }
            i = i + 1;
        }
        assert(s.subrange(s.len() as int, s.len() as int) =~= Seq::<(Timestamp, Seq<u64>)>::empty());
        assert(out@ =~= collect_upto(s, t));
        out
    }
}

impl Default for TemporalIndex {
    fn default() -> (t: TemporalIndex)
        ensures
            t.wf(),
            t.valid_view() == Seq::<(Timestamp, Seq<VersionRef>)>::empty(),
            t.transaction_view() == Seq::<(Timestamp, Seq<u64>)>::empty(),
    {
        TemporalIndex::new()
    }
}

/// A version recorded at transaction time `key` is seen by every
/// as-of-transaction query at or after `key`; queries before `key` see what
/// they saw before. (Stated for any ordered index: the same holds of
/// `collect_upto` over any items.)
pub proof fn lemma_as_of_after_insert<T>(s: Seq<(Timestamp, Seq<T>)>, key: Timestamp, seq: T, t: Timestamp)
    ensures
        ts_le(key, t) ==> collect_upto(index_insert(s, key, seq), t).contains(seq),
        !ts_le(key, t) ==> collect_upto(index_insert(s, key, seq), t) == collect_upto(s, t),
    decreases s.len(),
{
    let r = index_insert(s, key, seq);
    if s.len() == 0 {
        assert(r.drop_first() =~= Seq::<(Timestamp, Seq<T>)>::empty());
        assert(collect_upto(r.drop_first(), t) == Seq::<T>::empty());
        if ts_le(key, t) {
            assert(collect_upto(r, t) == r[0].1 + collect_upto(r.drop_first(), t));
            assert(collect_upto(r, t)[0] == seq);
        } else {
            assert(collect_upto(r, t) == collect_upto(r.drop_first(), t));
        }
    } else if s[0].0 == key {
        assert(r.drop_first() =~= s.drop_first());
        assert(r[0] == (key, s[0].1.push(seq)));
        if ts_le(key, t) {
            let c = collect_upto(r, t);
            assert(c == s[0].1.push(seq) + collect_upto(s.drop_first(), t));
            assert(c[s[0].1.len() as int] == seq);
        } else {
            assert(collect_upto(r, t) == collect_upto(r.drop_first(), t));
            assert(collect_upto(s, t) == collect_upto(s.drop_first(), t));
        }
    } else if ts_lt(key, s[0].0) {
        assert(r.drop_first() =~= s);
        assert(r[0] == (key, seq![seq]));
        if ts_le(key, t) {
            assert(collect_upto(r, t) == seq![seq] + collect_upto(s, t));
            assert(collect_upto(r, t)[0] == seq);
        } else {
            assert(collect_upto(r, t) == collect_upto(r.drop_first(), t));
        }
    } else {
        lemma_as_of_after_insert(s.drop_first(), key, seq, t);
        assert(r.drop_first() =~= index_insert(s.drop_first(), key, seq));
        assert(r[0] == s[0]);
        let rest = collect_upto(index_insert(s.drop_first(), key, seq), t);
        if ts_le(s[0].0, t) {
            assert(collect_upto(r, t) == s[0].1 + rest);
            assert(collect_upto(s, t) == s[0].1 + collect_upto(s.drop_first(), t));
        } else {
            assert(collect_upto(r, t) == rest);
            assert(collect_upto(s, t) == collect_upto(s.drop_first(), t));
        }
        if ts_le(key, t) {
            let i = choose|i: int| 0 <= i < rest.len() && rest[i] == seq;
            if ts_le(s[0].0, t) {
                assert((s[0].1 + rest)[s[0].1.len() + i] == seq);
            }
        }
    }
}

/// A version is seen by an as-of-valid-time query exactly when it is valid
/// then: once recorded with valid-time start `key`, a query at `t` (with
/// `known` as the transaction-time bound, if any) returns it when `key <= t`
/// and the version is still valid at `t` (and was recorded by `known`);
/// any other query returns what it returned before.
pub proof fn lemma_valid_after_insert(
    s: Seq<(Timestamp, Seq<VersionRef>)>,
    key: Timestamp,
    v: VersionRef,
    t: Timestamp,
    known: Option<Timestamp>,
)
    ensures
        ts_le(key, t) && version_selected(v, t, known) ==> collect_valid(index_insert(s, key, v), t, known).contains(v.seq),
        !(ts_le(key, t) && version_selected(v, t, known)) ==> collect_valid(index_insert(s, key, v), t, known)
            == collect_valid(s, t, known),
    decreases s.len(),
{
    let r = index_insert(s, key, v);
    let sel = ts_le(key, t) && version_selected(v, t, known);
    let one = seq![v];
    assert(one.drop_last() =~= Seq::<VersionRef>::empty());
    assert(one.last() == v);
    assert(pick_valid(Seq::<VersionRef>::empty(), t, known) == Seq::<u64>::empty());
    if s.len() == 0 {
        assert(r.drop_first() =~= Seq::<(Timestamp, Seq<VersionRef>)>::empty());
        assert(collect_valid(r.drop_first(), t, known) == Seq::<u64>::empty());
        if ts_le(key, t) {
            assert(collect_valid(r, t, known) == pick_valid(one, t, known) + collect_valid(r.drop_first(), t, known));
            if version_selected(v, t, known) {
                assert(pick_valid(one, t, known) =~= seq![v.seq]);
                assert(collect_valid(r, t, known)[0] == v.seq);
            } else {
                assert(pick_valid(one, t, known) =~= Seq::<u64>::empty());
                assert(collect_valid(r, t, known) =~= Seq::<u64>::empty());
            }
        } else {
            assert(collect_valid(r, t, known) == collect_valid(r.drop_first(), t, known));
        }
    } else if s[0].0 == key {
        let vs = s[0].1;
        assert(r.drop_first() =~= s.drop_first());
        assert(r[0] == (key, vs.push(v)));
        assert(vs.push(v).drop_last() =~= vs);
        assert(vs.push(v).last() == v);
        let rest = collect_valid(s.drop_first(), t, known);
        if ts_le(key, t) {
            assert(collect_valid(r, t, known) == pick_valid(vs.push(v), t, known) + rest);
            assert(collect_valid(s, t, known) == pick_valid(vs, t, known) + rest);
            if version_selected(v, t, known) {
                let c = collect_valid(r, t, known);
                assert(pick_valid(vs.push(v), t, known) == pick_valid(vs, t, known).push(v.seq));
                assert(c[pick_valid(vs, t, known).len() as int] == v.seq);
            } else {
                assert(pick_valid(vs.push(v), t, known) == pick_valid(vs, t, known));
            }
        } else {
            assert(collect_valid(r, t, known) == collect_valid(r.drop_first(), t, known));
            assert(collect_valid(s, t, known) == collect_valid(s.drop_first(), t, known));
        }
    } else if ts_lt(key, s[0].0) {
        assert(r.drop_first() =~= s);
        assert(r[0] == (key, one));
        if ts_le(key, t) {
            assert(collect_valid(r, t, known) == pick_valid(one, t, known) + collect_valid(s, t, known));
            if version_selected(v, t, known) {
                assert(pick_valid(one, t, known) =~= seq![v.seq]);
                assert(collect_valid(r, t, known)[0] == v.seq);
            } else {
                assert(pick_valid(one, t, known) =~= Seq::<u64>::empty());
                assert(collect_valid(r, t, known) =~= collect_valid(s, t, known));
            }
        } else {
            assert(collect_valid(r, t, known) == collect_valid(r.drop_first(), t, known));
        }
    } else {
        lemma_valid_after_insert(s.drop_first(), key, v, t, known);
        assert(r.drop_first() =~= index_insert(s.drop_first(), key, v));
        assert(r[0] == s[0]);
        let rest = collect_valid(index_insert(s.drop_first(), key, v), t, known);
        if ts_le(s[0].0, t) {
            assert(collect_valid(r, t, known) == pick_valid(s[0].1, t, known) + rest);
            assert(collect_valid(s, t, known) == pick_valid(s[0].1, t, known) + collect_valid(s.drop_first(), t, known));
        } else {
            assert(collect_valid(r, t, known) == rest);
            assert(collect_valid(s, t, known) == collect_valid(s.drop_first(), t, known));
        }
        if sel {
            let i = choose|i: int| 0 <= i < rest.len() && rest[i] == v.seq;
            if ts_le(s[0].0, t) {
                assert((pick_valid(s[0].1, t, known) + rest)[pick_valid(s[0].1, t, known).len() + i] == v.seq);
            }
        }
    }
}

/// The transaction index that recording `ops` (each a transaction time and
/// a sequence number) one after another builds from an empty one.
pub open spec fn tx_index_of(ops: Seq<(Timestamp, u64)>) -> Seq<(Timestamp, Seq<u64>)>
    decreases ops.len(),
{
    if ops.len() == 0 {
        Seq::empty()
    } else {
        index_insert(tx_index_of(ops.drop_last()), ops.last().0, ops.last().1)
    }
}

/// The latest transaction time among `ops` (meaningless when empty).
pub open spec fn latest_time(ops: Seq<(Timestamp, u64)>) -> Timestamp
    decreases ops.len(),
{
    if ops.len() <= 1 {
        ops[0].0
    } else if ts_lt(latest_time(ops.drop_last()), ops.last().0) {
        ops.last().0
    } else {
        latest_time(ops.drop_last())
    }
}

/// The sequence numbers of `ops` recorded at time `k`, in order.
pub open spec fn recorded_at(ops: Seq<(Timestamp, u64)>, k: Timestamp) -> Seq<u64>
    decreases ops.len(),
{
    if ops.len() == 0 {
        Seq::empty()
    } else if ops.last().0 == k {
        recorded_at(ops.drop_last(), k).push(ops.last().1)
    } else {
        recorded_at(ops.drop_last(), k)
    }
}

/// The first position whose key is not below `k`.
spec fn insert_pos<T>(s: Seq<(Timestamp, Seq<T>)>, k: Timestamp) -> int
    decreases s.len(),
{
    if s.len() == 0 {
        0
    } else if !ts_lt(s[0].0, k) {
        0
    } else {
        1 + insert_pos(s.drop_first(), k)
    }
}

proof fn lemma_insert_pos<T>(s: Seq<(Timestamp, Seq<T>)>, k: Timestamp)
    ensures
        0 <= insert_pos(s, k) <= s.len(),
        forall|j: int| 0 <= j < insert_pos(s, k) ==> ts_lt(#[trigger] s[j].0, k),
        insert_pos(s, k) < s.len() ==> !ts_lt(s[insert_pos(s, k)].0, k),
    decreases s.len(),
{
    if s.len() > 0 && ts_lt(s[0].0, k) {
        let t = s.drop_first();
        lemma_insert_pos(t, k);
        assert forall|j: int| 0 <= j < insert_pos(s, k) implies ts_lt(#[trigger] s[j].0, k) by {
            if j > 0 {
                assert(s[j] == t[j - 1]);
            }
        }
        if insert_pos(s, k) < s.len() {
            assert(s[insert_pos(s, k)] == t[insert_pos(t, k)]);
        }
    }
}

/// Recording keeps an index's keys increasing.
proof fn lemma_insert_keeps_order<T>(s: Seq<(Timestamp, Seq<T>)>, k: Timestamp, x: T)
    requires
        keys_increasing(s),
    ensures
        keys_increasing(index_insert(s, k, x)),
{
    lemma_insert_pos(s, k);
    lemma_index_insert_at(s, k, x, insert_pos(s, k));
}

/// Where the latest key of an index stands after recording under `k`.
proof fn lemma_insert_last<T>(s: Seq<(Timestamp, Seq<T>)>, k: Timestamp, x: T)
    requires
        keys_increasing(s),
        s.len() > 0,
    ensures
        ts_lt(s.last().0, k) ==> index_insert(s, k, x).last() == (k, seq![x]),
        s.last().0 == k ==> index_insert(s, k, x).last() == (k, s.last().1.push(x)),
        ts_lt(k, s.last().0) ==> index_insert(s, k, x).last() == s.last(),
        index_insert(s, k, x).len() > 0,
    decreases s.len(),
{
    let r = index_insert(s, k, x);
    if s.len() == 1 {
        if s[0].0 == k {
        } else if ts_lt(k, s[0].0) {
        } else {
            let t = s.drop_first();
            assert(t.len() == 0);
            assert(index_insert(t, k, x) == seq![(k, seq![x])]);
            assert(r == seq![s[0]] + seq![(k, seq![x])]);
        }
    } else {
        assert(ts_lt(s[0].0, s.last().0));
        if s[0].0 == k {
            assert(r.last() == s.last());
        } else if ts_lt(k, s[0].0) {
            assert(r.last() == s.last());
        } else {
            let t = s.drop_first();
            assert(keys_increasing(t));
            assert(t.last() == s.last());
            lemma_insert_last(t, k, x);
            assert(r == seq![s[0]] + index_insert(t, k, x));
            assert(r.last() == index_insert(t, k, x).last());
        }
    }
}

/// What recording a list of versions builds: an index with increasing
/// keys whose latest key is the latest transaction time, holding the
/// sequence numbers recorded then, in order.
proof fn lemma_tx_index_of(ops: Seq<(Timestamp, u64)>)
    ensures
        keys_increasing(tx_index_of(ops)),
        tx_index_of(ops).len() == 0 <==> ops.len() == 0,
        ops.len() > 0 ==> tx_index_of(ops).last() == (latest_time(ops), recorded_at(ops, latest_time(ops))),
        forall|i: int| 0 <= i < ops.len() ==> ts_le(#[trigger] ops[i].0, latest_time(ops)),
    decreases ops.len(),
{
    if ops.len() > 0 {
        let pre = ops.drop_last();
        let (k, x) = ops.last();
        lemma_tx_index_of(pre);
        let s = tx_index_of(pre);
        lemma_insert_keeps_order(s, k, x);
        if pre.len() == 0 {
            assert(s.len() == 0);
            assert(recorded_at(pre, k) == Seq::<u64>::empty());
            assert(recorded_at(ops, k) == seq![x]);
        } else {
            lemma_insert_last(s, k, x);
            let m = latest_time(pre);
            assert forall|i: int| 0 <= i < ops.len() implies ts_le(#[trigger] ops[i].0, latest_time(ops)) by {
                if i < pre.len() {
                    assert(ops[i] == pre[i]);
                }
            }
            if ts_lt(m, k) {
                lemma_recorded_none(pre, k);
                assert(recorded_at(ops, k) == seq![x]);
            } else if m == k {
                assert(recorded_at(ops, k) == recorded_at(pre, k).push(x));
            } else {
                assert(recorded_at(ops, m) == recorded_at(pre, m));
            }
        }
    }
}

/// Nothing is recorded at a time later than every recorded time.
proof fn lemma_recorded_none(ops: Seq<(Timestamp, u64)>, k: Timestamp)
    requires
        forall|i: int| 0 <= i < ops.len() ==> ts_lt(#[trigger] ops[i].0, k),
    ensures
        recorded_at(ops, k) == Seq::<u64>::empty(),
    decreases ops.len(),
{
    if ops.len() > 0 {
        let pre = ops.drop_last();
        assert forall|i: int| 0 <= i < pre.len() implies ts_lt(#[trigger] pre[i].0, k) by {
            assert(pre[i] == ops[i]);
        }
        assert(ts_lt(ops[ops.len() - 1].0, k));
        lemma_recorded_none(pre, k);
    }
}

/// The current view after recording versions one after another: nothing
/// for an empty index, otherwise the sequence numbers recorded at the
/// latest transaction time, in the order they were recorded.
pub proof fn lemma_current_is_latest(ops: Seq<(Timestamp, u64)>)
    ensures
        latest_entry(tx_index_of(ops)) == if ops.len() == 0 {
            Seq::<u64>::empty()
        } else {
            recorded_at(ops, latest_time(ops))
        },
{
    lemma_tx_index_of(ops);
}

/// `m` with `x` added once when `b` holds.
pub open spec fn add_if<T>(m: Multiset<T>, b: bool, x: T) -> Multiset<T> {
    if b {
        m.insert(x)
    } else {
        m
    }
}

/// Recording one item changes what an as-of-transaction query returns by
/// exactly that item, when its time is at or before the query's.
proof fn lemma_upto_insert_counts<T>(s: Seq<(Timestamp, Seq<T>)>, k: Timestamp, x: T, t: Timestamp)
    ensures
        collect_upto(index_insert(s, k, x), t).to_multiset() == add_if(collect_upto(s, t).to_multiset(), ts_le(k, t), x),
    decreases s.len(),
{
    let r = index_insert(s, k, x);
    let one = seq![x];
    assert(one =~= Seq::<T>::empty().push(x));
    vstd::seq_lib::to_multiset_build(Seq::<T>::empty(), x);
    if s.len() == 0 {
        assert(r.drop_first() =~= Seq::<(Timestamp, Seq<T>)>::empty());
        assert(collect_upto(r.drop_first(), t) == Seq::<T>::empty());
        if ts_le(k, t) {
            assert(collect_upto(r, t) == one + collect_upto(r.drop_first(), t));
            assert(collect_upto(r, t) =~= one);
        }
        assert(collect_upto(r, t).to_multiset() =~= add_if(collect_upto(s, t).to_multiset(), ts_le(k, t), x));
    } else if s[0].0 == k {
        let vs = s[0].1;
        let rest = collect_upto(s.drop_first(), t);
        assert(r.drop_first() =~= s.drop_first());
        assert(r[0] == (k, vs.push(x)));
        if ts_le(k, t) {
            assert(collect_upto(r, t) == vs.push(x) + rest);
            assert(collect_upto(s, t) == vs + rest);
            vstd::seq_lib::lemma_multiset_commutative(vs.push(x), rest);
            vstd::seq_lib::lemma_multiset_commutative(vs, rest);
            vstd::seq_lib::to_multiset_build(vs, x);
            assert(collect_upto(r, t).to_multiset() =~= collect_upto(s, t).to_multiset().insert(x));
        } else {
            assert(collect_upto(r, t) == collect_upto(r.drop_first(), t));
            assert(collect_upto(s, t) == collect_upto(s.drop_first(), t));
        }
    } else if ts_lt(k, s[0].0) {
        assert(r.drop_first() =~= s);
        assert(r[0] == (k, one));
        if ts_le(k, t) {
            assert(collect_upto(r, t) == one + collect_upto(s, t));
            assert(one + collect_upto(s, t) =~= collect_upto(s, t).insert(0, x));
            vstd::seq_lib::to_multiset_insert(collect_upto(s, t), 0, x);
            assert(collect_upto(r, t).to_multiset() =~= collect_upto(s, t).to_multiset().insert(x));
        } else {
            assert(collect_upto(r, t) == collect_upto(r.drop_first(), t));
        }
    } else {
        lemma_upto_insert_counts(s.drop_first(), k, x, t);
        assert(r.drop_first() =~= index_insert(s.drop_first(), k, x));
        assert(r[0] == s[0]);
        let rest_new = collect_upto(index_insert(s.drop_first(), k, x), t);
        let rest_old = collect_upto(s.drop_first(), t);
        if ts_le(s[0].0, t) {
            assert(collect_upto(r, t) == s[0].1 + rest_new);
            assert(collect_upto(s, t) == s[0].1 + rest_old);
            vstd::seq_lib::lemma_multiset_commutative(s[0].1, rest_new);
            vstd::seq_lib::lemma_multiset_commutative(s[0].1, rest_old);
            assert(collect_upto(r, t).to_multiset() =~= add_if(collect_upto(s, t).to_multiset(), ts_le(k, t), x));
        } else {
            assert(collect_upto(r, t) == rest_new);
            assert(collect_upto(s, t) == rest_old);
        }
    }
}

/// The sequence numbers of `ops` recorded at or before `t`, in the order
/// they were recorded.
pub open spec fn recorded_upto(ops: Seq<(Timestamp, u64)>, t: Timestamp) -> Seq<u64>
    decreases ops.len(),
{
    if ops.len() == 0 {
        Seq::empty()
    } else if ts_le(ops.last().0, t) {
        recorded_upto(ops.drop_last(), t).push(ops.last().1)
    } else {
        recorded_upto(ops.drop_last(), t)
    }
}

/// An as-of-transaction query after recording versions one after another
/// returns exactly the versions recorded at or before its time, each as
/// often as it was recorded (ordered by transaction time, as `query`
/// states).
pub proof fn lemma_as_of_transaction_exact(ops: Seq<(Timestamp, u64)>, t: Timestamp)
    ensures
        collect_upto(tx_index_of(ops), t).to_multiset() == recorded_upto(ops, t).to_multiset(),
    decreases ops.len(),
{
    if ops.len() == 0 {
        assert(collect_upto(tx_index_of(ops), t) == Seq::<u64>::empty());
    } else {
        let pre = ops.drop_last();
        lemma_as_of_transaction_exact(pre, t);
        lemma_upto_insert_counts(tx_index_of(pre), ops.last().0, ops.last().1, t);
        if ts_le(ops.last().0, t) {
            vstd::seq_lib::to_multiset_build(recorded_upto(pre, t), ops.last().1);
        }
    }
}

/// Recording one version changes what an as-of-valid-time query returns by
/// exactly that version, when it is valid at the query's time (and recorded
/// by its transaction-time bound, if any).
proof fn lemma_valid_insert_counts(
    s: Seq<(Timestamp, Seq<VersionRef>)>,
    k: Timestamp,
    v: VersionRef,
    t: Timestamp,
    known: Option<Timestamp>,
)
    ensures
        collect_valid(index_insert(s, k, v), t, known).to_multiset() == add_if(
            collect_valid(s, t, known).to_multiset(),
            ts_le(k, t) && version_selected(v, t, known),
            v.seq,
        ),
    decreases s.len(),
{
    let r = index_insert(s, k, v);
    let sel = version_selected(v, t, known);
    let one = seq![v];
    assert(one.drop_last() =~= Seq::<VersionRef>::empty());
    assert(one.last() == v);
    let e = Seq::<u64>::empty();
    assert(pick_valid(Seq::<VersionRef>::empty(), t, known) == e);
    let p1 = pick_valid(one, t, known);
    assert(sel ==> p1 == e.push(v.seq));
    assert(!sel ==> p1 == e);
    if s.len() == 0 {
        assert(r.drop_first() =~= Seq::<(Timestamp, Seq<VersionRef>)>::empty());
        assert(collect_valid(r.drop_first(), t, known) == e);
        assert(collect_valid(s, t, known) == e);
        vstd::seq_lib::to_multiset_build(e, v.seq);
        if ts_le(k, t) {
            assert(collect_valid(r, t, known) == p1 + e);
            assert(p1 + e =~= p1);
        } else {
            assert(collect_valid(r, t, known) == e);
        }
    } else if s[0].0 == k {
        let vs = s[0].1;
        let rest = collect_valid(s.drop_first(), t, known);
        assert(r.drop_first() =~= s.drop_first());
        assert(r[0] == (k, vs.push(v)));
        assert(vs.push(v).drop_last() =~= vs);
        assert(vs.push(v).last() == v);
        if ts_le(k, t) {
            let pv = pick_valid(vs, t, known);
            assert(collect_valid(r, t, known) == pick_valid(vs.push(v), t, known) + rest);
            assert(collect_valid(s, t, known) == pv + rest);
            vstd::seq_lib::lemma_multiset_commutative(pv, rest);
            if sel {
                assert(pick_valid(vs.push(v), t, known) == pv.push(v.seq));
                vstd::seq_lib::lemma_multiset_commutative(pv.push(v.seq), rest);
                vstd::seq_lib::to_multiset_build(pv, v.seq);
                assert(collect_valid(r, t, known).to_multiset() =~= collect_valid(s, t, known).to_multiset().insert(v.seq));
            } else {
                assert(pick_valid(vs.push(v), t, known) == pv);
            }
        } else {
            assert(collect_valid(r, t, known) == collect_valid(r.drop_first(), t, known));
            assert(collect_valid(s, t, known) == collect_valid(s.drop_first(), t, known));
        }
    } else if ts_lt(k, s[0].0) {
        assert(r.drop_first() =~= s);
        assert(r[0] == (k, one));
        let c = collect_valid(s, t, known);
        if ts_le(k, t) {
            assert(collect_valid(r, t, known) == p1 + c);
            if sel {
                assert(p1 + c =~= c.insert(0, v.seq));
                vstd::seq_lib::to_multiset_insert(c, 0, v.seq);
            } else {
                assert(p1 + c =~= c);
            }
        } else {
            assert(collect_valid(r, t, known) == collect_valid(r.drop_first(), t, known));
        }
    } else {
        lemma_valid_insert_counts(s.drop_first(), k, v, t, known);
        assert(r.drop_first() =~= index_insert(s.drop_first(), k, v));
        assert(r[0] == s[0]);
        let rest_new = collect_valid(index_insert(s.drop_first(), k, v), t, known);
        let rest_old = collect_valid(s.drop_first(), t, known);
        if ts_le(s[0].0, t) {
            let p0 = pick_valid(s[0].1, t, known);
            assert(collect_valid(r, t, known) == p0 + rest_new);
            assert(collect_valid(s, t, known) == p0 + rest_old);
            vstd::seq_lib::lemma_multiset_commutative(p0, rest_new);
            vstd::seq_lib::lemma_multiset_commutative(p0, rest_old);
            assert(collect_valid(r, t, known).to_multiset() =~= add_if(
                collect_valid(s, t, known).to_multiset(),
                ts_le(k, t) && sel,
                v.seq,
            ));
        } else {
            assert(collect_valid(r, t, known) == rest_new);
            assert(collect_valid(s, t, known) == rest_old);
        }
    }
}

/// How the valid-time index keeps a version with bounds `b`.
pub open spec fn version_of(b: TemporalBounds, seq: u64) -> VersionRef {
    VersionRef { seq, valid_end: b.valid_time_end, recorded: b.transaction_time }
}

/// The valid-time index that recording `ops` (each the bounds and the
/// sequence number of a version) one after another builds from an empty
/// one.
pub open spec fn valid_index_of(ops: Seq<(TemporalBounds, u64)>) -> Seq<(Timestamp, Seq<VersionRef>)>
    decreases ops.len(),
{
    if ops.len() == 0 {
        Seq::empty()
    } else {
        index_insert(
            valid_index_of(ops.drop_last()),
            ops.last().0.valid_time_start,
            version_of(ops.last().0, ops.last().1),
        )
    }
}

/// The sequence numbers of the versions of `ops` valid at `t` (start at or
/// before `t`, end after it), recorded by `known` when given, in the order
/// they were recorded.
pub open spec fn valid_at(ops: Seq<(TemporalBounds, u64)>, t: Timestamp, known: Option<Timestamp>) -> Seq<u64>
    decreases ops.len(),
{
    if ops.len() == 0 {
        Seq::empty()
    } else if ts_le(ops.last().0.valid_time_start, t) && version_selected(version_of(ops.last().0, ops.last().1), t, known) {
        valid_at(ops.drop_last(), t, known).push(ops.last().1)
    } else {
        valid_at(ops.drop_last(), t, known)
    }
}

/// An as-of-valid-time (or bitemporal) query after recording versions one
/// after another returns exactly the versions valid at its time (and
/// recorded by its transaction time, if given), each as often as it was
/// recorded (ordered by valid-time start, as `query` states).
pub proof fn lemma_as_of_valid_exact(ops: Seq<(TemporalBounds, u64)>, t: Timestamp, known: Option<Timestamp>)
    ensures
        collect_valid(valid_index_of(ops), t, known).to_multiset() == valid_at(ops, t, known).to_multiset(),
    decreases ops.len(),
{
    if ops.len() == 0 {
        assert(collect_valid(valid_index_of(ops), t, known) == Seq::<u64>::empty());
    } else {
        let pre = ops.drop_last();
        let (b, q) = ops.last();
        lemma_as_of_valid_exact(pre, t, known);
        lemma_valid_insert_counts(valid_index_of(pre), b.valid_time_start, version_of(b, q), t, known);
        if ts_le(b.valid_time_start, t) && version_selected(version_of(b, q), t, known) {
            vstd::seq_lib::to_multiset_build(valid_at(pre, t, known), q);
        }
    }
}

} // verus!
