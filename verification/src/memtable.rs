//! The write buffer: an in-memory table of recent writes, ordered by key,
//! flushed to disk when it grows past its size budget.

use vstd::prelude::*;
use vstd::layout::size_of;
use crate::bytes_order::{bytes_lt, bytes_less, bytes_equal, lemma_bytes_lt_total, lemma_bytes_lt_trans};
use crate::storage::{RowKey, encoded_key};

verus! {

/// Keys strictly increase along the sequence.
pub open spec fn keys_sorted<V>(s: Seq<(Seq<u8>, V)>) -> bool {
    forall|i: int, j: int| 0 <= i < j < s.len() ==> bytes_lt(s[i].0, s[j].0)
}

/// The entries as a map from key to value.
pub open spec fn entries_map<V>(s: Seq<(Seq<u8>, V)>) -> Map<Seq<u8>, V> {
    Map::new(
        |k: Seq<u8>| exists|i: int| 0 <= i < s.len() && s[i].0 == k,
        |k: Seq<u8>| s[choose|i: int| 0 <= i < s.len() && s[i].0 == k].1,
    )
}

/// Key `k` lies in the range from `start` (inclusive) to `end` (exclusive);
/// a missing bound leaves that side open.
pub open spec fn key_in_range(k: Seq<u8>, start: Option<Seq<u8>>, end: Option<Seq<u8>>) -> bool {
    (match start {
        Some(s) => !bytes_lt(k, s),
        None => true,
    }) && (match end {
        Some(e) => bytes_lt(k, e),
        None => true,
    })
}

/// The entries of `s` whose keys lie in the range, in order.
pub open spec fn range_of<V>(s: Seq<(Seq<u8>, V)>, start: Option<Seq<u8>>, end: Option<Seq<u8>>) -> Seq<(Seq<u8>, V)>
    decreases s.len(),
{
    if s.len() == 0 {
        Seq::empty()
    } else if key_in_range(s.last().0, start, end) {
        range_of(s.drop_last(), start, end).push(s.last())
    } else {
        range_of(s.drop_last(), start, end)
    }
}

pub open spec fn opt_bytes(b: Option<&[u8]>) -> Option<Seq<u8>> {
    match b {
        Some(x) => Some(x@),
        None => None,
    }
}

/// The bytes a buffer charges for one entry.
pub open spec fn entry_charge<V>() -> nat {
    size_of::<RowKey>() + size_of::<V>()
}

/// In-memory table ordered by key.
pub struct MemTable<V> {
    data: Vec<(Vec<u8>, V)>,
    approximate_size: usize,
    max_size: usize,
}

impl<V> MemTable<V> {
    /// The entries in key order.
    pub closed spec fn view(&self) -> Seq<(Seq<u8>, V)> {
        self.data@.map_values(|e: (Vec<u8>, V)| (e.0@, e.1))
    }

    /// The bytes charged so far.
    pub closed spec fn size(&self) -> nat {
        self.approximate_size as nat
    }

    /// The budget after which a flush is due.
    pub closed spec fn budget(&self) -> nat {
        self.max_size as nat
    }

    /// Keys strictly increase.
    pub open spec fn wf(&self) -> bool {
        keys_sorted(self.view())
    }

    pub fn new(max_size: usize) -> (m: MemTable<V>)
        ensures
            m.wf(),
            m@ == Seq::<(Seq<u8>, V)>::empty(),
            m.size() == 0,
            m.budget() == max_size,
    {
        let m = MemTable { data: Vec::new(), approximate_size: 0, max_size };
        assert(m@ =~= Seq::<(Seq<u8>, V)>::empty());
        m
    }

    /// Stores `value` under the encoding of `key`, replacing any earlier
    /// value, and charges one entry. The result tells whether the buffer is
    /// still within budget.
    pub fn insert(&mut self, key: RowKey, value: V) -> (r: crate::storage::Result<bool>)
        requires
            old(self).wf(),
        ensures
            final(self).wf(),
            entries_map(final(self)@) == entries_map(old(self)@).insert(
                encoded_key(key.table@, key.row_id),
                value,
            ),
            final(self).size() == if old(self).size() + entry_charge::<V>() <= usize::MAX {
                old(self).size() + entry_charge::<V>()
            } else {
                usize::MAX as nat
            },
            final(self).budget() == old(self).budget(),
            r == Ok::<bool, crate::error::CdfError>(final(self).size() <= final(self).budget()),
    {
        let size = std::mem::size_of::<RowKey>().saturating_add(std::mem::size_of::<V>());
        let current = self.approximate_size.saturating_add(size);
        self.approximate_size = current;
        let k = key.encode();
        self.put(k, value);
        if current > self.max_size {
            return Ok(false);
        }
        Ok(true)
    }

    /// Stores `value` under `k`, keeping keys ordered.
    fn put(&mut self, k: Vec<u8>, value: V)
        requires
            old(self).wf(),
        ensures
            final(self).wf(),
            entries_map(final(self)@) == entries_map(old(self)@).insert(k@, value),
            final(self).approximate_size == old(self).approximate_size,
            final(self).max_size == old(self).max_size,
    {
        let ghost s = self@;
        let ghost kv = k@;
        let mut i: usize = 0;
        while i < self.data.len() && bytes_less(self.data[i].0.as_slice(), k.as_slice())
            invariant
                i <= self.data.len(),
                self.data@ == old(self).data@,
                s == self@,
                kv == k@,
                keys_sorted(s),
                forall|j: int| 0 <= j < i ==> bytes_lt(#[trigger] s[j].0, kv),
            decreases self.data.len() - i,
        {
            i = i + 1;
        }
        if i < self.data.len() && bytes_equal(self.data[i].0.as_slice(), k.as_slice()) {
            let ghost pre = self.data@;
            self.data.set(i, (k, value));
            proof {
                let post = self@;
                assert(post =~= s.update(i as int, (kv, value)));
                assert forall|a: int, b: int| 0 <= a < b < post.len() implies bytes_lt(post[a].0, post[b].0) by {
                    assert(post[a].0 == s[a].0 && post[b].0 == s[b].0);
                }
                lemma_map_update_sorted(s, i as int, kv, value);
            }
        } else {
            let ghost pre = self.data@;
            self.data.insert(i, (k, value));
            proof {
                let post = self@;
                assert(post.len() == s.len() + 1);
                assert forall|j: int| 0 <= j < post.len() implies #[trigger] post[j] == (if j < i {
                    s[j]
                } else if j == i {
                    (kv, value)
                } else {
                    s[j - 1]
                }) by {
                    if j < i {
                        assert(self.data@[j] == pre[j]);
                    } else if j > i {
                        assert(self.data@[j] == pre[j - 1]);
                    }
                }
                if i < s.len() {
                    lemma_bytes_lt_total(kv, s[i as int].0);
                }
                assert forall|a: int, b: int| 0 <= a < b < post.len() implies bytes_lt(post[a].0, post[b].0) by {
                    if b < i {
                    } else if b == i {
                    } else if a < i {
                        assert(bytes_lt(s[a].0, kv));
                        if b - 1 > i {
                            assert(bytes_lt(s[i as int].0, s[b - 1].0));
                            lemma_bytes_lt_trans(kv, s[i as int].0, s[b - 1].0);
                        }
                        lemma_bytes_lt_trans(s[a].0, kv, s[b - 1].0);
                    } else if a == i {
                        if b - 1 > i {
                            assert(bytes_lt(s[i as int].0, s[b - 1].0));
                            lemma_bytes_lt_trans(kv, s[i as int].0, s[b - 1].0);
                        }
                    } else {
                        assert(bytes_lt(s[a - 1].0, s[b - 1].0));
                    }
                }
                lemma_map_insert_sorted(s, i as int, kv, value, post);
            }
        }
    }

    /// The value stored under the encoding of `key`, cloned.
    pub fn get(&self, key: &RowKey) -> (r: Option<V>)
        where
            V: Clone,
        requires
            self.wf(),
        ensures
            match r {
                Some(v) => entries_map(self@).contains_key(encoded_key(key.table@, key.row_id))
                    && cloned::<V>(entries_map(self@)[encoded_key(key.table@, key.row_id)], v),
                None => !entries_map(self@).contains_key(encoded_key(key.table@, key.row_id)),
            },
    {
        let k = key.encode();
        let ghost s = self@;
        let mut i: usize = 0;
        while i < self.data.len()
            invariant
                i <= self.data.len(),
                s == self@,
                keys_sorted(s),
                k@ == encoded_key(key.table@, key.row_id),
                forall|j: int| 0 <= j < i ==> s[j].0 != k@,
            decreases self.data.len() - i,
        {
            if bytes_equal(self.data[i].0.as_slice(), k.as_slice()) {
                let v = self.data[i].1.clone();
                proof {
                    lemma_sorted_unique(s, i as int);
                    assert(s[i as int].0 == k@);
                    let j = choose|j: int| 0 <= j < s.len() && s[j].0 == k@;
                    assert(j == i);
                    assert(s[i as int].1 == self.data@[i as int].1);
                }
                return Some(v);
            }
            i = i + 1;
        }
        None
    }

    /// The entries whose keys lie between `start` (inclusive) and `end`
    /// (exclusive), in key order, with cloned values. A missing bound
    /// leaves that side open.
    pub fn scan(&self, start: Option<&[u8]>, end: Option<&[u8]>) -> (r: Vec<(Vec<u8>, V)>)
        where
            V: Clone,
        requires
            self.wf(),
            match (start, end) {
                (Some(s), Some(e)) => !bytes_lt(e@, s@),
                _ => true,
            },
        ensures
            r@.len() == range_of(self@, opt_bytes(start), opt_bytes(end)).len(),
            forall|i: int|
                0 <= i < r@.len() ==> (#[trigger] r@[i]).0@ == range_of(
                    self@,
                    opt_bytes(start),
                    opt_bytes(end),
                )[i].0 && cloned::<V>(range_of(self@, opt_bytes(start), opt_bytes(end))[i].1, r@[i].1),
    {
        let ghost s = self@;
        let ghost st = opt_bytes(start);
        let ghost en = opt_bytes(end);
        let mut r: Vec<(Vec<u8>, V)> = Vec::new();
        let mut i: usize = 0;
        while i < self.data.len()
            invariant
                i <= self.data.len(),
                s == self@,
                st == opt_bytes(start),
                en == opt_bytes(end),
                r@.len() == range_of(s.subrange(0, i as int), st, en).len(),
                forall|x: int|
                    0 <= x < r@.len() ==> (#[trigger] r@[x]).0@ == range_of(s.subrange(0, i as int), st, en)[x].0
                        && cloned::<V>(range_of(s.subrange(0, i as int), st, en)[x].1, r@[x].1),
            decreases self.data.len() - i,
        {
            proof {
                assert(s.subrange(0, i + 1).drop_last() =~= s.subrange(0, i as int));
                assert(s.subrange(0, i + 1).last() == s[i as int]);
            }
            let key = &self.data[i].0;
            let after_start = match start {
                Some(b) => !bytes_less(key.as_slice(), b),
                None => true,
            };
            let before_end = match end {
                Some(b) => bytes_less(key.as_slice(), b),
                None => true,
            };
            if after_start && before_end {
                let kc = copy_bytes(key);
                let vc = self.data[i].1.clone();
                r.push((kc, vc));
            }
            i = i + 1;
        }
        assert(s.subrange(0, s.len() as int) =~= s);
        r
    }

    /// Number of entries.
    pub fn len(&self) -> (n: usize)
        ensures
            n == self@.len(),
    {
        self.data.len()
    }

    pub fn is_empty(&self) -> (b: bool)
        ensures
            b == (self@.len() == 0),
    {
        self.len() == 0
    }

    /// Whether the charged size has reached the budget.
    pub fn at_capacity(&self) -> (b: bool)
        ensures
            b == (self.size() >= self.budget()),
    {
        self.approximate_size >= self.max_size
    }

    /// Removes and returns all entries, in key order, for flushing.
    pub fn drain(&mut self) -> (r: Vec<(Vec<u8>, V)>)
        ensures
            r@.map_values(|e: (Vec<u8>, V)| (e.0@, e.1)) == old(self)@,
            final(self)@ == Seq::<(Seq<u8>, V)>::empty(),
            final(self).wf(),
            final(self).size() == 0,
            final(self).budget() == old(self).budget(),
    {
        let mut entries: Vec<(Vec<u8>, V)> = Vec::new();
        std::mem::swap(&mut entries, &mut self.data);
        self.approximate_size = 0;
        assert(self@ =~= Seq::<(Seq<u8>, V)>::empty());
        entries
    }
}

/// A copy of a byte vector.
fn copy_bytes(b: &Vec<u8>) -> (r: Vec<u8>)
    ensures
        r@ == b@,
{
    let mut r: Vec<u8> = Vec::new();
    let mut i: usize = 0;
    while i < b.len()
        invariant
            i <= b.len(),
            r@ == b@.subrange(0, i as int),
        decreases b.len() - i,
    {
        r.push(b[i]);
        assert(r@ =~= b@.subrange(0, i + 1));
        i = i + 1;
    }
    assert(b@.subrange(0, b@.len() as int) =~= b@);
    r
}

/// In a sorted list each key occurs once.
proof fn lemma_sorted_unique<V>(s: Seq<(Seq<u8>, V)>, i: int)
    requires
        keys_sorted(s),
        0 <= i < s.len(),
    ensures
        forall|j: int| 0 <= j < s.len() && j != i ==> s[j].0 != s[i].0,
{
    assert forall|j: int| 0 <= j < s.len() && j != i implies s[j].0 != s[i].0 by {
        lemma_bytes_lt_total(s[i].0, s[i].0);
        if j < i {
            assert(bytes_lt(s[j].0, s[i].0));
        } else {
            assert(bytes_lt(s[i].0, s[j].0));
        }
    }
}

/// Replacing the value of an existing key updates the map at that key.
proof fn lemma_map_update_sorted<V>(s: Seq<(Seq<u8>, V)>, i: int, k: Seq<u8>, v: V)
    requires
        keys_sorted(s),
        0 <= i < s.len(),
        s[i].0 == k,
    ensures
        entries_map(s.update(i, (k, v))) == entries_map(s).insert(k, v),
{
    let t = s.update(i, (k, v));
    lemma_sorted_unique(s, i);
    assert forall|x: Seq<u8>| #[trigger] entries_map(t).dom().contains(x) <==> entries_map(s).insert(k, v).dom().contains(x) by {
        if entries_map(s).dom().contains(x) {
            let j = choose|j: int| 0 <= j < s.len() && s[j].0 == x;
            assert(t[j].0 == x);
        }
        if entries_map(t).dom().contains(x) {
            let j = choose|j: int| 0 <= j < t.len() && t[j].0 == x;
            assert(s[j].0 == x);
        }
        if x == k {
            assert(t[i].0 == x);
        }
    }
    assert forall|x: Seq<u8>| #[trigger] entries_map(t).dom().contains(x) implies entries_map(t)[x] == entries_map(s).insert(k, v)[x] by {
        let j = choose|j: int| 0 <= j < t.len() && t[j].0 == x;
        if x == k {
            assert(j == i);
        } else {
            assert(j != i);
            let j0 = choose|j0: int| 0 <= j0 < s.len() && s[j0].0 == x;
            lemma_sorted_unique(s, j0);
            assert(j0 == j);
        }
    }
    assert(entries_map(t) =~= entries_map(s).insert(k, v));
}

/// Inserting a new key at its ordered place adds it to the map.
proof fn lemma_map_insert_sorted<V>(s: Seq<(Seq<u8>, V)>, i: int, k: Seq<u8>, v: V, t: Seq<(Seq<u8>, V)>)
    requires
        keys_sorted(s),
        keys_sorted(t),
        0 <= i <= s.len(),
        t.len() == s.len() + 1,
        forall|j: int| 0 <= j < t.len() ==> #[trigger] t[j] == (if j < i {
            s[j]
        } else if j == i {
            (k, v)
        } else {
            s[j - 1]
        }),
    ensures
        entries_map(t) == entries_map(s).insert(k, v),
{
    assert forall|x: Seq<u8>| #[trigger] entries_map(t).dom().contains(x) <==> entries_map(s).insert(k, v).dom().contains(x) by {
        if entries_map(s).dom().contains(x) {
            let j = choose|j: int| 0 <= j < s.len() && s[j].0 == x;
            if j < i {
                assert(t[j] == s[j]);
            } else {
                assert(t[j + 1] == s[j]);
            }
        }
        if entries_map(t).dom().contains(x) && x != k {
            let j = choose|j: int| 0 <= j < t.len() && t[j].0 == x;
            if j < i {
                assert(t[j] == s[j]);
            } else if j > i {
                assert(t[j] == s[j - 1]);
            }
        }
        if x == k {
            assert(t[i].0 == x);
        }
    }
    assert forall|x: Seq<u8>| #[trigger] entries_map(t).dom().contains(x) implies entries_map(t)[x] == entries_map(s).insert(k, v)[x] by {
        let j = choose|j: int| 0 <= j < t.len() && t[j].0 == x;
        lemma_sorted_unique(t, j);
        if x == k {
            assert(t[i].0 == k);
            assert(j == i);
        } else {
            let j0 = choose|j0: int| 0 <= j0 < s.len() && s[j0].0 == x;
            if j0 < i {
                assert(t[j0] == s[j0]);
                assert(j == j0);
            } else {
                assert(t[j0 + 1] == s[j0]);
                assert(j == j0 + 1);
            }
        }
    }
    assert(entries_map(t) =~= entries_map(s).insert(k, v));
}

/// A read gives back the last write: after storing `v` under `k`, the
/// buffer holds `v` under `k` and every other key keeps its value.
pub proof fn lemma_get_after_insert<V>(before: Seq<(Seq<u8>, V)>, after: Seq<(Seq<u8>, V)>, k: Seq<u8>, v: V, other: Seq<u8>)
    requires
        entries_map(after) == entries_map(before).insert(k, v),
        other != k,
    ensures
        entries_map(after).contains_key(k),
        entries_map(after)[k] == v,
        entries_map(after).contains_key(other) == entries_map(before).contains_key(other),
        entries_map(before).contains_key(other) ==> entries_map(after)[other] == entries_map(before)[other],
{
}

} // verus!
