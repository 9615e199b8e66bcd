//! A small map from text keys to text values, each key held once.

use vstd::prelude::*;

verus! {

/// Text values keyed by text; each key occurs once.
#[derive(Debug)]
pub struct StringMap {
    entries: Vec<(String, String)>,
}

impl StringMap {
    /// The value of each key.
    pub closed spec fn view(&self) -> Map<Seq<char>, Seq<char>> {
        Map::new(
            |k: Seq<char>| exists|i: int| 0 <= i < self.entries@.len() && self.entries@[i].0@ == k,
            |k: Seq<char>|
                {
                    let i = choose|i: int| 0 <= i < self.entries@.len() && self.entries@[i].0@ == k;
                    self.entries@[i].1@
                },
        )
    }

    /// Each key occurs once.
    pub closed spec fn wf(&self) -> bool {
        forall|i: int, j: int|
            0 <= i < self.entries@.len() && 0 <= j < self.entries@.len() && i != j
                ==> self.entries@[i].0@ != self.entries@[j].0@
    }

    pub fn new() -> (m: StringMap)
        ensures
            m.wf(),
            m@ == Map::<Seq<char>, Seq<char>>::empty(),
    {
        let m = StringMap { entries: Vec::new() };
        assert(m@ =~= Map::<Seq<char>, Seq<char>>::empty());
        m
    }

    pub fn len(&self) -> (n: usize)
        requires
            self.wf(),
        ensures
            n == self@.len(),
    {
        proof {
            self.lemma_len();
        }
        self.entries.len()
    }

    proof fn lemma_len(&self)
        requires
            self.wf(),
        ensures
            self@.len() == self.entries@.len(),
            self@.dom().finite(),
    {
        let keys = self.entries@.map_values(|e: (String, String)| e.0@);
        assert(self@.dom() =~= keys.to_set()) by {
            assert forall|k: Seq<char>| #[trigger] self@.dom().contains(k) <==> keys.to_set().contains(
                k,
            ) by {
                if self@.dom().contains(k) {
                    let i = choose|i: int| 0 <= i < self.entries@.len() && self.entries@[i].0@ == k;
                    assert(keys[i] == k);
                }
                if keys.contains(k) {
                    let i = choose|i: int| 0 <= i < keys.len() && keys[i] == k;
                    assert(self.entries@[i].0@ == k);
                }
            }
        }
        assert(keys.no_duplicates()) by {
            assert forall|i: int, j: int| 0 <= i < keys.len() && 0 <= j < keys.len() && i != j
                implies keys[i] != keys[j] by {
                assert(keys[i] == self.entries@[i].0@);
                assert(keys[j] == self.entries@[j].0@);
            }
        }
        keys.unique_seq_to_set();
    }

    /// The value of `key`, if any.
    pub fn get(&self, key: &str) -> (r: Option<&String>)
        requires
            self.wf(),
        ensures
            match r {
                Some(v) => self@.contains_key(key@) && self@[key@] == v@,
                None => !self@.contains_key(key@),
            },
    {
        let k = String::from_str(key);
        let mut i: usize = 0;
        while i < self.entries.len()
            invariant
                i <= self.entries.len(),
                self.wf(),
                k@ == key@,
                forall|j: int| 0 <= j < i ==> self.entries@[j].0@ != key@,
            decreases self.entries.len() - i,
        {
            if self.entries[i].0 == k {
                proof {
                    let x = choose|x: int| 0 <= x < self.entries@.len() && self.entries@[x].0@ == key@;
                    assert(x == i);
                }
                return Some(&self.entries[i].1);
            }
            i = i + 1;
        }
        None
    }

    /// Sets the value of `key`, replacing any earlier one.
    pub fn insert(&mut self, key: String, value: String)
        requires
            old(self).wf(),
        ensures
            final(self).wf(),
            final(self)@ == old(self)@.insert(key@, value@),
    {
        let ghost k = key@;
        let ghost val = value@;
        let mut i: usize = 0;
        while i < self.entries.len()
            invariant
                i <= self.entries.len(),
                self.entries@ == old(self).entries@,
                old(self).wf(),
                key@ == k,
                value@ == val,
                forall|j: int| 0 <= j < i ==> self.entries@[j].0@ != k,
            decreases self.entries.len() - i,
        {
            if self.entries[i].0 == key {
                let ghost pre = self.entries@;
                self.entries.set(i, (key, value));
                proof {
                    let post = self.entries@;
                    assert(pre[i as int].0@ == k);
                    assert(post[i as int].0@ == k);
                    assert forall|a: int, b: int|
                        0 <= a < post.len() && 0 <= b < post.len() && a != b implies post[a].0@
                        != post[b].0@ by {
                        if a != i && b != i {
                            assert(post[a] == pre[a] && post[b] == pre[b]);
                        } else if a == i {
                            assert(post[b] == pre[b]);
                            assert(pre[b].0@ != pre[i as int].0@);
                        } else {
                            assert(post[a] == pre[a]);
                            assert(pre[a].0@ != pre[i as int].0@);
                        }
                    }
                    assert forall|n: Seq<char>| #[trigger] self@.dom().contains(n)
                        <==> old(self)@.insert(k, val).dom().contains(n) by {
                        if old(self)@.dom().contains(n) {
                            let x = choose|x: int| 0 <= x < pre.len() && pre[x].0@ == n;
                            if x != i {
                                assert(post[x] == pre[x]);
                            }
                        }
                        if self@.dom().contains(n) {
                            let x = choose|x: int| 0 <= x < post.len() && post[x].0@ == n;
                            if x != i {
                                assert(post[x] == pre[x]);
                            }
                        }
                    }
                    assert forall|n: Seq<char>| #[trigger] self@.dom().contains(n) implies self@[n]
                        == old(self)@.insert(k, val)[n] by {
                        let x = choose|x: int| 0 <= x < post.len() && post[x].0@ == n;
                        if n == k {
                            assert(x == i);
                        } else {
                            assert(x != i);
                            assert(post[x] == pre[x]);
                            let x0 = choose|x0: int| 0 <= x0 < pre.len() && pre[x0].0@ == n;
                            assert(x0 == x);
                        }
                    }
                    assert(self@.dom() =~= old(self)@.insert(k, val).dom());
                    assert(self@ =~= old(self)@.insert(k, val));
                }
                return;
            }
            i = i + 1;
        }
        let ghost pre = self.entries@;
        self.entries.push((key, value));
        proof {
            let post = self.entries@;
            assert(post.len() == pre.len() + 1);
            assert(post[pre.len() as int].0@ == k);
            assert forall|a: int, b: int|
                0 <= a < post.len() && 0 <= b < post.len() && a != b implies post[a].0@
                != post[b].0@ by {
                if a < pre.len() && b < pre.len() {
                    assert(post[a] == pre[a] && post[b] == pre[b]);
                } else if a < pre.len() {
                    assert(post[a] == pre[a]);
                } else {
                    assert(post[b] == pre[b]);
                }
            }
            assert forall|n: Seq<char>| #[trigger] self@.dom().contains(n)
                <==> old(self)@.insert(k, val).dom().contains(n) by {
                if old(self)@.dom().contains(n) {
                    let x = choose|x: int| 0 <= x < pre.len() && pre[x].0@ == n;
                    assert(post[x] == pre[x]);
                }
                if self@.dom().contains(n) && n != k {
                    let x = choose|x: int| 0 <= x < post.len() && post[x].0@ == n;
                    assert(x < pre.len());
                    assert(post[x] == pre[x]);
                }
            }
            assert forall|n: Seq<char>| #[trigger] self@.dom().contains(n) implies self@[n]
                == old(self)@.insert(k, val)[n] by {
                let x = choose|x: int| 0 <= x < post.len() && post[x].0@ == n;
                if n == k {
                    assert(x == pre.len());
                } else {
                    assert(x < pre.len());
                    assert(post[x] == pre[x]);
                    let x0 = choose|x0: int| 0 <= x0 < pre.len() && pre[x0].0@ == n;
                    assert(x0 == x);
                }
            }
            assert(self@.dom() =~= old(self)@.insert(k, val).dom());
            assert(self@ =~= old(self)@.insert(k, val));
        }
    }
}


impl Clone for StringMap {
    fn clone(&self) -> (m: StringMap)
        ensures
            self.wf() ==> m.wf() && m@ == self@,
    {
        let mut entries: Vec<(String, String)> = Vec::new();
        let mut i: usize = 0;
        while i < self.entries.len()
            invariant
                i <= self.entries.len(),
                entries@.len() == i,
                forall|j: int|
                    0 <= j < i ==> (#[trigger] entries@[j]).0@ == self.entries@[j].0@ && entries@[j].1@
                        == self.entries@[j].1@,
            decreases self.entries.len() - i,
        {
            let k = self.entries[i].0.clone();
            let v = self.entries[i].1.clone();
            entries.push((k, v));
            i = i + 1;
        }
        let m = StringMap { entries };
        proof {
            assert forall|n: Seq<char>| #[trigger] m@.dom().contains(n) <==> self@.dom().contains(n) by {
                if m@.dom().contains(n) {
                    let x = choose|x: int| 0 <= x < m.entries@.len() && m.entries@[x].0@ == n;
                    assert(self.entries@[x].0@ == n);
                }
                if self@.dom().contains(n) {
                    let x = choose|x: int| 0 <= x < self.entries@.len() && self.entries@[x].0@ == n;
                    assert(m.entries@[x].0@ == n);
                }
            }
            assert(m@.dom() =~= self@.dom());
            if self.wf() {
                assert forall|n: Seq<char>| #[trigger] m@.dom().contains(n) implies m@[n] == self@[n] by {
                    let x = choose|x: int| 0 <= x < m.entries@.len() && m.entries@[x].0@ == n;
                    let y = choose|y: int| 0 <= y < self.entries@.len() && self.entries@[y].0@ == n;
                    assert(self.entries@[x].0@ == n);
                    assert(x == y);
                }
                assert(m@ =~= self@);
                assert forall|a: int, b: int|
                    0 <= a < m.entries@.len() && 0 <= b < m.entries@.len() && a != b implies m.entries@[a].0@
                    != m.entries@[b].0@ by {
                    assert(m.entries@[a].0@ == self.entries@[a].0@);
                    assert(m.entries@[b].0@ == self.entries@[b].0@);
                }
            }
        }
        m
    }
}

} // verus!
