//! Access control lists: fine-grained grants of actions on resources,
//! their checks, revocation and per-principal permission summaries.

use vstd::prelude::*;
use vstd::std_specs::cmp::PartialEqSpecImpl;
use crate::temporal::{Timestamp, ts_lt, ts_less, utc_now};

verus! {

/// Actions that can be performed on resources.
#[derive(Debug, Clone, Copy, PartialEq, Eq, Hash, Structural)]
pub enum Action {
    Create,
    Read,
    Update,
    Delete,
    Admin,
    Search,
    Insert,
    DeleteIndex,
    Traverse,
    ReadEdges,
    WriteEdges,
    Alter,
    Evolve,
    Register,
    NodeJoin,
    ShardRebalance,
    Backup,
    All,
}

/// Resource types with identifiers.
#[derive(Debug, Clone, Eq, Hash)]
pub enum Resource {
    Table { namespace: String, name: String },
    VectorIndex { namespace: String, name: String },
    Graph { namespace: String, name: String },
    Schema { namespace: String, name: String },
    Cluster { node_id: String },
    Namespace(String),
    System,
}

/// Two resources name the same thing: same kind, same texts.
pub open spec fn same_resource(a: Resource, b: Resource) -> bool {
    match (a, b) {
        (Resource::Table { namespace: n1, name: m1 }, Resource::Table { namespace: n2, name: m2 }) =>
            n1@ == n2@ && m1@ == m2@,
        (
            Resource::VectorIndex { namespace: n1, name: m1 },
            Resource::VectorIndex { namespace: n2, name: m2 },
        ) => n1@ == n2@ && m1@ == m2@,
        (Resource::Graph { namespace: n1, name: m1 }, Resource::Graph { namespace: n2, name: m2 }) =>
            n1@ == n2@ && m1@ == m2@,
        (Resource::Schema { namespace: n1, name: m1 }, Resource::Schema { namespace: n2, name: m2 }) =>
            n1@ == n2@ && m1@ == m2@,
        (Resource::Cluster { node_id: a1 }, Resource::Cluster { node_id: a2 }) => a1@ == a2@,
        (Resource::Namespace(a1), Resource::Namespace(a2)) => a1@ == a2@,
        (Resource::System, Resource::System) => true,
        _ => false,
    }
}

impl PartialEq for Resource {
    fn eq(&self, other: &Resource) -> (r: bool) {
        match (self, other) {
            (
                Resource::Table { namespace: n1, name: m1 },
                Resource::Table { namespace: n2, name: m2 },
            ) => *n1 == *n2 && *m1 == *m2,
            (
                Resource::VectorIndex { namespace: n1, name: m1 },
                Resource::VectorIndex { namespace: n2, name: m2 },
            ) => *n1 == *n2 && *m1 == *m2,
            (
                Resource::Graph { namespace: n1, name: m1 },
                Resource::Graph { namespace: n2, name: m2 },
            ) => *n1 == *n2 && *m1 == *m2,
            (
                Resource::Schema { namespace: n1, name: m1 },
                Resource::Schema { namespace: n2, name: m2 },
            ) => *n1 == *n2 && *m1 == *m2,
            (Resource::Cluster { node_id: a1 }, Resource::Cluster { node_id: a2 }) => *a1 == *a2,
            (Resource::Namespace(a1), Resource::Namespace(a2)) => *a1 == *a2,
            (Resource::System, Resource::System) => true,
            _ => false,
        }
    }
}

impl PartialEqSpecImpl for Resource {
    open spec fn obeys_eq_spec() -> bool {
        true
    }

    open spec fn eq_spec(&self, other: &Resource) -> bool {
        same_resource(*self, *other)
    }
}

/// The namespace a resource lives in, if it has one.
pub open spec fn resource_namespace(r: Resource) -> Option<Seq<char>> {
    match r {
        Resource::Table { namespace, .. } => Some(namespace@),
        Resource::VectorIndex { namespace, .. } => Some(namespace@),
        Resource::Graph { namespace, .. } => Some(namespace@),
        Resource::Schema { namespace, .. } => Some(namespace@),
        Resource::Namespace(ns) => Some(ns@),
        _ => None,
    }
}

impl Resource {
    pub fn namespace(&self) -> (ns: Option<&str>)
        ensures
            match ns {
                Some(s) => resource_namespace(*self) == Some(s@),
                None => resource_namespace(*self).is_none(),
            },
    {
        match self {
            Resource::Table { namespace, .. } => Some(namespace.as_str()),
            Resource::VectorIndex { namespace, .. } => Some(namespace.as_str()),
            Resource::Graph { namespace, .. } => Some(namespace.as_str()),
            Resource::Schema { namespace, .. } => Some(namespace.as_str()),
            Resource::Namespace(ns) => Some(ns.as_str()),
            _ => None,
        }
    }
}

/// Whether `a` occurs in `v`.
pub fn contains_action(v: &Vec<Action>, a: Action) -> (b: bool)
    ensures
        b == v@.contains(a),
{
    let mut i: usize = 0;
    while i < v.len()
        invariant
            i <= v.len(),
            forall|j: int| 0 <= j < i ==> v@[j] != a,
        decreases v.len() - i,
    {
        if v[i] == a {
            return true;
        }
        i = i + 1;
    }
    false
}

/// One ACL entry granting actions on a resource. Times are wall-clock
/// timestamps; an entry without an expiry never expires.
#[derive(Debug, Clone)]
pub struct AclEntry {
    pub principal_id: String,
    pub resource: Resource,
    pub actions: Vec<Action>,
    pub granted_by: String,
    pub granted_at: Timestamp,
    pub expires_at: Option<Timestamp>,
    /// JSON text of conditions such as IP ranges.
    pub conditions: Option<String>,
}

/// An entry is in force at `now` when it has no expiry or expires later.
pub open spec fn entry_live(e: AclEntry, now: Timestamp) -> bool {
    match e.expires_at {
        None => true,
        Some(exp) => ts_lt(now, exp),
    }
}

/// Entry `e` grants principal `p` action `a` on `r` at time `now`.
pub open spec fn entry_grants(e: AclEntry, p: Seq<char>, a: Action, r: Resource, now: Timestamp) -> bool {
    &&& e.principal_id@ == p
    &&& e.actions@.contains(a)
    &&& same_resource(e.resource, r)
    &&& entry_live(e, now)
}

/// Some entry of `s` grants `p` action `a` on `r` at `now`.
pub open spec fn acl_allows(s: Seq<AclEntry>, p: Seq<char>, a: Action, r: Resource, now: Timestamp) -> bool {
    exists|i: int| 0 <= i < s.len() && entry_grants(#[trigger] s[i], p, a, r, now)
}

/// Some entry of `s` grants `p` one of `actions` on `r` at `now`.
pub open spec fn acl_allows_any(s: Seq<AclEntry>, p: Seq<char>, actions: Seq<Action>, r: Resource, now: Timestamp) -> bool {
    exists|k: int| 0 <= k < actions.len() && acl_allows(s, p, #[trigger] actions[k], r, now)
}

/// Entry `e` is one that revoking `a` on `r` from `p` removes.
pub open spec fn entry_revoked(e: AclEntry, p: Seq<char>, r: Resource, a: Action) -> bool {
    &&& e.principal_id@ == p
    &&& same_resource(e.resource, r)
    &&& e.actions@.contains(a)
}

/// The entries of `s` that revoking `a` on `r` from `p` keeps, in order.
pub open spec fn after_revoke(s: Seq<AclEntry>, p: Seq<char>, r: Resource, a: Action) -> Seq<AclEntry>
    decreases s.len(),
{
    if s.len() == 0 {
        Seq::empty()
    } else if entry_revoked(s.last(), p, r, a) {
        after_revoke(s.drop_last(), p, r, a)
    } else {
        after_revoke(s.drop_last(), p, r, a).push(s.last())
    }
}

/// ACL manager for checking and granting permissions.
pub struct AclManager {
    entries: Vec<AclEntry>,
}

impl AclManager {
    /// The entries, in the order they were granted.
    pub closed spec fn view(&self) -> Seq<AclEntry> {
        self.entries@
    }

    pub fn new() -> (m: AclManager)
        ensures
            m@ == Seq::<AclEntry>::empty(),
    {
        AclManager { entries: Vec::new() }
    }

    pub fn grant(&mut self, entry: AclEntry)
        ensures
            final(self)@ == old(self)@.push(entry),
    {
        self.entries.push(entry);
    }

    /// Removes every entry of `principal_id` on `resource` whose actions
    /// include `action` (with all of that entry's actions).
    pub fn revoke(&mut self, principal_id: &str, resource: &Resource, action: Action)
        ensures
            final(self)@ == after_revoke(old(self)@, principal_id@, *resource, action),
    {
        let ghost s = self.entries@;
        let mut kept: Vec<AclEntry> = Vec::new();
        let mut old_entries: Vec<AclEntry> = Vec::new();
        std::mem::swap(&mut old_entries, &mut self.entries);
        let mut i: usize = 0;
        let mut rest = old_entries;
        let p = String::from_str(principal_id);
        let n = rest.len();
        assert(rest@ =~= s.subrange(0, s.len() as int));
        assert(s.len() == n);
        while rest.len() > 0
            invariant
                p@ == principal_id@,
                s.len() <= usize::MAX,
                i + rest@.len() == s.len(),
                rest@ == s.subrange(i as int, s.len() as int),
                kept@ == after_revoke(s.subrange(0, i as int), principal_id@, *resource, action),
            decreases rest.len(),
        {
            let e = rest.remove(0);
            proof {
                assert(e == s[i as int]);
                assert(rest@ =~= s.subrange(i + 1, s.len() as int));
                assert(s.subrange(0, i + 1).drop_last() =~= s.subrange(0, i as int));
            }
            let drop_it = e.principal_id == p && e.resource == *resource
                && contains_action(&e.actions, action);
            if !drop_it {
                kept.push(e);
            }
            i = i + 1;
        }
        assert(s.subrange(0, s.len() as int) =~= s);
        self.entries = kept;
    }

    /// Whether `principal_id` may perform `action` on `resource` at `now`.
    pub fn check_at(&self, principal_id: &str, action: Action, resource: &Resource, now: Timestamp) -> (b: bool)
        ensures
            b == acl_allows(self@, principal_id@, action, *resource, now),
    {
        let mut i: usize = 0;
        let p = String::from_str(principal_id);
        while i < self.entries.len()
            invariant
                i <= self.entries.len(),
                p@ == principal_id@,
                forall|j: int|
                    0 <= j < i ==> !entry_grants(
                        #[trigger] self.entries@[j],
                        principal_id@,
                        action,
                        *resource,
                        now,
                    ),
            decreases self.entries.len() - i,
        {
            let e = &self.entries[i];
            let live = match e.expires_at {
                None => true,
                Some(exp) => ts_less(&now, &exp),
            };
            if e.principal_id == p && contains_action(&e.actions, action)
                && e.resource == *resource && live {
                return true;
            }
            i = i + 1;
        }
        false
    }

    /// Whether `principal_id` may perform `action` on `resource` now.
    pub fn check(&self, principal_id: &str, action: Action, resource: &Resource) -> (b: bool)
        ensures
            exists|now: Timestamp| b == acl_allows(self@, principal_id@, action, *resource, now),
    {
        let now = utc_now();
        self.check_at(principal_id, action, resource, now)
    }

    /// Whether `principal_id` may perform any of `actions` on `resource` at
    /// `now`.
    pub fn check_any_at(&self, principal_id: &str, actions: &[Action], resource: &Resource, now: Timestamp) -> (b: bool)
        ensures
            b == acl_allows_any(self@, principal_id@, actions@, *resource, now),
    {
        let mut k: usize = 0;
        while k < actions.len()
            invariant
                k <= actions.len(),
                forall|j: int|
                    0 <= j < k ==> !acl_allows(
                        self@,
                        principal_id@,
                        #[trigger] actions@[j],
                        *resource,
                        now,
                    ),
            decreases actions.len() - k,
        {
            if self.check_at(principal_id, actions[k], resource, now) {
                return true;
            }
            k = k + 1;
        }
        false
    }

    /// Whether `principal_id` may perform any of `actions` on `resource` now.
    pub fn check_any(&self, principal_id: &str, actions: &[Action], resource: &Resource) -> (b: bool)
        ensures
            exists|now: Timestamp| b == acl_allows_any(self@, principal_id@, actions@, *resource, now),
    {
        let now = utc_now();
        self.check_any_at(principal_id, actions, resource, now)
    }
}

/// Every entry that revoking keeps comes from the list before it and is not
/// one that the revocation names; every entry it does not name is kept.
proof fn lemma_after_revoke_members(s: Seq<AclEntry>, p: Seq<char>, r: Resource, a: Action)
    ensures
        forall|j: int|
            0 <= j < after_revoke(s, p, r, a).len() ==> s.contains(
                #[trigger] after_revoke(s, p, r, a)[j],
            ) && !entry_revoked(after_revoke(s, p, r, a)[j], p, r, a),
        forall|i: int|
            0 <= i < s.len() && !entry_revoked(#[trigger] s[i], p, r, a) ==> after_revoke(
                s,
                p,
                r,
                a,
            ).contains(s[i]),
    decreases s.len(),
{
    if s.len() > 0 {
        let t = s.drop_last();
        lemma_after_revoke_members(t, p, r, a);
        let rt = after_revoke(t, p, r, a);
        let rs = after_revoke(s, p, r, a);
        assert forall|j: int| 0 <= j < rs.len() implies s.contains(#[trigger] rs[j])
            && !entry_revoked(rs[j], p, r, a) by {
            if j < rt.len() {
                assert(rs[j] == rt[j]);
                let k = choose|k: int| 0 <= k < t.len() && t[k] == rt[j];
                assert(s[k] == t[k]);
            } else {
                assert(rs[j] == s.last());
                assert(s[s.len() - 1] == s.last());
            }
        }
        assert forall|i: int| 0 <= i < s.len() && !entry_revoked(#[trigger] s[i], p, r, a)
            implies rs.contains(s[i]) by {
            if i < s.len() - 1 {
                assert(t[i] == s[i]);
                let k = choose|k: int| 0 <= k < rt.len() && rt[k] == t[i];
                if !entry_revoked(s.last(), p, r, a) {
                    assert(rs[k] == rt[k]);
                }
            } else {
                assert(rs[rs.len() - 1] == s.last());
            }
        }
    }
}

/// Granting an entry lets its principal perform each of its actions on
/// its resource for as long as the entry is in force.
pub proof fn lemma_grant_then_check(s: Seq<AclEntry>, e: AclEntry, a: Action, now: Timestamp)
    requires
        e.actions@.contains(a),
        entry_live(e, now),
    ensures
        acl_allows(s.push(e), e.principal_id@, a, e.resource, now),
{
    let t = s.push(e);
    assert(t[s.len() as int] == e);
    assert(entry_grants(t[s.len() as int], e.principal_id@, a, e.resource, now));
}

/// After revoking `a` on `r` from `p`, no entry grants it to `p` any more,
/// at any time.
pub proof fn lemma_revoke_denies(s: Seq<AclEntry>, p: Seq<char>, r: Resource, a: Action, now: Timestamp)
    ensures
        !acl_allows(after_revoke(s, p, r, a), p, a, r, now),
{
    lemma_after_revoke_members(s, p, r, a);
}

/// Revocation only takes grants away: whatever is allowed afterwards was
/// allowed before.
pub proof fn lemma_revoke_only_removes(
    s: Seq<AclEntry>,
    p: Seq<char>,
    r: Resource,
    a: Action,
    p2: Seq<char>,
    a2: Action,
    r2: Resource,
    now: Timestamp,
)
    requires
        acl_allows(after_revoke(s, p, r, a), p2, a2, r2, now),
    ensures
        acl_allows(s, p2, a2, r2, now),
{
    lemma_after_revoke_members(s, p, r, a);
    let rs = after_revoke(s, p, r, a);
    let j = choose|j: int| 0 <= j < rs.len() && entry_grants(#[trigger] rs[j], p2, a2, r2, now);
    assert(s.contains(rs[j]));
    let k = choose|k: int| 0 <= k < s.len() && s[k] == rs[j];
    assert(entry_grants(s[k], p2, a2, r2, now));
}

/// Revoking from one principal leaves every other principal's permissions
/// as they were.
pub proof fn lemma_revoke_other_principal(
    s: Seq<AclEntry>,
    p: Seq<char>,
    r: Resource,
    a: Action,
    p2: Seq<char>,
    a2: Action,
    r2: Resource,
    now: Timestamp,
)
    requires
        p2 != p,
    ensures
        acl_allows(after_revoke(s, p, r, a), p2, a2, r2, now) == acl_allows(s, p2, a2, r2, now),
{
    lemma_after_revoke_members(s, p, r, a);
    if acl_allows(after_revoke(s, p, r, a), p2, a2, r2, now) {
        lemma_revoke_only_removes(s, p, r, a, p2, a2, r2, now);
    }
    if acl_allows(s, p2, a2, r2, now) {
        let i = choose|i: int| 0 <= i < s.len() && entry_grants(#[trigger] s[i], p2, a2, r2, now);
        assert(!entry_revoked(s[i], p, r, a));
        let rs = after_revoke(s, p, r, a);
        assert(rs.contains(s[i]));
        let k = choose|k: int| 0 <= k < rs.len() && rs[k] == s[i];
        assert(entry_grants(rs[k], p2, a2, r2, now));
    }
}

/// An entry that has expired grants nothing: when every entry of the
/// principal on the resource has expired by `now`, nothing is allowed.
pub proof fn lemma_expired_grants_nothing(s: Seq<AclEntry>, p: Seq<char>, a: Action, r: Resource, now: Timestamp)
    requires
        forall|i: int|
            0 <= i < s.len() && (#[trigger] s[i]).principal_id@ == p && same_resource(s[i].resource, r)
                ==> !entry_live(s[i], now),
    ensures
        !acl_allows(s, p, a, r, now),
{
}

/// The items of `a + b` are those of `a` and those of `b`.
pub proof fn lemma_concat_to_set<T>(a: Seq<T>, b: Seq<T>)
    ensures
        (a + b).to_set() == a.to_set().union(b.to_set()),
{
    assert forall|x: T| #[trigger] (a + b).to_set().contains(x) <==> a.to_set().union(
        b.to_set(),
    ).contains(x) by {
        if (a + b).contains(x) {
            let k = choose|k: int| 0 <= k < (a + b).len() && (a + b)[k] == x;
            if k < a.len() {
                assert(a[k] == x);
            } else {
                assert(b[k - a.len()] == x);
            }
        }
        if a.contains(x) {
            let k = choose|k: int| 0 <= k < a.len() && a[k] == x;
            assert((a + b)[k] == x);
        }
        if b.contains(x) {
            let k = choose|k: int| 0 <= k < b.len() && b[k] == x;
            assert((a + b)[a.len() + k] == x);
        }
    }
    assert((a + b).to_set() =~= a.to_set().union(b.to_set()));
}

/// Actions granted per resource name; each name occurs once.
#[derive(Debug, Clone)]
pub struct ActionMap {
    entries: Vec<(String, Vec<Action>)>,
}

/// `m` with `acts` added to the actions of `k`.
pub open spec fn map_merge(m: Map<Seq<char>, Set<Action>>, k: Seq<char>, acts: Set<Action>) -> Map<
    Seq<char>,
    Set<Action>,
> {
    m.insert(k, if m.contains_key(k) { m[k].union(acts) } else { acts })
}

impl ActionMap {
    /// The actions of each name.
    pub closed spec fn view(&self) -> Map<Seq<char>, Set<Action>> {
        Map::new(
            |k: Seq<char>| exists|i: int| 0 <= i < self.entries@.len() && self.entries@[i].0@ == k,
            |k: Seq<char>|
                {
                    let i = choose|i: int| 0 <= i < self.entries@.len() && self.entries@[i].0@ == k;
                    self.entries@[i].1@.to_set()
                },
        )
    }

    /// Each name occurs once.
    pub closed spec fn wf(&self) -> bool {
        forall|i: int, j: int|
            0 <= i < self.entries@.len() && 0 <= j < self.entries@.len() && i != j
                ==> self.entries@[i].0@ != self.entries@[j].0@
    }

    pub fn new() -> (m: ActionMap)
        ensures
            m.wf(),
            m@ == Map::<Seq<char>, Set<Action>>::empty(),
    {
        let m = ActionMap { entries: Vec::new() };
        assert(m@ =~= Map::<Seq<char>, Set<Action>>::empty());
        m
    }

    /// The actions recorded for `name`, if any.
    pub fn get(&self, name: &str) -> (r: Option<&Vec<Action>>)
        requires
            self.wf(),
        ensures
            match r {
                Some(v) => self@.contains_key(name@) && self@[name@] == v@.to_set(),
                None => !self@.contains_key(name@),
            },
    {
        let key = String::from_str(name);
        let mut i: usize = 0;
        while i < self.entries.len()
            invariant
                i <= self.entries.len(),
                self.wf(),
                key@ == name@,
                forall|j: int| 0 <= j < i ==> self.entries@[j].0@ != name@,
            decreases self.entries.len() - i,
        {
            if self.entries[i].0 == key {
                proof {
                    let k = choose|k: int|
                        0 <= k < self.entries@.len() && self.entries@[k].0@ == name@;
                    assert(k == i);
                }
                return Some(&self.entries[i].1);
            }
            i = i + 1;
        }
        None
    }

    /// Adds `acts` to the actions of `key`.
    pub fn extend(&mut self, key: &String, acts: &Vec<Action>)
        requires
            old(self).wf(),
        ensures
            final(self).wf(),
            final(self)@ == map_merge(old(self)@, key@, acts@.to_set()),
    {
        let ghost k = key@;
        let ghost add = acts@.to_set();
        let mut i: usize = 0;
        while i < self.entries.len()
            invariant
                i <= self.entries.len(),
                self.entries@ == old(self).entries@,
                old(self).wf(),
                key@ == k,
                acts@.to_set() == add,
                forall|j: int| 0 <= j < i ==> self.entries@[j].0@ != k,
            decreases self.entries.len() - i,
        {
            if self.entries[i].0 == *key {
                let ghost pre = self.entries@;
                let mut merged: Vec<Action> = Vec::new();
                let mut j: usize = 0;
                while j < self.entries[i].1.len()
                    invariant
                        i < self.entries.len(),
                        self.entries@ == pre,
                        j <= self.entries@[i as int].1.len(),
                        merged@ == self.entries@[i as int].1@.subrange(0, j as int),
                    decreases self.entries@[i as int].1.len() - j,
                {
                    merged.push(self.entries[i].1[j]);
                    proof {
                        assert(merged@ =~= self.entries@[i as int].1@.subrange(0, j + 1));
                    }
                    j = j + 1;
                }
                let mut j: usize = 0;
                let ghost base = merged@;
                while j < acts.len()
                    invariant
                        j <= acts.len(),
                        merged@ == base + acts@.subrange(0, j as int),
                    decreases acts.len() - j,
                {
                    merged.push(acts[j]);
                    proof {
                        assert(merged@ =~= base + acts@.subrange(0, j + 1));
                    }
                    j = j + 1;
                }
                proof {
                    assert(base =~= pre[i as int].1@);
                    assert(acts@.subrange(0, acts.len() as int) =~= acts@);
                    lemma_concat_to_set(base, acts@);
                }
                let name = key.clone();
                self.entries.set(i, (name, merged));
                proof {
                    let post = self.entries@;
                    assert(pre[i as int].0@ == k);
                    assert(post[i as int].0@ == k);
                    assert forall|a: int, b: int|
                        0 <= a < post.len() && 0 <= b < post.len() && a != b implies post[a].0@
                        != post[b].0@ by {
                        if a != i && b != i {
                            assert(post[a] == pre[a] && post[b] == pre[b]);
                        } else if a == i {
                            assert(post[b] == pre[b]);
                            assert(pre[b].0@ != pre[i as int].0@);
                        } else {
                            assert(post[a] == pre[a]);
                            assert(pre[a].0@ != pre[i as int].0@);
                        }
                    }
                    assert(old(self)@.contains_key(k));
                    let ko = choose|x: int| 0 <= x < pre.len() && pre[x].0@ == k;
                    assert(ko == i);
                    assert forall|n: Seq<char>| #[trigger] self@.dom().contains(n)
                        <==> old(self)@.dom().contains(n) by {
                        if old(self)@.dom().contains(n) {
                            let x = choose|x: int| 0 <= x < pre.len() && pre[x].0@ == n;
                            if x != i {
                                assert(post[x] == pre[x]);
                            }
                        }
                        if self@.dom().contains(n) {
                            let x = choose|x: int| 0 <= x < post.len() && post[x].0@ == n;
                            if x != i {
                                assert(post[x] == pre[x]);
                            }
                        }
                    }
                    assert forall|n: Seq<char>| #[trigger] self@.dom().contains(n) implies self@[n]
                        == map_merge(old(self)@, k, add)[n] by {
                        let x = choose|x: int| 0 <= x < post.len() && post[x].0@ == n;
                        if n == k {
                            assert(x == i);
                        } else {
                            assert(x != i);
                            assert(post[x] == pre[x]);
                            let x0 = choose|x0: int| 0 <= x0 < pre.len() && pre[x0].0@ == n;
                            assert(x0 == x);
                        }
                    }
                    assert(self@.dom() =~= map_merge(old(self)@, k, add).dom());
                    assert(self@ =~= map_merge(old(self)@, k, add));
                }
                return;
            }
            i = i + 1;
        }
        let ghost pre = self.entries@;
        let mut fresh: Vec<Action> = Vec::new();
        let mut j: usize = 0;
        while j < acts.len()
            invariant
                j <= acts.len(),
                fresh@ == acts@.subrange(0, j as int),
            decreases acts.len() - j,
        {
            fresh.push(acts[j]);
            proof {
                assert(fresh@ =~= acts@.subrange(0, j + 1));
            }
            j = j + 1;
        }
        assert(fresh@ =~= acts@);
        let name = key.clone();
        self.entries.push((name, fresh));
        proof {
            let post = self.entries@;
            assert(post.len() == pre.len() + 1);
            assert(post[pre.len() as int].0@ == k);
            assert forall|a: int, b: int|
                0 <= a < post.len() && 0 <= b < post.len() && a != b implies post[a].0@
                != post[b].0@ by {
                if a < pre.len() && b < pre.len() {
                    assert(post[a] == pre[a] && post[b] == pre[b]);
                } else if a < pre.len() {
                    assert(post[a] == pre[a]);
                } else {
                    assert(post[b] == pre[b]);
                }
            }
            assert(!old(self)@.contains_key(k));
            assert forall|n: Seq<char>| #[trigger] self@.dom().contains(n)
                <==> map_merge(old(self)@, k, add).dom().contains(n) by {
                if old(self)@.dom().contains(n) {
                    let x = choose|x: int| 0 <= x < pre.len() && pre[x].0@ == n;
                    assert(post[x] == pre[x]);
                }
                if self@.dom().contains(n) && n != k {
                    let x = choose|x: int| 0 <= x < post.len() && post[x].0@ == n;
                    assert(x < pre.len());
                    assert(post[x] == pre[x]);
                }
            }
            assert forall|n: Seq<char>| #[trigger] self@.dom().contains(n) implies self@[n]
                == map_merge(old(self)@, k, add)[n] by {
                let x = choose|x: int| 0 <= x < post.len() && post[x].0@ == n;
                if n == k {
                    assert(x == pre.len());
                } else {
                    assert(x < pre.len());
                    assert(post[x] == pre[x]);
                    let x0 = choose|x0: int| 0 <= x0 < pre.len() && pre[x0].0@ == n;
                    assert(x0 == x);
                }
            }
            assert(self@.dom() =~= map_merge(old(self)@, k, add).dom());
            assert(self@ =~= map_merge(old(self)@, k, add));
        }
    }
}

/// Permission matrix for a principal: granted actions per table, vector
/// index, graph, schema and namespace name, on the cluster, and whether the
/// principal administers the system.
#[derive(Debug, Clone)]
pub struct Permission {
    pub table_perms: ActionMap,
    pub vector_perms: ActionMap,
    pub graph_perms: ActionMap,
    pub schema_perms: ActionMap,
    pub cluster_perms: Vec<Action>,
    pub namespace_perms: ActionMap,
    pub system_admin: bool,
}

/// The content of a permission matrix.
pub struct PermissionView {
    pub table: Map<Seq<char>, Set<Action>>,
    pub vector: Map<Seq<char>, Set<Action>>,
    pub graph: Map<Seq<char>, Set<Action>>,
    pub schema: Map<Seq<char>, Set<Action>>,
    pub cluster: Set<Action>,
    pub namespace: Map<Seq<char>, Set<Action>>,
    pub system_admin: bool,
}

pub open spec fn empty_permission() -> PermissionView {
    PermissionView {
        table: Map::empty(),
        vector: Map::empty(),
        graph: Map::empty(),
        schema: Map::empty(),
        cluster: Set::empty(),
        namespace: Map::empty(),
        system_admin: false,
    }
}

/// The matrix `v` with the grants of entry `e` added.
pub open spec fn add_entry(v: PermissionView, e: AclEntry) -> PermissionView {
    let acts = e.actions@.to_set();
    match e.resource {
        Resource::Table { name, .. } => PermissionView { table: map_merge(v.table, name@, acts), ..v },
        Resource::VectorIndex { name, .. } => PermissionView {
            vector: map_merge(v.vector, name@, acts),
            ..v
        },
        Resource::Graph { name, .. } => PermissionView { graph: map_merge(v.graph, name@, acts), ..v },
        Resource::Schema { name, .. } => PermissionView {
            schema: map_merge(v.schema, name@, acts),
            ..v
        },
        Resource::Cluster { .. } => PermissionView { cluster: v.cluster.union(acts), ..v },
        Resource::Namespace(ns) => PermissionView {
            namespace: map_merge(v.namespace, ns@, acts),
            ..v
        },
        Resource::System => PermissionView {
            system_admin: v.system_admin || e.actions@.contains(Action::Admin),
            ..v
        },
    }
}

/// The permission matrix of principal `p` at `now`: the grants of its
/// entries in force, in order.
pub open spec fn perm_summary(s: Seq<AclEntry>, p: Seq<char>, now: Timestamp) -> PermissionView
    decreases s.len(),
{
    if s.len() == 0 {
        empty_permission()
    } else {
        let prev = perm_summary(s.drop_last(), p, now);
        let e = s.last();
        if e.principal_id@ == p && entry_live(e, now) {
            add_entry(prev, e)
        } else {
            prev
        }
    }
}

/// Whether matrix `v` records action `a` on resource `r` (for the system
/// resource only administration is recorded).
pub open spec fn summary_covers(v: PermissionView, r: Resource, a: Action) -> bool {
    match r {
        Resource::Table { name, .. } => v.table.contains_key(name@) && v.table[name@].contains(a),
        Resource::VectorIndex { name, .. } => v.vector.contains_key(name@) && v.vector[name@].contains(
            a,
        ),
        Resource::Graph { name, .. } => v.graph.contains_key(name@) && v.graph[name@].contains(a),
        Resource::Schema { name, .. } => v.schema.contains_key(name@) && v.schema[name@].contains(a),
        Resource::Cluster { .. } => v.cluster.contains(a),
        Resource::Namespace(ns) => v.namespace.contains_key(ns@) && v.namespace[ns@].contains(a),
        Resource::System => a == Action::Admin ==> v.system_admin,
    }
}

impl Permission {
    pub closed spec fn view(&self) -> PermissionView {
        PermissionView {
            table: self.table_perms@,
            vector: self.vector_perms@,
            graph: self.graph_perms@,
            schema: self.schema_perms@,
            cluster: self.cluster_perms@.to_set(),
            namespace: self.namespace_perms@,
            system_admin: self.system_admin,
        }
    }

    /// Every name map has each name once.
    pub closed spec fn wf(&self) -> bool {
        &&& self.table_perms.wf()
        &&& self.vector_perms.wf()
        &&& self.graph_perms.wf()
        &&& self.schema_perms.wf()
        &&& self.namespace_perms.wf()
    }

    /// Adds the grants of `e`.
    fn add(&mut self, e: &AclEntry)
        requires
            old(self).wf(),
        ensures
            final(self).wf(),
            final(self)@ == add_entry(old(self)@, *e),
    {
        match &e.resource {
            Resource::Table { namespace: _, name } => self.table_perms.extend(name, &e.actions),
            Resource::VectorIndex { namespace: _, name } => self.vector_perms.extend(
                name,
                &e.actions,
            ),
            Resource::Graph { namespace: _, name } => self.graph_perms.extend(name, &e.actions),
            Resource::Schema { namespace: _, name } => self.schema_perms.extend(name, &e.actions),
            Resource::Cluster { .. } => {
                let ghost base = self.cluster_perms@;
                let mut j: usize = 0;
                while j < e.actions.len()
                    invariant
                        j <= e.actions.len(),
                        self.cluster_perms@ == base + e.actions@.subrange(0, j as int),
                        self.table_perms == old(self).table_perms,
                        self.vector_perms == old(self).vector_perms,
                        self.graph_perms == old(self).graph_perms,
                        self.schema_perms == old(self).schema_perms,
                        self.namespace_perms == old(self).namespace_perms,
                        self.system_admin == old(self).system_admin,
                        base == old(self).cluster_perms@,
                    decreases e.actions.len() - j,
                {
                    self.cluster_perms.push(e.actions[j]);
                    proof {
                        assert(self.cluster_perms@ =~= base + e.actions@.subrange(0, j + 1));
                    }
                    j = j + 1;
                }
                proof {
                    assert(e.actions@.subrange(0, e.actions.len() as int) =~= e.actions@);
                    lemma_concat_to_set(base, e.actions@);
                }
            },
            Resource::Namespace(ns) => self.namespace_perms.extend(ns, &e.actions),
            Resource::System => {
                if contains_action(&e.actions, Action::Admin) {
                    self.system_admin = true;
                }
            },
        }
    }
}

impl Default for Permission {
    fn default() -> (p: Permission)
        ensures
            p.wf(),
            p@ == empty_permission(),
    {
        let p = Permission {
            table_perms: ActionMap::new(),
            vector_perms: ActionMap::new(),
            graph_perms: ActionMap::new(),
            schema_perms: ActionMap::new(),
            cluster_perms: Vec::new(),
            namespace_perms: ActionMap::new(),
            system_admin: false,
        };
        assert(p.cluster_perms@.to_set() =~= Set::<Action>::empty());
        p
    }
}

/// Adding an entry never takes recorded actions away.
proof fn lemma_add_entry_keeps(v: PermissionView, e: AclEntry, r: Resource, a: Action)
    requires
        summary_covers(v, r, a),
    ensures
        summary_covers(add_entry(v, e), r, a),
{
}

/// Every action that the ACL allows a principal on a resource at `now` is
/// recorded in the principal's permission matrix at `now` (on the system
/// resource, administration).
pub proof fn lemma_summary_covers_allowed(s: Seq<AclEntry>, p: Seq<char>, a: Action, r: Resource, now: Timestamp)
    requires
        acl_allows(s, p, a, r, now),
    ensures
        summary_covers(perm_summary(s, p, now), r, a),
    decreases s.len(),
{
    let t = s.drop_last();
    let e = s.last();
    let i = choose|i: int| 0 <= i < s.len() && entry_grants(#[trigger] s[i], p, a, r, now);
    if i == s.len() - 1 {
        assert(e == s[i]);
        assert(e.actions@.to_set().contains(a));
    } else {
        assert(t[i] == s[i]);
        assert(acl_allows(t, p, a, r, now));
        lemma_summary_covers_allowed(t, p, a, r, now);
        if e.principal_id@ == p && entry_live(e, now) {
            lemma_add_entry_keeps(perm_summary(t, p, now), e, r, a);
        }
    }
}

impl AclManager {
    /// The permission matrix of `principal_id` at `now`.
    pub fn build_permissions_at(&self, principal_id: &str, now: Timestamp) -> (perm: Permission)
        ensures
            perm.wf(),
            perm@ == perm_summary(self@, principal_id@, now),
    {
        let mut perm = Permission::default();
        let p = String::from_str(principal_id);
        let mut i: usize = 0;
        while i < self.entries.len()
            invariant
                i <= self.entries.len(),
                p@ == principal_id@,
                perm.wf(),
                perm@ == perm_summary(self.entries@.subrange(0, i as int), principal_id@, now),
            decreases self.entries.len() - i,
        {
            let e = &self.entries[i];
            proof {
                assert(self.entries@.subrange(0, i + 1).drop_last() =~= self.entries@.subrange(
                    0,
                    i as int,
                ));
            }
            let live = match e.expires_at {
                None => true,
                Some(exp) => ts_less(&now, &exp),
            };
            if e.principal_id == p && live {
                perm.add(e);
            }
            i = i + 1;
        }
        assert(self.entries@.subrange(0, self.entries.len() as int) =~= self.entries@);
        perm
    }

    /// The permission matrix of `principal_id` now.
    pub fn build_permissions(&self, principal_id: &str) -> (perm: Permission)
        ensures
            perm.wf(),
            exists|now: Timestamp| perm@ == perm_summary(self@, principal_id@, now),
    {
        let now = utc_now();
        self.build_permissions_at(principal_id, now)
    }
}

impl Default for AclManager {
    fn default() -> (m: AclManager)
        ensures
            m@ == Seq::<AclEntry>::empty(),
    {
        AclManager::new()
    }
}

/// What a resource names: its kind, then its namespace (or node, or
/// namespace name) and its name, as text.
pub open spec fn resource_key(r: Resource) -> (int, Seq<char>, Seq<char>) {
    match r {
        Resource::Table { namespace, name } => (0, namespace@, name@),
        Resource::VectorIndex { namespace, name } => (1, namespace@, name@),
        Resource::Graph { namespace, name } => (2, namespace@, name@),
        Resource::Schema { namespace, name } => (3, namespace@, name@),
        Resource::Cluster { node_id } => (4, node_id@, Seq::empty()),
        Resource::Namespace(ns) => (5, ns@, Seq::empty()),
        Resource::System => (6, Seq::empty(), Seq::empty()),
    }
}

/// A permission is granted only by an entry on the very resource asked
/// about: of the principal, naming the action, in force, and on a resource
/// of the same kind with the same namespace and name (so a grant on one
/// namespace's table allows nothing on another namespace's table of the
/// same name).
pub proof fn lemma_allowed_only_by_same_resource(s: Seq<AclEntry>, p: Seq<char>, a: Action, r: Resource, now: Timestamp)
    requires
        acl_allows(s, p, a, r, now),
    ensures
        exists|i: int|
            0 <= i < s.len() && (#[trigger] s[i]).principal_id@ == p && s[i].actions@.contains(a)
                && entry_live(s[i], now) && resource_key(s[i].resource) == resource_key(r),
{
    let i = choose|i: int| 0 <= i < s.len() && entry_grants(#[trigger] s[i], p, a, r, now);
    let e = s[i];
    assert(same_resource(e.resource, r));
    assert(resource_key(e.resource) == resource_key(r));
}

/// The permission matrix marks system administration only when some entry
/// of the principal in force grants `Admin` on the system resource.
pub proof fn lemma_system_admin_needs_admin_grant(s: Seq<AclEntry>, p: Seq<char>, now: Timestamp)
    requires
        perm_summary(s, p, now).system_admin,
    ensures
        acl_allows(s, p, Action::Admin, Resource::System, now),
    decreases s.len(),
{
    let t = s.drop_last();
    let e = s.last();
    let last = s.len() - 1;
    assert(e == s[last]);
    if perm_summary(t, p, now).system_admin {
        lemma_system_admin_needs_admin_grant(t, p, now);
        let i = choose|i: int| 0 <= i < t.len() && entry_grants(#[trigger] t[i], p, Action::Admin, Resource::System, now);
        assert(s[i] == t[i]);
    } else {
        assert(e.principal_id@ == p && entry_live(e, now));
        match e.resource {
            Resource::System => {
                assert(e.actions@.contains(Action::Admin));
                assert(entry_grants(s[last], p, Action::Admin, Resource::System, now));
            },
            _ => {},
        }
    }
}

} // verus!
