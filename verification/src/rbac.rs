//! Role-based access control: the built-in role hierarchy and custom
//! role definitions.

use vstd::prelude::*;
use crate::temporal::Timestamp;

verus! {

/// Built-in roles with hierarchical permissions.
#[derive(Debug, Clone, Copy, PartialEq, Eq, Hash, Structural)]
pub enum Role {
    /// Full system access: users, namespaces, clusters.
    SuperAdmin,
    /// Namespace management.
    Admin,
    /// Application developer: CRUD on tables, indexes.
    Developer,
    /// Read-only analyst.
    Analyst,
    /// Service account for service-to-service authentication.
    Service,
}

/// The rank of a role (higher means more permissions).
pub open spec fn role_rank(r: Role) -> nat {
    match r {
        Role::SuperAdmin => 100,
        Role::Admin => 80,
        Role::Developer => 60,
        Role::Analyst => 40,
        Role::Service => 20,
    }
}

/// The roles a role implies, itself first.
pub open spec fn implied(r: Role) -> Seq<Role> {
    match r {
        Role::SuperAdmin => seq![
            Role::SuperAdmin,
            Role::Admin,
            Role::Developer,
            Role::Analyst,
            Role::Service,
        ],
        Role::Admin => seq![Role::Admin, Role::Developer, Role::Analyst],
        Role::Developer => seq![Role::Developer, Role::Analyst],
        Role::Analyst => seq![Role::Analyst],
        Role::Service => seq![Role::Service],
    }
}

/// Whether a holder of `have` may act as `required`.
pub open spec fn role_satisfies(have: Role, required: Role) -> bool {
    implied(have).contains(required)
}

/// Every role implied by some role of `roles`.
pub open spec fn implied_by_any(roles: Seq<Role>) -> Set<Role> {
    Set::new(|r: Role| exists|i: int| 0 <= i < roles.len() && implied(roles[i]).contains(r))
}

impl Role {
    /// The rank of this role (higher means more permissions).
    pub fn rank(&self) -> (r: u8)
        ensures
            r == role_rank(*self),
    {
        match self {
            Role::SuperAdmin => 100,
            Role::Admin => 80,
            Role::Developer => 60,
            Role::Analyst => 40,
            Role::Service => 20,
        }
    }

    /// The roles this role implies (e.g. Admin implies Developer).
    pub fn implied_roles(&self) -> (v: Vec<Role>)
        ensures
            v@ == implied(*self),
    {
        match self {
            Role::SuperAdmin => vec![
                Role::SuperAdmin,
                Role::Admin,
                Role::Developer,
                Role::Analyst,
                Role::Service,
            ],
            Role::Admin => vec![Role::Admin, Role::Developer, Role::Analyst],
            Role::Developer => vec![Role::Developer, Role::Analyst],
            Role::Analyst => vec![Role::Analyst],
            Role::Service => vec![Role::Service],
        }
    }

    /// Whether this role satisfies a required role, following the hierarchy.
    pub fn satisfies(&self, required: &Role) -> (b: bool)
        ensures
            b == role_satisfies(*self, *required),
    {
        let implied_roles = self.implied_roles();
        contains_role(implied_roles.as_slice(), *required)
    }
}

/// Whether `r` occurs in `v`.
pub fn contains_role(v: &[Role], r: Role) -> (b: bool)
    ensures
        b == v@.contains(r),
{
    let mut i: usize = 0;
    while i < v.len()
        invariant
            i <= v.len(),
            forall|j: int| 0 <= j < i ==> v@[j] != r,
        decreases v.len() - i,
    {
        if v[i] == r {
            return true;
        }
        i = i + 1;
    }
    false
}

/// Every role satisfies itself.
pub proof fn lemma_satisfies_reflexive(r: Role)
    ensures
        role_satisfies(r, r),
{
    assert(implied(r)[0] == r);
}

/// The role hierarchy is transitive.
pub proof fn lemma_satisfies_transitive(a: Role, b: Role, c: Role)
    requires
        role_satisfies(a, b),
        role_satisfies(b, c),
    ensures
        role_satisfies(a, c),
{
    let ia = implied(a);
    let ib = implied(b);
    let k = choose|k: int| 0 <= k < ib.len() && ib[k] == c;
    match a {
        Role::SuperAdmin => {
            assert(ia[0] == Role::SuperAdmin && ia[1] == Role::Admin && ia[2] == Role::Developer
                && ia[3] == Role::Analyst && ia[4] == Role::Service);
            match c {
                Role::SuperAdmin => assert(ia[0] == c),
                Role::Admin => assert(ia[1] == c),
                Role::Developer => assert(ia[2] == c),
                Role::Analyst => assert(ia[3] == c),
                Role::Service => assert(ia[4] == c),
            }
        },
        _ => {
            let j = choose|j: int| 0 <= j < ia.len() && ia[j] == b;
            match a {
                Role::Admin => {
                    assert(ia[0] == Role::Admin && ia[1] == Role::Developer && ia[2]
                        == Role::Analyst);
                    match c {
                        Role::Admin => assert(ia[0] == c),
                        Role::Developer => assert(ia[1] == c),
                        Role::Analyst => assert(ia[2] == c),
                        _ => {},
                    }
                },
                Role::Developer => {
                    assert(ia[0] == Role::Developer && ia[1] == Role::Analyst);
                    match c {
                        Role::Developer => assert(ia[0] == c),
                        Role::Analyst => assert(ia[1] == c),
                        _ => {},
                    }
                },
                _ => {},
            }
        },
    }
}

/// A role never satisfies a role ranked above it.
pub proof fn lemma_satisfies_rank(have: Role, required: Role)
    requires
        role_satisfies(have, required),
    ensures
        role_rank(have) >= role_rank(required),
{
    let j = choose|j: int| 0 <= j < implied(have).len() && implied(have)[j] == required;
}

/// User record stored in the system.
#[derive(Debug, Clone)]
pub struct User {
    pub id: String,
    pub username: String,
    pub email: String,
    pub roles: Vec<Role>,
    pub namespaces: Vec<String>,
    pub api_keys: Vec<String>,
    pub created_at: Timestamp,
    pub password_hash: Option<String>,
}

/// Role manager for querying role hierarchies and custom role definitions.
pub struct RoleManager {
    custom_roles: Vec<(String, Vec<Role>)>,
}

impl RoleManager {
    /// The custom roles, by name.
    pub closed spec fn custom_view(&self) -> Map<Seq<char>, Seq<Role>> {
        Map::new(
            |n: Seq<char>| exists|i: int| 0 <= i < self.custom_roles@.len() && self.custom_roles@[i].0@ == n,
            |n: Seq<char>| {
                let i = choose|i: int| 0 <= i < self.custom_roles@.len() && self.custom_roles@[i].0@ == n;
                self.custom_roles@[i].1@
            },
        )
    }

    /// No name is defined twice.
    pub closed spec fn wf(&self) -> bool {
        forall|i: int, j: int|
            0 <= i < self.custom_roles@.len() && 0 <= j < self.custom_roles@.len() && i != j
                ==> self.custom_roles@[i].0@ != self.custom_roles@[j].0@
    }

    pub fn new() -> (m: RoleManager)
        ensures
            m.wf(),
            m.custom_view() == Map::<Seq<char>, Seq<Role>>::empty(),
    {
        let m = RoleManager { custom_roles: Vec::new() };
        assert(m.custom_view() =~= Map::<Seq<char>, Seq<Role>>::empty());
        m
    }

    /// Defines (or redefines) a custom role by its base roles.
    pub fn add_custom_role(&mut self, name: String, base_roles: Vec<Role>)
        requires
            old(self).wf(),
        ensures
            final(self).wf(),
            final(self).custom_view() == old(self).custom_view().insert(name@, base_roles@),
    {
        let ghost name_v = name@;
        let ghost roles_v = base_roles@;
        let mut i: usize = 0;
        while i < self.custom_roles.len()
            invariant
                i <= self.custom_roles.len(),
                self.custom_roles@ == old(self).custom_roles@,
                old(self).wf(),
                name@ == name_v,
                base_roles@ == roles_v,
                forall|j: int| 0 <= j < i ==> self.custom_roles@[j].0@ != name_v,
            decreases self.custom_roles.len() - i,
        {
            if self.custom_roles[i].0 == name {
                let ghost pre = self.custom_roles@;
                self.custom_roles.set(i, (name, base_roles));
                proof {
                    let post = self.custom_roles@;
                    assert forall|a: int, b: int|
                        0 <= a < post.len() && 0 <= b < post.len() && a != b implies post[a].0@
                        != post[b].0@ by {
                        assert(pre[i as int].0@ == name_v);
                        if a != i && b != i {
                            assert(post[a] == pre[a] && post[b] == pre[b]);
                        } else if a == i {
                            assert(post[b] == pre[b]);
                            assert(pre[b].0@ != pre[i as int].0@);
                        } else {
                            assert(post[a] == pre[a]);
                            assert(pre[a].0@ != pre[i as int].0@);
                        }
                    }
                    assert(pre[i as int].0@ == name_v);
                    assert(post[i as int].0@ == name_v);
                    assert forall|n: Seq<char>| #[trigger] self.custom_view().dom().contains(n)
                        <==> old(self).custom_view().dom().insert(name_v).contains(n) by {
                        if old(self).custom_view().dom().contains(n) {
                            let k = choose|k: int| 0 <= k < pre.len() && pre[k].0@ == n;
                            if k != i {
                                assert(post[k] == pre[k]);
                            }
                        }
                        if self.custom_view().dom().contains(n) {
                            let k = choose|k: int| 0 <= k < post.len() && post[k].0@ == n;
                            if k != i {
                                assert(post[k] == pre[k]);
                            }
                        }
                    }
                    assert(self.custom_view().dom() =~= old(self).custom_view().dom().insert(
                        name_v,
                    ));
                    assert forall|n: Seq<char>| #[trigger] self.custom_view().dom().contains(
                        n,
                    ) implies self.custom_view()[n] == old(self).custom_view().insert(
                        name_v,
                        roles_v,
                    )[n] by {
                        let k = choose|k: int|
                            0 <= k < post.len() && post[k].0@ == n;
                        if n == name_v {
                            assert(k == i);
                        } else {
                            assert(k != i);
                            assert(post[k] == pre[k]);
                            let k0 = choose|k0: int|
                                0 <= k0 < pre.len() && pre[k0].0@ == n;
                            assert(k0 == k);
                        }
                    }
                    assert(self.custom_view() =~= old(self).custom_view().insert(name_v, roles_v));
                }
                return;
            }
            i = i + 1;
        }
        let ghost pre = self.custom_roles@;
        self.custom_roles.push((name, base_roles));
        proof {
            let post = self.custom_roles@;
            assert(post.len() == pre.len() + 1);
            assert forall|a: int, b: int|
                0 <= a < post.len() && 0 <= b < post.len() && a != b implies post[a].0@
                != post[b].0@ by {
                if a < pre.len() && b < pre.len() {
                    assert(post[a] == pre[a] && post[b] == pre[b]);
                } else if a < pre.len() {
                    assert(post[a] == pre[a]);
                } else {
                    assert(post[b] == pre[b]);
                }
            }
            assert forall|n: Seq<char>| #[trigger] self.custom_view().dom().contains(n)
                <==> old(self).custom_view().insert(name_v, roles_v).dom().contains(n) by {
                if old(self).custom_view().dom().contains(n) {
                    let k = choose|k: int| 0 <= k < pre.len() && pre[k].0@ == n;
                    assert(post[k] == pre[k]);
                }
                if n == name_v {
                    assert(post[pre.len() as int].0@ == n);
                }
                if self.custom_view().dom().contains(n) && n != name_v {
                    let k = choose|k: int| 0 <= k < post.len() && post[k].0@ == n;
                    assert(k < pre.len());
                    assert(post[k] == pre[k]);
                }
            }
            assert(self.custom_view().dom() =~= old(self).custom_view().insert(name_v, roles_v).dom());
            assert forall|n: Seq<char>| #[trigger] self.custom_view().dom().contains(n) implies
                self.custom_view()[n] == old(self).custom_view().insert(name_v, roles_v)[n] by {
                let k = choose|k: int| 0 <= k < post.len() && post[k].0@ == n;
                if n == name_v {
                    assert(post[pre.len() as int].0@ == n);
                    assert(k == pre.len());
                } else {
                    assert(k < pre.len());
                    assert(post[k] == pre[k]);
                    let k0 = choose|k0: int| 0 <= k0 < pre.len() && pre[k0].0@ == n;
                    assert(k0 == k);
                }
            }
            assert(self.custom_view() =~= old(self).custom_view().insert(name_v, roles_v));
        }
    }

    /// Every role implied by any of `roles`, each listed once.
    pub fn resolve_roles(&self, roles: &[Role]) -> (out: Vec<Role>)
        ensures
            out@.no_duplicates(),
            out@.to_set() == implied_by_any(roles@),
    {
        let mut out: Vec<Role> = Vec::new();
        let mut i: usize = 0;
        while i < roles.len()
            invariant
                i <= roles.len(),
                out@.no_duplicates(),
                out@.to_set() == implied_by_any(roles@.subrange(0, i as int)),
            decreases roles.len() - i,
        {
            let implied_roles = roles[i].implied_roles();
            let mut j: usize = 0;
            let ghost before = out@;
            while j < implied_roles.len()
                invariant
                    i < roles.len(),
                    j <= implied_roles.len(),
                    implied_roles@ == implied(roles@[i as int]),
                    out@.no_duplicates(),
                    out@.to_set() == before.to_set().union(
                        implied_roles@.subrange(0, j as int).to_set(),
                    ),
                decreases implied_roles.len() - j,
            {
                let r = implied_roles[j];
                let ghost pre = out@;
                if !contains_role(out.as_slice(), r) {
                    out.push(r);
                    proof {
                        assert forall|a: int, b: int|
                            0 <= a < out@.len() && 0 <= b < out@.len() && a != b implies out@[a]
                            != out@[b] by {
                            if a < pre.len() && b < pre.len() {
                            } else if a < pre.len() {
                                assert(out@[a] == pre[a]);
                            } else {
                                assert(out@[b] == pre[b]);
                            }
                        }
                        assert(out@ == pre.push(r));
                    }
                }
                proof {
                    assert(implied_roles@.subrange(0, j + 1) =~= implied_roles@.subrange(
                        0,
                        j as int,
                    ).push(r));
                    broadcast use vstd::seq_lib::group_seq_properties;
                    assert(out@.to_set() =~= before.to_set().union(
                        implied_roles@.subrange(0, j + 1).to_set(),
                    )) by {
                        assert(pre.push(r).to_set() =~= pre.to_set().insert(r));
                        assert(implied_roles@.subrange(0, j as int).push(r).to_set()
                            =~= implied_roles@.subrange(0, j as int).to_set().insert(r));
                    }
                }
                j = j + 1;
            }
            proof {
                assert(implied_roles@.subrange(0, implied_roles.len() as int) =~= implied_roles@);
                let ri = roles@.subrange(0, i + 1);
                let rp = roles@.subrange(0, i as int);
                assert forall|r: Role| #[trigger] implied_by_any(ri).contains(r)
                    <==> implied_by_any(rp).contains(r) || implied(roles@[i as int]).contains(r) by {
                    if implied_by_any(ri).contains(r) {
                        let k = choose|k: int| 0 <= k < ri.len() && implied(ri[k]).contains(r);
                        if k < i {
                            assert(rp[k] == ri[k]);
                        }
                    }
                    if implied_by_any(rp).contains(r) {
                        let k = choose|k: int| 0 <= k < rp.len() && implied(rp[k]).contains(r);
                        assert(rp[k] == ri[k]);
                    }
                    if implied(roles@[i as int]).contains(r) {
                        assert(ri[i as int] == roles@[i as int]);
                    }
                }
                assert(implied_roles@.to_set() =~= Set::new(
                    |r: Role| implied(roles@[i as int]).contains(r),
                ));
                assert(out@.to_set() =~= implied_by_any(ri));
            }
            i = i + 1;
        }
        assert(roles@.subrange(0, roles.len() as int) =~= roles@);
        out
    }
}

impl Default for RoleManager {
    fn default() -> (m: RoleManager)
        ensures
            m.wf(),
            m.custom_view() == Map::<Seq<char>, Seq<Role>>::empty(),
    {
        RoleManager::new()
    }
}

/// The role hierarchy: a super-administrator may act as every role, an
/// administrator as a developer or an analyst, a developer as an analyst,
/// and every role as itself; nothing else.
pub proof fn lemma_role_hierarchy(have: Role, required: Role)
    ensures
        role_satisfies(have, required) <==> (have == required || have == Role::SuperAdmin || (have
            == Role::Admin && (required == Role::Developer || required == Role::Analyst)) || (have
            == Role::Developer && required == Role::Analyst)),
{
    let v = implied(have);
    match have {
        Role::SuperAdmin => {
            assert(v[0] == Role::SuperAdmin && v[1] == Role::Admin && v[2] == Role::Developer
                && v[3] == Role::Analyst && v[4] == Role::Service);
            match required {
                Role::SuperAdmin => assert(v[0] == required),
                Role::Admin => assert(v[1] == required),
                Role::Developer => assert(v[2] == required),
                Role::Analyst => assert(v[3] == required),
                Role::Service => assert(v[4] == required),
            }
        },
        Role::Admin => {
            assert(v[0] == Role::Admin && v[1] == Role::Developer && v[2] == Role::Analyst);
            match required {
                Role::Admin => assert(v[0] == required),
                Role::Developer => assert(v[1] == required),
                Role::Analyst => assert(v[2] == required),
                _ => {},
            }
        },
        Role::Developer => {
            assert(v[0] == Role::Developer && v[1] == Role::Analyst);
            match required {
                Role::Developer => assert(v[0] == required),
                Role::Analyst => assert(v[1] == required),
                _ => {},
            }
        },
        Role::Analyst => {
            assert(v[0] == Role::Analyst);
        },
        Role::Service => {
            assert(v[0] == Role::Service);
        },
    }
}

/// A super-administrator satisfies every role.
pub proof fn lemma_super_admin_satisfies_all(r: Role)
    ensures
        role_satisfies(Role::SuperAdmin, r),
{
    lemma_role_hierarchy(Role::SuperAdmin, r);
}

/// Ranks order the roles from most to least permission: super-administrator,
/// administrator, developer, analyst, service account; and a role that
/// satisfies another ranks at least as high.
pub proof fn lemma_rank_order(have: Role, required: Role)
    ensures
        role_rank(Role::SuperAdmin) > role_rank(Role::Admin) > role_rank(Role::Developer) > role_rank(
            Role::Analyst,
        ) > role_rank(Role::Service),
        role_satisfies(have, required) ==> role_rank(have) >= role_rank(required),
{
    lemma_role_hierarchy(have, required);
}

} // verus!
