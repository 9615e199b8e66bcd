//! Authenticated principals, credentials, audit records and the custom
//! policy engine.

use vstd::prelude::*;
use crate::FabricId;
use crate::acl::{Action, Resource};
use crate::keyed::StringMap;
use crate::rbac::{Role, contains_role};
use crate::temporal::{Timestamp, utc_now};

verus! {

/// Whether `s` occurs in `v`, by content.
pub fn contains_text(v: &[String], s: &str) -> (b: bool)
    ensures
        b == exists|i: int| 0 <= i < v@.len() && (#[trigger] v@[i])@ == s@,
{
    let t = String::from_str(s);
    let mut i: usize = 0;
    while i < v.len()
        invariant
            i <= v.len(),
            t@ == s@,
            forall|j: int| 0 <= j < i ==> (#[trigger] v@[j])@ != s@,
        decreases v.len() - i,
    {
        if v[i] == t {
            return true;
        }
        i = i + 1;
    }
    false
}

/// Some string of `v` has the text `s`.
pub open spec fn has_text(v: Seq<String>, s: Seq<char>) -> bool {
    exists|i: int| 0 <= i < v.len() && (#[trigger] v[i])@ == s
}

/// An authenticated entity.
#[derive(Debug, Clone)]
pub struct Principal {
    pub id: FabricId,
    pub username: String,
    pub email: String,
    pub roles: Vec<Role>,
    pub namespaces: Vec<String>,
    pub metadata: StringMap,
    pub created_at: Timestamp,
    pub last_login: Option<Timestamp>,
    pub disabled: bool,
    pub mfa_enabled: bool,
}

/// Whether `p` holds one of `required`.
pub open spec fn holds_any(roles: Seq<Role>, required: Seq<Role>) -> bool {
    exists|i: int| 0 <= i < roles.len() && required.contains(#[trigger] roles[i])
}

impl Principal {
    /// A new enabled principal with the analyst role in the default
    /// namespace, created now with a fresh identifier.
    pub fn new(username: &str, email: &str) -> (p: Principal)
        ensures
            p.username@ == username@,
            p.email@ == email@,
            p.roles@ == seq![Role::Analyst],
            p.namespaces@.len() == 1,
            p.namespaces@[0]@ == "default"@,
            p.metadata.wf(),
            p.metadata@ == Map::<Seq<char>, Seq<char>>::empty(),
            p.last_login.is_none(),
            !p.disabled,
            !p.mfa_enabled,
            crate::uuid_version(p.id.0) == 4,
    {
        Principal {
            id: FabricId::new(),
            username: String::from_str(username),
            email: String::from_str(email),
            roles: vec![Role::Analyst],
            namespaces: vec![String::from_str("default")],
            metadata: StringMap::new(),
            created_at: utc_now(),
            last_login: None,
            disabled: false,
            mfa_enabled: false,
        }
    }

    /// The principal with `role` added (unless already held).
    pub fn with_role(self, role: Role) -> (p: Principal)
        ensures
            p.roles@ == if self.roles@.contains(role) {
                self.roles@
            } else {
                self.roles@.push(role)
            },
            p.namespaces@ == self.namespaces@,
            p.username == self.username,
            p.id == self.id,
    {
        let mut p = self;
        if !contains_role(p.roles.as_slice(), role) {
            p.roles.push(role);
        }
        p
    }

    /// The principal with namespace `ns` added (unless already present).
    pub fn with_namespace(self, ns: &str) -> (p: Principal)
        ensures
            has_text(self.namespaces@, ns@) ==> p.namespaces@ == self.namespaces@,
            !has_text(self.namespaces@, ns@) ==> p.namespaces@.len() == self.namespaces@.len() + 1
                && p.namespaces@.drop_last() == self.namespaces@ && p.namespaces@.last()@ == ns@,
            p.roles@ == self.roles@,
            p.username == self.username,
            p.id == self.id,
    {
        let mut p = self;
        if !contains_text(p.namespaces.as_slice(), ns) {
            p.namespaces.push(String::from_str(ns));
            assert(p.namespaces@.drop_last() =~= self.namespaces@);
        }
        p
    }

    /// Whether the principal holds any of the given roles.
    pub fn has_role(&self, required: &[Role]) -> (b: bool)
        ensures
            b == holds_any(self.roles@, required@),
    {
        let mut i: usize = 0;
        while i < self.roles.len()
            invariant
                i <= self.roles.len(),
                forall|j: int| 0 <= j < i ==> !required@.contains(#[trigger] self.roles@[j]),
            decreases self.roles.len() - i,
        {
            if contains_role(required, self.roles[i]) {
                return true;
            }
            i = i + 1;
        }
        false
    }

    /// SuperAdmin bypasses all access checks.
    pub fn is_super_admin(&self) -> (b: bool)
        ensures
            b == self.roles@.contains(Role::SuperAdmin),
    {
        contains_role(self.roles.as_slice(), Role::SuperAdmin)
    }

    /// Whether the principal may work in namespace `namespace`.
    pub fn can_access_namespace(&self, namespace: &str) -> (b: bool)
        ensures
            b == (self.roles@.contains(Role::SuperAdmin) || has_text(self.namespaces@, namespace@)),
    {
        self.is_super_admin() || contains_text(self.namespaces.as_slice(), namespace)
    }
}

/// A principal holding the super-administrator role may access every
/// namespace.
pub proof fn lemma_super_admin_any_namespace(roles: Seq<Role>, namespaces: Seq<String>, ns: Seq<char>)
    requires
        roles.contains(Role::SuperAdmin),
    ensures
        roles.contains(Role::SuperAdmin) || has_text(namespaces, ns),
{
}

/// After adding a role, the principal holds it.
pub proof fn lemma_with_role_holds(roles: Seq<Role>, role: Role)
    ensures
        holds_any(
            if roles.contains(role) {
                roles
            } else {
                roles.push(role)
            },
            seq![role],
        ),
{
    if roles.contains(role) {
        let i = choose|i: int| 0 <= i < roles.len() && roles[i] == role;
        assert(seq![role][0] == role);
        assert(seq![role].contains(roles[i]));
    } else {
        let r2 = roles.push(role);
        assert(r2[roles.len() as int] == role);
        assert(seq![role][0] == role);
        assert(seq![role].contains(r2[roles.len() as int]));
    }
}

/// Credential for password-based authentication.
#[derive(Debug, Clone)]
pub struct Credential {
    pub principal_id: FabricId,
    pub password_hash: String,
    pub salt: String,
    pub failed_attempts: u32,
    pub locked_until: Option<Timestamp>,
}

/// Audit log entry for security events.
#[derive(Debug, Clone)]
pub struct AuditEntry {
    pub id: FabricId,
    pub timestamp: Timestamp,
    pub principal_id: FabricId,
    pub action: String,
    pub resource: String,
    pub allowed: bool,
    pub ip_address: String,
    pub user_agent: String,
    pub reason: Option<String>,
}

/// A custom policy rule (time-based, IP-based, ...). `None` means the rule
/// does not apply.
pub trait PolicyRule: Send + Sync {
    /// The answers the rule may give for a request: `d` is one of them.
    /// A rule that depends on nothing but the request allows one answer; a
    /// rule that reads the clock or the environment may allow several.
    spec fn answers(&self, principal: Principal, action: Action, resource: Resource, d: Option<bool>) -> bool;

    fn evaluate(&self, principal: &Principal, action: &Action, resource: &Resource) -> (d: Option<bool>)
        ensures
            self.answers(*principal, *action, *resource, d),
    ;
}

/// The decision of a rule list whose answers are `ds`: the first rule that
/// applies decides; when none applies, access is allowed.
pub open spec fn first_decision(ds: Seq<Option<bool>>) -> bool
    decreases ds.len(),
{
    if ds.len() == 0 {
        true
    } else {
        match ds[0] {
            Some(d) => d,
            None => first_decision(ds.drop_first()),
        }
    }
}

/// The decision for rule answers `decisions`: the first that applies wins,
/// and access is allowed when none does.
pub fn decide(decisions: &[Option<bool>]) -> (b: bool)
    ensures
        b == first_decision(decisions@),
    decreases decisions.len(),
{
    let mut i: usize = 0;
    assert(decisions@.subrange(0, decisions@.len() as int) =~= decisions@);
    while i < decisions.len()
        invariant
            i <= decisions.len(),
            first_decision(decisions@.subrange(i as int, decisions@.len() as int)) == first_decision(
                decisions@,
            ),
        decreases decisions.len() - i,
    {
        assert(decisions@.subrange(i as int, decisions@.len() as int).drop_first()
            =~= decisions@.subrange(i + 1, decisions@.len() as int));
        match decisions[i] {
            Some(d) => {
                return d;
            },
            None => {},
        }
        i = i + 1;
    }
    true
}

/// Policy engine for custom rules.
pub struct PolicyEngine {
    custom_rules: Vec<Box<dyn PolicyRule>>,
}

impl PolicyEngine {
    /// The rules, in the order they are asked.
    pub closed spec fn rules(&self) -> Seq<Box<dyn PolicyRule>> {
        self.custom_rules@
    }

    /// The number of rules.
    pub closed spec fn rule_count(&self) -> nat {
        self.custom_rules@.len()
    }

    pub fn new() -> (e: PolicyEngine)
        ensures
            e.rule_count() == 0,
    {
        PolicyEngine { custom_rules: Vec::new() }
    }

    /// Appends a rule; it is asked after the rules added before it.
    pub fn add_rule(&mut self, rule: Box<dyn PolicyRule>)
        ensures
            final(self).rules() == old(self).rules().push(rule),
    {
        self.custom_rules.push(rule);
    }

    /// Asks the rules in order, each with the same principal, action and
    /// resource, and stops at the first that applies; that rule decides,
    /// and access is allowed when none applies.
    pub fn evaluate(&self, principal: &Principal, action: &Action, resource: &Resource) -> (b: bool)
        ensures
            self.rule_count() == 0 ==> b,
            exists|ds: Seq<Option<bool>>|
                {
                    &&& asked_in_order(ds, self.rule_count())
                    &&& b == first_decision(ds)
                    &&& forall|i: int|
                        0 <= i < ds.len() ==> (#[trigger] self.rules()[i]).answers(
                            *principal,
                            *action,
                            *resource,
                            ds[i],
                        )
                },
    {
        let mut answers: Vec<Option<bool>> = Vec::new();
        let mut i: usize = 0;
        let mut decided = false;
        while i < self.custom_rules.len() && !decided
            invariant
                i <= self.custom_rules.len(),
                answers@.len() == i,
                forall|j: int| 0 <= j < i ==> (#[trigger] self.custom_rules@[j]).answers(
                    *principal,
                    *action,
                    *resource,
                    answers@[j],
                ),
                forall|j: int| 0 <= j < i - 1 ==> (#[trigger] answers@[j]) is None,
                !decided ==> forall|j: int| 0 <= j < i ==> (#[trigger] answers@[j]) is None,
                decided ==> i > 0 && answers@.last() is Some,
            decreases self.custom_rules.len() - i,
        {
            let answer = self.custom_rules[i].evaluate(principal, action, resource);
            answers.push(answer);
            if answer.is_some() {
                decided = true;
            }
            i = i + 1;
        }
        proof {
            let n = self.rule_count();
            assert(asked_in_order(answers@, n));
        }
        decide(answers.as_slice())
    }
}

/// The answers of the rules asked: the first ones in order, all abstaining
/// but perhaps the last; fewer than all only when the last one decided.
pub open spec fn asked_in_order(ds: Seq<Option<bool>>, n: nat) -> bool {
    &&& ds.len() <= n
    &&& forall|j: int| 0 <= j < ds.len() - 1 ==> (#[trigger] ds[j]) is None
    &&& ds.len() < n ==> ds.len() > 0 && ds.last() is Some
}

/// Rule answers that all abstain, followed by a decision, decide it.
pub proof fn lemma_first_decision_after_none(ds: Seq<Option<bool>>, d: bool)
    requires
        forall|j: int| 0 <= j < ds.len() ==> ds[j] is None,
    ensures
        first_decision(ds.push(Some(d))) == d,
    decreases ds.len(),
{
    if ds.len() > 0 {
        assert(ds.push(Some(d)).drop_first() =~= ds.drop_first().push(Some(d)));
        lemma_first_decision_after_none(ds.drop_first(), d);
    }
}

/// When every rule abstains, access is allowed.
pub proof fn lemma_first_decision_all_none(ds: Seq<Option<bool>>)
    requires
        forall|j: int| 0 <= j < ds.len() ==> ds[j] is None,
    ensures
        first_decision(ds),
    decreases ds.len(),
{
    if ds.len() > 0 {
        lemma_first_decision_all_none(ds.drop_first());
    }
}

/// The hour of the day of a UTC reading in seconds since the epoch: the
/// seconds past midnight, in whole hours.
pub open spec fn hour_of(seconds: int) -> int {
    (seconds % 86400) / 3600
}

/// The current hour of the day in UTC, by the wall clock.
fn utc_hour() -> (h: u32)
    ensures
        h < 24,
        exists|t: int| 0 <= t && h == hour_of(t),
{
    let t = utc_now();
    let h = ((t.seconds % 86400) / 3600) as u32;
    assert(h == hour_of(t.seconds as int));
    h
}

/// Whether hour `h` lies in `[start, end)`.
pub open spec fn in_hours(start: u32, end: u32, h: u32) -> bool {
    start <= h && h < end
}

/// Time-based policy: deny access outside business hours.
#[derive(Debug, Clone)]
pub struct BusinessHoursRule {
    start_hour: u32,
    end_hour: u32,
    timezone: String,
}

impl BusinessHoursRule {
    /// The first hour of business (inclusive).
    pub closed spec fn start(&self) -> u32 {
        self.start_hour
    }

    /// The end of business (exclusive).
    pub closed spec fn end(&self) -> u32 {
        self.end_hour
    }

    pub fn new(start_hour: u32, end_hour: u32, timezone: &str) -> (r: BusinessHoursRule)
        ensures
            r.start() == start_hour,
            r.end() == end_hour,
    {
        BusinessHoursRule { start_hour, end_hour, timezone: String::from_str(timezone) }
    }

    /// Whether access at hour `hour` of the day (UTC) is within business
    /// hours.
    pub fn allows_hour(&self, hour: u32) -> (b: bool)
        ensures
            b == (self.start() <= hour && hour < self.end()),
    {
        hour >= self.start_hour && hour < self.end_hour
    }
}

impl PolicyRule for BusinessHoursRule {
    /// Within business hours or not, by the hour of the day in UTC.
    open spec fn answers(&self, principal: Principal, action: Action, resource: Resource, d: Option<bool>) -> bool {
        exists|h: u32| h < 24 && d == Some(#[trigger] in_hours(self.start(), self.end(), h))
    }

    fn evaluate(&self, principal: &Principal, action: &Action, resource: &Resource) -> (r: Option<
        bool,
    >)
        ensures
            exists|h: u32| h < 24 && r == Some(#[trigger] in_hours(self.start(), self.end(), h)),
    {
        let hour = utc_hour();
        let r = Some(self.allows_hour(hour));
        assert(r == Some(in_hours(self.start(), self.end(), hour)));
        r
    }
}

} // verus!
