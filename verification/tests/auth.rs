use cdf::acl::{AclEntry, AclManager, Action, Resource};
use cdf::jwt::{Algorithm, Claims, JwtConfig, JwtVerifier};
use cdf::principal::{BusinessHoursRule, PolicyRule, Principal};
use cdf::rbac::{Role, RoleManager};
use cdf::temporal::Timestamp;

fn docs() -> Resource {
    Resource::Table { namespace: "default".into(), name: "docs".into() }
}

fn entry(actions: Vec<Action>, expires_at: Option<Timestamp>) -> AclEntry {
    AclEntry {
        principal_id: "user1".to_string(),
        resource: docs(),
        actions,
        granted_by: "admin".into(),
        granted_at: Timestamp::now(),
        expires_at,
        conditions: None,
    }
}

#[test]
fn test_role_hierarchy() {
    assert!(Role::SuperAdmin.satisfies(&Role::Analyst));
    assert!(Role::Admin.satisfies(&Role::Developer));
    assert!(!Role::Analyst.satisfies(&Role::Developer));
}

#[test]
fn test_role_rank() {
    assert!(Role::SuperAdmin.rank() > Role::Admin.rank());
    assert!(Role::Admin.rank() > Role::Developer.rank());
}

#[test]
fn test_acl_grant_revoke() {
    let mut acl = AclManager::new();
    acl.grant(entry(vec![Action::Read, Action::Create], None));

    assert!(acl.check("user1", Action::Read, &docs()));
    assert!(!acl.check("user1", Action::Delete, &docs()));

    acl.revoke("user1", &docs(), Action::Read);
    assert!(!acl.check("user1", Action::Read, &docs()));
}

#[test]
fn test_expired_acl() {
    let mut acl = AclManager::new();
    let hour_ago = Timestamp::from_secs(Timestamp::now().seconds - 3600);
    acl.grant(entry(vec![Action::Read], Some(hour_ago)));
    assert!(!acl.check("user1", Action::Read, &docs()));
}

#[test]
fn test_principal_roles() {
    let p = Principal::new("alice", "alice@example.com").with_role(Role::Developer).with_role(Role::Admin);

    assert!(p.has_role(&[Role::Developer]));
    assert!(!p.is_super_admin());
}

#[test]
fn test_super_admin_bypass() {
    let p = Principal::new("root", "root@example.com").with_role(Role::SuperAdmin);

    assert!(p.is_super_admin());
    assert!(p.can_access_namespace("any-namespace"));
}

#[test]
fn test_business_hours_policy() {
    let rule = BusinessHoursRule::new(9, 18, "UTC");
    let p = Principal::new("test", "test@example.com");
    let action = Action::Read;
    let resource = Resource::Table { namespace: "default".into(), name: "test".into() };

    // The answer depends on the current UTC hour; it must be a decision.
    let result = rule.evaluate(&p, &action, &resource);
    assert!(result.is_some());
}

#[test]
fn business_hours_bounds() {
    let rule = BusinessHoursRule::new(9, 18, "UTC");
    assert!(!rule.allows_hour(8));
    assert!(rule.allows_hour(9));
    assert!(rule.allows_hour(17));
    assert!(!rule.allows_hour(18));
}

#[test]
fn grant_then_check_at_a_fixed_time() {
    let mut acl = AclManager::new();
    let mut e = entry(vec![Action::Read], Some(Timestamp::from_secs(2000)));
    e.granted_at = Timestamp::from_secs(1000);
    acl.grant(e);
    assert!(acl.check_at("user1", Action::Read, &docs(), Timestamp::from_secs(1500)));
    assert!(!acl.check_at("user1", Action::Read, &docs(), Timestamp::from_secs(2000)));
    assert!(!acl.check_at("user2", Action::Read, &docs(), Timestamp::from_secs(1500)));
    assert!(acl.check_any_at("user1", &[Action::Delete, Action::Read], &docs(), Timestamp::from_secs(1500)));
    assert!(!acl.check_any_at("user1", &[Action::Delete], &docs(), Timestamp::from_secs(1500)));
}

#[test]
fn revoke_removes_the_whole_entry() {
    let mut acl = AclManager::new();
    acl.grant(entry(vec![Action::Read, Action::Update], None));
    acl.grant(entry(vec![Action::Delete], None));
    acl.revoke("user1", &docs(), Action::Read);
    assert!(!acl.check("user1", Action::Read, &docs()));
    assert!(!acl.check("user1", Action::Update, &docs()));
    assert!(acl.check("user1", Action::Delete, &docs()));
}

#[test]
fn resource_namespaces() {
    assert_eq!(docs().namespace(), Some("default"));
    assert_eq!(Resource::System.namespace(), None);
    assert_eq!(Resource::Namespace("ns".into()).namespace(), Some("ns"));
}

#[test]
fn custom_roles_resolve_to_their_bases() {
    let mut rm = RoleManager::new();
    rm.add_custom_role("auditor".to_string(), vec![Role::Analyst, Role::Developer]);
    let resolved = rm.resolve_roles(&[Role::Developer]);
    assert!(resolved.contains(&Role::Developer));
    assert!(resolved.contains(&Role::Analyst));
    assert!(!resolved.contains(&Role::Admin));
}

#[test]
fn jwt_defaults() {
    let c = JwtConfig::default();
    assert_eq!(c.issuer, "cdf");
    assert_eq!(c.audience, "cdf-api");
    assert_eq!(c.token_ttl, 3600);
    assert_eq!(c.refresh_ttl, 7 * 24 * 3600);
    assert_eq!(c.algorithm, Algorithm::HS256);
}

fn claims(exp: i64) -> Claims {
    Claims {
        sub: "user1".into(),
        username: "alice".into(),
        roles: vec!["developer".into()],
        namespaces: vec!["default".into()],
        iat: 0,
        exp,
        jti: "old".into(),
        iss: "cdf".into(),
        aud: "cdf-api".into(),
        mfa_verified: false,
    }
}

#[test]
fn jwt_expiry() {
    let v = JwtVerifier::new(JwtConfig::default());
    assert!(v.is_expired_at(&claims(100), 101));
    assert!(!v.is_expired_at(&claims(100), 100));
    assert!(v.is_expired(&claims(Timestamp::now().seconds - 3600)));
    assert!(!v.is_expired(&claims(Timestamp::now().seconds + 3600)));
}

#[test]
fn jwt_refresh_moves_the_window() {
    let v = JwtVerifier::new(JwtConfig::default());
    let c = v.refresh_claims_at(claims(100), 5000, "new-id".to_string());
    assert_eq!(c.iat, 5000);
    assert_eq!(c.exp, 8600);
    assert_eq!(c.jti, "new-id");
    assert_eq!(c.username, "alice");
    let fresh = v.refresh_claims(claims(100)).unwrap();
    assert_eq!(fresh.exp - fresh.iat, 3600);
    assert_eq!(fresh.jti.len(), 36);
    assert_eq!(fresh.jti.as_bytes()[14], b'4');
}
