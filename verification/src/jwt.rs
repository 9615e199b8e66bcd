//! JSON Web Token claims and the rules around them: expiry and refresh.
//! Signing and checking a token's signature is done by the caller with a
//! JWT implementation, from the configuration held here.

use vstd::prelude::*;
use crate::{hyphenated_text, uuid_version, random_uuid_value, uuid_text};
use crate::temporal::{utc_now, UTC_MAX_SECONDS};

verus! {

/// JWT claims for fabric authentication.
#[derive(Debug)]
pub struct Claims {
    /// The principal's identifier.
    pub sub: String,
    pub username: String,
    pub roles: Vec<String>,
    pub namespaces: Vec<String>,
    /// Issued at, in seconds since the epoch.
    pub iat: i64,
    /// Expires at, in seconds since the epoch.
    pub exp: i64,
    /// Token identifier.
    pub jti: String,
    /// Issuer.
    pub iss: String,
    /// Audience.
    pub aud: String,
    pub mfa_verified: bool,
}

/// The signing algorithms a token can use.
#[derive(Debug, Clone, Copy, PartialEq, Eq, Hash, Structural)]
pub enum Algorithm {
    HS256,
    HS384,
    HS512,
    ES256,
    ES384,
    RS256,
    RS384,
    RS512,
    PS256,
    PS384,
    PS512,
    EdDSA,
}

/// Configuration for JWT signing. Lifetimes are in seconds.
#[derive(Debug)]
pub struct JwtConfig {
    pub secret: String,
    pub issuer: String,
    pub audience: String,
    pub token_ttl: i64,
    pub refresh_ttl: i64,
    pub algorithm: Algorithm,
}

impl Default for JwtConfig {
    /// A development secret, issuer `cdf`, audience `cdf-api`, tokens that
    /// live one hour, refreshes that live seven days, and HMAC-SHA256.
    fn default() -> (c: JwtConfig)
        ensures
            c.secret@ == "change-me-in-production"@,
            c.issuer@ == "cdf"@,
            c.audience@ == "cdf-api"@,
            c.token_ttl == 3600,
            c.refresh_ttl == 604800,
            c.algorithm == Algorithm::HS256,
    {
        JwtConfig {
            secret: String::from_str("change-me-in-production"),
            issuer: String::from_str("cdf"),
            audience: String::from_str("cdf-api"),
            token_ttl: 3600,
            refresh_ttl: 604800,
            algorithm: Algorithm::HS256,
        }
    }
}

/// Checks token lifetimes and builds refreshed claims.
pub struct JwtVerifier {
    config: JwtConfig,
}

impl JwtVerifier {
    /// The configuration the verifier was made with.
    pub closed spec fn settings(&self) -> JwtConfig {
        self.config
    }

    pub fn new(config: JwtConfig) -> (v: JwtVerifier)
        ensures
            v.settings() == config,
    {
        JwtVerifier { config }
    }

    /// The configuration: secret, issuer, audience, lifetimes, algorithm.
    pub fn config(&self) -> (c: &JwtConfig)
        ensures
            *c == self.settings(),
    {
        &self.config
    }

    /// Whether the claims have expired at time `now` (seconds since the
    /// epoch): strictly after their expiry.
    pub fn is_expired_at(&self, claims: &Claims, now: i64) -> (r: bool)
        ensures
            r == (now > claims.exp),
    {
        now > claims.exp
    }

    /// Whether the claims have expired by the wall clock (read in seconds
    /// since the epoch, never before the epoch nor past the end of the
    /// calendar, `UTC_MAX_SECONDS`):
    /// claims that expired before the epoch always have, claims that expire
    /// at or after the end of that range never have.
    pub fn is_expired(&self, claims: &Claims) -> (r: bool)
        ensures
            claims.exp < 0 ==> r,
            claims.exp >= UTC_MAX_SECONDS ==> !r,
    {
        let now = utc_now();
        self.is_expired_at(claims, now.seconds)
    }

    /// The claims of a refreshed token: everything of `claims` but the
    /// times and the identifier, issued at `now` and expiring the token
    /// lifetime later, with identifier `jti`.
    pub fn refresh_claims_at(&self, claims: Claims, now: i64, jti: String) -> (r: Claims)
        requires
            i64::MIN <= now + self.settings().token_ttl <= i64::MAX,
        ensures
            r.iat == now,
            r.exp == now + self.settings().token_ttl,
            r.jti == jti,
            r.sub == claims.sub,
            r.username == claims.username,
            r.roles == claims.roles,
            r.namespaces == claims.namespaces,
            r.iss == claims.iss,
            r.aud == claims.aud,
            r.mfa_verified == claims.mfa_verified,
    {
        Claims { iat: now, exp: now + self.config.token_ttl, jti, ..claims }
    }

    /// The claims of a refreshed token, issued now by the wall clock, with
    /// a fresh random (version 4) identifier. `None` when the expiry would
    /// not fit in 64 bits, which cannot happen for a token lifetime of at
    /// most `i64::MAX - UTC_MAX_SECONDS` seconds (the clock reads between
    /// the epoch and the end of the calendar).
    pub fn refresh_claims(&self, claims: Claims) -> (r: Option<Claims>)
        ensures
            self.settings().token_ttl <= i64::MAX - UTC_MAX_SECONDS ==> r is Some,
            match r {
                Some(c) => {
                    &&& 0 <= c.iat <= UTC_MAX_SECONDS
                    &&& c.exp == c.iat + self.settings().token_ttl
                    &&& exists|v: u128| uuid_version(v) == 4 && c.jti@ == hyphenated_text(v)
                    &&& c.sub == claims.sub
                    &&& c.username == claims.username
                    &&& c.roles == claims.roles
                    &&& c.namespaces == claims.namespaces
                    &&& c.iss == claims.iss
                    &&& c.aud == claims.aud
                    &&& c.mfa_verified == claims.mfa_verified
                },
                None => true,
            },
    {
        let now = utc_now().seconds;
        match now.checked_add(self.config.token_ttl) {
            Some(_) => {
                let v = random_uuid_value();
                let jti = uuid_text(v);
                Some(self.refresh_claims_at(claims, now, jti))
            },
            None => None,
        }
    }
}

} // verus!
