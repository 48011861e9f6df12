//! The auth resolver.
//!
//! Inspects a request's `Authorization` header for the placeholder template
//! `Bearer {{<provider>}}`, decides — against the configuration and the
//! token cache — whether to pass the request through unchanged, rewrite the
//! header from a cached token, or fetch a fresh token first, and applies a
//! fetched token to the header and the cache. The network call itself is
//! made by the surrounding application between `resolve_auth` and
//! `admit_token`: this module holds every decision.
//!
//! Times are in milliseconds; a provider's `expires_in` is in seconds, so a
//! token fetched at `now` is valid until `now + expires_in * 1000`.

use vstd::prelude::*;
use vstd::utf8::is_ascii_chars;
use crate::ascii::str_eq;
use crate::cache::{TokenCache, Token, TokenModel, cache_lookup, cache_put, fresh};
use crate::config::{Config, ProviderConfigModel, provider_lookup};
use crate::headers::{Headers, lookup, put};

verus! {

/// What a successful provider call returns: the bearer credential and its
/// lifetime in seconds.
#[derive(Debug)]
pub struct AuthResponse {
    pub access_token: String,
    pub expires_in: u64,
}

pub ghost struct AuthResponseModel {
    pub access_token: Seq<char>,
    pub expires_in: u64,
}

impl View for AuthResponse {
    type V = AuthResponseModel;

    open spec fn view(&self) -> AuthResponseModel {
        AuthResponseModel { access_token: self.access_token@, expires_in: self.expires_in }
    }
}

pub open spec fn bearer_prefix() -> Seq<char> {
    seq!['B', 'e', 'a', 'r', 'e', 'r', ' ', '{', '{']
}

pub open spec fn template_suffix() -> Seq<char> {
    seq!['}', '}']
}

/// The provider identifier of a placeholder value: everything between the
/// literal prefix `Bearer {{` and the literal suffix `}}`. Any other shape
/// carries no identifier.
pub open spec fn template_id(v: Seq<char>) -> Option<Seq<char>> {
    if v.len() >= 11 && v.subrange(0, 9) == bearer_prefix() && v.subrange(
        v.len() - 2,
        v.len() as int,
    ) == template_suffix() {
        Some(v.subrange(9, v.len() - 2))
    } else {
        None
    }
}

/// The placeholder shape, characterized: a value carries the identifier
/// `id` exactly when it is the literal prefix, the identifier, and the
/// literal suffix in one piece — so detection never misreads a value, and
/// never misses one of that shape.
pub proof fn lemma_template_id_characterization(v: Seq<char>, id: Seq<char>)
    ensures
        template_id(v) == Some(id) <==> v == bearer_prefix() + id + template_suffix(),
{
    if template_id(v) == Some(id) {
        assert(id =~= v.subrange(9, v.len() - 2));
        assert forall|k: int| 0 <= k < v.len() implies #[trigger] v[k] == (bearer_prefix() + id
            + template_suffix())[k] by {
            if k < 9 {
                assert(v.subrange(0, 9)[k] == v[k]);
                assert(bearer_prefix()[k] == v[k]);
            } else if k < v.len() - 2 {
                assert(v.subrange(9, v.len() - 2)[k - 9] == v[k]);
            } else {
                assert(v.subrange(v.len() - 2, v.len() as int)[k - (v.len() - 2)] == v[k]);
                assert(template_suffix()[k - (v.len() - 2)] == v[k]);
            }
        }
        assert(v =~= bearer_prefix() + id + template_suffix());
    }
    if v == bearer_prefix() + id + template_suffix() {
        assert(v.len() == id.len() + 11);
        assert(v.subrange(0, 9) =~= bearer_prefix());
        assert(v.subrange(v.len() - 2, v.len() as int) =~= template_suffix());
        assert(v.subrange(9, v.len() - 2) =~= id);
    }
}

/// Extracts the provider identifier from an `Authorization` value of the
/// exact shape `Bearer {{<identifier>}}`; everything else yields `None`.
pub fn parse_auth_template(template: &str) -> (r: Option<String>)
    ensures
        match r {
            Some(id) => template_id(template@) == Some(id@),
            None => template_id(template@) is None,
        },
{
    let n = template.unicode_len();
    if n < 11 {
        return None;
    }
    proof {
        reveal_strlit("Bearer {{");
        reveal_strlit("}}");
        assert("Bearer {{"@ =~= bearer_prefix());
        assert("}}"@ =~= template_suffix());
    }
    let p = template.substring_char(0, 9);
    if !str_eq(p, "Bearer {{") {
        return None;
    }
    let sfx = template.substring_char(n - 2, n);
    if !str_eq(sfx, "}}") {
        return None;
    }
    let id = template.substring_char(9, n - 2);
    Some(String::from_str(id))
}

/// What the resolver decides for one request.
pub enum AuthDecision {
    /// No placeholder (or an unknown provider): forward unchanged.
    PassThrough,
    /// A fresh token was cached: rewrite the header with it.
    UseToken(String),
    /// A token must be fetched for this provider first.
    Fetch(String),
}

pub ghost enum AuthDecisionModel {
    PassThrough,
    UseToken(Seq<char>),
    Fetch(Seq<char>),
}

/// The resolver's decision: pass through when there is no `Authorization`
/// header, when its value is no placeholder, or when the named provider is
/// unknown; use the cached token while it is fresh; fetch otherwise.
pub open spec fn spec_resolve(
    hs: Seq<(Seq<char>, Seq<char>)>,
    providers: Seq<(Seq<char>, ProviderConfigModel)>,
    cache: Seq<(Seq<char>, TokenModel)>,
    now: u128,
) -> AuthDecisionModel {
    match lookup(hs, "authorization"@) {
        None => AuthDecisionModel::PassThrough,
        Some(v) => match template_id(v) {
            None => AuthDecisionModel::PassThrough,
            Some(id) => match provider_lookup(providers, id) {
                None => AuthDecisionModel::PassThrough,
                Some(_) => match cache_lookup(cache, id) {
                    Some(t) => if fresh(t, now) {
                        AuthDecisionModel::UseToken(t.access_token)
                    } else {
                        AuthDecisionModel::Fetch(id)
                    },
                    None => AuthDecisionModel::Fetch(id),
                },
            },
        },
    }
}

/// Decides what to do for the request whose headers these are.
pub fn resolve_auth(headers: &Headers, config: &Config, cache: &TokenCache, now: u128) -> (d:
    AuthDecision)
    requires
        headers.wf(),
        config.wf(),
        cache.wf(),
    ensures
        match d {
            AuthDecision::PassThrough => spec_resolve(headers@, config@.auth_providers, cache@, now)
                == AuthDecisionModel::PassThrough,
            AuthDecision::UseToken(t) => spec_resolve(headers@, config@.auth_providers, cache@, now)
                == AuthDecisionModel::UseToken(t@),
            AuthDecision::Fetch(id) => spec_resolve(headers@, config@.auth_providers, cache@, now)
                == AuthDecisionModel::Fetch(id@),
        },
{
    proof {
        reveal_strlit("authorization");
        assert(is_ascii_chars("authorization"@));
    }
    let value = match headers.get("authorization") {
        None => {
            return AuthDecision::PassThrough;
        },
        Some(v) => v,
    };
    let id = match parse_auth_template(value.as_str()) {
        None => {
            return AuthDecision::PassThrough;
        },
        Some(id) => id,
    };
    if config.get_provider(id.as_str()).is_none() {
        return AuthDecision::PassThrough;
    }
    match cache.lookup_fresh(id.as_str(), now) {
        Some(t) => AuthDecision::UseToken(t.access_token.clone()),
        None => AuthDecision::Fetch(id),
    }
}

/// Overwrites the `Authorization` value with `Bearer <token>`, leaving every
/// other header untouched (the stored header name keeps its case).
pub fn rewrite_authorization(headers: &mut Headers, token: &str)
    requires
        old(headers).wf(),
        token.is_ascii(),
    ensures
        final(headers).wf(),
        final(headers)@ == put(old(headers)@, "Authorization"@, "Bearer "@ + token@),
        lookup(final(headers)@, "authorization"@) == Some("Bearer "@ + token@),
{
    proof {
        reveal_strlit("Authorization");
        reveal_strlit("authorization");
        reveal_strlit("Bearer ");
        assert(is_ascii_chars("Authorization"@));
        assert(is_ascii_chars("Bearer "@));
    }
    let mut bearer = String::from_str("Bearer ");
    bearer.append(token);
    proof {
        assert forall|i: int| 0 <= i < bearer@.len() implies '\0' <= #[trigger] bearer@[i]
            <= '\u{7f}' by {
            if i < 7 {
                assert(bearer@[i] == "Bearer "@[i]);
            } else {
                assert(bearer@[i] == token@[i - 7]);
            }
        }
    }
    headers.set("Authorization", bearer.as_str());
    proof {
        crate::headers::lemma_put_wf(old(headers)@, "Authorization"@, bearer@);
        assert(crate::ascii::lower_chars("Authorization"@) =~= crate::ascii::lower_chars(
            "authorization"@,
        ));
        crate::headers::lemma_lookup_names_match(headers@, "authorization"@, "Authorization"@);
    }
}

/// Enters a fetched token into the cache: it is valid for `expires_in`
/// seconds from `now`.
pub fn admit_token(cache: &mut TokenCache, id: &str, auth: &AuthResponse, now: u128)
    requires
        old(cache).wf(),
        is_ascii_chars(auth@.access_token),
        now + auth.expires_in * 1000 <= u128::MAX,
    ensures
        final(cache).wf(),
        final(cache)@ == cache_put(
            old(cache)@,
            id@,
            TokenModel {
                access_token: auth@.access_token,
                valid_until: (now + auth.expires_in * 1000) as u128,
            },
        ),
{
    let valid_until: u128 = now + (auth.expires_in as u128) * 1000;
    cache.put(id, Token { access_token: auth.access_token.clone(), valid_until });
}

/// What one resolution step leaves for the application to do.
pub enum ResolveOutcome {
    /// The headers are ready to forward.
    Done,
    /// A token must be fetched for this provider, then applied with
    /// `admit_token` and `rewrite_authorization`.
    NeedsFetch(String),
}

/// Runs the resolver over the headers in place. A pass-through request
/// keeps its headers exactly as they were; a cache hit rewrites only the
/// `Authorization` value; a miss changes nothing and names the provider to
/// fetch for.
pub fn resolve_and_rewrite(headers: &mut Headers, config: &Config, cache: &TokenCache, now: u128)
    -> (r: ResolveOutcome)
    requires
        old(headers).wf(),
        config.wf(),
        cache.wf(),
    ensures
        final(headers).wf(),
        match spec_resolve(old(headers)@, config@.auth_providers, cache@, now) {
            AuthDecisionModel::PassThrough => final(headers)@ == old(headers)@ && r
                is Done,
            AuthDecisionModel::UseToken(tok) => final(headers)@ == put(
                old(headers)@,
                "Authorization"@,
                "Bearer "@ + tok,
            ) && r is Done,
            AuthDecisionModel::Fetch(id) => final(headers)@ == old(headers)@ && match r {
                ResolveOutcome::NeedsFetch(i) => i@ == id,
                ResolveOutcome::Done => false,
            },
        },
{
    match resolve_auth(headers, config, cache, now) {
        AuthDecision::PassThrough => ResolveOutcome::Done,
        AuthDecision::UseToken(tok) => {
            proof {
                assert(is_ascii_chars(tok@)) by {
                    match lookup(headers@, "authorization"@) {
                        Some(v) => match template_id(v) {
                            Some(id) => {
                                crate::cache::lemma_cache_lookup_ascii(cache@, id);
                            },
                            None => {},
                        },
                        None => {},
                    }
                }
            }
            rewrite_authorization(headers, tok.as_str());
            ResolveOutcome::Done
        },
        AuthDecision::Fetch(id) => ResolveOutcome::NeedsFetch(id),
    }
}

} // verus!
