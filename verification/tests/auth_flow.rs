use authproxy::auth::{
    admit_token, parse_auth_template, resolve_and_rewrite, rewrite_authorization, AuthResponse,
    ResolveOutcome,
};
use authproxy::cache::{Token, TokenCache};
use authproxy::config::{Config, ProviderConfig};
use authproxy::forward::build_target_url;
use authproxy::headers::Headers;
use authproxy::req::parse_request;
use authproxy::token::parse_token_response;

fn provider_config() -> ProviderConfig {
    ProviderConfig {
        method: String::from("POST"),
        url: String::from("http://provider/token"),
        headers: Headers::new(),
        body: String::from("grant_type=client_credentials"),
    }
}

#[test]
fn template_detection() {
    assert_eq!(parse_auth_template("Bearer {{x}}"), Some(String::from("x")));
    assert_eq!(parse_auth_template("Bearer abc123"), None);
    assert_eq!(parse_auth_template(""), None);
}

#[test]
fn template_detection_edges() {
    assert_eq!(parse_auth_template("Bearer {{}}"), Some(String::from("")));
    assert_eq!(parse_auth_template("Bearer {{svc}}"), Some(String::from("svc")));
    assert_eq!(parse_auth_template("Bearer {{svc}"), None);
    assert_eq!(parse_auth_template("bearer {{svc}}"), None);
    assert_eq!(parse_auth_template("Bearer {{"), None);
}

#[test]
fn cache_freshness() {
    let now: u128 = 1_000_000;
    let mut cache = TokenCache::new();
    cache.put(
        "svc",
        Token { access_token: String::from("tok"), valid_until: now + 1000 },
    );
    // Within the lifetime: a hit.
    assert!(cache.lookup_fresh("svc", now + 500).is_some());
    // Past the lifetime: treated as a miss even though the entry is present.
    assert!(cache.lookup_fresh("svc", now + 1500).is_none());
    assert!(cache.get("svc").is_some());
    // Expiry instant itself is already stale.
    assert!(cache.lookup_fresh("svc", now + 1000).is_none());
}

#[test]
fn cache_newest_write_wins() {
    let mut cache = TokenCache::new();
    cache.put("svc", Token { access_token: String::from("one"), valid_until: 10 });
    cache.put("svc", Token { access_token: String::from("two"), valid_until: 20 });
    let t = cache.get("svc").unwrap();
    assert_eq!(t.access_token, "two");
    assert_eq!(t.valid_until, 20);
}

#[test]
fn pass_through_without_authorization() {
    let mut config = Config::new(String::from("http://origin"));
    config.add_provider("svc", provider_config());
    let cache = TokenCache::new();
    let mut headers = Headers::new();
    headers.set("Host", "client");
    let outcome = resolve_and_rewrite(&mut headers, &config, &cache, 0);
    assert!(matches!(outcome, ResolveOutcome::Done));
    assert_eq!(headers.len(), 1);
    assert_eq!(headers.get("Host").unwrap(), "client");
}

#[test]
fn pass_through_with_plain_token() {
    let mut config = Config::new(String::from("http://origin"));
    config.add_provider("svc", provider_config());
    let cache = TokenCache::new();
    let mut headers = Headers::new();
    headers.set("Authorization", "Bearer abc123");
    let outcome = resolve_and_rewrite(&mut headers, &config, &cache, 0);
    assert!(matches!(outcome, ResolveOutcome::Done));
    assert_eq!(headers.get("Authorization").unwrap(), "Bearer abc123");
}

#[test]
fn pass_through_with_unknown_provider() {
    let config = Config::new(String::from("http://origin"));
    let cache = TokenCache::new();
    let mut headers = Headers::new();
    // The provider is not configured: the literal template stays in place.
    headers.set("Authorization", "Bearer {{nobody}}");
    let outcome = resolve_and_rewrite(&mut headers, &config, &cache, 0);
    assert!(matches!(outcome, ResolveOutcome::Done));
    assert_eq!(headers.get("Authorization").unwrap(), "Bearer {{nobody}}");
}

#[test]
fn rewrite_keeps_other_headers() {
    let mut headers = Headers::new();
    headers.set("Host", "client");
    headers.set("authorization", "Bearer {{svc}}");
    rewrite_authorization(&mut headers, "tok1");
    assert_eq!(headers.len(), 2);
    assert_eq!(headers.get("Host").unwrap(), "client");
    assert_eq!(headers.get("Authorization").unwrap(), "Bearer tok1");
    // The stored name keeps the case it was received in.
    assert_eq!(headers.name_at(1), "authorization");
}

#[test]
fn end_to_end_token_flow() {
    let mut config = Config::new(String::from("http://origin"));
    config.add_provider("svc", provider_config());
    let mut cache = TokenCache::new();
    let now: u128 = 1_700_000_000_000;

    // First request arrives with the placeholder.
    let req =
        parse_request(b"GET /api/data HTTP/1.1\r\nAuthorization: Bearer {{svc}}\r\n\r\n").unwrap();
    let mut headers = req.headers;
    let outcome = resolve_and_rewrite(&mut headers, &config, &cache, now);
    let id = match outcome {
        ResolveOutcome::NeedsFetch(id) => id,
        ResolveOutcome::Done => panic!("a token fetch was expected"),
    };
    assert_eq!(id, "svc");
    let pc = config.get_provider(&id).unwrap();
    assert_eq!(pc.url, "http://provider/token");
    assert_eq!(pc.method, "POST");
    assert_eq!(pc.body, "grant_type=client_credentials");

    // The provider answers; the token is cached and the header rewritten.
    let auth = parse_token_response(b"{\"access_token\":\"tok1\",\"expires_in\":60}").unwrap();
    assert_eq!(auth.access_token, "tok1");
    assert_eq!(auth.expires_in, 60);
    admit_token(&mut cache, &id, &auth, now);
    rewrite_authorization(&mut headers, &auth.access_token);
    assert_eq!(headers.get("Authorization").unwrap(), "Bearer tok1");
    assert_eq!(
        build_target_url("http://origin", &req.path),
        "http://origin/api/data"
    );

    // A second request within 60 seconds reuses the cached token: no fetch.
    let req2 =
        parse_request(b"GET /api/data HTTP/1.1\r\nAuthorization: Bearer {{svc}}\r\n\r\n").unwrap();
    let mut headers2 = req2.headers;
    let outcome2 = resolve_and_rewrite(&mut headers2, &config, &cache, now + 30_000);
    assert!(matches!(outcome2, ResolveOutcome::Done));
    assert_eq!(headers2.get("Authorization").unwrap(), "Bearer tok1");

    // After 60 seconds the cached token is stale: a third request fetches.
    let req3 =
        parse_request(b"GET /api/data HTTP/1.1\r\nAuthorization: Bearer {{svc}}\r\n\r\n").unwrap();
    let mut headers3 = req3.headers;
    let outcome3 = resolve_and_rewrite(&mut headers3, &config, &cache, now + 61_000);
    match outcome3 {
        ResolveOutcome::NeedsFetch(id3) => assert_eq!(id3, "svc"),
        ResolveOutcome::Done => panic!("a fresh fetch was expected"),
    }
    assert_eq!(headers3.get("Authorization").unwrap(), "Bearer {{svc}}");
}

#[test]
fn admit_token_lifetime_is_in_seconds() {
    let mut cache = TokenCache::new();
    let auth = AuthResponse { access_token: String::from("t"), expires_in: 60 };
    admit_token(&mut cache, "svc", &auth, 1_000);
    let tok = cache.get("svc").unwrap();
    assert_eq!(tok.valid_until, 1_000 + 60_000);
}
