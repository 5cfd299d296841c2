use jellespelletjes_api::auth::{logout_scope, LogoutScope};
use jellespelletjes_api::auth::{login_link, magic_link_text};
use jellespelletjes_api::auth::{
    bearer_token, client_ip, hash_token, hex, new_token, normalize_email, sso_origin,
    token_from_bytes, RateLimiter, SsoError,
};

#[test]
fn hex_is_lower_case_two_digits_per_byte() {
    assert_eq!(hex(&[0x00, 0x0f, 0xa0, 0xff]), "000fa0ff");
    assert_eq!(hex(&[]), "");
}

#[test]
fn token_hash_is_sha256_of_the_text() {
    assert_eq!(
        hex(&hash_token("abc")),
        "ba7816bf8f01cfea414140de5dae2223b00361a396177a9cb410ff61f20015ad"
    );
    let (raw, hash) = token_from_bytes(&[0u8; 32]);
    assert_eq!(raw, "0".repeat(64));
    assert_eq!(hex(&hash), "60e05bd1b195af2f94112fa7197a5c88289058840ce7c6df9693756bc6250f55");
}

#[test]
fn fresh_tokens() {
    let (raw, hash) = new_token();
    assert_eq!(raw.len(), 64);
    assert!(raw.chars().all(|c| c.is_ascii_hexdigit() && !c.is_ascii_uppercase()));
    assert_eq!(hash, hash_token(&raw));
    let (other, _) = new_token();
    assert_ne!(raw, other);
}

#[test]
fn bearer_header() {
    assert_eq!(bearer_token("Bearer abc123"), Some("abc123"));
    assert_eq!(bearer_token("Bearer "), Some(""));
    assert_eq!(bearer_token("bearer abc"), None);
    assert_eq!(bearer_token("Basic xyz"), None);
    assert_eq!(bearer_token("Bear"), None);
}

#[test]
fn rate_limiter_window() {
    let mut limiter = RateLimiter::new();
    let s: u128 = 1_000_000_000;
    assert!(limiter.allow_at("ip:1", 2, 10, 100 * s));
    assert!(limiter.allow_at("ip:1", 2, 10, 101 * s));
    assert!(!limiter.allow_at("ip:1", 2, 10, 102 * s));
    // another key has its own bucket
    assert!(limiter.allow_at("ip:2", 2, 10, 102 * s));
    // after the window the old actions no longer count
    assert!(limiter.allow_at("ip:1", 2, 10, 110 * s + 1));
    assert_eq!(limiter.times("ip:1"), vec![101 * s, 110 * s + 1]);
    assert_eq!(limiter.times("ip:9"), Vec::<u128>::new());
    assert!(!limiter.allow_at("ip:3", 0, 10, 0));
}

#[test]
fn rate_limiter_at_most_max_in_any_window() {
    let mut limiter = RateLimiter::new();
    let s: u128 = 1_000_000_000;
    let mut allowed: Vec<u128> = Vec::new();
    for t in 0..40u128 {
        let now = t * s / 2;
        let ok = limiter.allow_at("k", 3, 5, now);
        let earlier = allowed.iter().filter(|&&a| a + 5 * s > now).count();
        assert_eq!(ok, earlier < 3);
        if ok {
            allowed.push(now);
        }
    }
    assert_eq!(allowed, vec![0, s / 2, s, 5 * s, 11 * s / 2, 6 * s, 10 * s, 21 * s / 2, 11 * s, 15 * s, 31 * s / 2, 16 * s]);
    for lo in 0..40u128 {
        let start = lo * s / 2;
        let within = allowed.iter().filter(|&&a| start < a && a <= start + 5 * s).count();
        assert!(within <= 3);
    }
}

#[test]
fn rate_limiter_with_the_clock() {
    let mut limiter = RateLimiter::default();
    assert!(limiter.allow("email:a@b", 3, 3600));
    assert!(limiter.allow("email:a@b", 3, 3600));
    assert!(limiter.allow("email:a@b", 3, 3600));
    assert!(!limiter.allow("email:a@b", 3, 3600));
}

#[test]
fn email_normalization() {
    assert_eq!(normalize_email("  Jelle@Example.COM "), Some("jelle@example.com".to_string()));
    assert_eq!(normalize_email("no-at-sign"), None);
    let long = format!("{}@x.nl", "a".repeat(250));
    assert_eq!(normalize_email(&long), None);
}

#[test]
fn client_addresses() {
    assert_eq!(client_ip(None, false), "local");
    assert_eq!(client_ip(Some(" 1.2.3.4 , 5.6.7.8"), false), "1.2.3.4");
    assert_eq!(client_ip(Some(" 1.2.3.4 , 5.6.7.8 "), true), "5.6.7.8");
    assert_eq!(client_ip(Some("9.9.9.9"), true), "9.9.9.9");
}

#[test]
fn sso_origins() {
    let allowed = vec!["https://sudokudo.nl".to_string(), "https://woordle.nl".to_string()];
    let hub = "https://jellespelletjes.nl";
    assert_eq!(
        sso_origin(hub, hub, "https://sudokudo.nl//", &allowed),
        Ok("https://sudokudo.nl".to_string())
    );
    assert_eq!(sso_origin("https://woordle.nl", hub, "https://sudokudo.nl", &allowed), Err(SsoError::NotFromHub));
    assert_eq!(sso_origin(hub, hub, "https://evil.example", &allowed), Err(SsoError::UnknownOrigin));
    assert_eq!(SsoError::NotFromHub.message(), "sso codes can only be created from the hub");
    assert_eq!(SsoError::UnknownOrigin.message(), "unknown origin");
}

#[test]
fn login_links_and_text() {
    assert_eq!(login_link("https://hub.nl", "abc"), "https://hub.nl/login?token=abc");
    assert_eq!(
        magic_link_text("L"),
        "Klik op deze link om in te loggen bij Jellespelletjes:\n\nL\n\nDe link is 15 minuten geldig. Niet zelf aangevraagd? Dan kun je deze mail negeren."
    );
}

#[test]
fn stamps_compare_as_text() {
    assert!(jellespelletjes_api::auth::expired("2026-01-01 00:00:00", "2026-01-01 00:00:01"));
    assert!(!jellespelletjes_api::auth::expired("2026-01-01 00:00:01", "2026-01-01 00:00:01"));
    assert!(!jellespelletjes_api::auth::expired("2027-01-01 00:00:00", "2026-12-31 23:59:59"));
}

#[test]
fn logout_ends_every_session_unless_asked() {
    assert_eq!(logout_scope(None), LogoutScope::AllDevices);
    assert_eq!(logout_scope(Some(false)), LogoutScope::AllDevices);
    assert_eq!(logout_scope(Some(true)), LogoutScope::ThisDevice);
}
