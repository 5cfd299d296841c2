use jellespelletjes_api::config::{parse_origins, trim_end_char, Config};

#[test]
fn origins_are_trimmed_and_stripped() {
    assert_eq!(
        parse_origins(" https://a.nl/ ,,https://b.nl//, "),
        vec!["https://a.nl".to_string(), "https://b.nl".to_string()]
    );
    assert_eq!(parse_origins(""), Vec::<String>::new());
    assert_eq!(trim_end_char("x///", '/'), "x");
    assert_eq!(trim_end_char("///", '/'), "");
}

#[test]
fn defaults_apply() {
    let c = match Config::from_values(None, None, None, None, None, None) {
        Ok(c) => c,
        Err(_) => panic!("defaults are valid"),
    };
    assert_eq!(c.database_url, "sqlite://app.db?mode=rwc");
    assert_eq!(c.listen_addr, "127.0.0.1:8080");
    assert_eq!(c.hub_url, "https://jellespelletjes.nl");
    assert_eq!(
        c.allowed_origins,
        vec![
            "https://jellespelletjes.nl".to_string(),
            "https://sudokudo.nl".to_string(),
            "https://woordle.nl".to_string()
        ]
    );
    assert!(c.resend_api_key.is_none());
    assert_eq!(c.email_from, "Jellespelletjes <login@jellespelletjes.nl>");
}

#[test]
fn values_override_defaults() {
    let c = match Config::from_values(
        Some("sqlite::memory:".into()),
        Some("0.0.0.0:1".into()),
        Some("https://hub.test/".into()),
        Some("https://a.test".into()),
        Some("".into()),
        Some("x@y".into()),
    ) {
        Ok(c) => c,
        Err(_) => panic!("valid settings"),
    };
    assert_eq!(c.hub_url, "https://hub.test");
    assert_eq!(c.allowed_origins, vec!["https://a.test".to_string()]);
    assert!(c.resend_api_key.is_none());
    let c = match Config::from_values(None, None, None, None, Some("key".into()), None) {
        Ok(c) => c,
        Err(_) => panic!("valid settings"),
    };
    assert_eq!(c.resend_api_key, Some("key".to_string()));
}

#[test]
fn empty_origins_are_refused() {
    match Config::from_values(None, None, None, Some(" , ".into()), None, None) {
        Err(e) => assert_eq!(e.message(), "ALLOWED_ORIGINS must not be empty"),
        Ok(_) => panic!("no origins"),
    }
}
