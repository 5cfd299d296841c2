//! The server's settings, from the values of its environment variables.

use crate::text::{pieces, split_on, trim, trimmed};
use vstd::prelude::*;
use vstd::string::StrSliceExecFns;
use vstd::string::StringExecFns;

verus! {

/// `s` without the copies of `c` at its end.
pub open spec fn strip_trailing(s: Seq<char>, c: char) -> Seq<char>
    decreases s.len(),
{
    if s.len() > 0 && s.last() == c {
        strip_trailing(s.drop_last(), c)
    } else {
        s
    }
}

/// `str::trim_end_matches` with a character.
pub fn trim_end_char(s: &str, c: char) -> (res: String)
    ensures
        res@ == strip_trailing(s@, c),
{
    let mut n = s.unicode_len();
    assert(s@.take(n as int) == s@);
    while n > 0 && s.get_char(n - 1) == c
        invariant
            n <= s@.len(),
            strip_trailing(s@, c) == strip_trailing(s@.take(n as int), c),
        decreases n,
    {
        assert(s@.take(n as int).drop_last() == s@.take(n - 1));
        n = n - 1;
    }
    let kept = s.substring_char(0, n);
    assert(kept@ == s@.take(n as int));
    String::from_str(kept)
}

/// The origins of a comma-separated list: each trimmed, without trailing
/// slashes, empty ones left out.
pub open spec fn origins_from(ps: Seq<Seq<char>>) -> Seq<Seq<char>>
    decreases ps.len(),
{
    if ps.len() == 0 {
        seq![]
    } else {
        let rest = origins_from(ps.drop_last());
        let o = strip_trailing(trimmed(ps.last()), '/');
        if o.len() > 0 {
            rest.push(o)
        } else {
            rest
        }
    }
}

/// Parse a comma-separated list of origins.
pub fn parse_origins(raw: &str) -> (res: Vec<String>)
    ensures
        res@.map_values(|s: String| s@) == origins_from(pieces(raw@, ',')),
{
    let ps = split_on(raw, ',');
    let ghost ls = pieces(raw@, ',');
    proof {
        assert forall|k: int| 0 <= k < ps@.len() implies #[trigger] ps@[k]@ == ls[k] by {
            assert(ps@.map_values(|p: &str| p@)[k] == ps@[k]@);
        }
    }
    let mut res: Vec<String> = Vec::new();
    let mut i: usize = 0;
    while i < ps.len()
        invariant
            i <= ps@.len(),
            ps@.len() == ls.len(),
            forall|k: int| 0 <= k < ps@.len() ==> #[trigger] ps@[k]@ == ls[k],
            res@.map_values(|s: String| s@) == origins_from(ls.take(i as int)),
        decreases ps@.len() - i,
    {
        let o = trim_end_char(trim(ps[i]), '/');
        let ghost before = res@;
        assert(ls.take(i + 1).drop_last() == ls.take(i as int));
        if o.as_str().unicode_len() > 0 {
            res.push(o);
            assert(res@.map_values(|s: String| s@) == before.map_values(|s: String| s@).push(
                strip_trailing(trimmed(ls[i as int]), '/'),
            ));
        }
        i = i + 1;
    }
    assert(ls.take(ls.len() as int) == ls);
    res
}

/// The server's settings.
pub struct Config {
    pub database_url: String,
    pub listen_addr: String,
    /// Public URL of the hub site, where magic links land.
    pub hub_url: String,
    /// Origins allowed for CORS and as SSO targets.
    pub allowed_origins: Vec<String>,
    /// Resend API key; without it emails are logged instead of sent.
    pub resend_api_key: Option<String>,
    /// From address for auth email.
    pub email_from: String,
}

/// Why the settings were refused.
pub enum ConfigError {
    /// The origins list holds no origin.
    NoOrigins,
}

impl ConfigError {
    /// The error text.
    pub fn message(&self) -> (res: String)
        ensures
            res@ == "ALLOWED_ORIGINS must not be empty"@,
    {
        String::from_str("ALLOWED_ORIGINS must not be empty")
    }
}

/// The value of a variable, or a default where it is unset.
pub open spec fn or_default(v: Option<String>, default: Seq<char>) -> Seq<char> {
    match v {
        Some(s) => s@,
        None => default,
    }
}

fn value_or(v: Option<String>, default: &str) -> (res: String)
    ensures
        res@ == or_default(v, default@),
{
    match v {
        Some(s) => s,
        None => String::from_str(default),
    }
}

impl Config {
    /// The settings from the environment variables `DATABASE_URL`,
    /// `LISTEN_ADDR`, `PUBLIC_HUB_URL`, `ALLOWED_ORIGINS`, `RESEND_API_KEY`
    /// and `EMAIL_FROM` (`None` where unset), with their defaults.
    pub fn from_values(
        database_url: Option<String>,
        listen_addr: Option<String>,
        hub_url: Option<String>,
        allowed_origins: Option<String>,
        resend_api_key: Option<String>,
        email_from: Option<String>,
    ) -> (res: Result<Config, ConfigError>)
        ensures
            ({
                let origins = origins_from(
                    pieces(
                        or_default(
                            allowed_origins,
                            "https://jellespelletjes.nl,https://sudokudo.nl,https://woordle.nl"@,
                        ),
                        ',',
                    ),
                );
                match res {
                    Err(_) => origins.len() == 0,
                    Ok(c) => origins.len() > 0 && c.allowed_origins@.map_values(|s: String| s@)
                        == origins && c.database_url@ == or_default(
                        database_url,
                        "sqlite://app.db?mode=rwc"@,
                    ) && c.listen_addr@ == or_default(listen_addr, "127.0.0.1:8080"@)
                        && c.hub_url@ == strip_trailing(
                        or_default(hub_url, "https://jellespelletjes.nl"@),
                        '/',
                    ) && c.email_from@ == or_default(
                        email_from,
                        "Jellespelletjes <login@jellespelletjes.nl>"@,
                    ) && match resend_api_key {
                        Some(k) => if k@.len() > 0 {
                            c.resend_api_key matches Some(v) && v@ == k@
                        } else {
                            c.resend_api_key is None
                        },
                        None => c.resend_api_key is None,
                    },
                }
            }),
    {
        let database_url = value_or(database_url, "sqlite://app.db?mode=rwc");
        let listen_addr = value_or(listen_addr, "127.0.0.1:8080");
        let hub_url = value_or(hub_url, "https://jellespelletjes.nl");
        let origins_raw = value_or(
            allowed_origins,
            "https://jellespelletjes.nl,https://sudokudo.nl,https://woordle.nl",
        );
        let allowed_origins = parse_origins(origins_raw.as_str());
        if allowed_origins.len() == 0 {
            return Err(ConfigError::NoOrigins);
        }
        let resend_api_key = match resend_api_key {
            Some(k) => if k.as_str().unicode_len() > 0 {
                Some(k)
            } else {
                None
            },
            None => None,
        };
        let email_from = value_or(email_from, "Jellespelletjes <login@jellespelletjes.nl>");
        let hub_url = trim_end_char(hub_url.as_str(), '/');
        Ok(Config { database_url, listen_addr, hub_url, allowed_origins, resend_api_key, email_from })
    }
}

} // verus!
