//! Login tokens, sessions and the in-memory rate limiter.

use rand::RngCore;
use sha2::Digest;
use crate::text::{lowercase, pieces, split_on, to_lowercase, trim, trimmed};
use vstd::prelude::*;
use vstd::string::StrSliceExecFns;
use vstd::string::StringExecFns;
use vstd::string::StringSliceAdditionalSpecFns;
use vstd::utf8::encode_utf8;

verus! {

/// Days a session lasts, refreshed on use.
pub const SESSION_DAYS: i64 = 180;

/// Minutes a magic link stays valid.
pub const MAGIC_LINK_MINUTES: i64 = 15;

/// Seconds an SSO code stays valid.
pub const SSO_CODE_SECONDS: i64 = 60;

/// The lower-case hexadecimal digit of `d < 16`.
pub open spec fn hex_digit(d: int) -> char {
    if d < 10 {
        (('0' as int) + d) as char
    } else {
        (('a' as int) + d - 10) as char
    }
}

/// Two lower-case hexadecimal digits per byte, high nibble first.
pub open spec fn hex_text(bytes: Seq<u8>) -> Seq<char>
    decreases bytes.len(),
{
    if bytes.len() == 0 {
        seq![]
    } else {
        hex_text(bytes.drop_last()) + seq![
            hex_digit(bytes.last() as int / 16),
            hex_digit(bytes.last() as int % 16),
        ]
    }
}

fn hex_char(d: u8) -> (c: char)
    requires
        d < 16,
    ensures
        c == hex_digit(d as int),
{
    match d {
        0 => '0',
        1 => '1',
        2 => '2',
        3 => '3',
        4 => '4',
        5 => '5',
        6 => '6',
        7 => '7',
        8 => '8',
        9 => '9',
        10 => 'a',
        11 => 'b',
        12 => 'c',
        13 => 'd',
        14 => 'e',
        _ => 'f',
    }
}

/// The bytes as lower-case hexadecimal, two digits each.
pub fn hex(bytes: &[u8]) -> (res: String)
    ensures
        res@ == hex_text(bytes@),
{
    let mut res = String::from_str("");
    proof {
        reveal_strlit("");
    }
    let mut i: usize = 0;
    while i < bytes.len()
        invariant
            i <= bytes@.len(),
            res@ == hex_text(bytes@.take(i as int)),
        decreases bytes@.len() - i,
    {
        let b = bytes[i];
        crate::text::push_char(&mut res, hex_char(b / 16));
        crate::text::push_char(&mut res, hex_char(b % 16));
        assert(bytes@.take(i + 1).drop_last() == bytes@.take(i as int));
        i = i + 1;
    }
    assert(bytes@.take(bytes@.len() as int) == bytes@);
    res
}

/// The SHA-256 digest of some bytes.
pub uninterp spec fn sha256(data: Seq<u8>) -> Seq<u8>;

/// `sha2::Sha256::digest`. Trusted: the result is the SHA-256 digest of the
/// data, a function of the data alone, 32 bytes long; the hash itself is
/// not stated.
#[verifier::external_body]
fn sha256_digest(data: &[u8]) -> (res: Vec<u8>)
    ensures
        res@ == sha256(data@),
        res@.len() == 32,
{
    sha2::Sha256::digest(data).to_vec()
}

/// The stored form of a token: the SHA-256 digest of its UTF-8 text.
pub fn hash_token(raw: &str) -> (res: Vec<u8>)
    ensures
        res@ == sha256(encode_utf8(raw@)),
        res@.len() == 32,
{
    sha256_digest(raw.as_bytes())
}

/// 32 bytes from the thread's random generator (`rand::rng().fill_bytes`).
/// Trusted: 32 bytes come back; which ones is left to chance.
#[verifier::external_body]
fn random_bytes() -> (res: Vec<u8>)
    ensures
        res@.len() == 32,
{
    let mut bytes = [0u8; 32];
    rand::rng().fill_bytes(&mut bytes);
    bytes.to_vec()
}

/// The token made of some bytes: its hexadecimal text and that text's hash.
pub fn token_from_bytes(bytes: &[u8]) -> (res: (String, Vec<u8>))
    ensures
        res.0@ == hex_text(bytes@),
        res.1@ == sha256(encode_utf8(hex_text(bytes@))),
{
    let raw = hex(bytes);
    let hash = hash_token(raw.as_str());
    (raw, hash)
}

/// A fresh 256-bit random token: its hexadecimal text and that text's hash.
pub fn new_token() -> (res: (String, Vec<u8>))
    ensures
        exists|b: Seq<u8>|
            b.len() == 32 && #[trigger] hex_text(b) == res.0@ && res.1@ == sha256(
                encode_utf8(hex_text(b)),
            ),
{
    let bytes = random_bytes();
    let res = token_from_bytes(bytes.as_slice());
    assert(hex_text(bytes@) == res.0@);
    res
}

/// The token of an `Authorization: Bearer <token>` header value.
pub fn bearer_token(header: &str) -> (res: Option<&str>)
    ensures
        match res {
            Some(t) => header@ == "Bearer "@ + t@,
            None => !("Bearer "@.is_prefix_of(header@)),
        },
{
    proof {
        reveal_strlit("Bearer ");
    }
    let n = header.unicode_len();
    if n < 7 {
        return None;
    }
    let mut i: usize = 0;
    let prefix = "Bearer ";
    while i < 7
        invariant
            i <= 7,
            n == header@.len(),
            n >= 7,
            prefix@ == "Bearer "@,
            prefix@.len() == 7,
            forall|k: int| 0 <= k < i ==> header@[k] == prefix@[k],
        decreases 7 - i,
    {
        if header.get_char(i) != prefix.get_char(i) {
            return None;
        }
        i = i + 1;
    }
    let rest = header.substring_char(7, n);
    assert(header@ == "Bearer "@ + rest@);
    Some(rest)
}

/// An authenticated request's context.
pub struct Session {
    pub user_id: i64,
    pub email: String,
    pub origin: String,
    pub token_hash: Vec<u8>,
}

/// Which sessions a logout ends.
#[derive(PartialEq, Eq, Structural, Debug, Clone, Copy)]
pub enum LogoutScope {
    /// Only the session of the request.
    ThisDevice,
    /// Every session of the user: single sign-off.
    AllDevices,
}

/// A logout ends every session of the user unless it asks for only this
/// device.
pub fn logout_scope(only_this_device: Option<bool>) -> (res: LogoutScope)
    ensures
        res == (if only_this_device == Some(true) {
            LogoutScope::ThisDevice
        } else {
            LogoutScope::AllDevices
        }),
{
    match only_this_device {
        Some(true) => LogoutScope::ThisDevice,
        _ => LogoutScope::AllDevices,
    }
}

/// `std::time::Instant`, the limiter's time base.
#[verifier::external_type_specification]
#[verifier::external_body]
pub struct ExInstant(std::time::Instant);

/// `Instant::now`. Trusted; the result depends on the time, so nothing is
/// stated of it.
#[verifier::external_body]
fn instant_now() -> (res: std::time::Instant) {
    std::time::Instant::now()
}

/// `Instant::elapsed` since `base`, in nanoseconds. Trusted; the result
/// depends on the time, so nothing is stated of it.
#[verifier::external_body]
fn nanos_since(base: &std::time::Instant) -> (res: u128) {
    base.elapsed().as_nanos()
}

/// The times of the actions of one key, in nanoseconds.
pub type Bucket = (String, Vec<u128>);

/// The keys of the buckets are distinct.
pub open spec fn keys_distinct(b: Seq<Bucket>) -> bool {
    forall|i: int, j: int| 0 <= i < j < b.len() ==> #[trigger] b[i].0@ != #[trigger] b[j].0@
}

/// The buckets as a map from key to action times.
pub open spec fn bucket_map(b: Seq<Bucket>) -> Map<Seq<char>, Seq<u128>>
    decreases b.len(),
{
    if b.len() == 0 {
        Map::empty()
    } else {
        bucket_map(b.drop_last()).insert(b.last().0@, b.last().1@)
    }
}

proof fn lemma_bucket_map_find(b: Seq<Bucket>, k: Seq<char>)
    requires
        keys_distinct(b),
    ensures
        bucket_map(b).contains_key(k) <==> exists|i: int| 0 <= i < b.len() && #[trigger] b[i].0@ == k,
        forall|i: int| 0 <= i < b.len() && #[trigger] b[i].0@ == k ==> bucket_map(b)[k] == b[i].1@,
    decreases b.len(),
{
    if b.len() > 0 {
        let rest = b.drop_last();
        assert(keys_distinct(rest)) by {
            assert forall|i: int, j: int| 0 <= i < j < rest.len() implies #[trigger] rest[i].0@ != #[trigger] rest[j].0@ by {
                assert(rest[i] == b[i] && rest[j] == b[j]);
            }
        }
        lemma_bucket_map_find(rest, k);
        if exists|i: int| 0 <= i < rest.len() && #[trigger] rest[i].0@ == k {
            let i = choose|i: int| 0 <= i < rest.len() && #[trigger] rest[i].0@ == k;
            assert(b[i] == rest[i]);
        }
        if exists|i: int| 0 <= i < b.len() && #[trigger] b[i].0@ == k {
            let i = choose|i: int| 0 <= i < b.len() && #[trigger] b[i].0@ == k;
            if i < b.len() - 1 {
                assert(rest[i] == b[i]);
            }
        }
        assert forall|i: int| 0 <= i < b.len() && #[trigger] b[i].0@ == k implies bucket_map(b)[k] == b[i].1@ by {
            if i < b.len() - 1 {
                assert(rest[i] == b[i]);
                assert(b[i].0@ != b[b.len() - 1].0@);
            }
        }
    }
}

proof fn lemma_bucket_map_update(b: Seq<Bucket>, i: int, x: Bucket)
    requires
        keys_distinct(b),
        0 <= i < b.len(),
        b[i].0@ == x.0@,
    ensures
        keys_distinct(b.update(i, x)),
        bucket_map(b.update(i, x)) == bucket_map(b).insert(x.0@, x.1@),
    decreases b.len(),
{
    let u = b.update(i, x);
    assert forall|p: int, q: int| 0 <= p < q < u.len() implies #[trigger] u[p].0@ != #[trigger] u[q].0@ by {
        assert(u[p].0@ == b[p].0@ && u[q].0@ == b[q].0@);
    }
    let rest = b.drop_last();
    assert(keys_distinct(rest)) by {
        assert forall|p: int, q: int| 0 <= p < q < rest.len() implies #[trigger] rest[p].0@ != #[trigger] rest[q].0@ by {
            assert(rest[p] == b[p] && rest[q] == b[q]);
        }
    }
    if i == b.len() - 1 {
        assert(u.drop_last() == rest);
        assert(bucket_map(u) == bucket_map(b).insert(x.0@, x.1@));
    } else {
        lemma_bucket_map_update(rest, i, x);
        assert(u.drop_last() == rest.update(i, x));
        lemma_bucket_map_find(rest, x.0@);
        assert(b.last().0@ != x.0@);
        assert(bucket_map(u) == bucket_map(b).insert(x.0@, x.1@));
    }
}

/// The times after `cutoff`, in order.
pub open spec fn recent(times: Seq<u128>, cutoff: int) -> Seq<u128>
    decreases times.len(),
{
    if times.len() == 0 {
        seq![]
    } else {
        let rest = recent(times.drop_last(), cutoff);
        if times.last() > cutoff {
            rest.push(times.last())
        } else {
            rest
        }
    }
}

/// An in-memory rate limiter: for each key, the times of its recent
/// actions.
pub struct RateLimiter {
    base: std::time::Instant,
    buckets: Vec<Bucket>,
    /// The latest time used, in nanoseconds since `base`.
    last: u128,
}

impl RateLimiter {
    #[verifier::type_invariant]
    spec fn distinct_keys(&self) -> bool {
        keys_distinct(self.buckets@)
    }
}

impl RateLimiter {
    /// The latest time the limiter has used: its clock never goes back
    /// behind it.
    pub closed spec fn clock(&self) -> u128 {
        self.last
    }
}

impl View for RateLimiter {
    type V = Map<Seq<char>, Seq<u128>>;

    closed spec fn view(&self) -> Map<Seq<char>, Seq<u128>> {
        bucket_map(self.buckets@)
    }
}

/// The action times of `key`: none where it has no bucket.
pub open spec fn times_of(m: Map<Seq<char>, Seq<u128>>, key: Seq<char>) -> Seq<u128> {
    if m.contains_key(key) {
        m[key]
    } else {
        seq![]
    }
}

/// How the limiter answers an action of `key` at `now`: the key's times
/// within the window are kept; the action is allowed when fewer than `max`
/// of them remain, and then its time is added.
pub open spec fn decision(
    m: Map<Seq<char>, Seq<u128>>,
    key: Seq<char>,
    max: int,
    window_secs: int,
    now: int,
) -> (bool, Seq<u128>) {
    let kept = recent(times_of(m, key), now - window_secs * 1_000_000_000);
    if kept.len() < max {
        (true, kept.push(now as u128))
    } else {
        (false, kept)
    }
}

impl Default for RateLimiter {
    fn default() -> (res: Self)
        ensures
            res@ == Map::<Seq<char>, Seq<u128>>::empty(),
            res.clock() == 0,
    {
        RateLimiter { base: instant_now(), buckets: Vec::new(), last: 0 }
    }
}

impl RateLimiter {
    /// An empty limiter.
    pub fn new() -> (res: Self)
        ensures
            res@ == Map::<Seq<char>, Seq<u128>>::empty(),
            res.clock() == 0,
    {
        RateLimiter { base: instant_now(), buckets: Vec::new(), last: 0 }
    }

    /// The limiter's record, key by key.
    pub fn times(&self, key: &str) -> (res: Vec<u128>)
        ensures
            res@ == times_of(self@, key@),
    {
        proof {
            use_type_invariant(self);
        }
        let mut i: usize = 0;
        while i < self.buckets.len()
            invariant
                i <= self.buckets@.len(),
                keys_distinct(self.buckets@),
                forall|j: int| 0 <= j < i ==> #[trigger] self.buckets@[j].0@ != key@,
            decreases self.buckets@.len() - i,
        {
            if crate::text::str_eq(self.buckets[i].0.as_str(), key) {
                proof {
                    lemma_bucket_map_find(self.buckets@, key@);
                }
                return vstd::slice::slice_to_vec(self.buckets[i].1.as_slice());
            }
            i = i + 1;
        }
        proof {
            lemma_bucket_map_find(self.buckets@, key@);
        }
        Vec::new()
    }

    /// Record an action of `key` at `now` (nanoseconds on the limiter's
    /// clock) if fewer than `max` actions of it fall within the last
    /// `window_secs` seconds; whether it was allowed.
    pub fn allow_at(&mut self, key: &str, max: usize, window_secs: u64, now: u128) -> (res: bool)
        ensures
            (res, final(self)@[key@]) == decision(old(self)@, key@, max as int, window_secs as int, now as int),
            final(self)@ == old(self)@.insert(key@, final(self)@[key@]),
            final(self).clock() == if now < old(self).clock() {
                old(self).clock()
            } else {
                now
            },
    {
        proof {
            use_type_invariant(&*self);
        }
        let ghost before = self.buckets@;
        let mut buckets: Vec<Bucket> = Vec::new();
        std::mem::swap(&mut buckets, &mut self.buckets);
        assert(buckets@ == before);
        let mut i: usize = 0;
        while i < buckets.len()
            invariant
                buckets@ == before,
                keys_distinct(before),
                i <= before.len(),
                forall|j: int| 0 <= j < i ==> #[trigger] before[j].0@ != key@,
            ensures
                buckets@ == before,
                i <= before.len(),
                i < before.len() ==> before[i as int].0@ == key@,
                forall|j: int| 0 <= j < i ==> #[trigger] before[j].0@ != key@,
            decreases before.len() - i,
        {
            if crate::text::str_eq(buckets[i].0.as_str(), key) {
                break;
            }
            i = i + 1;
        }
        proof {
            lemma_bucket_map_find(before, key@);
        }
        let found = i < buckets.len();
        let span: u128 = (window_secs as u128) * 1_000_000_000;
        let mut kept: Vec<u128> = Vec::new();
        let ghost times = if found {
            before[i as int].1@
        } else {
            Seq::<u128>::empty()
        };
        assert(times == times_of(bucket_map(before), key@));
        if found {
            let mut j: usize = 0;
            while j < buckets[i].1.len()
                invariant
                    buckets@ == before,
                    i < before.len(),
                    times == before[i as int].1@,
                    j <= times.len(),
                    kept@ == recent(times.take(j as int), now - span),
                    span == window_secs * 1_000_000_000,
                decreases times.len() - j,
            {
                let t = buckets[i].1[j];
                assert(times.take(j + 1).drop_last() == times.take(j as int));
                if now < span || t > now - span {
                    kept.push(t);
                }
                j = j + 1;
            }
            assert(times.take(times.len() as int) == times);
        }
        let allowed = kept.len() < max;
        if allowed {
            kept.push(now);
        }
        let ghost new_times = kept@;
        let name = String::from_str(key);
        let ghost entry = (name, kept);
        if found {
            let ghost b0 = buckets@;
            proof {
                lemma_bucket_map_update(b0, i as int, (name, kept));
            }
            buckets.set(i, (name, kept));
        } else {
            proof {
                assert(keys_distinct(buckets@.push((name, kept)))) by {
                    let u = buckets@.push((name, kept));
                    assert forall|p: int, q: int| 0 <= p < q < u.len() implies #[trigger] u[p].0@ != #[trigger] u[q].0@ by {
                        if q == u.len() - 1 {
                            assert(u[p] == before[p]);
                        } else {
                            assert(u[p] == before[p] && u[q] == before[q]);
                        }
                    }
                }
                assert(buckets@.push((name, kept)).drop_last() == before);
            }
            buckets.push((name, kept));
        }
        self.buckets = buckets;
        if now > self.last {
            self.last = now;
        }
        proof {
            assert(self@ == bucket_map(before).insert(key@, new_times));
        }
        allowed
    }

    /// Whether an action of `key` is allowed now: at most `max` per
    /// `window_secs` seconds. Allowed actions are recorded. The time used
    /// is the clock's reading, never behind the last time used.
    pub fn allow(&mut self, key: &str, max: usize, window_secs: u64) -> (res: bool)
        ensures
            exists|now: u128|
                now >= old(self).clock() && final(self).clock() == now && (res, final(self)@[key@])
                    == #[trigger] decision(old(self)@, key@, max as int, window_secs as int, now as int)
                    && final(self)@ == old(self)@.insert(key@, final(self)@[key@]),
    {
        let read = nanos_since(&self.base);
        let now = if read < self.last {
            self.last
        } else {
            read
        };
        let res = self.allow_at(key, max, window_secs, now);
        assert(decision(old(self)@, key@, max as int, window_secs as int, now as int) == (res, self@[key@]));
        res
    }
}

/// The normalized address of an email field: trimmed and lower-cased; it
/// must hold an `@` and be at most 254 bytes long.
pub open spec fn normalized_email(raw: Seq<char>) -> Option<Seq<char>> {
    let a = lowercase(trimmed(raw));
    if a.contains('@') && encode_utf8(a).len() <= 254 {
        Some(a)
    } else {
        None
    }
}

/// Normalize an email address as typed; `None` when it is not a plausible
/// address.
pub fn normalize_email(raw: &str) -> (res: Option<String>)
    ensures
        match normalized_email(raw@) {
            Some(a) => res matches Some(s) && s@ == a,
            None => res is None,
        },
{
    let address = to_lowercase(trim(raw));
    let n = address.as_str().unicode_len();
    let mut i: usize = 0;
    let mut at = false;
    while i < n
        invariant
            n == address@.len(),
            i <= n,
            at == exists|k: int| 0 <= k < i && address@[k] == '@',
        decreases n - i,
    {
        if address.as_str().get_char(i) == '@' {
            at = true;
        }
        i = i + 1;
    }
    if !at || address.as_str().as_bytes().len() > 254 {
        return None;
    }
    Some(address)
}

/// The client address from an `X-Forwarded-For` header value: its first
/// entry, or its last when `last` is set (the one the own proxy appended),
/// or `local` without the header; trimmed.
pub fn client_ip(forwarded: Option<&str>, last: bool) -> (res: String)
    ensures
        res@ == match forwarded {
            None => trimmed("local"@),
            Some(h) => {
                let ps = pieces(h@, ',');
                trimmed(if last { ps[ps.len() - 1] } else { ps[0] })
            },
        },
{
    match forwarded {
        None => String::from_str(trim("local")),
        Some(h) => {
            let ps = split_on(h, ',');
            proof {
                crate::text::lemma_pieces_nonempty(h@, ',');
                assert(ps@.map_values(|p: &str| p@)[0] == ps@[0]@);
                assert(ps@.map_values(|p: &str| p@)[ps@.len() - 1] == ps@[ps@.len() - 1]@);
            }
            let piece = if last {
                ps[ps.len() - 1]
            } else {
                ps[0]
            };
            String::from_str(trim(piece))
        },
    }
}

/// Why an SSO code is refused.
#[derive(PartialEq, Eq, Structural, Debug, Clone, Copy)]
pub enum SsoError {
    /// Only a session of the hub may mint codes.
    NotFromHub,
    /// The target is not an allowed origin.
    UnknownOrigin,
}

impl SsoError {
    /// The error text.
    pub fn message(&self) -> (res: String)
        ensures
            match self {
                SsoError::NotFromHub => res@ == "sso codes can only be created from the hub"@,
                SsoError::UnknownOrigin => res@ == "unknown origin"@,
            },
    {
        match self {
            SsoError::NotFromHub => String::from_str("sso codes can only be created from the hub"),
            SsoError::UnknownOrigin => String::from_str("unknown origin"),
        }
    }
}

/// The origin an SSO code may be minted for: the session must be the
/// hub's, and the requested origin, without trailing slashes, an allowed
/// one.
pub fn sso_origin(session_origin: &str, hub_url: &str, requested: &str, allowed: &Vec<String>) -> (res:
    Result<String, SsoError>)
    ensures
        session_origin@ != hub_url@ ==> res == Err::<String, SsoError>(SsoError::NotFromHub),
        session_origin@ == hub_url@ ==> {
            let o = crate::config::strip_trailing(requested@, '/');
            if crate::text::listed(allowed@, o) {
                res matches Ok(s) && s@ == o
            } else {
                res == Err::<String, SsoError>(SsoError::UnknownOrigin)
            }
        },
{
    if !crate::text::str_eq(session_origin, hub_url) {
        return Err(SsoError::NotFromHub);
    }
    let origin = crate::config::trim_end_char(requested, '/');
    if !crate::text::list_contains(allowed, origin.as_str()) {
        return Err(SsoError::UnknownOrigin);
    }
    Ok(origin)
}

/// A token's text has two hexadecimal digits per byte: 64 for a fresh
/// token.
pub proof fn lemma_hex_len(b: Seq<u8>)
    ensures
        hex_text(b).len() == 2 * b.len(),
    decreases b.len(),
{
    if b.len() > 0 {
        lemma_hex_len(b.drop_last());
    }
}

proof fn lemma_recent(times: Seq<u128>, cutoff: int)
    ensures
        recent(times, cutoff).len() <= times.len(),
        forall|i: int| 0 <= i < recent(times, cutoff).len() ==> #[trigger] recent(times, cutoff)[i] > cutoff,
    decreases times.len(),
{
    if times.len() > 0 {
        lemma_recent(times.drop_last(), cutoff);
    }
}

/// The limiter keeps only times inside the window: after an allowed action
/// the key has at most `max` of them, the new one last; after a refused one
/// at least `max`.
pub proof fn lemma_limit(m: Map<Seq<char>, Seq<u128>>, key: Seq<char>, max: int, window_secs: int, now: int)
    requires
        0 <= now <= u128::MAX,
    ensures
        ({
            let (ok, ts) = decision(m, key, max, window_secs, now);
            let cutoff = now - window_secs * 1_000_000_000;
            &&& ok ==> ts.len() <= max && ts.last() == now
            &&& !ok ==> ts.len() >= max
            &&& forall|i: int| 0 <= i < ts.len() - 1 ==> #[trigger] ts[i] > cutoff
            &&& !ok && ts.len() > 0 ==> ts.last() > cutoff
        }),
{
    lemma_recent(times_of(m, key), now - window_secs * 1_000_000_000);
}

/// The answers and records of a run of actions of `key` at `times`, each
/// answered as `decision` answers it, with one limit and one window,
/// starting from the record `m`.
pub open spec fn replay(
    m: Map<Seq<char>, Seq<u128>>,
    key: Seq<char>,
    max: int,
    window_secs: int,
    times: Seq<int>,
) -> (Map<Seq<char>, Seq<u128>>, Seq<bool>)
    decreases times.len(),
{
    if times.len() == 0 {
        (m, seq![])
    } else {
        let (m1, answers) = replay(m, key, max, window_secs, times.drop_last());
        let (ok, kept) = decision(m1, key, max, window_secs, times.last());
        (m1.insert(key, kept), answers.push(ok))
    }
}

/// The times of the allowed actions among `times` (answered by `answers`)
/// that fall after `cutoff`, in order.
pub open spec fn allowed_after(times: Seq<int>, answers: Seq<bool>, cutoff: int) -> Seq<u128>
    decreases times.len(),
{
    if times.len() == 0 {
        seq![]
    } else {
        let rest = allowed_after(times.drop_last(), answers, cutoff);
        if answers[times.len() - 1] && times.last() > cutoff {
            rest.push(times.last() as u128)
        } else {
            rest
        }
    }
}

/// How many of the allowed actions among `times` fall in `(lo, hi]`.
pub open spec fn allowed_within(times: Seq<int>, answers: Seq<bool>, lo: int, hi: int) -> nat
    decreases times.len(),
{
    if times.len() == 0 {
        0
    } else {
        allowed_within(times.drop_last(), answers, lo, hi) + if answers[times.len() - 1] && lo
            < times.last() <= hi {
            1nat
        } else {
            0nat
        }
    }
}

/// Readings of the limiter's clock: in the range of its counter, and never
/// going back.
pub open spec fn clock_readings(times: Seq<int>) -> bool {
    &&& forall|i: int| 0 <= i < times.len() ==> 0 <= #[trigger] times[i] <= u128::MAX
    &&& forall|i: int, j: int|
        0 <= i <= j < times.len() ==> #[trigger] times[i] <= #[trigger] times[j]
}

/// What the limiter holds for the key after a run: the allowed times that
/// the last action's window kept, and that action's time if it was allowed.
spec fn key_record(times: Seq<int>, answers: Seq<bool>, window_secs: int) -> Seq<u128> {
    if times.len() == 0 {
        seq![]
    } else {
        let n = times.len() - 1;
        let kept = allowed_after(times.take(n), answers, times[n] - window_secs * 1_000_000_000);
        if answers[n] {
            kept.push(times[n] as u128)
        } else {
            kept
        }
    }
}

proof fn lemma_recent_concat(a: Seq<u128>, b: Seq<u128>, cutoff: int)
    ensures
        recent(a + b, cutoff) == recent(a, cutoff) + recent(b, cutoff),
    decreases b.len(),
{
    if b.len() == 0 {
        assert(a + b == a);
        assert(recent(a, cutoff) + recent(b, cutoff) == recent(a, cutoff));
    } else {
        lemma_recent_concat(a, b.drop_last(), cutoff);
        assert((a + b).drop_last() == a + b.drop_last());
        let ra = recent(a, cutoff);
        let rb = recent(b.drop_last(), cutoff);
        assert((ra + rb).push(b.last()) == ra + rb.push(b.last()));
    }
}

proof fn lemma_allowed_same_answers(times: Seq<int>, a: Seq<bool>, b: Seq<bool>, cutoff: int)
    requires
        forall|j: int| 0 <= j < times.len() ==> a[j] == b[j],
    ensures
        allowed_after(times, a, cutoff) == allowed_after(times, b, cutoff),
    decreases times.len(),
{
    if times.len() > 0 {
        lemma_allowed_same_answers(times.drop_last(), a, b, cutoff);
    }
}

proof fn lemma_recent_allowed(times: Seq<int>, answers: Seq<bool>, c1: int, c2: int)
    requires
        c1 <= c2,
        forall|i: int| 0 <= i < times.len() ==> 0 <= #[trigger] times[i] <= u128::MAX,
    ensures
        recent(allowed_after(times, answers, c1), c2) == allowed_after(times, answers, c2),
    decreases times.len(),
{
    if times.len() > 0 {
        let rest = times.drop_last();
        lemma_recent_allowed(rest, answers, c1, c2);
        let r1 = allowed_after(rest, answers, c1);
        assert(0 <= times[times.len() - 1] <= u128::MAX);
        assert(r1.push(times.last() as u128).drop_last() == r1);
    }
}

proof fn lemma_allowed_shrinks(times: Seq<int>, answers: Seq<bool>, c1: int, c2: int)
    requires
        c1 <= c2,
    ensures
        allowed_after(times, answers, c2).len() <= allowed_after(times, answers, c1).len(),
    decreases times.len(),
{
    if times.len() > 0 {
        lemma_allowed_shrinks(times.drop_last(), answers, c1, c2);
    }
}

proof fn lemma_within_after(times: Seq<int>, answers: Seq<bool>, lo: int, hi: int)
    ensures
        allowed_within(times, answers, lo, hi) <= allowed_after(times, answers, lo).len(),
    decreases times.len(),
{
    if times.len() > 0 {
        lemma_within_after(times.drop_last(), answers, lo, hi);
    }
}

proof fn lemma_replay(
    m: Map<Seq<char>, Seq<u128>>,
    key: Seq<char>,
    max: int,
    window_secs: int,
    times: Seq<int>,
)
    requires
        times_of(m, key).len() == 0,
        0 <= window_secs,
        clock_readings(times),
    ensures
        ({
            let (m2, answers) = replay(m, key, max, window_secs, times);
            &&& answers.len() == times.len()
            &&& forall|k: int|
                0 <= k < times.len() ==> #[trigger] answers[k] == (allowed_after(
                    times.take(k),
                    answers,
                    times[k] - window_secs * 1_000_000_000,
                ).len() < max)
            &&& times_of(m2, key) == key_record(times, answers, window_secs)
            &&& forall|other: Seq<char>|
                other != key ==> #[trigger] times_of(m2, other) == times_of(m, other)
        }),
    decreases times.len(),
{
    if times.len() > 0 {
        let n = times.len() - 1;
        let prev = times.drop_last();
        lemma_replay(m, key, max, window_secs, prev);
        let (m1, a1) = replay(m, key, max, window_secs, prev);
        let (m2, answers) = replay(m, key, max, window_secs, times);
        let span = window_secs * 1_000_000_000;
        let c = times[n] - span;
        assert(answers == a1.push(decision(m1, key, max, window_secs, times[n]).0));
        assert(recent(times_of(m1, key), c) == allowed_after(times.take(n), answers, c)) by {
            assert(times.take(n) == prev);
            if n > 0 {
                let p = n - 1;
                let cp = prev[p] - span;
                assert(prev.take(p) == times.take(p));
                assert(times.take(n).drop_last() == times.take(p));
                assert(forall|j: int| 0 <= j < times.take(p).len() ==> a1[j] == answers[j]);
                lemma_allowed_same_answers(times.take(p), a1, answers, cp);
                lemma_allowed_same_answers(times.take(p), a1, answers, c);
                assert(times[p] <= times[n]);
                lemma_recent_allowed(times.take(p), answers, cp, c);
                let base = allowed_after(times.take(p), answers, cp);
                let x = prev[p] as u128;
                assert(times_of(m1, key) == if a1[p] { base.push(x) } else { base });
                assert(recent(base, c) == allowed_after(times.take(p), answers, c));
                assert(0 <= times[p] <= u128::MAX);
                if a1[p] {
                    lemma_recent_concat(base, seq![x], c);
                    assert(base.push(x) == base + seq![x]);
                    assert(seq![x].drop_last() == Seq::<u128>::empty());
                    assert(recent(seq![x], c) == if x > c { seq![x] } else { Seq::<u128>::empty() }) by {
                        reveal_with_fuel(recent, 2);
                    }
                    assert(recent(base.push(x), c) == if x > c { recent(base, c).push(x) } else { recent(base, c) });
                }
                assert(answers[p] == a1[p]);
                assert(allowed_after(times.take(n), answers, c) == if answers[p] && times[p] > c {
                    allowed_after(times.take(p), answers, c).push(x)
                } else {
                    allowed_after(times.take(p), answers, c)
                });
            } else {
                assert(times_of(m1, key) == Seq::<u128>::empty());
            }
        }
        assert(answers.len() == times.len());
        assert(times_of(m2, key) == key_record(times, answers, window_secs));
        assert forall|other: Seq<char>| other != key implies #[trigger] times_of(m2, other) == times_of(m, other) by {
            assert(times_of(m1, other) == times_of(m, other));
        }
        assert forall|k: int| 0 <= k < n implies #[trigger] answers[k] == (allowed_after(
            times.take(k),
            answers,
            times[k] - span,
        ).len() < max) by {
            assert(a1[k] == answers[k]);
            assert(prev.take(k) == times.take(k));
            assert(forall|j: int| 0 <= j < times.take(k).len() ==> a1[j] == answers[j]);
            lemma_allowed_same_answers(times.take(k), a1, answers, times[k] - span);
        }
    }
}

/// The limiter's window over a run. Take the actions of one key, with one
/// limit and one window, at readings of its clock (which never goes back),
/// from a record that holds nothing for the key. Then each action is
/// allowed exactly when fewer than `max` earlier actions were allowed within
/// the window before it (so never when `max` is 0); the other keys keep
/// their records; and in any span of `window_secs` seconds at most `max`
/// actions are allowed.
pub proof fn lemma_window(
    m: Map<Seq<char>, Seq<u128>>,
    key: Seq<char>,
    max: int,
    window_secs: int,
    times: Seq<int>,
)
    requires
        times_of(m, key).len() == 0,
        0 <= max,
        0 <= window_secs,
        clock_readings(times),
    ensures
        ({
            let (m2, answers) = replay(m, key, max, window_secs, times);
            &&& answers.len() == times.len()
            &&& forall|k: int|
                0 <= k < times.len() ==> #[trigger] answers[k] == (allowed_after(
                    times.take(k),
                    answers,
                    times[k] - window_secs * 1_000_000_000,
                ).len() < max)
            &&& forall|other: Seq<char>|
                other != key ==> #[trigger] times_of(m2, other) == times_of(m, other)
            &&& forall|lo: int, hi: int|
                hi - lo <= window_secs * 1_000_000_000 ==> #[trigger] allowed_within(
                    times,
                    answers,
                    lo,
                    hi,
                ) <= max
        }),
{
    lemma_replay(m, key, max, window_secs, times);
    let answers = replay(m, key, max, window_secs, times).1;
    assert forall|lo: int, hi: int|
        hi - lo <= window_secs * 1_000_000_000 implies #[trigger] allowed_within(
        times,
        answers,
        lo,
        hi,
    ) <= max by {
        lemma_within_bound(times, answers, max, window_secs, lo, hi, times.len() as int);
        assert(times.take(times.len() as int) == times);
    }
}

/// A call of the limiter continues a run. When the limiter holds for `key`
/// what the run of actions at `times` leaves, a call for `key` at `now`,
/// with the same limit and window, answers as the run extended by `now`
/// does and leaves for `key` what that run leaves. (`allow_at` and `allow`
/// state their call in this form; from a new limiter the run starts empty,
/// and calls for other keys leave `key`'s record as it is.)
pub proof fn lemma_call_continues_run(
    m0: Map<Seq<char>, Seq<u128>>,
    key: Seq<char>,
    max: int,
    window_secs: int,
    times: Seq<int>,
    before: Map<Seq<char>, Seq<u128>>,
    after: Map<Seq<char>, Seq<u128>>,
    now: int,
    res: bool,
)
    requires
        times_of(before, key) == times_of(replay(m0, key, max, window_secs, times).0, key),
        (res, after[key]) == decision(before, key, max, window_secs, now),
        after == before.insert(key, after[key]),
    ensures
        replay(m0, key, max, window_secs, times.push(now)).1 == replay(m0, key, max, window_secs, times).1.push(res),
        times_of(after, key) == times_of(replay(m0, key, max, window_secs, times.push(now)).0, key),
{
    let longer = times.push(now);
    assert(longer.drop_last() == times);
    let m1 = replay(m0, key, max, window_secs, times).0;
    assert(decision(before, key, max, window_secs, now) == decision(m1, key, max, window_secs, now));
}

proof fn lemma_within_bound(
    times: Seq<int>,
    answers: Seq<bool>,
    max: int,
    window_secs: int,
    lo: int,
    hi: int,
    n: int,
)
    requires
        0 <= max,
        hi - lo <= window_secs * 1_000_000_000,
        answers.len() == times.len(),
        forall|k: int|
            0 <= k < times.len() ==> #[trigger] answers[k] == (allowed_after(
                times.take(k),
                answers,
                times[k] - window_secs * 1_000_000_000,
            ).len() < max),
        0 <= n <= times.len(),
    ensures
        allowed_within(times.take(n), answers, lo, hi) <= max,
    decreases n,
{
    if n > 0 {
        let k = n - 1;
        lemma_within_bound(times, answers, max, window_secs, lo, hi, k);
        assert(times.take(n).drop_last() == times.take(k));
        if answers[k] && lo < times[k] <= hi {
            lemma_within_after(times.take(k), answers, lo, hi);
            lemma_allowed_shrinks(times.take(k), answers, times[k] - window_secs * 1_000_000_000, lo);
        }
    }
}

/// The login link of a token: `{hub_url}/login?token={token}`.
pub fn login_link(hub_url: &str, token: &str) -> (res: String)
    ensures
        res@ == hub_url@ + "/login?token="@ + token@,
{
    let mut link = String::from_str(hub_url);
    link.append("/login?token=");
    link.append(token);
    link
}

/// The text of the login email for a link.
pub fn magic_link_text(link: &str) -> (res: String)
    ensures
        res@ == "Klik op deze link om in te loggen bij Jellespelletjes:\n\n"@ + link@
            + "\n\nDe link is 15 minuten geldig. Niet zelf aangevraagd? Dan kun je deze mail negeren."@,
{
    let mut text = String::from_str("Klik op deze link om in te loggen bij Jellespelletjes:\n\n");
    text.append(link);
    text.append(
        "\n\nDe link is 15 minuten geldig. Niet zelf aangevraagd? Dan kun je deze mail negeren.",
    );
    text
}

/// Whether a session or token stamp (`YYYY-MM-DD HH:MM:SS`) lies before
/// the current one: the stamps compare as strings, byte by byte.
pub fn expired(expires_at: &str, now: &str) -> (res: bool)
    ensures
        res == crate::games::lettersoep::dict::lex_lt(encode_utf8(expires_at@), encode_utf8(now@)),
{
    crate::games::lettersoep::dict::compare_bytes(expires_at.as_bytes(), now.as_bytes())
        == crate::games::lettersoep::dict::LexOrder::Before
}

} // verus!
