//! Request handling for the HTTP API: authentication, rate limiting, request
//! decoding and response encoding. Sockets and threads stay with the caller.
use vstd::prelude::*;

use crate::strmap::StrMap;
use crate::text::{
    is_unicode_whitespace, is_whitespace, leading_ws, lower_ascii, to_ascii_lower,
    chars_eq_ignore_ascii_case, eq_ignore_ascii_case, find_chars, find_from, skip_ws_backward,
    skip_ws_forward, str_eq, string_from_range, to_chars, trim, trimmed,
};

verus! {

/// Request headers by lower-case name.
pub type Headers = StrMap<String>;

/// The headers as a map of character sequences.
pub open spec fn headers_view(h: &Headers) -> Map<Seq<char>, Seq<char>> {
    h.map().map_values(|v: String| v@)
}

/// `Authorization: <scheme> <token>` with a `bearer` scheme (any ASCII case) and the
/// token, trimmed, equal to the key.
pub open spec fn bearer_matches(value: Seq<char>, key: Seq<char>) -> bool {
    match find_from(value, seq![' '], 0) {
        Some(i) => eq_ignore_ascii_case(value.take(i), "bearer"@) && trim(value.skip(i + 1)) == key,
        None => false,
    }
}

/// The request carries the API key, as a bearer token or in `x-api-key`.
pub open spec fn spec_is_authorized(h: Map<Seq<char>, Seq<char>>, key: Seq<char>) -> bool {
    (h.dom().contains("authorization"@) && bearer_matches(h["authorization"@], key))
        || (h.dom().contains("x-api-key"@) && h["x-api-key"@] == key)
}

/// Whether the headers carry `expected_api_key`, as [`spec_is_authorized`] says.
pub fn is_authorized(headers: &Headers, expected_api_key: &str) -> (r: bool)
    ensures
        r == spec_is_authorized(headers_view(headers), expected_api_key@),
{
    let ghost h = headers_view(headers);
    let mut bearer = false;
    match headers.get("authorization") {
        Some(value) => {
            let c = to_chars(value.as_str());
            let mut space: Vec<char> = Vec::new();
            space.push(' ');
            proof {
                assert(space@ =~= seq![' ']);
                lemma_find_from_ge(c@, seq![' '], 0);
            }
            match find_chars(&c, &space, 0) {
                Some(i) => {
                    assert(find_from(c@, seq![' '], 0) == Some(i as int));
                    assert(seq![' '].len() == 1);
                    assert(i + 1 <= c.len());
                    let scheme = string_from_range(&c, 0, i);
                    let token = string_from_range(&c, i + 1, c.len());
                    let sc = to_chars(scheme.as_str());
                    let bearer_word = to_chars("bearer");
                    let t = trimmed(token.as_str());
                    proof {
                        assert(space@ =~= seq![' ']);
                        assert(c@.skip(i + 1) =~= token@);
                    }
                    bearer = chars_eq_ignore_ascii_case(&sc, &bearer_word) && str_eq(t.as_str(), expected_api_key);
                },
                None => {
                    assert(space@ =~= seq![' ']);
                },
            }
        },
        None => {},
    }
    if bearer {
        return true;
    }
    match headers.get("x-api-key") {
        Some(value) => str_eq(value.as_str(), expected_api_key),
        None => false,
    }
}

/// The end of the run of non-white-space characters of `s` that starts at `i`.
pub open spec fn word_end(s: Seq<char>, i: int) -> int
    decreases s.len() - i,
{
    if i < 0 || i >= s.len() || is_unicode_whitespace(s[i]) { i } else { word_end(s, i + 1) }
}

/// The method and the path of a request line: its first two words (as
/// `str::split_whitespace` gives them); an empty method and `/` stand for missing ones.
pub open spec fn spec_request_line(s: Seq<char>) -> (Seq<char>, Seq<char>) {
    let a = leading_ws(s) as int;
    let e = word_end(s, a);
    let b = e + leading_ws(s.skip(e));
    (s.subrange(a, e), if b < s.len() { s.subrange(b, word_end(s, b)) } else { "/"@ })
}

fn word_end_at(c: &Vec<char>, i: usize) -> (r: usize)
    requires
        i <= c.len(),
    ensures
        i <= r <= c.len(),
        r == word_end(c@, i as int),
{
    let mut j = i;
    while j < c.len() && !is_whitespace(c[j])
        invariant
            i <= j <= c.len(),
            word_end(c@, i as int) == word_end(c@, j as int),
        decreases c.len() - j,
    {
        j = j + 1;
    }
    j
}

/// The method and the path of a request line, as [`spec_request_line`] says.
pub fn parse_request_line(line: &str) -> (r: (String, String))
    ensures
        r.0@ == spec_request_line(line@).0,
        r.1@ == spec_request_line(line@).1,
{
    let c = to_chars(line);
    let a = skip_ws_forward(&c, 0, c.len());
    assert(c@.subrange(0, c.len() as int) =~= c@);
    let e = word_end_at(&c, a);
    let b = skip_ws_forward(&c, e, c.len());
    assert(c@.subrange(e as int, c.len() as int) =~= c@.skip(e as int));
    let method = string_from_range(&c, a, e);
    if b < c.len() {
        let f = word_end_at(&c, b);
        (method, string_from_range(&c, b, f))
    } else {
        (method, "/".to_string())
    }
}

/// A header line `name: value` split at its first colon: the name trimmed and in ASCII
/// lower case, the value trimmed; `None` for a line without a colon.
pub open spec fn spec_header_line(s: Seq<char>) -> Option<(Seq<char>, Seq<char>)> {
    match find_from(s, seq![':'], 0) {
        Some(i) => Some((lower_ascii(trim(s.take(i))), trim(s.skip(i + 1)))),
        None => None,
    }
}

/// A header line's name and value, as [`spec_header_line`] says.
pub fn parse_header_line(line: &str) -> (r: Option<(String, String)>)
    ensures
        match spec_header_line(line@) {
            Some((n, v)) => r matches Some((rn, rv)) && rn@ == n && rv@ == v,
            None => r is None,
        },
{
    let c = to_chars(line);
    let mut colon: Vec<char> = Vec::new();
    colon.push(':');
    assert(colon@ =~= seq![':']);
    proof { lemma_find_from_ge(c@, seq![':'], 0); }
    match find_chars(&c, &colon, 0) {
        Some(i) => {
            let a = skip_ws_forward(&c, 0, i);
            let b = skip_ws_backward(&c, a, i);
            proof {
                let s = c@.subrange(0, i as int);
                assert(s =~= c@.take(i as int));
                assert(crate::text::trim_start(s) =~= c@.subrange(a as int, i as int));
                assert(trim(s) =~= c@.subrange(a as int, b as int));
            }
            let mut name = String::new();
            let mut k = a;
            while k < b
                invariant
                    a <= k <= b <= c.len(),
                    name@ == lower_ascii(c@.subrange(a as int, k as int)),
                decreases b - k,
            {
                name.push(to_ascii_lower(c[k]));
                k = k + 1;
                assert(name@ =~= lower_ascii(c@.subrange(a as int, k as int)));
            }
            let va = skip_ws_forward(&c, i + 1, c.len());
            let vb = skip_ws_backward(&c, va, c.len());
            proof {
                let s = c@.subrange(i + 1, c.len() as int);
                assert(s =~= c@.skip(i + 1));
                assert(crate::text::trim_start(s) =~= c@.subrange(va as int, c.len() as int));
                assert(trim(s) =~= c@.subrange(va as int, vb as int));
            }
            Some((name, string_from_range(&c, va, vb)))
        },
        None => None,
    }
}

/// The body length that a `Content-Length` value gives: 0 when it does not read as a number.
pub fn content_length(value: &str) -> (r: usize)
    ensures
        r == match crate::text::unsigned_value(value@) {
            Some(v) => if v <= usize::MAX { v } else { 0 },
            None => 0,
        },
{
    match crate::text::parse_u64(value) {
        Some(v) => if v <= usize::MAX as u64 { v as usize } else { 0 },
        None => 0,
    }
}

/// The piece of `s` from `start` to the next comma (or the end).
pub open spec fn piece_end(s: Seq<char>, start: int) -> int {
    match find_from(s, seq![','], start) {
        Some(e) => e,
        None => s.len() as int,
    }
}

/// The first comma-separated piece at or after `start` that is not blank, trimmed.
pub open spec fn first_nonblank_from(s: Seq<char>, start: int) -> Option<Seq<char>>
    decreases s.len() + 1 - start,
{
    if start < 0 || start > s.len() {
        None
    } else {
        let end = piece_end(s, start);
        let piece = trim(s.subrange(start, end));
        if piece.len() > 0 {
            Some(piece)
        } else if end >= s.len() || end < start {
            None
        } else {
            first_nonblank_from(s, end + 1)
        }
    }
}

/// Who a request counts against: the first non-blank entry of `x-forwarded-for`,
/// else the peer's address, else `unknown`.
pub open spec fn spec_client_identifier(h: Map<Seq<char>, Seq<char>>, peer: Option<Seq<char>>) -> Seq<char> {
    let forwarded = if h.dom().contains("x-forwarded-for"@) {
        first_nonblank_from(h["x-forwarded-for"@], 0)
    } else {
        None
    };
    match forwarded {
        Some(ip) => ip,
        None => match peer {
            Some(p) => p,
            None => "unknown"@,
        },
    }
}

proof fn lemma_find_from_ge(s: Seq<char>, p: Seq<char>, i: int)
    ensures
        find_from(s, p, i) matches Some(j) ==> i <= j && j + p.len() <= s.len(),
    decreases s.len() + 1 - i,
{
    if !(i < 0 || i + p.len() > s.len()) && !crate::text::occurs_at(s, p, i) {
        lemma_find_from_ge(s, p, i + 1);
    }
}

fn first_nonblank(c: &Vec<char>) -> (r: Option<String>)
    ensures
        match first_nonblank_from(c@, 0) {
            Some(p) => r is Some && r->0@ == p,
            None => r is None,
        },
{
    let mut comma: Vec<char> = Vec::new();
    comma.push(',');
    assert(comma@ =~= seq![',']);
    let mut start: usize = 0;
    while start <= c.len()
        invariant
            start <= c.len() + 1,
            comma@ == seq![','],
            first_nonblank_from(c@, 0) == first_nonblank_from(c@, start as int),
        decreases c.len() + 1 - start,
    {
        let end = match find_chars(c, &comma, start) {
            Some(e) => e,
            None => c.len(),
        };
        proof {
            lemma_find_from_ge(c@, seq![','], start as int);
        }
        let a = skip_ws_forward(c, start, end);
        let b = skip_ws_backward(c, a, end);
        proof {
            let s = c@.subrange(start as int, end as int);
            assert(crate::text::trim_start(s) =~= c@.subrange(a as int, end as int));
            assert(trim(s) =~= c@.subrange(a as int, b as int));
        }
        if a < b {
            return Some(string_from_range(c, a, b));
        }
        if end >= c.len() {
            return None;
        }
        start = end + 1;
    }
    None
}

/// Who a request counts against, as [`spec_client_identifier`] says.
pub fn client_identifier(headers: &Headers, peer: Option<String>) -> (r: String)
    ensures
        r@ == spec_client_identifier(headers_view(headers), match peer {
            Some(p) => Some(p@),
            None => None,
        }),
{
    match headers.get("x-forwarded-for") {
        Some(value) => {
            let c = to_chars(value.as_str());
            match first_nonblank(&c) {
                Some(ip) => {
                    return ip;
                },
                None => {},
            }
        },
        None => {},
    }
    match peer {
        Some(p) => p,
        None => "unknown".to_string(),
    }
}

/// `q` without its leading timestamps at or before `cutoff`.
pub open spec fn drop_expired(q: Seq<u64>, cutoff: u64) -> Seq<u64>
    decreases q.len(),
{
    if q.len() > 0 && q[0] <= cutoff { drop_expired(q.drop_first(), cutoff) } else { q }
}

/// The oldest instant still inside the window ending at `now` (`now` itself when
/// the window reaches back before the clock's start).
pub open spec fn window_cutoff(now: u64, window: u64) -> u64 {
    if now >= window { (now - window) as u64 } else { now }
}

/// `std::time::Instant`, a reading of the monotonic clock; opaque to proofs.
#[verifier::external_type_specification]
#[verifier::external_body]
pub struct ExInstant(std::time::Instant);

/// Accepted request times per client, at most `max_requests` within each window.
/// Times are nanoseconds. `allow` measures them with the monotonic clock, from a start
/// that is the system time when the limiter was made; later changes of the system time
/// do not move them.
pub struct RateLimiter {
    max_requests: usize,
    window: u64,
    requests: StrMap<Vec<u64>>,
    started: std::time::Instant,
    started_nanos: u64,
}

impl RateLimiter {
    /// The number of requests accepted per window.
    pub closed spec fn max_requests(&self) -> usize {
        self.max_requests
    }

    /// The window length in nanoseconds.
    pub closed spec fn window(&self) -> u64 {
        self.window
    }

    /// The recorded request times of each client, oldest first.
    pub closed spec fn requests(&self) -> Map<Seq<char>, Seq<u64>> {
        self.requests.map().map_values(|v: Vec<u64>| v@)
    }

    #[verifier::type_invariant]
    closed spec fn inv(&self) -> bool {
        forall|k: Seq<char>| #[trigger] self.requests.map().dom().contains(k)
            ==> self.requests.map()[k]@.len() <= self.max_requests
    }

    /// The recorded times of `key` still inside the window that ends at `now`.
    pub open spec fn kept_times(&self, key: Seq<char>, now: u64) -> Seq<u64> {
        let q = if self.requests().dom().contains(key) { self.requests()[key] } else { Seq::<u64>::empty() };
        drop_expired(q, window_cutoff(now, self.window()))
    }

    /// Whether a request of `key` at `now` is accepted.
    pub open spec fn allows(&self, key: Seq<char>, now: u64) -> bool {
        self.kept_times(key, now).len() < self.max_requests()
    }

    /// The recorded times after a request of `key` at `now`.
    pub open spec fn requests_after(&self, key: Seq<char>, now: u64) -> Map<Seq<char>, Seq<u64>> {
        let kept = self.kept_times(key, now);
        self.requests().insert(key, if self.allows(key, now) { kept.push(now) } else { kept })
    }

    /// A limiter with no recorded requests.
    pub fn new(max_requests: usize, window: u64) -> (r: Self)
        ensures
            r.max_requests() == max_requests,
            r.window() == window,
            r.requests() == Map::<Seq<char>, Seq<u64>>::empty(),
    {
        let started_nanos = clock_nanos();
        let started = instant_now();
        let r = RateLimiter { max_requests, window, requests: StrMap::new(), started, started_nanos };
        assert(r.requests() =~= Map::<Seq<char>, Seq<u64>>::empty());
        r
    }

    /// Records a request of `key` at `now` if fewer than `max_requests` of its requests
    /// lie inside the window; times older than the window are dropped either way.
    pub fn allow_at(&mut self, key: &str, now: u64) -> (allowed: bool)
        ensures
            final(self).max_requests() == old(self).max_requests(),
            final(self).window() == old(self).window(),
            allowed == old(self).allows(key@, now),
            final(self).requests() == old(self).requests_after(key@, now),
            forall|k: Seq<char>| #[trigger] final(self).requests().dom().contains(k)
                ==> final(self).requests()[k].len() <= final(self).max_requests(),
    {
        proof { use_type_invariant(&*self); }
        let cutoff = if now >= self.window { now - self.window } else { now };
        let ghost q = if old(self).requests().dom().contains(key@) {
            old(self).requests()[key@]
        } else {
            Seq::<u64>::empty()
        };
        let mut kept: Vec<u64> = Vec::new();
        match self.requests.get(key) {
            Some(entries) => {
                assert(entries@ == q);
                let mut j: usize = 0;
                assert(entries@.skip(0) =~= entries@);
                while j < entries.len() && entries[j] <= cutoff
                    invariant
                        j <= entries.len(),
                        drop_expired(entries@, cutoff) == drop_expired(entries@.skip(j as int), cutoff),
                    decreases entries.len() - j,
                {
                    assert(entries@.skip(j as int).drop_first() =~= entries@.skip(j + 1));
                    j = j + 1;
                }
                while j < entries.len()
                    invariant
                        j <= entries.len(),
                        kept@ + entries@.skip(j as int) == drop_expired(entries@, cutoff),
                    decreases entries.len() - j,
                {
                    kept.push(entries[j]);
                    assert(entries@.skip(j as int) =~= seq![entries@[j as int]] + entries@.skip(j + 1));
                    j = j + 1;
                    assert(kept@ + entries@.skip(j as int) =~= drop_expired(entries@, cutoff));
                }
                assert(entries@.skip(j as int) =~= Seq::<u64>::empty());
                assert(kept@ =~= drop_expired(q, cutoff));
                proof { lemma_drop_expired_len(q, cutoff); }
            },
            None => {
                assert(kept@ =~= drop_expired(q, cutoff));
            },
        }
        let allowed = kept.len() < self.max_requests;
        if allowed {
            kept.push(now);
        }
        let ghost before = self.requests.map();
        let mut requests = StrMap::new();
        std::mem::swap(&mut requests, &mut self.requests);
        requests.insert(key.to_string(), kept);
        proof {
            assert forall|k: Seq<char>| #[trigger] requests.map().dom().contains(k)
                implies requests.map()[k]@.len() <= self.max_requests by {
                if k != key@ {
                    assert(before.dom().contains(k));
                }
            }
        }
        self.requests = requests;
        assert(self.requests() =~= old(self).requests().insert(key@, kept@));
        allowed
    }

    /// `allow_at` with the current time: the limiter's start plus the time that the
    /// monotonic clock has measured since then.
    pub fn allow(&mut self, key: &str) -> (allowed: bool)
        ensures
            final(self).max_requests() == old(self).max_requests(),
            final(self).window() == old(self).window(),
            exists|now: u64|
                allowed == old(self).allows(key@, now)
                && #[trigger] final(self).requests() == old(self).requests_after(key@, now),
    {
        let now = self.started_nanos.saturating_add(nanos_since(&self.started));
        self.allow_at(key, now)
    }
}

proof fn lemma_drop_all_expired(q: Seq<u64>, cutoff: u64)
    requires
        forall|j: int| 0 <= j < q.len() ==> #[trigger] q[j] <= cutoff,
    ensures
        drop_expired(q, cutoff) == Seq::<u64>::empty(),
    decreases q.len(),
{
    if q.len() > 0 {
        assert forall|j: int| 0 <= j < q.drop_first().len() implies #[trigger] q.drop_first()[j] <= cutoff by {
            assert(q.drop_first()[j] == q[j + 1]);
        }
        lemma_drop_all_expired(q.drop_first(), cutoff);
    }
}

proof fn lemma_drop_expired_keeps_after(q: Seq<u64>, cutoff: u64, k: int)
    requires
        0 <= k < q.len(),
        q[k] > cutoff,
    ensures
        drop_expired(q, cutoff).len() >= q.len() - k,
    decreases q.len(),
{
    if q.len() > 0 && q[0] <= cutoff {
        assert(k > 0);
        assert(q.drop_first()[k - 1] == q[k]);
        lemma_drop_expired_keeps_after(q.drop_first(), cutoff, k - 1);
    }
}

/// The window is a whole window long: while the last `max_requests` recorded requests
/// of a client all lie less than one window before `now` (the window ending at `now`
/// having started after the clock's start), the client is refused.
pub proof fn law_rate_limit_full_window_refuses(limiter: RateLimiter, key: Seq<char>, now: u64)
    requires
        now >= limiter.window(),
        limiter.requests().dom().contains(key),
        limiter.requests()[key].len() >= limiter.max_requests(),
        forall|i: int| limiter.requests()[key].len() - limiter.max_requests() <= i < limiter.requests()[key].len()
            ==> now - limiter.window() < #[trigger] limiter.requests()[key][i],
    ensures
        !limiter.allows(key, now),
{
    let q = limiter.requests()[key];
    let m = limiter.max_requests() as int;
    if m > 0 {
        let k = q.len() - m;
        assert(now - limiter.window() < q[k]);
        lemma_drop_expired_keeps_after(q, window_cutoff(now, limiter.window()), k);
    }
}

/// Each accepted request is counted and the count stays within the limit; a refused
/// request is not recorded: what one request does to the client's recorded times.
pub proof fn law_rate_limit_counts_accepted(limiter: RateLimiter, key: Seq<char>, now: u64)
    ensures
        limiter.requests_after(key, now).dom().contains(key),
        limiter.allows(key, now) ==> {
            &&& limiter.requests_after(key, now)[key].last() == now
            &&& limiter.requests_after(key, now)[key].len() <= limiter.max_requests()
        },
        !limiter.allows(key, now) ==> {
            &&& limiter.requests_after(key, now)[key] == limiter.kept_times(key, now)
            &&& limiter.kept_times(key, now).len() >= limiter.max_requests()
        },
{
}

/// A client is let through again once all its recorded requests lie a whole window
/// back (at or before `now` minus the window).
pub proof fn law_rate_limit_window_passes(limiter: RateLimiter, key: Seq<char>, now: u64)
    requires
        limiter.max_requests() > 0,
        limiter.requests().dom().contains(key) ==> forall|j: int| 0 <= j < limiter.requests()[key].len()
            ==> #[trigger] limiter.requests()[key][j] <= window_cutoff(now, limiter.window()),
    ensures
        limiter.allows(key, now),
{
    let q = if limiter.requests().dom().contains(key) { limiter.requests()[key] } else { Seq::<u64>::empty() };
    lemma_drop_all_expired(q, window_cutoff(now, limiter.window()));
}

/// Reads the monotonic clock with `std::time::Instant::now`. Nothing is stated of the
/// reading: it is whatever the clock shows.
#[verifier::external_body]
fn instant_now() -> std::time::Instant {
    std::time::Instant::now()
}

/// The nanoseconds that the monotonic clock has measured since `start`, with
/// `std::time::Instant::elapsed` (the largest `u64` past that range). Nothing is stated
/// of the value: it depends on when the call is made.
#[verifier::external_body]
fn nanos_since(start: &std::time::Instant) -> u64 {
    u64::try_from(start.elapsed().as_nanos()).unwrap_or(u64::MAX)
}

/// Reads the system clock with `std::time::SystemTime::now` and gives the nanoseconds
/// since the Unix epoch (0 for a clock set before it, the largest `u64` past that range).
/// Nothing is stated of the value: it is whatever the clock reads, and it moves when the
/// system time is set.
#[verifier::external_body]
fn clock_nanos() -> u64 {
    match std::time::SystemTime::now().duration_since(std::time::UNIX_EPOCH) {
        Ok(elapsed) => u64::try_from(elapsed.as_nanos()).unwrap_or(u64::MAX),
        Err(_) => 0,
    }
}

proof fn lemma_drop_expired_len(q: Seq<u64>, cutoff: u64)
    ensures
        drop_expired(q, cutoff).len() <= q.len(),
    decreases q.len(),
{
    if q.len() > 0 && q[0] <= cutoff {
        lemma_drop_expired_len(q.drop_first(), cutoff);
    }
}

/// The lower-case hexadecimal digit for `d < 16`.
pub open spec fn hex_digit(d: nat) -> char {
    if d < 10 { (('0' as nat) + d) as char } else { (('a' as nat) + (d - 10)) as char }
}

/// `n` as four lower-case hexadecimal digits (`{:04x}` for `n < 0x10000`).
pub open spec fn hex4(n: nat) -> Seq<char> {
    seq![hex_digit((n / 4096) % 16), hex_digit((n / 256) % 16), hex_digit((n / 16) % 16), hex_digit(n % 16)]
}

/// How one character is written inside a JSON string.
pub open spec fn escape_char(c: char) -> Seq<char> {
    if c == '"' {
        seq!['\\', '"']
    } else if c == '\\' {
        seq!['\\', '\\']
    } else if c == '\n' {
        seq!['\\', 'n']
    } else if c == '\r' {
        seq!['\\', 'r']
    } else if c == '\t' {
        seq!['\\', 't']
    } else if crate::text::is_control_char(c) {
        seq!['\\', 'u'] + hex4(c as nat)
    } else {
        seq![c]
    }
}

/// `s` written as the inside of a JSON string.
pub open spec fn spec_escape_json(s: Seq<char>) -> Seq<char>
    decreases s.len(),
{
    if s.len() == 0 { seq![] } else { spec_escape_json(s.drop_last()) + escape_char(s.last()) }
}

fn push_hex_digit(out: &mut String, d: u32)
    requires
        d < 16,
    ensures
        final(out)@ == old(out)@.push(hex_digit(d as nat)),
{
    if d < 10 {
        let c = ('0' as u8 + d as u8) as char;
        out.push(c);
    } else {
        let c = ('a' as u8 + (d - 10) as u8) as char;
        out.push(c);
    }
}

/// `value` escaped for a JSON string, as [`spec_escape_json`] says.
pub fn escape_json(value: &str) -> (r: String)
    ensures
        r@ == spec_escape_json(value@),
{
    let c = to_chars(value);
    let mut out = String::new();
    let mut i: usize = 0;
    assert(c@.take(0) =~= Seq::<char>::empty());
    while i < c.len()
        invariant
            i <= c.len(),
            c@ == value@,
            out@ == spec_escape_json(c@.take(i as int)),
        decreases c.len() - i,
    {
        let ch = c[i];
        let ghost before = out@;
        if ch == '"' {
            out.push('\\');
            out.push('"');
        } else if ch == '\\' {
            out.push('\\');
            out.push('\\');
        } else if ch == '\n' {
            out.push('\\');
            out.push('n');
        } else if ch == '\r' {
            out.push('\\');
            out.push('r');
        } else if ch == '\t' {
            out.push('\\');
            out.push('t');
        } else if crate::text::is_control(ch) {
            let n = crate::text::char_code(ch);
            out.push('\\');
            out.push('u');
            push_hex_digit(&mut out, (n / 4096) % 16);
            push_hex_digit(&mut out, (n / 256) % 16);
            push_hex_digit(&mut out, (n / 16) % 16);
            push_hex_digit(&mut out, n % 16);
        } else {
            out.push(ch);
        }
        proof {
            assert(c@.take(i + 1).drop_last() =~= c@.take(i as int));
            assert(c@.take(i + 1).last() == ch);
        }
        i = i + 1;
        assert(out@ =~= before + escape_char(ch));
    }
    assert(c@.take(c.len() as int) =~= c@);
    out
}

/// The value of a hexadecimal digit.
pub open spec fn hex_digit_value(c: char) -> Option<nat> {
    if '0' <= c && c <= '9' {
        Some((c as nat - '0' as nat) as nat)
    } else if 'a' <= c && c <= 'f' {
        Some((c as nat - 'a' as nat + 10) as nat)
    } else if 'A' <= c && c <= 'F' {
        Some((c as nat - 'A' as nat + 10) as nat)
    } else {
        None
    }
}

/// The number written by hexadecimal digits (`None` if one is not a digit).
pub open spec fn hex_digits_value(s: Seq<char>) -> Option<nat>
    decreases s.len(),
{
    if s.len() == 0 {
        Some(0)
    } else {
        match (hex_digits_value(s.drop_last()), hex_digit_value(s.last())) {
            (Some(a), Some(d)) => Some(16 * a + d),
            _ => None,
        }
    }
}

/// `s` read as `u16::from_str_radix(s, 16)` reads it.
pub open spec fn hex_u16(s: Seq<char>) -> Option<nat> {
    let body = if s.len() > 0 && s[0] == '+' { s.drop_first() } else { s };
    if body.len() == 0 {
        None
    } else {
        match hex_digits_value(body) {
            Some(v) => if v <= 0xffff { Some(v) } else { None },
            None => None,
        }
    }
}

/// A Unicode scalar value: not a surrogate and at most `0x10FFFF`.
pub open spec fn is_scalar(v: nat) -> bool {
    v < 0xd800 || (0xe000 <= v && v <= 0x10ffff)
}

/// The character that an escape letter after `\` stands for.
pub open spec fn json_simple_escape(e: char) -> Option<char> {
    if e == '"' { Some('"') }
    else if e == '\\' { Some('\\') }
    else if e == '/' { Some('/') }
    else if e == 'b' { Some('\u{8}') }
    else if e == 'f' { Some('\u{c}') }
    else if e == 'n' { Some('\n') }
    else if e == 'r' { Some('\r') }
    else if e == 't' { Some('\t') }
    else { None }
}

/// The end of the `\u` code starting at `i + 2`: at most four characters.
pub open spec fn unicode_code_end(len: int, i: int) -> int {
    if i + 6 <= len { i + 6 } else { len }
}

/// Decodes a JSON string body from `q[i..]` up to its closing quote, after the
/// characters `acc` already decoded; `None` for a bad escape or a missing quote.
pub open spec fn decode_from(q: Seq<char>, i: int, acc: Seq<char>) -> Option<Seq<char>>
    decreases q.len() - i,
{
    if i < 0 || i >= q.len() {
        None
    } else if q[i] == '"' {
        Some(acc)
    } else if q[i] == '\\' {
        if i + 1 >= q.len() {
            None
        } else if q[i + 1] == 'u' {
            let end = unicode_code_end(q.len() as int, i);
            match hex_u16(q.subrange(i + 2, end)) {
                Some(v) => if is_scalar(v) { decode_from(q, end, acc.push(v as char)) } else { None },
                None => None,
            }
        } else {
            match json_simple_escape(q[i + 1]) {
                Some(c) => decode_from(q, i + 2, acc.push(c)),
                None => None,
            }
        }
    } else {
        decode_from(q, i + 1, acc.push(q[i]))
    }
}

/// The string value of `"field": "..."` in a JSON text: the first occurrence of the
/// quoted field name, the first `:` after it, then a quoted string.
pub open spec fn spec_extract_json_string_field(b: Seq<char>, field: Seq<char>) -> Option<Seq<char>> {
    let pattern = seq!['"'] + field + seq!['"'];
    match find_from(b, pattern, 0) {
        None => None,
        Some(start) => {
            let after = b.skip(start + pattern.len());
            match find_from(after, seq![':'], 0) {
                None => None,
                Some(colon) => {
                    let rest = crate::text::trim_start(after.skip(colon + 1));
                    if rest.len() > 0 && rest[0] == '"' { decode_from(rest, 1, seq![]) } else { None }
                },
            }
        },
    }
}

/// An ASCII hexadecimal digit character, in either case.
pub open spec fn is_hex_char(c: char) -> bool {
    ('0' <= c && c <= '9') || ('a' <= c && c <= 'f') || ('A' <= c && c <= 'F')
}

/// A JSON object text `{"field":"\uDDDD"}` whose one value is a `\u` escape with the
/// code `code`.
pub open spec fn unicode_escape_body(field: Seq<char>, code: Seq<char>) -> Seq<char> {
    seq!['{', '"'] + field + seq!['"', ':', '"', '\\', 'u'] + code + seq!['"', '}']
}

proof fn lemma_hex_digits_lower(d: Seq<char>)
    requires
        forall|k: int| 0 <= k < d.len() ==> is_hex_char(#[trigger] d[k]),
    ensures
        hex_digits_value(d) == hex_digits_value(lower_ascii(d)),
        hex_digits_value(d) is Some,
    decreases d.len(),
{
    if d.len() > 0 {
        let front = d.drop_last();
        assert forall|k: int| 0 <= k < front.len() implies is_hex_char(#[trigger] front[k]) by {
            assert(front[k] == d[k]);
        }
        lemma_hex_digits_lower(front);
        assert(lower_ascii(d).drop_last() =~= lower_ascii(front));
        let c = d.last();
        assert(is_hex_char(c));
        assert(lower_ascii(d).last() == crate::text::ascii_lower(c));
        if 'A' <= c && c <= 'F' {
            let l = crate::text::ascii_lower(c);
            assert(l as nat == c as nat + 32);
            assert('a' <= l && l <= 'f');
        }
        assert(hex_digit_value(c) == hex_digit_value(crate::text::ascii_lower(c)));
    }
}

proof fn lemma_unicode_escape_field(field: Seq<char>, code: Seq<char>)
    requires
        code.len() == 4,
    ensures
        spec_extract_json_string_field(unicode_escape_body(field, code), field) == match hex_u16(code) {
            Some(v) => if is_scalar(v) { Some(seq![v as char]) } else { None },
            None => None,
        },
{
    let b = unicode_escape_body(field, code);
    let pattern = seq!['"'] + field + seq!['"'];
    let n = pattern.len() as int;
    assert(b[0] == '{');
    assert(!crate::text::occurs_at(b, pattern, 0)) by {
        if crate::text::occurs_at(b, pattern, 0) {
            assert(b.subrange(0, n)[0] == b[0]);
        }
    }
    assert(b.subrange(1, 1 + n) =~= pattern);
    assert(find_from(b, pattern, 1) == Some(1int));
    assert(find_from(b, pattern, 0) == Some(1int));
    let after = b.skip(1 + n);
    assert(after =~= seq![':', '"', '\\', 'u'] + code + seq!['"', '}']);
    assert(after.subrange(0, 1) =~= seq![':']);
    assert(find_from(after, seq![':'], 0) == Some(0int));
    let q = after.skip(1);
    assert(q =~= seq!['"', '\\', 'u'] + code + seq!['"', '}']);
    assert(crate::text::leading_ws(q) == 0);
    assert(crate::text::trim_start(q) =~= q);
    assert(q[0] == '"' && q[1] == '\\' && q[2] == 'u');
    assert(q.len() == 9);
    assert(q.subrange(3, 7) =~= code);
    assert(q[7] == '"');
    match hex_u16(code) {
        Some(v) => {
            if is_scalar(v) {
                assert(decode_from(q, 7, seq![].push(v as char)) == Some(seq![].push(v as char)));
                assert(seq![].push(v as char) =~= seq![v as char]);
            }
        },
        None => {},
    }
}

/// `\u` escapes read the same in either case: in `{"field":"\uDDDD"}` with four hex
/// digits `DDDD`, the field's value is the same whether the letters among the digits
/// are upper or lower case (`\u00E9` and `\u00e9` are both `é`).
pub proof fn law_unicode_escape_case_insensitive(field: Seq<char>, code: Seq<char>)
    requires
        code.len() == 4,
        forall|k: int| 0 <= k < code.len() ==> is_hex_char(#[trigger] code[k]),
    ensures
        spec_extract_json_string_field(unicode_escape_body(field, code), field)
            == spec_extract_json_string_field(unicode_escape_body(field, lower_ascii(code)), field),
        spec_extract_json_string_field(unicode_escape_body(field, code), field) is Some
            <==> is_scalar(hex_digits_value(code)->0),
{
    lemma_hex_digits_lower(code);
    let low = lower_ascii(code);
    assert(low.len() == 4);
    assert(code[0] != '+');
    assert(low[0] == crate::text::ascii_lower(code[0]));
    assert(low[0] != '+');
    lemma_unicode_escape_field(field, code);
    lemma_unicode_escape_field(field, low);
    assert(hex_digits_value(code)->0 <= 0xffff) by {
        lemma_hex4_bound(code);
    }
}

proof fn lemma_hex4_bound(d: Seq<char>)
    requires
        d.len() == 4,
        hex_digits_value(d) is Some,
    ensures
        hex_digits_value(d)->0 <= 0xffff,
{
    let d3 = d.drop_last();
    let d2 = d3.drop_last();
    let d1 = d2.drop_last();
    let d0 = d1.drop_last();
    assert(d0.len() == 0);
    assert(hex_digits_value(d0) == Some(0nat));
    assert(hex_digits_value(d3) is Some);
    assert(hex_digits_value(d2) is Some);
    assert(hex_digits_value(d1) is Some);
    assert(hex_digit_value(d1.last())->0 <= 15);
    assert(hex_digits_value(d1)->0 <= 15);
    assert(hex_digit_value(d2.last())->0 <= 15);
    assert(hex_digits_value(d2)->0 <= 255);
    assert(hex_digit_value(d3.last())->0 <= 15);
    assert(hex_digits_value(d3)->0 <= 4095);
    assert(hex_digit_value(d.last())->0 <= 15);
}

/// Calls `char::from_u32`, which gives the character with that code for every
/// Unicode scalar value and `None` otherwise.
#[verifier::external_body]
fn char_from_u32(v: u32) -> (r: Option<char>)
    ensures
        is_scalar(v as nat) ==> r == Some(v as char),
        !is_scalar(v as nat) ==> r is None,
{
    char::from_u32(v)
}

fn hex_value_of(c: char) -> (r: Option<u32>)
    ensures
        match hex_digit_value(c) {
            Some(d) => r == Some(d as u32),
            None => r is None,
        },
{
    if '0' <= c && c <= '9' {
        Some(c as u32 - '0' as u32)
    } else if 'a' <= c && c <= 'f' {
        Some(c as u32 - 'a' as u32 + 10)
    } else if 'A' <= c && c <= 'F' {
        Some(c as u32 - 'A' as u32 + 10)
    } else {
        None
    }
}

fn parse_hex_u16(c: &Vec<char>, from: usize, to: usize) -> (r: Option<u32>)
    requires
        from <= to <= c.len(),
        to - from <= 4,
    ensures
        match hex_u16(c@.subrange(from as int, to as int)) {
            Some(v) => r == Some(v as u32),
            None => r is None,
        },
{
    let ghost s = c@.subrange(from as int, to as int);
    let start = if from < to && c[from] == '+' { from + 1 } else { from };
    let ghost body = c@.subrange(start as int, to as int);
    proof {
        if from < to {
            assert(s[0] == c@[from as int]);
        }
        if start == from + 1 {
            assert(s.drop_first() =~= body);
        } else {
            assert(s =~= body);
        }
    }
    if start == to {
        assert(body.len() == 0);
        assert(s.len() > 0 && s[0] == '+' ==> s.drop_first() == body);
        assert(!(s.len() > 0 && s[0] == '+') ==> s == body);
        return None;
    }
    let mut value: u32 = 0;
    let mut k = start;
    assert(body.take(0) =~= Seq::<char>::empty());
    while k < to
        invariant
            start <= k <= to <= c.len(),
            to - start <= 4,
            body == c@.subrange(start as int, to as int),
            s == c@.subrange(from as int, to as int),
            (s.len() > 0 && s[0] == '+') ==> s.drop_first() == body,
            !(s.len() > 0 && s[0] == '+') ==> s == body,
            hex_digits_value(body.take(k - start)) == Some(value as nat),
            value < pow16((k - start) as nat),
        decreases to - k,
    {
        proof {
            assert(body.take(k + 1 - start).drop_last() =~= body.take(k - start));
            assert(body.take(k + 1 - start).last() == c@[k as int]);
        }
        match hex_value_of(c[k]) {
            Some(d) => {
                proof {
                    assert(pow16((k + 1 - start) as nat) == 16 * pow16((k - start) as nat));
                    lemma_pow16_le4((k - start) as nat);
                    assert(value * 16 + d < 16 * pow16((k - start) as nat)) by (nonlinear_arith)
                        requires value < pow16((k - start) as nat), d < 16;
                }
                value = value * 16 + d;
                k = k + 1;
            },
            None => {
                proof {
                    let t = body.take(k + 1 - start);
                    assert(hex_digit_value(t.last()) is None);
                    assert(hex_digits_value(t) is None);
                    lemma_hex_none_extends(body, k + 1 - start);
                    assert(body.len() > 0);
                    assert(hex_u16(s) is None);
                }
                return None;
            },
        }
    }
    assert(body.take(to - start) =~= body);
    proof {
        lemma_pow16_le4((to - start) as nat);
    }
    Some(value)
}

pub open spec fn pow16(k: nat) -> nat
    decreases k,
{
    if k == 0 { 1 } else { 16 * pow16((k - 1) as nat) }
}

proof fn lemma_pow16_le4(k: nat)
    requires
        k <= 4,
    ensures
        pow16(k) <= 0x10000,
{
    reveal_with_fuel(pow16, 5);
}

proof fn lemma_hex_none_extends(s: Seq<char>, k: int)
    requires
        0 <= k <= s.len(),
        hex_digits_value(s.take(k)) is None,
    ensures
        hex_digits_value(s) is None,
    decreases s.len() - k,
{
    if k < s.len() {
        assert(s.take(k + 1).drop_last() =~= s.take(k));
        lemma_hex_none_extends(s, k + 1);
    } else {
        assert(s.take(k) =~= s);
    }
}

fn decode_json_string(c: &Vec<char>, from: usize) -> (r: Option<String>)
    requires
        from <= c.len(),
    ensures
        match decode_from(c@, from as int, seq![]) {
            Some(v) => r is Some && r->0@ == v,
            None => r is None,
        },
{
    let n = c.len();
    let mut out = String::new();
    let mut i = from;
    while i < n
        invariant
            n == c.len(),
            from <= i <= n,
            decode_from(c@, from as int, seq![]) == decode_from(c@, i as int, out@),
        decreases n - i,
    {
        let ch = c[i];
        if ch == '"' {
            return Some(out);
        } else if ch == '\\' {
            if i + 1 >= n {
                return None;
            }
            let e = c[i + 1];
            if e == 'u' {
                let end = if n - i >= 6 { i + 6 } else { n };
                match parse_hex_u16(c, i + 2, end) {
                    Some(v) => {
                        match char_from_u32(v) {
                            Some(decoded) => {
                                out.push(decoded);
                                i = end;
                            },
                            None => {
                                return None;
                            },
                        }
                    },
                    None => {
                        return None;
                    },
                }
            } else {
                let simple = if e == '"' { Some('"') }
                    else if e == '\\' { Some('\\') }
                    else if e == '/' { Some('/') }
                    else if e == 'b' { Some('\u{8}') }
                    else if e == 'f' { Some('\u{c}') }
                    else if e == 'n' { Some('\n') }
                    else if e == 'r' { Some('\r') }
                    else if e == 't' { Some('\t') }
                    else { None };
                match simple {
                    Some(d) => {
                        out.push(d);
                        i = i + 2;
                    },
                    None => {
                        return None;
                    },
                }
            }
        } else {
            out.push(ch);
            i = i + 1;
        }
    }
    None
}

/// The string value of `field` in `body`, as [`spec_extract_json_string_field`] says.
pub fn extract_json_string_field(body: &str, field: &str) -> (r: Option<String>)
    ensures
        match spec_extract_json_string_field(body@, field@) {
            Some(v) => r is Some && r->0@ == v,
            None => r is None,
        },
{
    let b = to_chars(body);
    let mut pattern: Vec<char> = Vec::new();
    pattern.push('"');
    let f = to_chars(field);
    crate::text::push_chars_vec(&mut pattern, &f);
    pattern.push('"');
    assert(pattern@ =~= seq!['"'] + field@ + seq!['"']);
    proof { lemma_find_from_ge(b@, pattern@, 0); }
    let start = match find_chars(&b, &pattern, 0) {
        Some(s) => s,
        None => {
            return None;
        },
    };
    let after_key = start + pattern.len();
    let ghost after = body@.skip(after_key as int);
    let mut colon_pat: Vec<char> = Vec::new();
    colon_pat.push(':');
    assert(colon_pat@ =~= seq![':']);
    proof {
        lemma_find_from_ge(b@, colon_pat@, after_key as int);
        lemma_find_shift(b@, colon_pat@, after_key as int, 0);
    }
    let colon = match find_chars(&b, &colon_pat, after_key) {
        Some(x) => x,
        None => {
            return None;
        },
    };
    let value_start = skip_ws_forward(&b, colon + 1, b.len());
    proof {
        assert(after.skip(colon - after_key + 1) =~= b@.subrange(colon + 1, b.len() as int));
        let rest = crate::text::trim_start(after.skip(colon - after_key + 1));
        assert(rest =~= b@.skip(value_start as int));
    }
    if value_start < b.len() && b[value_start] == '"' {
        proof {
            lemma_decode_shift(b@, value_start as int + 1, seq![]);
        }
        decode_json_string(&b, value_start + 1)
    } else {
        None
    }
}

/// Finding in a suffix is finding in the whole, shifted.
proof fn lemma_find_shift(s: Seq<char>, p: Seq<char>, off: int, i: int)
    requires
        0 <= off <= s.len(),
        0 <= i,
    ensures
        find_from(s.skip(off), p, i) == (match find_from(s, p, off + i) {
            Some(j) => Some(j - off),
            None => None::<int>,
        }),
    decreases s.len() + 1 - off - i,
{
    let t = s.skip(off);
    if !(i + p.len() > t.len()) {
        assert(crate::text::occurs_at(t, p, i) == crate::text::occurs_at(s, p, off + i)) by {
            if i + p.len() <= t.len() {
                assert(t.subrange(i, i + p.len()) =~= s.subrange(off + i, off + i + p.len()));
            }
        }
        if !crate::text::occurs_at(t, p, i) {
            lemma_find_shift(s, p, off, i + 1);
        }
    }
}

/// Decoding a suffix is decoding the whole from the same position.
proof fn lemma_decode_shift(s: Seq<char>, start: int, acc: Seq<char>)
    requires
        1 <= start <= s.len(),
    ensures
        decode_from(s.skip(start - 1), 1, acc) == decode_from(s, start, acc),
{
    lemma_decode_shift_at(s, start - 1, 1, acc);
}

proof fn lemma_decode_shift_at(s: Seq<char>, off: int, i: int, acc: Seq<char>)
    requires
        0 <= off <= s.len(),
        0 <= i,
    ensures
        decode_from(s.skip(off), i, acc) == decode_from(s, off + i, acc),
    decreases s.len() - off - i,
{
    let t = s.skip(off);
    if i < t.len() {
        assert(t[i] == s[off + i]);
        if i + 1 < t.len() {
            assert(t[i + 1] == s[off + i + 1]);
        }
        if t[i] == '\\' && i + 1 < t.len() && t[i + 1] == 'u' {
            let end = unicode_code_end(t.len() as int, i);
            assert(t.subrange(i + 2, end) =~= s.subrange(off + i + 2, off + end));
            assert(unicode_code_end(s.len() as int, off + i) == off + end);
            match hex_u16(t.subrange(i + 2, end)) {
                Some(v) => {
                    if is_scalar(v) {
                        lemma_decode_shift_at(s, off, end, acc.push(v as char));
                    }
                },
                None => {},
            }
        } else if t[i] == '\\' && i + 1 < t.len() {
            match json_simple_escape(t[i + 1]) {
                Some(c) => {
                    lemma_decode_shift_at(s, off, i + 2, acc.push(c));
                },
                None => {},
            }
        } else if t[i] != '"' && t[i] != '\\' {
            lemma_decode_shift_at(s, off, i + 1, acc.push(t[i]));
        }
    }
}

proof fn lemma_escape_concat(a: Seq<char>, b: Seq<char>)
    ensures
        spec_escape_json(a + b) == spec_escape_json(a) + spec_escape_json(b),
    decreases b.len(),
{
    if b.len() == 0 {
        assert(a + b =~= a);
        assert(spec_escape_json(a) + spec_escape_json(b) =~= spec_escape_json(a));
    } else {
        lemma_escape_concat(a, b.drop_last());
        assert((a + b).drop_last() =~= a + b.drop_last());
        assert(spec_escape_json(a + b) =~= spec_escape_json(a) + spec_escape_json(b));
    }
}

proof fn lemma_escape_front(v: Seq<char>)
    requires
        v.len() > 0,
    ensures
        spec_escape_json(v) == escape_char(v[0]) + spec_escape_json(v.drop_first()),
{
    lemma_escape_concat(seq![v[0]], v.drop_first());
    assert(seq![v[0]] + v.drop_first() =~= v);
    let one = seq![v[0]];
    assert(one.drop_last() =~= Seq::<char>::empty());
    assert(one.last() == v[0]);
    assert(spec_escape_json(one.drop_last()) =~= Seq::<char>::empty());
    assert(spec_escape_json(one) =~= Seq::<char>::empty() + escape_char(v[0]));
    assert(Seq::<char>::empty() + escape_char(v[0]) =~= escape_char(v[0]));
}

proof fn lemma_hex_digit_roundtrip(d: nat)
    requires
        d < 16,
    ensures
        hex_digit_value(hex_digit(d)) == Some(d),
{
}

proof fn lemma_hex4_value(n: nat)
    requires
        n < 0x10000,
    ensures
        hex_u16(hex4(n)) == Some(n),
{
    let a = (n / 4096) % 16;
    let b = (n / 256) % 16;
    let c = (n / 16) % 16;
    let d = n % 16;
    lemma_hex_digit_roundtrip(a);
    lemma_hex_digit_roundtrip(b);
    lemma_hex_digit_roundtrip(c);
    lemma_hex_digit_roundtrip(d);
    let h = hex4(n);
    let h1 = h.drop_last().drop_last().drop_last();
    assert(h1 =~= seq![hex_digit(a)]);
    assert(h1.drop_last() =~= Seq::<char>::empty());
    assert(hex_digits_value(h1.drop_last()) == Some(0nat));
    assert(hex_digits_value(h1) == Some(a));
    assert(h.drop_last().drop_last() =~= seq![hex_digit(a), hex_digit(b)]);
    assert(h.drop_last().drop_last().drop_last() == h1);
    assert(hex_digits_value(h.drop_last().drop_last()) == Some(16 * a + b));
    assert(hex_digits_value(h.drop_last()) == Some(16 * (16 * a + b) + c));
    assert(hex_digits_value(h) == Some(16 * (16 * (16 * a + b) + c) + d));
    assert(16 * (16 * (16 * a + b) + c) + d == n) by (nonlinear_arith)
        requires
            n < 0x10000,
            a == (n / 4096) % 16,
            b == (n / 256) % 16,
            c == (n / 16) % 16,
            d == n % 16,
    {
        assert(n / 4096 < 16);
        assert(n / 256 == 16 * (n / 4096) + b);
        assert(n / 16 == 16 * (n / 256) + c);
        assert(n == 16 * (n / 16) + d);
    }
    assert(h[0] != '+');
}

proof fn lemma_char_nat(c: char)
    ensures
        0 <= c as int,
        (c as nat) as char == c,
{
    vstd::utf8::char_u32_cast(c, c as u32);
    assert((c as u32) as int == c as int);
}

#[verifier::rlimit(40)]
proof fn lemma_decode_escaped(p: Seq<char>, v: Seq<char>, t: Seq<char>, acc: Seq<char>)
    ensures
        decode_from(p + spec_escape_json(v) + seq!['"'] + t, p.len() as int, acc) == Some(acc + v),
    decreases v.len(),
{
    let q = p + spec_escape_json(v) + seq!['"'] + t;
    if v.len() == 0 {
        assert(q[p.len() as int] == '"');
        assert(acc + v =~= acc);
    } else {
        lemma_escape_front(v);
        let c = v[0];
        let e = escape_char(c);
        let p2 = p + e;
        let rest = v.drop_first();
        assert(q =~= p2 + spec_escape_json(rest) + seq!['"'] + t);
        lemma_decode_escaped(p2, rest, t, acc.push(c));
        assert(acc.push(c) + rest =~= acc + v);
        let i = p.len() as int;
        assert(q[i] == e[0]);
        if e.len() >= 2 {
            assert(q[i + 1] == e[1]);
        }
        if crate::text::is_control_char(c) && c != '"' && c != '\\' && c != '\n' && c != '\r' && c != '\t' {
            assert(q.len() >= i + 7);
            assert(unicode_code_end(q.len() as int, i) == i + 6);
            assert(q.subrange(i + 2, i + 6) =~= hex4(c as nat));
            assert((c as int) <= 0x9f);
            lemma_char_nat(c);
            lemma_hex4_value(c as nat);
        }
    }
}

/// Law: a string written with [`escape_json`] as the value of a field is read back
/// unchanged by [`extract_json_string_field`].
pub proof fn law_json_field_roundtrip(field: Seq<char>, value: Seq<char>)
    ensures
        spec_extract_json_string_field(
            seq!['{', '"'] + field + seq!['"', ':', '"'] + spec_escape_json(value) + seq!['"', '}'],
            field,
        ) == Some(value),
{
    let esc = spec_escape_json(value);
    let body = seq!['{', '"'] + field + seq!['"', ':', '"'] + esc + seq!['"', '}'];
    let pattern = seq!['"'] + field + seq!['"'];
    assert(!crate::text::occurs_at(body, pattern, 0)) by {
        if crate::text::occurs_at(body, pattern, 0) {
            assert(body.subrange(0, pattern.len() as int)[0] == body[0]);
        }
    }
    assert(body.subrange(1, 1 + pattern.len() as int) =~= pattern);
    assert(crate::text::occurs_at(body, pattern, 1));
    assert(find_from(body, pattern, 1) == Some(1int));
    assert(find_from(body, pattern, 0) == Some(1int));
    let after = body.skip(1 + pattern.len() as int);
    assert(after =~= seq![':', '"'] + esc + seq!['"', '}']);
    assert(after.subrange(0, 1) =~= seq![':']);
    assert(find_from(after, seq![':'], 0) == Some(0int));
    let tail = after.skip(1);
    assert(tail =~= seq!['"'] + esc + seq!['"', '}']);
    assert(crate::text::leading_ws(tail) == 0);
    assert(tail.skip(0) =~= tail);
    lemma_decode_escaped(seq!['"'], value, seq!['}'], seq![]);
    assert(seq!['"'] + esc + seq!['"'] + seq!['}'] =~= tail);
    assert(Seq::<char>::empty() + value =~= value);
}

/// The session and command of an `/execute` body: a JSON object with `session_id`
/// (default `default`) and `command` (default empty), or else plain text that is
/// the command for the default session.
pub open spec fn spec_parse_execute_request(body: Seq<char>) -> (Seq<char>, Seq<char>) {
    let t = trim(body);
    if t.len() > 0 && t[0] == '{' {
        (
            match spec_extract_json_string_field(t, "session_id"@) { Some(s) => s, None => "default"@ },
            match spec_extract_json_string_field(t, "command"@) { Some(c) => c, None => seq![] },
        )
    } else {
        ("default"@, body)
    }
}

/// The session and command of a request body, as [`spec_parse_execute_request`] says.
pub fn parse_execute_request(body: &str) -> (r: (String, String))
    ensures
        (r.0@, r.1@) == spec_parse_execute_request(body@),
{
    let t = trimmed(body);
    let tc = to_chars(t.as_str());
    if tc.len() > 0 && tc[0] == '{' {
        let session_id = match extract_json_string_field(t.as_str(), "session_id") {
            Some(s) => s,
            None => "default".to_string(),
        };
        let command = match extract_json_string_field(t.as_str(), "command") {
            Some(c) => c,
            None => String::new(),
        };
        (session_id, command)
    } else {
        ("default".to_string(), body.to_string())
    }
}

/// The reason phrase of a status code.
pub open spec fn reason_phrase(status: u16) -> Seq<char> {
    if status == 200 { "OK"@ }
    else if status == 401 { "Unauthorized"@ }
    else if status == 429 { "Too Many Requests"@ }
    else if status == 400 { "Bad Request"@ }
    else if status == 404 { "Not Found"@ }
    else { "Internal Server Error"@ }
}

fn reason(status: u16) -> (r: &'static str)
    ensures
        r@ == reason_phrase(status),
{
    if status == 200 { "OK" }
    else if status == 401 { "Unauthorized" }
    else if status == 429 { "Too Many Requests" }
    else if status == 400 { "Bad Request" }
    else if status == 404 { "Not Found" }
    else { "Internal Server Error" }
}

/// The header lines for the extra headers.
pub open spec fn header_lines(h: Seq<(Seq<char>, Seq<char>)>) -> Seq<char>
    decreases h.len(),
{
    if h.len() == 0 { seq![] } else { header_lines(h.drop_last()) + h.last().0 + ": "@ + h.last().1 + "\r\n"@ }
}

/// An HTTP response with a JSON body.
pub struct Response {
    pub status: u16,
    pub headers: Vec<(String, String)>,
    pub body: String,
}

/// The bytes of an HTTP/1.1 response, as text: status line, content type, the body's
/// length in UTF-8 bytes, `Connection: close`, the extra headers, a blank line, the body.
pub open spec fn spec_render_response(status: u16, headers: Seq<(Seq<char>, Seq<char>)>, body: Seq<char>) -> Seq<char> {
    "HTTP/1.1 "@ + crate::text::decimal(status as nat) + seq![' '] + reason_phrase(status)
        + "\r\nContent-Type: application/json\r\nContent-Length: "@
        + crate::text::decimal((vstd::utf8::encode_utf8(body).len() as usize) as nat) + "\r\nConnection: close\r\n"@
        + header_lines(headers) + "\r\n"@ + body
}

impl Response {
    /// The response as it is sent, as [`spec_render_response`] says.
    pub fn render(&self) -> (r: String)
        ensures
            r@ == spec_render_response(self.status, crate::strmap::pairs_view(self.headers@), self.body@),
    {
        let mut out = "HTTP/1.1 ".to_string();
        crate::text::push_decimal(&mut out, self.status as u64);
        out.push(' ');
        crate::text::push_str(&mut out, reason(self.status));
        crate::text::push_str(&mut out, "\r\nContent-Type: application/json\r\nContent-Length: ");
        let byte_len = self.body.as_str().len();
        assert(byte_len == vstd::utf8::encode_utf8(self.body@).len() as usize);
        crate::text::push_decimal(&mut out, byte_len as u64);
        crate::text::push_str(&mut out, "\r\nConnection: close\r\n");
        let ghost prefix = out@;
        let ghost h = crate::strmap::pairs_view(self.headers@);
        let mut i: usize = 0;
        assert(h.take(0) =~= Seq::<(Seq<char>, Seq<char>)>::empty());
        assert(out@ =~= prefix + header_lines(h.take(0)));
        while i < self.headers.len()
            invariant
                i <= self.headers.len(),
                h == crate::strmap::pairs_view(self.headers@),
                out@ == prefix + header_lines(h.take(i as int)),
            decreases self.headers.len() - i,
        {
            proof {
                assert(h.take(i + 1).drop_last() =~= h.take(i as int));
                assert(h.take(i + 1).last() == (self.headers@[i as int].0@, self.headers@[i as int].1@));
            }
            crate::text::push_str(&mut out, self.headers[i].0.as_str());
            crate::text::push_str(&mut out, ": ");
            crate::text::push_str(&mut out, self.headers[i].1.as_str());
            crate::text::push_str(&mut out, "\r\n");
            i = i + 1;
            assert(out@ =~= prefix + header_lines(h.take(i as int)));
        }
        assert(h.take(self.headers.len() as int) =~= h);
        crate::text::push_str(&mut out, "\r\n");
        crate::text::push_str(&mut out, self.body.as_str());
        assert(out@ =~= spec_render_response(self.status, h, self.body@));
        out
    }

    /// A response with a body and no extra headers.
    pub fn json(status: u16, body: &str) -> (r: Response)
        ensures
            r.status == status,
            r.headers@.len() == 0,
            r.body@ == body@,
    {
        Response { status, headers: Vec::new(), body: body.to_string() }
    }
}

/// `v` in decimal, with a `-` when negative.
pub open spec fn signed_decimal(v: int) -> Seq<char> {
    if v < 0 { seq!['-'] + crate::text::decimal((-v) as nat) } else { crate::text::decimal(v as nat) }
}

fn push_signed(out: &mut String, v: i32)
    ensures
        final(out)@ == old(out)@ + signed_decimal(v as int),
{
    if v < 0 {
        out.push('-');
        let magnitude: u64 = (0i64 - (v as i64)) as u64;
        crate::text::push_decimal(out, magnitude);
        assert(out@ =~= old(out)@ + signed_decimal(v as int));
    } else {
        crate::text::push_decimal(out, v as u64);
    }
}

/// The JSON reply to `/execute`.
pub open spec fn spec_execute_response(
    session_id: Seq<char>,
    command: Seq<char>,
    stdout: Seq<char>,
    stderr: Seq<char>,
    exit_code: i32,
    current_dir: Seq<char>,
    should_exit: bool,
) -> Seq<char> {
    "{\"session_id\":\""@ + spec_escape_json(session_id)
        + "\",\"command\":\""@ + spec_escape_json(command)
        + "\",\"stdout\":\""@ + spec_escape_json(stdout)
        + "\",\"stderr\":\""@ + spec_escape_json(stderr)
        + "\",\"exit_code\":"@ + signed_decimal(exit_code as int)
        + ",\"current_dir\":\""@ + spec_escape_json(current_dir)
        + "\",\"should_exit\":"@ + (if should_exit { "true"@ } else { "false"@ })
        + "}"@
}

/// The JSON reply to `/execute` for a result, as [`spec_execute_response`] says.
pub fn render_execute_response(session_id: &str, command: &str, result: &crate::engine::ExecutionResult) -> (r: String)
    ensures
        r@ == spec_execute_response(
            session_id@,
            command@,
            result.stdout@,
            result.stderr@,
            result.exit_code,
            result.current_dir@,
            result.should_exit,
        ),
{
    let mut out = "{\"session_id\":\"".to_string();
    crate::text::push_str(&mut out, escape_json(session_id).as_str());
    crate::text::push_str(&mut out, "\",\"command\":\"");
    crate::text::push_str(&mut out, escape_json(command).as_str());
    crate::text::push_str(&mut out, "\",\"stdout\":\"");
    crate::text::push_str(&mut out, escape_json(result.stdout.as_str()).as_str());
    crate::text::push_str(&mut out, "\",\"stderr\":\"");
    crate::text::push_str(&mut out, escape_json(result.stderr.as_str()).as_str());
    crate::text::push_str(&mut out, "\",\"exit_code\":");
    push_signed(&mut out, result.exit_code);
    crate::text::push_str(&mut out, ",\"current_dir\":\"");
    crate::text::push_str(&mut out, escape_json(result.current_dir.as_str()).as_str());
    crate::text::push_str(&mut out, "\",\"should_exit\":");
    crate::text::push_str(&mut out, if result.should_exit { "true" } else { "false" });
    crate::text::push_str(&mut out, "}");
    out
}

/// The value of a setting: its default when unset, else a non-negative decimal number.
pub open spec fn spec_setting(name: Seq<char>, value: Option<Seq<char>>, default: nat, max: nat) -> Result<nat, Seq<char>> {
    match value {
        None => Ok(default),
        Some(v) => match crate::text::unsigned_value(v) {
            Some(n) => if n <= max {
                Ok(n)
            } else {
                Err(name + " must be a positive integer, got '"@ + v + seq!['\''])
            },
            None => Err(name + " must be a positive integer, got '"@ + v + seq!['\'']),
        },
    }
}

fn setting_error(name: &str, value: &str) -> (r: String)
    ensures
        r@ == name@ + " must be a positive integer, got '"@ + value@ + seq!['\''],
{
    let mut m = name.to_string();
    crate::text::push_str(&mut m, " must be a positive integer, got '");
    crate::text::push_str(&mut m, value);
    m.push('\'');
    m
}

/// A `usize` setting, as [`spec_setting`] says.
pub fn parse_env_usize(name: &str, value: Option<String>, default: usize) -> (r: Result<usize, String>)
    ensures
        match spec_setting(name@, crate::builtins::opt_view(value), default as nat, usize::MAX as nat) {
            Ok(n) => r is Ok && r->Ok_0 == n,
            Err(e) => r is Err && r->Err_0@ == e,
        },
{
    match value {
        None => Ok(default),
        Some(v) => match crate::text::parse_u64(v.as_str()) {
            Some(n) => if n <= usize::MAX as u64 {
                Ok(n as usize)
            } else {
                Err(setting_error(name, v.as_str()))
            },
            None => Err(setting_error(name, v.as_str())),
        },
    }
}

/// A `u64` setting, as [`spec_setting`] says.
pub fn parse_env_u64(name: &str, value: Option<String>, default: u64) -> (r: Result<u64, String>)
    ensures
        match spec_setting(name@, crate::builtins::opt_view(value), default as nat, u64::MAX as nat) {
            Ok(n) => r is Ok && r->Ok_0 == n,
            Err(e) => r is Err && r->Err_0@ == e,
        },
{
    match value {
        None => Ok(default),
        Some(v) => match crate::text::parse_u64(v.as_str()) {
            Some(n) => Ok(n),
            None => Err(setting_error(name, v.as_str())),
        },
    }
}

/// Nanoseconds in `secs` seconds, or the largest `u64` when that does not fit.
pub open spec fn window_nanos(secs: u64) -> u64 {
    if secs * 1_000_000_000 <= u64::MAX { (secs * 1_000_000_000) as u64 } else { u64::MAX }
}

/// The API key and the rate limit of the server.
pub struct ServerSecurity {
    pub api_key: String,
    pub rate_limit_max_requests: usize,
    pub rate_limit_window_secs: u64,
    pub rate_limiter: RateLimiter,
}

/// The settings of the server from the values of `BYOSHELL_API_KEY`,
/// `BYOSHELL_RATE_LIMIT_MAX_REQUESTS` (default 60) and
/// `BYOSHELL_RATE_LIMIT_WINDOW_SECS` (default 60), or the first error.
pub open spec fn spec_security(
    api_key: Option<Seq<char>>,
    max_requests: Option<Seq<char>>,
    window_secs: Option<Seq<char>>,
) -> Result<(Seq<char>, nat, nat), Seq<char>> {
    match api_key {
        None => Err("missing BYOSHELL_API_KEY environment variable"@),
        Some(k) => if trim(k).len() == 0 {
            Err("BYOSHELL_API_KEY cannot be empty"@)
        } else {
            match spec_setting("BYOSHELL_RATE_LIMIT_MAX_REQUESTS"@, max_requests, 60, usize::MAX as nat) {
                Err(e) => Err(e),
                Ok(m) => match spec_setting("BYOSHELL_RATE_LIMIT_WINDOW_SECS"@, window_secs, 60, u64::MAX as nat) {
                    Err(e) => Err(e),
                    Ok(w) => if m == 0 {
                        Err("BYOSHELL_RATE_LIMIT_MAX_REQUESTS must be greater than 0"@)
                    } else if w == 0 {
                        Err("BYOSHELL_RATE_LIMIT_WINDOW_SECS must be greater than 0"@)
                    } else {
                        Ok((k, m, w))
                    },
                },
            }
        },
    }
}

impl ServerSecurity {
    /// The server's settings, as [`spec_security`] says, with an empty rate limiter.
    pub fn from_settings(api_key: Option<String>, max_requests: Option<String>, window_secs: Option<String>) -> (r: Result<ServerSecurity, String>)
        ensures
            match spec_security(
                crate::builtins::opt_view(api_key),
                crate::builtins::opt_view(max_requests),
                crate::builtins::opt_view(window_secs),
            ) {
                Ok((k, m, w)) => r is Ok && r->Ok_0.api_key@ == k && r->Ok_0.rate_limit_max_requests == m
                    && r->Ok_0.rate_limit_window_secs == w
                    && r->Ok_0.rate_limiter.max_requests() == m
                    && r->Ok_0.rate_limiter.window() == window_nanos(w as u64)
                    && r->Ok_0.rate_limiter.requests() == Map::<Seq<char>, Seq<u64>>::empty(),
                Err(e) => r is Err && r->Err_0@ == e,
            },
    {
        let api_key = match api_key {
            Some(k) => k,
            None => {
                return Err("missing BYOSHELL_API_KEY environment variable".to_string());
            },
        };
        if trimmed(api_key.as_str()).as_str().is_empty() {
            return Err("BYOSHELL_API_KEY cannot be empty".to_string());
        }
        let rate_limit_max_requests = parse_env_usize("BYOSHELL_RATE_LIMIT_MAX_REQUESTS", max_requests, 60)?;
        let rate_limit_window_secs = parse_env_u64("BYOSHELL_RATE_LIMIT_WINDOW_SECS", window_secs, 60)?;
        if rate_limit_max_requests == 0 {
            return Err("BYOSHELL_RATE_LIMIT_MAX_REQUESTS must be greater than 0".to_string());
        }
        if rate_limit_window_secs == 0 {
            return Err("BYOSHELL_RATE_LIMIT_WINDOW_SECS must be greater than 0".to_string());
        }
        let window = match rate_limit_window_secs.checked_mul(1_000_000_000) {
            Some(n) => n,
            None => u64::MAX,
        };
        Ok(ServerSecurity {
            api_key,
            rate_limit_max_requests,
            rate_limit_window_secs,
            rate_limiter: RateLimiter::new(rate_limit_max_requests, window),
        })
    }

    /// Counts a request of `client_id` at `now` (nanoseconds); whether it is allowed.
    pub fn check_rate_limit(&mut self, client_id: &str, now: u64) -> (allowed: bool)
        ensures
            allowed == old(self).rate_limiter.allows(client_id@, now),
            final(self).rate_limiter.requests() == old(self).rate_limiter.requests_after(client_id@, now),
            final(self).rate_limiter.max_requests() == old(self).rate_limiter.max_requests(),
            final(self).rate_limiter.window() == old(self).rate_limiter.window(),
            final(self).api_key == old(self).api_key,
            final(self).rate_limit_max_requests == old(self).rate_limit_max_requests,
            final(self).rate_limit_window_secs == old(self).rate_limit_window_secs,
    {
        self.rate_limiter.allow_at(client_id, now)
    }

    /// Lets a request through or answers it at once: `GET /health` is always let through; other
    /// requests need the API key (else 401) and room in the client's rate limit
    /// (else 429, with `Retry-After`). Only requests that reach the rate check count against the limit.
    pub fn screen_request(&mut self, method: &str, path: &str, headers: &Headers, client_id: &str, now: u64) -> (r: Option<Response>)
        ensures
            final(self).api_key == old(self).api_key,
            final(self).rate_limit_max_requests == old(self).rate_limit_max_requests,
            final(self).rate_limit_window_secs == old(self).rate_limit_window_secs,
            final(self).rate_limiter.max_requests() == old(self).rate_limiter.max_requests(),
            final(self).rate_limiter.window() == old(self).rate_limiter.window(),
            if method@ == "GET"@ && path@ == "/health"@ {
                r is None && final(self).rate_limiter.requests() == old(self).rate_limiter.requests()
            } else if !spec_is_authorized(headers_view(headers), old(self).api_key@) {
                &&& r matches Some(resp) && resp.status == 401
                    && crate::strmap::pairs_view(resp.headers@) == seq![("WWW-Authenticate"@, "Bearer"@)]
                    && resp.body@ == "{\"error\":\"unauthorized\"}"@
                &&& final(self).rate_limiter.requests() == old(self).rate_limiter.requests()
            } else {
                &&& final(self).rate_limiter.requests() == old(self).rate_limiter.requests_after(client_id@, now)
                &&& if old(self).rate_limiter.allows(client_id@, now) {
                    r is None
                } else {
                    r matches Some(resp) && resp.status == 429
                        && crate::strmap::pairs_view(resp.headers@)
                            == seq![("Retry-After"@, crate::text::decimal(old(self).rate_limit_window_secs as nat))]
                        && resp.body@ == "{\"error\":\"rate limit exceeded\",\"limit\":"@
                            + crate::text::decimal(old(self).rate_limit_max_requests as nat)
                            + ",\"window_seconds\":"@ + crate::text::decimal(old(self).rate_limit_window_secs as nat)
                            + seq!['}']
                }
            },
    {
        if str_eq(method, "GET") && str_eq(path, "/health") {
            return None;
        }
        if !is_authorized(headers, self.api_key.as_str()) {
            let mut h: Vec<(String, String)> = Vec::new();
            h.push(("WWW-Authenticate".to_string(), "Bearer".to_string()));
            assert(crate::strmap::pairs_view(h@) =~= seq![("WWW-Authenticate"@, "Bearer"@)]);
            return Some(Response { status: 401, headers: h, body: "{\"error\":\"unauthorized\"}".to_string() });
        }
        if self.check_rate_limit(client_id, now) {
            return None;
        }
        let mut secs = String::new();
        crate::text::push_decimal(&mut secs, self.rate_limit_window_secs);
        let mut h: Vec<(String, String)> = Vec::new();
        h.push(("Retry-After".to_string(), secs));
        assert(crate::strmap::pairs_view(h@) =~= seq![("Retry-After"@, crate::text::decimal(self.rate_limit_window_secs as nat))]);
        let mut body = "{\"error\":\"rate limit exceeded\",\"limit\":".to_string();
        crate::text::push_decimal(&mut body, self.rate_limit_max_requests as u64);
        crate::text::push_str(&mut body, ",\"window_seconds\":");
        crate::text::push_decimal(&mut body, self.rate_limit_window_secs);
        body.push('}');
        Some(Response { status: 429, headers: h, body })
    }
}

/// Where a request that was let through goes.
pub enum Route {
    /// Answer with this response.
    Reply(Response),
    /// Run `command` in the session `session_id` and answer with the result.
    Execute { session_id: String, command: String },
}

/// `GET /health` answers `{"status":"ok"}`; `POST /execute` runs the command of its
/// body (400 when it is blank); anything else is 404.
pub fn route_request(method: &str, path: &str, body: &str) -> (r: Route)
    ensures
        if method@ == "GET"@ && path@ == "/health"@ {
            r matches Route::Reply(resp) && resp.status == 200 && resp.headers@.len() == 0
                && resp.body@ == "{\"status\":\"ok\"}"@
        } else if method@ == "POST"@ && path@ == "/execute"@ {
            let (sid, cmd) = spec_parse_execute_request(body@);
            if trim(cmd).len() == 0 {
                r matches Route::Reply(resp) && resp.status == 400 && resp.headers@.len() == 0
                    && resp.body@ == "{\"error\":\"missing command\"}"@
            } else {
                r matches Route::Execute { session_id, command } && session_id@ == sid && command@ == cmd
            }
        } else {
            r matches Route::Reply(resp) && resp.status == 404 && resp.headers@.len() == 0
                && resp.body@ == "{\"error\":\"not found\"}"@
        },
{
    if str_eq(method, "GET") && str_eq(path, "/health") {
        return Route::Reply(Response::json(200, "{\"status\":\"ok\"}"));
    }
    if str_eq(method, "POST") && str_eq(path, "/execute") {
        let (session_id, command) = parse_execute_request(body);
        if trimmed(command.as_str()).as_str().is_empty() {
            return Route::Reply(Response::json(400, "{\"error\":\"missing command\"}"));
        }
        return Route::Execute { session_id, command };
    }
    Route::Reply(Response::json(404, "{\"error\":\"not found\"}"))
}

} // verus!
