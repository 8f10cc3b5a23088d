//! Per-client fixed-window rate limiting.
//!
//! Each client address gets one counter per window of `window_secs`
//! seconds. The counter lives under the key `"{ip}#{bucket}"`, where
//! `bucket = now / window_secs`, and the store keeps it one window past the
//! window's end. A request is served while the counter, after counting it,
//! is at most `max_requests`; the response then carries the `RateLimit-*`
//! headers. Beyond that the request is answered `429` with `Retry-After`.
//! A request without a known client address is served untouched (fail
//! open); a counter that cannot be read is answered `500` (fail closed).
//!
//! The store call and the inner handler are asynchronous work that the
//! caller performs: [`RateLimitConfig::plan_request`] says what to count,
//! and [`CounterRequest::decide`] turns the counter value into the answer.

use std::sync::Arc;

use vstd::prelude::*;
use vstd::string::*;

use crate::headers::{
    header_insert, header_map_fields, header_name_count, header_value_from_str, insert_name_limit, is_header_name_text,
    is_header_value_text, lower_header_name,
};
use crate::numeric_text::{
    all_digits, decimal_string, decimal_text, digits_value, lemma_decimal_text_value, parse_u32,
    parse_u32_text, push_char,
};

verus! {

/// Static, cheap-to-clone configuration of the limiter.
#[derive(Clone)]
pub struct RateLimitConfig {
    pub table_name: String,
    pub max_requests: u32,
    pub window_secs: u64,
}

/// `a + b`, held at `u64::MAX`.
pub open spec fn sat_add(a: u64, b: u64) -> u64 {
    if a + b > u64::MAX {
        u64::MAX
    } else {
        (a + b) as u64
    }
}

/// `a - b`, held at zero.
pub open spec fn sat_sub(a: u64, b: u64) -> u64 {
    if a < b {
        0
    } else {
        (a - b) as u64
    }
}

/// `a * b`, held at `u64::MAX`.
pub open spec fn sat_mul(a: u64, b: u64) -> u64 {
    if a * b > u64::MAX {
        u64::MAX
    } else {
        (a * b) as u64
    }
}

/// The window length in use: the configured one, at least one second.
pub open spec fn window_length(window_secs: u64) -> u64 {
    if window_secs < 1 {
        1
    } else {
        window_secs
    }
}

/// The fixed window that holds one instant.
#[derive(Clone, Copy, PartialEq, Eq, Structural, Debug)]
pub struct CounterWindow {
    /// The window's number: `now / window`.
    pub bucket: u64,
    /// The first second of the next window (epoch seconds).
    pub reset_at: u64,
    /// Seconds from now until `reset_at`.
    pub seconds_until_reset: u64,
    /// When the store may drop the counter: one window after `reset_at`.
    pub ttl: u64,
}

/// The window that holds `now` (epoch seconds), for windows of
/// `window_secs` seconds; every sum and product is held at `u64::MAX`.
pub open spec fn counter_window_at(now: u64, window_secs: u64) -> CounterWindow {
    let w = window_length(window_secs);
    let bucket = now / w;
    let reset_at = sat_mul(sat_add(bucket, 1), w);
    CounterWindow {
        bucket,
        reset_at,
        seconds_until_reset: sat_sub(reset_at, now),
        ttl: sat_add(reset_at, w),
    }
}

fn saturating_mul_u64(a: u64, b: u64) -> (r: u64)
    ensures
        r == sat_mul(a, b),
{
    match a.checked_mul(b) {
        Some(v) => v,
        None => u64::MAX,
    }
}

/// The window that holds `now`.
pub fn counter_window(now: u64, window_secs: u64) -> (cw: CounterWindow)
    ensures
        cw == counter_window_at(now, window_secs),
        window_secs >= 1 ==> cw.bucket == now / window_secs,
        window_secs == 0 ==> cw.bucket == now,
        window_secs >= 1 && (cw.bucket + 2) * window_secs <= u64::MAX ==> cw.reset_at == (cw.bucket
            + 1) * window_secs && cw.seconds_until_reset == cw.reset_at - now && cw.ttl == cw.reset_at
            + window_secs,
{
    let window = if window_secs < 1 {
        1
    } else {
        window_secs
    };
    let bucket = now / window;
    let reset_at = saturating_mul_u64(bucket.saturating_add(1), window);
    let seconds_until_reset = reset_at.saturating_sub(now);
    let ttl = reset_at.saturating_add(window);
    proof {
        if window_secs >= 1 && (bucket + 2) * window_secs <= u64::MAX {
            lemma_window_holds_instant(now, window_secs);
        }
    }
    CounterWindow { bucket, reset_at, seconds_until_reset, ttl }
}

/// The counter key of a client in a window: `"{ip}#{bucket}"`.
pub open spec fn counter_key_text(ip: Seq<char>, bucket: u64) -> Seq<char> {
    ip + seq!['#'] + decimal_text(bucket as nat)
}

/// The counter key of the client `ip` in the window `bucket`.
pub fn counter_key(ip: &str, bucket: u64) -> (key: String)
    ensures
        key@ == counter_key_text(ip@, bucket),
{
    let mut key = ip.to_owned();
    push_char(&mut key, '#');
    let digits = decimal_string(bucket);
    key.append(digits.as_str());
    key
}

/// An instant belongs to its window: the window starts at or before it and
/// resets after it, at most one window length later, and the counter is kept
/// one more window after the reset. Stated where no sum or product reaches
/// `u64::MAX`.
pub proof fn lemma_window_holds_instant(now: u64, window_secs: u64)
    requires
        (now / window_length(window_secs) + 2) * window_length(window_secs) <= u64::MAX,
    ensures
        ({
            let cw = counter_window_at(now, window_secs);
            let w = window_length(window_secs);
            &&& cw.bucket * w <= now < cw.reset_at
            &&& cw.reset_at == (cw.bucket + 1) * w
            &&& cw.seconds_until_reset == cw.reset_at - now
            &&& 0 < cw.seconds_until_reset <= w
            &&& cw.ttl == cw.reset_at + w
        }),
{
    let w = window_length(window_secs) as int;
    let q = now as int / w;
    vstd::arithmetic::div_mod::lemma_fundamental_div_mod(now as int, w);
    vstd::arithmetic::div_mod::lemma_mod_bound(now as int, w);
    assert((q + 2) * w == (q + 1) * w + w) by (nonlinear_arith);
    assert((q + 1) * w == q * w + w) by (nonlinear_arith);
    assert(w * q == q * w) by (nonlinear_arith);
}

/// Two instants in one window, `[bucket * w, (bucket + 1) * w)`, fall in the
/// same window: same bucket, same reset time, same counter lifetime.
pub proof fn lemma_same_window_same_counter(t1: u64, t2: u64, window_secs: u64)
    requires
        (t1 / window_length(window_secs)) * window_length(window_secs) <= t2,
        t2 < (t1 / window_length(window_secs) + 1) * window_length(window_secs),
    ensures
        counter_window_at(t2, window_secs).bucket == counter_window_at(t1, window_secs).bucket,
        counter_window_at(t2, window_secs).reset_at == counter_window_at(t1, window_secs).reset_at,
        counter_window_at(t2, window_secs).ttl == counter_window_at(t1, window_secs).ttl,
{
    let w = window_length(window_secs) as int;
    let q = t1 as int / w;
    let r = t2 as int - q * w;
    assert(t2 as int == q * w + r);
    assert(r < w) by (nonlinear_arith)
        requires
            t2 < (q + 1) * w,
            r == t2 - q * w,
    ;
    vstd::arithmetic::div_mod::lemma_fundamental_div_mod_converse(t2 as int, w, q, r);
}

/// Different clients, or one client in different windows, never share a
/// counter key (client addresses hold no `#`, as no IP address text does).
pub proof fn lemma_counter_key_injective(ip1: Seq<char>, bucket1: u64, ip2: Seq<char>, bucket2: u64)
    requires
        !ip1.contains('#'),
        !ip2.contains('#'),
        counter_key_text(ip1, bucket1) == counter_key_text(ip2, bucket2),
    ensures
        ip1 == ip2,
        bucket1 == bucket2,
{
    let k1 = counter_key_text(ip1, bucket1);
    let k2 = counter_key_text(ip2, bucket2);
    if ip1.len() < ip2.len() {
        assert(k1[ip1.len() as int] == '#');
        assert(k2[ip1.len() as int] == ip2[ip1.len() as int]);
        assert(ip2.contains(ip2[ip1.len() as int]));
    } else if ip2.len() < ip1.len() {
        assert(k2[ip2.len() as int] == '#');
        assert(k1[ip2.len() as int] == ip1[ip2.len() as int]);
        assert(ip1.contains(ip1[ip2.len() as int]));
    }
    assert(ip1.len() == ip2.len());
    assert(ip1 =~= k1.take(ip1.len() as int));
    assert(ip2 =~= k2.take(ip2.len() as int));
    assert(decimal_text(bucket1 as nat) =~= k1.skip(ip1.len() + 1int));
    assert(decimal_text(bucket2 as nat) =~= k2.skip(ip2.len() + 1int));
    lemma_decimal_text_value(bucket1 as nat);
    lemma_decimal_text_value(bucket2 as nat);
}

/// What to do with an incoming request.
pub enum Step {
    /// No client address is known: serve the request untouched, without
    /// counting it and without rate-limit headers.
    PassThrough,
    /// Count the request in the store, then pass the counter to
    /// [`CounterRequest::decide`].
    Count(CounterRequest),
}

/// The counter to increment for one request, and what the answer needs.
pub struct CounterRequest {
    /// The store's table.
    pub table_name: String,
    /// The counter's key, `"{ip}#{bucket}"`.
    pub key: String,
    /// When the store may drop the counter (epoch seconds).
    pub ttl: u64,
    /// The most requests a client may make in one window.
    pub limit: u32,
    /// The window that holds the request.
    pub window: CounterWindow,
}

impl RateLimitConfig {
    /// Decides what to count for a request from `client_ip` (its address
    /// text, if one is known) arriving at `now` (epoch seconds).
    pub fn plan_request(&self, client_ip: Option<&str>, now: u64) -> (step: Step)
        ensures
            client_ip is None ==> step is PassThrough,
            client_ip matches Some(ip) ==> step matches Step::Count(req) && {
                let cw = counter_window_at(now, self.window_secs);
                &&& req.table_name@ == self.table_name@
                &&& req.key@ == counter_key_text(ip@, cw.bucket)
                &&& req.ttl == cw.ttl
                &&& req.limit == self.max_requests
                &&& req.window == cw
            },
    {
        match client_ip {
            None => Step::PassThrough,
            Some(ip) => {
                let window = counter_window(now, self.window_secs);
                let key = counter_key(ip, window.bucket);
                Step::Count(
                    CounterRequest {
                        table_name: self.table_name.clone(),
                        key,
                        ttl: window.ttl,
                        limit: self.max_requests,
                        window,
                    },
                )
            },
        }
    }
}

/// The answer to a counted request.
#[derive(Clone, Copy, PartialEq, Eq, Structural, Debug)]
pub enum Decision {
    /// Serve the request, and add the rate-limit headers to its response.
    Allow { limit: u32, remaining: u32, reset_at: u64 },
    /// Answer `429 Too Many Requests` without serving the request.
    Reject { limit: u32, reset_at: u64, retry_after: u64 },
    /// The counter could not be read: answer `500`.
    Unavailable,
}

/// The answer for a request whose counter, after counting it, is `count`
/// (`None` when the store failed).
pub open spec fn decision_for(limit: u32, window: CounterWindow, count: Option<u32>) -> Decision {
    match count {
        None => Decision::Unavailable,
        Some(c) => if c > limit {
            Decision::Reject {
                limit,
                reset_at: window.reset_at,
                retry_after: window.seconds_until_reset,
            }
        } else {
            Decision::Allow { limit, remaining: (limit - c) as u32, reset_at: window.reset_at }
        },
    }
}

impl CounterRequest {
    /// The answer once the store has counted this request: `count` is the
    /// counter after the increment, or `None` when the store failed.
    pub fn decide(&self, count: Option<u32>) -> (d: Decision)
        ensures
            d == decision_for(self.limit, self.window, count),
            count is None ==> d == (Decision::Unavailable),
            count matches Some(c) && c > self.limit ==> d == (Decision::Reject {
                limit: self.limit,
                reset_at: self.window.reset_at,
                retry_after: self.window.seconds_until_reset,
            }),
            count is Some && count.unwrap() <= self.limit ==> d == (Decision::Allow {
                limit: self.limit,
                remaining: (self.limit - count.unwrap()) as u32,
                reset_at: self.window.reset_at,
            }),
    {
        match count {
            None => Decision::Unavailable,
            Some(c) => if c > self.limit {
                Decision::Reject {
                    limit: self.limit,
                    reset_at: self.window.reset_at,
                    retry_after: self.window.seconds_until_reset,
                }
            } else {
                Decision::Allow {
                    limit: self.limit,
                    remaining: self.limit - c,
                    reset_at: self.window.reset_at,
                }
            },
        }
    }
}

/// The `n`-th request of a client in a window (its counter is `n`) is
/// served exactly when `n <= limit`; a served one reports `limit - n`
/// requests left, a refused one the seconds until the window resets.
pub proof fn lemma_limit_admits_first_requests(limit: u32, window: CounterWindow, n: u32)
    ensures
        (decision_for(limit, window, Some(n)) is Allow) == (n <= limit),
        decision_for(limit, window, Some(n)) matches Decision::Allow { remaining, reset_at, .. } ==> remaining == limit - n && reset_at == window.reset_at,
        decision_for(limit, window, Some(n)) matches Decision::Reject { retry_after, reset_at, .. } ==> retry_after == window.seconds_until_reset && reset_at == window.reset_at,
        decision_for(limit, window, None) is Unavailable,
{
}

/// More requests never help: if a later count is still served, any earlier
/// count was served too, with at least as many requests left.
pub proof fn lemma_more_requests_never_help(limit: u32, window: CounterWindow, c1: u32, c2: u32)
    requires
        c1 <= c2,
    ensures
        decision_for(limit, window, Some(c2)) is Allow ==> decision_for(limit, window, Some(c1)) is Allow,
        decision_for(limit, window, Some(c1)) is Reject ==> decision_for(limit, window, Some(c2)) is Reject,
        decision_for(limit, window, Some(c2)) matches Decision::Allow { remaining: r2, .. } ==> decision_for(limit, window, Some(c1)) matches Decision::Allow { remaining: r1, .. } && r2 <= r1,
{
}

/// A response header that the limiter writes.
#[derive(Clone, Copy, PartialEq, Eq, Structural, Debug)]
pub enum HeaderField {
    ContentType,
    CacheControl,
    RetryAfter,
    RateLimitLimit,
    RateLimitRemaining,
    RateLimitReset,
}

/// The header's name as the limiter writes it.
pub open spec fn header_field_name(f: HeaderField) -> Seq<char> {
    match f {
        HeaderField::ContentType => "content-type"@,
        HeaderField::CacheControl => "cache-control"@,
        HeaderField::RetryAfter => "retry-after"@,
        HeaderField::RateLimitLimit => "RateLimit-Limit"@,
        HeaderField::RateLimitRemaining => "RateLimit-Remaining"@,
        HeaderField::RateLimitReset => "RateLimit-Reset"@,
    }
}

impl HeaderField {
    /// The header's name.
    pub fn name(&self) -> (n: &'static str)
        ensures
            n@ == header_field_name(*self),
    {
        match self {
            HeaderField::ContentType => "content-type",
            HeaderField::CacheControl => "cache-control",
            HeaderField::RetryAfter => "retry-after",
            HeaderField::RateLimitLimit => "RateLimit-Limit",
            HeaderField::RateLimitRemaining => "RateLimit-Remaining",
            HeaderField::RateLimitReset => "RateLimit-Reset",
        }
    }
}

/// One header line of a response: its field and its value.
pub struct ResponseHeader {
    pub field: HeaderField,
    pub value: String,
}

impl View for ResponseHeader {
    type V = (HeaderField, Seq<char>);

    open spec fn view(&self) -> (HeaderField, Seq<char>) {
        (self.field, self.value@)
    }
}

/// The status of the response that a decision asks for; `None` keeps the
/// status of the served request's own response.
pub open spec fn decision_status(d: Decision) -> Option<u16> {
    match d {
        Decision::Allow { .. } => None,
        Decision::Reject { .. } => Some(429),
        Decision::Unavailable => Some(500),
    }
}

/// The headers that a decision writes, in order. A served request gets the
/// three `RateLimit-*` headers on its own response; a refused one gets a
/// JSON `429` that is not cached, with `retry-after`, the limit, zero
/// requests left and the reset time; a failed count gets a JSON `500` that
/// is not cached.
pub open spec fn decision_headers(d: Decision) -> Seq<(HeaderField, Seq<char>)> {
    match d {
        Decision::Allow { limit, remaining, reset_at } => seq![
            (HeaderField::RateLimitLimit, decimal_text(limit as nat)),
            (HeaderField::RateLimitRemaining, decimal_text(remaining as nat)),
            (HeaderField::RateLimitReset, decimal_text(reset_at as nat)),
        ],
        Decision::Reject { limit, reset_at, retry_after } => seq![
            (HeaderField::ContentType, "application/json"@),
            (HeaderField::CacheControl, "no-store"@),
            (HeaderField::RetryAfter, decimal_text(retry_after as nat)),
            (HeaderField::RateLimitLimit, decimal_text(limit as nat)),
            (HeaderField::RateLimitRemaining, "0"@),
            (HeaderField::RateLimitReset, decimal_text(reset_at as nat)),
        ],
        Decision::Unavailable => seq![
            (HeaderField::ContentType, "application/json"@),
            (HeaderField::CacheControl, "no-store"@),
        ],
    }
}

fn header(field: HeaderField, value: String) -> (h: ResponseHeader)
    ensures
        h@ == (field, value@),
{
    ResponseHeader { field, value }
}

impl Decision {
    /// The response status this decision asks for.
    pub fn status(&self) -> (s: Option<u16>)
        ensures
            s == decision_status(*self),
            *self is Allow ==> s is None,
            *self is Reject ==> s == Some(429u16),
            *self is Unavailable ==> s == Some(500u16),
    {
        match self {
            Decision::Allow { .. } => None,
            Decision::Reject { .. } => Some(429),
            Decision::Unavailable => Some(500),
        }
    }

    /// The headers this decision writes, in order.
    pub fn headers(&self) -> (hs: Vec<ResponseHeader>)
        ensures
            hs@.map_values(|h: ResponseHeader| h@) == decision_headers(*self),
    {
        let mut hs: Vec<ResponseHeader> = Vec::new();
        match *self {
            Decision::Allow { limit, remaining, reset_at } => {
                hs.push(header(HeaderField::RateLimitLimit, decimal_string(limit as u64)));
                hs.push(header(HeaderField::RateLimitRemaining, decimal_string(remaining as u64)));
                hs.push(header(HeaderField::RateLimitReset, decimal_string(reset_at)));
            },
            Decision::Reject { limit, reset_at, retry_after } => {
                hs.push(header(HeaderField::ContentType, "application/json".to_owned()));
                hs.push(header(HeaderField::CacheControl, "no-store".to_owned()));
                hs.push(header(HeaderField::RetryAfter, decimal_string(retry_after)));
                hs.push(header(HeaderField::RateLimitLimit, decimal_string(limit as u64)));
                hs.push(header(HeaderField::RateLimitRemaining, "0".to_owned()));
                hs.push(header(HeaderField::RateLimitReset, decimal_string(reset_at)));
            },
            Decision::Unavailable => {
                hs.push(header(HeaderField::ContentType, "application/json".to_owned()));
                hs.push(header(HeaderField::CacheControl, "no-store".to_owned()));
            },
        }
        assert(hs@.map_values(|h: ResponseHeader| h@) =~= decision_headers(*self));
        hs
    }
}

/// The body that a decision's response carries when the library writes it:
/// the JSON error of a failed count. A served request keeps its own body; a
/// refused one carries the JSON serialisation of its error and
/// `retry_after`, which the caller writes.
pub open spec fn decision_fixed_body(d: Decision) -> Option<Seq<char>> {
    match d {
        Decision::Unavailable => Some("{\"error\":\"internal server error\"}"@),
        _ => None,
    }
}

impl Decision {
    /// The fixed body of this decision's response, if it has one.
    pub fn fixed_body(&self) -> (b: Option<&'static str>)
        ensures
            b is None ==> decision_fixed_body(*self) is None,
            b matches Some(t) ==> decision_fixed_body(*self) == Some(t@),
    {
        match self {
            Decision::Unavailable => Some("{\"error\":\"internal server error\"}"),
            _ => None,
        }
    }
}

/// The header fields after setting each line in order, as
/// `HeaderMap::insert` does: the name in lower case gets the value's bytes as
/// its one value; a line whose value no header may hold is skipped.
pub open spec fn with_header_lines(
    fields: Map<Seq<char>, Seq<Seq<u8>>>,
    lines: Seq<(HeaderField, Seq<char>)>,
) -> Map<Seq<char>, Seq<Seq<u8>>>
    decreases lines.len(),
{
    if lines.len() == 0 {
        fields
    } else {
        let before = with_header_lines(fields, lines.drop_last());
        let bytes = vstd::utf8::encode_utf8(lines.last().1);
        if is_header_value_text(bytes) {
            before.insert(lower_header_name(header_field_name(lines.last().0)), seq![bytes])
        } else {
            before
        }
    }
}

proof fn lemma_header_field_name_valid(f: HeaderField)
    ensures
        is_header_name_text(header_field_name(f)),
{
    reveal_strlit("content-type");
    reveal_strlit("cache-control");
    reveal_strlit("retry-after");
    reveal_strlit("RateLimit-Limit");
    reveal_strlit("RateLimit-Remaining");
    reveal_strlit("RateLimit-Reset");
}

/// Sets each header line on `headers`, in order: every earlier value of the
/// name is replaced and the other headers stay as they were.
pub fn append_rate_limit_headers(headers: &mut http::HeaderMap, lines: &Vec<ResponseHeader>)
    requires
        header_map_fields(*old(headers)).dom().finite(),
        header_map_fields(*old(headers)).dom().len() + lines@.len() <= insert_name_limit(),
    ensures
        header_map_fields(*final(headers)) == with_header_lines(
            header_map_fields(*old(headers)),
            lines@.map_values(|h: ResponseHeader| h@),
        ),
{
    let ghost m0 = header_map_fields(*headers);
    let ghost ls = lines@.map_values(|h: ResponseHeader| h@);
    let n = lines.len();
    let mut i: usize = 0;
    assert(ls.take(0) =~= Seq::<(HeaderField, Seq<char>)>::empty());
    while i < n
        invariant
            n == lines@.len(),
            i <= n,
            ls == lines@.map_values(|h: ResponseHeader| h@),
            m0.dom().finite(),
            m0.dom().len() + n <= insert_name_limit(),
            header_map_fields(*headers) == with_header_lines(m0, ls.take(i as int)),
            header_map_fields(*headers).dom().finite(),
            header_map_fields(*headers).dom().len() <= m0.dom().len() + i,
        decreases n - i,
    {
        let line = &lines[i];
        proof {
            lemma_header_field_name_valid(line.field);
            assert(ls.take(i + 1).drop_last() =~= ls.take(i as int));
            assert(ls.take(i + 1).last() == line@);
        }
        match header_value_from_str(line.value.as_str()) {
            Some(v) => header_insert(headers, line.field.name(), v),
            None => {},
        }
        i = i + 1;
    }
    assert(ls.take(n as int) =~= ls);
}

/// Sets each header line on `headers` as [`append_rate_limit_headers`]
/// does, where the map holds few enough names for every insert to succeed
/// (`insert_name_limit` less the number of lines); otherwise the map is
/// left as it was and the result is `false`.
pub fn try_append_rate_limit_headers(headers: &mut http::HeaderMap, lines: &Vec<ResponseHeader>) -> (done: bool)
    ensures
        header_map_fields(*old(headers)).dom().finite(),
        done == (header_map_fields(*old(headers)).dom().len() + lines@.len() <= insert_name_limit()),
        done ==> header_map_fields(*final(headers)) == with_header_lines(
            header_map_fields(*old(headers)),
            lines@.map_values(|h: ResponseHeader| h@),
        ),
        !done ==> *final(headers) == *old(headers),
{
    let names = header_name_count(headers);
    if names <= 6554 && lines.len() <= 6554 - names {
        append_rate_limit_headers(headers, lines);
        true
    } else {
        false
    }
}

/// Setting the headers of one served request and then those of another
/// gives what setting only the second gives: the last call wins, and
/// setting the same headers twice equals setting them once.
pub proof fn lemma_served_headers_last_call_wins(
    fields: Map<Seq<char>, Seq<Seq<u8>>>,
    first: Decision,
    second: Decision,
)
    requires
        first is Allow,
        second is Allow,
    ensures
        with_header_lines(with_header_lines(fields, decision_headers(first)), decision_headers(second))
            == with_header_lines(fields, decision_headers(second)),
{
    lemma_served_response_headers(fields, first->Allow_limit, first->remaining, first->Allow_reset_at);
    let once = with_header_lines(fields, decision_headers(first));
    lemma_served_response_headers(once, second->Allow_limit, second->remaining, second->Allow_reset_at);
    lemma_served_response_headers(fields, second->Allow_limit, second->remaining, second->Allow_reset_at);
    assert(first == Decision::Allow {
        limit: first->Allow_limit,
        remaining: first->remaining,
        reset_at: first->Allow_reset_at,
    });
    assert(second == Decision::Allow {
        limit: second->Allow_limit,
        remaining: second->remaining,
        reset_at: second->Allow_reset_at,
    });
    assert(with_header_lines(once, decision_headers(second)) =~= with_header_lines(
        fields,
        decision_headers(second),
    ));
}

/// The bytes of decimal text: its digits, one byte each.
proof fn lemma_decimal_text_is_header_value(n: nat)
    ensures
        is_header_value_text(vstd::utf8::encode_utf8(decimal_text(n))),
{
    let t = decimal_text(n);
    lemma_decimal_text_value(n);
    assert(vstd::utf8::is_ascii_chars(t)) by {
        assert forall|i: int| 0 <= i < t.len() implies '\0' <= #[trigger] t[i] <= '\u{7f}' by {
            assert(crate::numeric_text::is_digit_char(t[i]));
        }
    }
    vstd::utf8::is_ascii_chars_encode_utf8(t);
    let b = vstd::utf8::encode_utf8(t);
    assert forall|i: int| 0 <= i < b.len() implies is_header_value_byte_of(b, i) by {
        assert(crate::numeric_text::is_digit_char(t[i]));
        assert(t[i] as u8 == b[i]);
    }
}

spec fn is_header_value_byte_of(b: Seq<u8>, i: int) -> bool {
    crate::headers::is_header_value_byte(b[i])
}

/// A served request's response gets the three `RateLimit-*` headers, each
/// with one value, the decimal limit, requests left and reset time,
/// replacing earlier values; every other header stays as it was.
pub proof fn lemma_served_response_headers(
    fields: Map<Seq<char>, Seq<Seq<u8>>>,
    limit: u32,
    remaining: u32,
    reset_at: u64,
)
    ensures
        with_header_lines(fields, decision_headers(Decision::Allow { limit, remaining, reset_at }))
            == fields.insert(
            "ratelimit-limit"@,
            seq![vstd::utf8::encode_utf8(decimal_text(limit as nat))],
        ).insert(
            "ratelimit-remaining"@,
            seq![vstd::utf8::encode_utf8(decimal_text(remaining as nat))],
        ).insert("ratelimit-reset"@, seq![vstd::utf8::encode_utf8(decimal_text(reset_at as nat))]),
{
    lemma_decimal_text_is_header_value(limit as nat);
    lemma_decimal_text_is_header_value(remaining as nat);
    lemma_decimal_text_is_header_value(reset_at as nat);
    reveal_strlit("RateLimit-Limit");
    reveal_strlit("RateLimit-Remaining");
    reveal_strlit("RateLimit-Reset");
    reveal_strlit("ratelimit-limit");
    reveal_strlit("ratelimit-remaining");
    reveal_strlit("ratelimit-reset");
    assert(lower_header_name("RateLimit-Limit"@) =~= "ratelimit-limit"@);
    assert(lower_header_name("RateLimit-Remaining"@) =~= "ratelimit-remaining"@);
    assert(lower_header_name("RateLimit-Reset"@) =~= "ratelimit-reset"@);
    let lines = decision_headers(Decision::Allow { limit, remaining, reset_at });
    let l2 = lines.drop_last();
    let l1 = l2.drop_last();
    let l0 = l1.drop_last();
    assert(l0 =~= Seq::<(HeaderField, Seq<char>)>::empty());
    assert(l1.last() == lines[0]);
    assert(l2.last() == lines[1]);
    assert(with_header_lines(fields, l0) == fields);
    let m1 = fields.insert(
        "ratelimit-limit"@,
        seq![vstd::utf8::encode_utf8(decimal_text(limit as nat))],
    );
    assert(with_header_lines(fields, l1) == m1);
    let m2 = m1.insert(
        "ratelimit-remaining"@,
        seq![vstd::utf8::encode_utf8(decimal_text(remaining as nat))],
    );
    assert(with_header_lines(fields, l2) == m2);
}

/// The counter value that the store's answer holds: the `calls` number
/// text read as a `u32`, or 1 where it is missing or is no such number (the
/// request itself was counted).
pub open spec fn counter_value_of(text: Option<Seq<char>>) -> u32 {
    match text {
        Some(t) => match parse_u32_text(t) {
            Some(v) => v,
            None => 1,
        },
        None => 1,
    }
}

/// Reads the counter out of the store's answer: `calls` is the number text
/// of the updated counter, if the answer holds one.
pub fn counter_from_attribute(calls: Option<&str>) -> (count: u32)
    ensures
        count == counter_value_of(
            match calls {
                Some(t) => Some(t@),
                None => None,
            },
        ),
{
    match calls {
        Some(t) => match parse_u32(t) {
            Some(v) => v,
            None => 1,
        },
        None => 1,
    }
}

/// A counter that the store wrote back as decimal text reads back as itself.
pub proof fn lemma_counter_text_round_trip(count: u32)
    ensures
        counter_value_of(Some(decimal_text(count as nat))) == count,
{
    crate::numeric_text::lemma_parse_decimal_round_trip(count);
}

#[verifier::external_type_specification]
#[verifier::external_body]
pub struct ExSystemTime(std::time::SystemTime);

/// Reads the system clock with `std::time::SystemTime::now`. Nothing is
/// stated of the instant: it is the machine's clock.
#[verifier::external_body]
fn system_time_now() -> std::time::SystemTime {
    std::time::SystemTime::now()
}

/// The time from the Unix epoch to `t`, by
/// `SystemTime::duration_since(UNIX_EPOCH)`; `None` where the clock reads
/// before the epoch. Nothing is stated of the value: it rests on the clock.
#[verifier::external_body]
fn time_since_unix_epoch(t: &std::time::SystemTime) -> Option<std::time::Duration> {
    t.duration_since(std::time::UNIX_EPOCH).ok()
}

/// The whole seconds of `d`, by `Duration::as_secs`. Nothing is stated: a
/// `Duration` is opaque here.
#[verifier::external_body]
fn duration_whole_secs(d: &std::time::Duration) -> u64 {
    d.as_secs()
}

/// The epoch time that the limiter uses, given the clock's whole seconds
/// since the Unix epoch (`None` where the clock reads before the epoch):
/// those seconds, or 0.
pub fn epoch_secs_or_zero(since_epoch: Option<u64>) -> (secs: u64)
    ensures
        secs == match since_epoch {
            Some(s) => s,
            None => 0,
        },
{
    match since_epoch {
        Some(s) => s,
        None => 0,
    }
}

/// The current time in whole seconds since the Unix epoch, or 0 where the
/// clock reads before the epoch (see [`epoch_secs_or_zero`]).
pub fn current_epoch_secs() -> u64 {
    let now = system_time_now();
    let since_epoch = match time_since_unix_epoch(&now) {
        Some(d) => Some(duration_whole_secs(&d)),
        None => None,
    };
    epoch_secs_or_zero(since_epoch)
}

/// The limiter around an inner service: the inner service, the counter
/// store and the configuration. It counts each request of a known client
/// (see [`RateLimitConfig::plan_request`]) and answers as
/// [`CounterRequest::decide`] says; the inner service and the store are
/// called by the caller, which owns the asynchronous runtime.
pub struct RateLimitService<S, St> {
    inner: S,
    store: St,
    config: Arc<RateLimitConfig>,
}

impl<S, St> RateLimitService<S, St> {
    /// The inner service.
    pub closed spec fn inner_spec(&self) -> S {
        self.inner
    }

    /// The counter store.
    pub closed spec fn store_spec(&self) -> St {
        self.store
    }

    /// The shared configuration.
    pub closed spec fn config_spec(&self) -> Arc<RateLimitConfig> {
        self.config
    }

    /// A limiter over `inner` that counts in `store` under `config`.
    pub fn with_store(inner: S, store: St, config: Arc<RateLimitConfig>) -> (s: Self)
        ensures
            s.inner_spec() == inner,
            s.store_spec() == store,
            s.config_spec() == config,
    {
        Self { inner, store, config }
    }

    /// The shared configuration.
    pub fn config(&self) -> (c: &Arc<RateLimitConfig>)
        ensures
            *c == self.config_spec(),
    {
        &self.config
    }

    /// The counter store.
    pub fn store(&self) -> (st: &St)
        ensures
            *st == self.store_spec(),
    {
        &self.store
    }

    /// The inner service, to make it ready or to call it; the store and the
    /// configuration stay as they are.
    pub fn inner_mut(&mut self) -> (inner: &mut S)
        ensures
            *inner == old(self).inner_spec(),
            final(self).inner_spec() == *final(inner),
            final(self).store_spec() == old(self).store_spec(),
            final(self).config_spec() == old(self).config_spec(),
    {
        &mut self.inner
    }

    /// What to do with a request from `client_ip` arriving at `now`, under
    /// this limiter's configuration.
    pub fn plan_request(&self, client_ip: Option<&str>, now: u64) -> (step: Step)
        ensures
            client_ip is None ==> step is PassThrough,
            client_ip matches Some(ip) ==> step matches Step::Count(req) && {
                let cw = counter_window_at(now, self.config_spec().window_secs);
                &&& req.table_name@ == self.config_spec().table_name@
                &&& req.key@ == counter_key_text(ip@, cw.bucket)
                &&& req.ttl == cw.ttl
                &&& req.limit == self.config_spec().max_requests
                &&& req.window == cw
            },
    {
        self.config.plan_request(client_ip, now)
    }
}

/// For a configured window of at least one second, the window in use is
/// that many seconds: the bucket is `now / window_secs`, the reset comes at
/// the next multiple of `window_secs`, and the counter is kept one window
/// more (where nothing reaches `u64::MAX`). A zero window counts per second.
pub proof fn lemma_window_has_configured_length(now: u64, window_secs: u64)
    ensures
        window_secs >= 1 ==> counter_window_at(now, window_secs).bucket == now / window_secs,
        window_secs >= 1 && (now / window_secs + 2) * window_secs <= u64::MAX ==> {
            let cw = counter_window_at(now, window_secs);
            &&& cw.reset_at == (now / window_secs + 1) * window_secs
            &&& cw.seconds_until_reset == cw.reset_at - now
            &&& cw.ttl == cw.reset_at + window_secs
        },
        window_secs == 0 ==> counter_window_at(now, window_secs).bucket == now,
        window_secs == 0 && now + 2 <= u64::MAX ==> {
            let cw = counter_window_at(now, window_secs);
            &&& cw.reset_at == now + 1
            &&& cw.seconds_until_reset == 1
            &&& cw.ttl == now + 2
        },
{
    if window_secs >= 1 && (now / window_secs + 2) * window_secs <= u64::MAX {
        lemma_window_holds_instant(now, window_secs);
    }
}

/// A count above the limit is refused with the configured limit, the reset
/// time and the seconds until it; a count at or below it is served with the
/// configured limit and `limit - count` left; a failed count is answered
/// `500`. This holds for every limit, window and count.
pub proof fn lemma_decision_reports_configured_limit(limit: u32, window: CounterWindow, count: u32)
    ensures
        count > limit ==> decision_for(limit, window, Some(count)) == (Decision::Reject {
            limit,
            reset_at: window.reset_at,
            retry_after: window.seconds_until_reset,
        }),
        count <= limit ==> decision_for(limit, window, Some(count)) == (Decision::Allow {
            limit,
            remaining: (limit - count) as u32,
            reset_at: window.reset_at,
        }),
        decision_for(limit, window, None) == Decision::Unavailable,
{
}

/// Every refusal is a `429`, every failed count a `500`, and a served
/// request keeps its own status, whatever the decision's numbers.
pub proof fn lemma_status_by_kind(limit: u32, remaining: u32, reset_at: u64, retry_after: u64)
    ensures
        decision_status(Decision::Reject { limit, reset_at, retry_after }) == Some(429u16),
        decision_status(Decision::Unavailable) == Some(500u16),
        decision_status(Decision::Allow { limit, remaining, reset_at }) is None,
{
}

/// The headers of a refusal read back as its numbers: `retry-after` is the
/// decimal text of the seconds until reset, `RateLimit-Limit` that of the
/// limit, `RateLimit-Remaining` is `0` and `RateLimit-Reset` the reset time,
/// after a JSON, uncached content type. Those of a served request read back
/// as its limit, requests left and reset time.
pub proof fn lemma_headers_read_back(limit: u32, remaining: u32, reset_at: u64, retry_after: u64)
    ensures
        ({
            let hs = decision_headers(Decision::Reject { limit, reset_at, retry_after });
            &&& hs.len() == 6
            &&& hs[0].0 == HeaderField::ContentType && hs[0].1 == "application/json"@
            &&& hs[1].0 == HeaderField::CacheControl && hs[1].1 == "no-store"@
            &&& hs[2].0 == HeaderField::RetryAfter && all_digits(hs[2].1) && digits_value(hs[2].1)
                == retry_after
            &&& hs[3].0 == HeaderField::RateLimitLimit && all_digits(hs[3].1) && digits_value(hs[3].1)
                == limit
            &&& hs[4].0 == HeaderField::RateLimitRemaining && hs[4].1 == seq!['0']
            &&& hs[5].0 == HeaderField::RateLimitReset && all_digits(hs[5].1) && digits_value(hs[5].1)
                == reset_at
        }),
        ({
            let hs = decision_headers(Decision::Allow { limit, remaining, reset_at });
            &&& hs.len() == 3
            &&& hs[0].0 == HeaderField::RateLimitLimit && all_digits(hs[0].1) && digits_value(hs[0].1)
                == limit
            &&& hs[1].0 == HeaderField::RateLimitRemaining && all_digits(hs[1].1) && digits_value(
                hs[1].1,
            ) == remaining
            &&& hs[2].0 == HeaderField::RateLimitReset && all_digits(hs[2].1) && digits_value(hs[2].1)
                == reset_at
        }),
{
    reveal_strlit("0");
    lemma_decimal_text_value(retry_after as nat);
    lemma_decimal_text_value(limit as nat);
    lemma_decimal_text_value(remaining as nat);
    lemma_decimal_text_value(reset_at as nat);
}

} // verus!
