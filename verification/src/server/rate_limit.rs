//! Rate limiting for the ingest endpoint.
//!
//! A fixed-window counter per client, held in memory. Coverage uploads are a
//! CI-shaped workload, a handful per minute at most, so a limit costs
//! legitimate users nothing while bounding accidental or casual abuse of an
//! endpoint that creates projects on first sight.
//!
//! The limiter is a plain value: the caller owns it (behind a lock), reads
//! the clock and the configured limit, and hands both in.

use vstd::prelude::*;

use crate::text::{
    chars_of, decimal, decimal_digits, find_char, owned, parse_u32, push_all, push_str, slice, split_char,
    string_from_chars, to_u32, trim, trimmed,
};

verus! {

/// Requests allowed per window, per client, unless configured otherwise.
pub const DEFAULT_MAX_REQUESTS: u32 = 60;

/// The window, in milliseconds.
pub const WINDOW_MS: u64 = 60_000;

/// Cap on tracked clients, so the limiter cannot itself become a memory leak.
pub const MAX_TRACKED_CLIENTS: usize = 10_000;

/// The configured limit: the trimmed setting read as a `u32`, else the
/// default.
pub open spec fn limit_from(setting: Option<Seq<char>>) -> u32 {
    match setting {
        Some(v) => match parse_u32(trim(v)) {
            Some(n) => n as u32,
            None => DEFAULT_MAX_REQUESTS,
        },
        None => DEFAULT_MAX_REQUESTS,
    }
}

/// Requests allowed per window, from the `OMNIVORE_INGEST_RATE_LIMIT` setting.
pub fn max_requests(setting: Option<&str>) -> (n: u32)
    ensures
        n == limit_from(match setting {
            Some(s) => Some(s@),
            None => None,
        }),
{
    match setting {
        Some(s) => {
            let t = trimmed(chars_of(s).as_slice());
            match to_u32(t.as_slice()) {
                Some(v) => v,
                None => DEFAULT_MAX_REQUESTS,
            }
        },
        None => DEFAULT_MAX_REQUESTS,
    }
}

/// One client's window: when it started and how many requests it has seen.
pub struct Bucket {
    pub client: String,
    pub window_started_ms: u64,
    pub count: u32,
}

/// The per-client windows of the ingest endpoint.
pub struct RateLimiter {
    buckets: Vec<Bucket>,
}

pub type BucketView = (Seq<char>, u64, u32);

impl View for RateLimiter {
    type V = Seq<BucketView>;

    closed spec fn view(&self) -> Seq<BucketView> {
        self.buckets@.map_values(|b: Bucket| (b.client@, b.window_started_ms, b.count))
    }
}

/// Time since `started`, or zero when `started` lies ahead.
pub open spec fn age(started: u64, now: u64) -> int {
    if now >= started {
        now - started
    } else {
        0
    }
}

pub open spec fn in_window(now: u64) -> spec_fn(BucketView) -> bool {
    |b: BucketView| age(b.1, now) < WINDOW_MS
}

/// The first bucket of `client`, or -1.
pub open spec fn bucket_of(bs: Seq<BucketView>, client: Seq<char>) -> int
    decreases bs.len(),
{
    if bs.len() == 0 {
        -1
    } else {
        let i = bucket_of(bs.drop_last(), client);
        if i >= 0 {
            i
        } else if bs.last().0 == client {
            bs.len() - 1
        } else {
            -1
        }
    }
}

/// The buckets after a request from `client` at `now`, and whether the
/// request is allowed.
pub open spec fn check_outcome(bs: Seq<BucketView>, client: Seq<char>, limit: u32, now: u64) -> (Seq<BucketView>, bool) {
    if limit == 0 {
        (bs, true)
    } else {
        let r = bs.filter(in_window(now));
        let i = bucket_of(r, client);
        if r.len() >= MAX_TRACKED_CLIENTS && i < 0 {
            (r, true)
        } else if i >= 0 {
            let b = r[i];
            let (started, n) = if age(b.1, now) >= WINDOW_MS {
                (now, 0int)
            } else {
                (b.1, b.2 as int)
            };
            (r.update(i, (b.0, started, next_count(n) as u32)), next_count(n) <= limit)
        } else {
            (r.push((client, now, 1u32)), 1 <= limit)
        }
    }
}

/// A window's count after one more request: it stops at `u32::MAX`.
pub open spec fn next_count(n: int) -> int {
    if n >= u32::MAX {
        u32::MAX as int
    } else {
        n + 1
    }
}

pub open spec fn limit_message(limit: u32) -> Seq<char> {
    "Rate limit exceeded: more than "@ + decimal(limit as nat) + " uploads per minute"@
}

proof fn lemma_bucket_of(bs: Seq<BucketView>, client: Seq<char>)
    ensures
        -1 <= bucket_of(bs, client) < bs.len(),
        bucket_of(bs, client) >= 0 ==> bs[bucket_of(bs, client)].0 == client,
        bucket_of(bs, client) < 0 ==> forall|k: int| 0 <= k < bs.len() ==> bs[k].0 != client,
        bucket_of(bs, client) >= 0 ==> forall|k: int| 0 <= k < bucket_of(bs, client) ==> bs[k].0 != client,
    decreases bs.len(),
{
    if bs.len() > 0 {
        lemma_bucket_of(bs.drop_last(), client);
        assert forall|k: int| 0 <= k < bs.len() - 1 implies bs.drop_last()[k] == bs[k] by {}
    }
}

impl RateLimiter {
    pub fn new() -> (r: RateLimiter)
        ensures
            r@ == Seq::<BucketView>::empty(),
    {
        let r = RateLimiter { buckets: Vec::new() };
        proof {
            assert(r@ =~= Seq::<BucketView>::empty());
        }
        r
    }

    /// Check and record a request from `client` at `now_ms`.
    ///
    /// `Ok(())` to proceed; `Err` carries a ready-to-return 429. A limit of 0
    /// disables the check entirely.
    pub fn check(&mut self, client: &str, limit: u32, now_ms: u64) -> (r: Result<(), (u16, String)>)
        ensures
            final(self)@ == check_outcome(old(self)@, client@, limit, now_ms).0,
            r is Ok <==> check_outcome(old(self)@, client@, limit, now_ms).1,
            r matches Err(e) ==> e.0 == 429 && e.1@ == limit_message(limit),
    {
        if limit == 0 {
            return Ok(());
        }
        let ghost bs = self@;
        let mut kept: Vec<Bucket> = Vec::new();
        let mut i: usize = 0;
        proof {
            assert(bs.take(0) =~= Seq::<BucketView>::empty());
            assert(kept@.map_values(|b: Bucket| (b.client@, b.window_started_ms, b.count)) =~= Seq::<BucketView>::empty());
        }
        while i < self.buckets.len()
            invariant
                bs == self@,
                i <= bs.len(),
                kept@.map_values(|b: Bucket| (b.client@, b.window_started_ms, b.count)) == bs.take(i as int).filter(in_window(now_ms)),
            decreases self.buckets.len() - i,
        {
            let b = &self.buckets[i];
            proof {
                assert(bs.take(i + 1).drop_last() == bs.take(i as int));
                assert(bs.take(i + 1).last() == bs[i as int]);
                assert(bs[i as int] == (b.client@, b.window_started_ms, b.count));
                reveal_with_fuel(Seq::<_>::filter, 1);
            }
            let started = b.window_started_ms;
            let age: u64 = if now_ms >= started { now_ms - started } else { 0 };
            let ghost before_kept = kept@;
            if age < WINDOW_MS {
                kept.push(Bucket { client: b.client.clone(), window_started_ms: started, count: b.count });
                proof {
                    assert(kept@.map_values(|b: Bucket| (b.client@, b.window_started_ms, b.count)) =~= before_kept.map_values(|b: Bucket| (b.client@, b.window_started_ms, b.count)).push(bs[i as int]));
                }
            }
            i += 1;
        }
        proof {
            assert(bs.take(i as int) == bs);
        }
        let ghost r = bs.filter(in_window(now_ms));
        // Find the client's bucket.
        let c = chars_of(client);
        let mut j: usize = 0;
        let mut found = false;
        while j < kept.len() && !found
            invariant
                j <= kept@.len(),
                kept@.map_values(|b: Bucket| (b.client@, b.window_started_ms, b.count)) == r,
                found ==> j < kept@.len() && kept@[j as int].client@ == client@,
                forall|k: int| 0 <= k < j ==> kept@[k].client@ != client@,
                c@ == client@,
            decreases kept.len() - j + (if found { 0int } else { 1int }),
        {
            let name = chars_of(kept[j].client.as_str());
            if crate::text::seq_eq(name.as_slice(), c.as_slice()) {
                found = true;
            } else {
                j += 1;
            }
        }
        proof {
            lemma_bucket_of(r, client@);
            assert(r.len() == kept@.len());
            if found {
                assert(r[j as int].0 == client@);
                assert(forall|k: int| 0 <= k < j ==> r[k].0 != client@);
                if bucket_of(r, client@) >= 0 && bucket_of(r, client@) < j {
                    assert(r[bucket_of(r, client@)].0 == client@);
                }
                assert(bucket_of(r, client@) == j);
            } else {
                assert(forall|k: int| 0 <= k < r.len() ==> r[k].0 != client@);
            }
        }
        if kept.len() >= MAX_TRACKED_CLIENTS && !found {
            self.buckets = kept;
            return Ok(());
        }
        let count: u32;
        if found {
            let b = &kept[j];
            let bage: u64 = if now_ms >= b.window_started_ms { now_ms - b.window_started_ms } else { 0 };
            let (started, n) = if bage >= WINDOW_MS {
                (now_ms, 0u32)
            } else {
                (b.window_started_ms, b.count)
            };
            count = if n == u32::MAX {
                n
            } else {
                n + 1
            };
            let nb = Bucket { client: b.client.clone(), window_started_ms: started, count };
            let ghost before_kept = kept@;
            kept.set(j, nb);
            proof {
                assert(kept@.map_values(|b: Bucket| (b.client@, b.window_started_ms, b.count)) =~= r.update(j as int, (r[j as int].0, started, count)));
            }
        } else {
            count = 1;
            kept.push(Bucket { client: owned(client), window_started_ms: now_ms, count: 1 });
            proof {
                assert(kept@.map_values(|b: Bucket| (b.client@, b.window_started_ms, b.count)) =~= r.push((client@, now_ms, 1u32)));
            }
        }
        self.buckets = kept;
        if count > limit {
            let mut msg = chars_of("Rate limit exceeded: more than ");
            let d = decimal_digits(limit as u64);
            push_all(&mut msg, d.as_slice());
            push_str(&mut msg, " uploads per minute");
            return Err((429, string_from_chars(msg.as_slice())));
        }
        Ok(())
    }
}

/// The client identity used for rate limiting: the first address of the
/// `X-Forwarded-For` header when it names one, else the peer address, else
/// `unknown`.
pub open spec fn client_key_of(forwarded: Option<Seq<char>>, peer: Option<Seq<char>>) -> Seq<char> {
    let first = match forwarded {
        Some(v) => trim(split_char(v, ',')[0]),
        None => Seq::empty(),
    };
    if first.len() > 0 {
        first
    } else {
        match peer {
            Some(p) => p,
            None => "unknown"@,
        }
    }
}

/// Best-effort client identity for rate limiting.
///
/// Prefers `X-Forwarded-For`, since self-hosted instances usually sit behind
/// a reverse proxy. That header is client-controlled, so this is a throttle on
/// accidents and casual abuse, not an authorization boundary. `forwarded` is
/// the header's text, when it is valid text; `peer` the peer address.
pub fn client_key(forwarded: Option<&str>, peer: Option<&str>) -> (r: String)
    ensures
        r@ == client_key_of(
            match forwarded {
                Some(v) => Some(v@),
                None => None,
            },
            match peer {
                Some(v) => Some(v@),
                None => None,
            },
        ),
{
    if let Some(v) = forwarded {
        let parts = crate::text::split(chars_of(v).as_slice(), ',');
        proof {
            crate::text::lemma_split_char_nonempty(v@, ',');
        }
        let first = trimmed(parts[0].as_slice());
        if first.len() > 0 {
            return string_from_chars(first.as_slice());
        }
    }
    match peer {
        Some(p) => owned(p),
        None => owned("unknown"),
    }
}

/// A client whose current window already holds `limit` requests is refused;
/// one whose window holds fewer is admitted. A window never restarts while
/// it lasts, and its count stops at `u32::MAX`.
pub proof fn lemma_window_limit(bs: Seq<BucketView>, client: Seq<char>, limit: u32, now: u64)
    requires
        limit > 0,
        bucket_of(bs.filter(in_window(now)), client) >= 0,
    ensures
        ({
            let r = bs.filter(in_window(now));
            let n = r[bucket_of(r, client)].2;
            &&& check_outcome(bs, client, limit, now).1 <==> next_count(n as int) <= limit
            &&& check_outcome(bs, client, limit, now).0[bucket_of(r, client)] == (client, r[bucket_of(
                r,
                client,
            )].1, next_count(n as int) as u32)
        }),
{
    let r = bs.filter(in_window(now));
    lemma_bucket_of(r, client);
    bs.filter_lemma(in_window(now));
    let i = bucket_of(r, client);
    assert(in_window(now)(r[i]));
}

/// The first request from a client the limiter has room for is admitted
/// under any positive limit.
pub proof fn lemma_new_client_admitted(bs: Seq<BucketView>, client: Seq<char>, limit: u32, now: u64)
    requires
        limit > 0,
        bucket_of(bs.filter(in_window(now)), client) < 0,
        bs.filter(in_window(now)).len() < MAX_TRACKED_CLIENTS,
    ensures
        check_outcome(bs, client, limit, now).1,
        check_outcome(bs, client, limit, now).0 == bs.filter(in_window(now)).push((client, now, 1u32)),
{
}

/// The limiter never tracks more than `MAX_TRACKED_CLIENTS` clients: a
/// request at capacity from an untracked client is admitted without being
/// recorded.
pub proof fn lemma_tracked_clients_bounded(bs: Seq<BucketView>, client: Seq<char>, limit: u32, now: u64)
    requires
        bs.len() <= MAX_TRACKED_CLIENTS,
    ensures
        check_outcome(bs, client, limit, now).0.len() <= MAX_TRACKED_CLIENTS,
{
    bs.lemma_filter_len(in_window(now));
    lemma_bucket_of(bs.filter(in_window(now)), client);
}

/// `m` is `client`'s first bucket in `bs`.
proof fn lemma_bucket_at(bs: Seq<BucketView>, client: Seq<char>, m: int)
    requires
        0 <= m < bs.len(),
        bs[m].0 == client,
        forall|k: int| 0 <= k < m ==> (#[trigger] bs[k]).0 != client,
    ensures
        bucket_of(bs, client) == m,
{
    lemma_bucket_of(bs, client);
    let b = bucket_of(bs, client);
    if b >= 0 && b > m {
        assert(bs[m].0 != client);
    }
}

/// A client's first bucket survives the dropping of expired windows while
/// its own window lasts, and stays the client's first.
proof fn lemma_bucket_survives(bs: Seq<BucketView>, client: Seq<char>, now: u64)
    requires
        bucket_of(bs, client) >= 0,
        in_window(now)(bs[bucket_of(bs, client)]),
    ensures
        bucket_of(bs.filter(in_window(now)), client) >= 0,
        bs.filter(in_window(now))[bucket_of(bs.filter(in_window(now)), client)] == bs[bucket_of(bs, client)],
{
    broadcast use vstd::seq_lib::group_filter_ensures;

    lemma_bucket_of(bs, client);
    let p = in_window(now);
    let j = bucket_of(bs, client);
    let x = bs[j];
    let a = bs.take(j);
    let b = bs.skip(j + 1);
    assert(bs =~= a + seq![x] + b);
    Seq::filter_distributes_over_add(a + seq![x], b, p);
    Seq::filter_distributes_over_add(a, seq![x], p);
    assert(seq![x].drop_last() =~= Seq::<BucketView>::empty());
    assert(p(x));
    assert(seq![x].filter(p) =~= seq![x]) by {
        reveal(Seq::filter);
        assert(seq![x].last() == x);
        assert(Seq::<BucketView>::empty().filter(p) =~= Seq::<BucketView>::empty());
    }
    let af = a.filter(p);
    let r = bs.filter(p);
    assert(r =~= af + seq![x] + b.filter(p));
    let m = af.len() as int;
    assert(r[m] == x);
    assert forall|k: int| 0 <= k < m implies (#[trigger] r[k]).0 != client by {
        assert(r[k] == af[k]);
        assert(af.contains(af[k]));
        a.lemma_filter_contains_rev(p, af[k]);
        let idx = choose|idx: int| 0 <= idx < a.len() && a[idx] == af[k];
        assert(a[idx] == bs[idx]);
    }
    lemma_bucket_at(r, client, m);
}

/// Within one window a client is admitted exactly `limit` times: given a
/// client the limiter does not yet track and has room for, and requests
/// from it at `times`, all within one window of the first, the i-th request
/// is admitted exactly when `i + 1 <= limit`. `states` are the limiter's
/// buckets before each request and after the last, as `check` leaves them.
pub proof fn lemma_at_most_limit_per_window(
    states: Seq<Seq<BucketView>>,
    admitted: Seq<bool>,
    times: Seq<u64>,
    client: Seq<char>,
    limit: u32,
)
    requires
        limit > 0,
        0 < times.len() < u32::MAX,
        states.len() == times.len() + 1,
        admitted.len() == times.len(),
        bucket_of(states[0].filter(in_window(times[0])), client) < 0,
        states[0].filter(in_window(times[0])).len() < MAX_TRACKED_CLIENTS,
        forall|i: int| 0 <= i < times.len() ==> times[0] <= #[trigger] times[i] < times[0] + WINDOW_MS,
        forall|i: int|
            0 <= i < times.len() ==> states[i + 1] == (#[trigger] check_outcome(states[i], client, limit, times[i])).0
                && admitted[i] == check_outcome(states[i], client, limit, times[i]).1,
    ensures
        forall|i: int| 0 <= i < times.len() ==> (#[trigger] admitted[i] <==> i + 1 <= limit),
{
    assert forall|i: int| 0 <= i < times.len() implies (#[trigger] admitted[i] <==> i + 1 <= limit) by {
        lemma_window_count(states, admitted, times, client, limit, i);
    }
}

/// After the i-th request of `lemma_at_most_limit_per_window`, the client's
/// first bucket is its window from the first request, counting `i + 1`.
proof fn lemma_window_count(
    states: Seq<Seq<BucketView>>,
    admitted: Seq<bool>,
    times: Seq<u64>,
    client: Seq<char>,
    limit: u32,
    i: int,
)
    requires
        limit > 0,
        0 < times.len() < u32::MAX,
        states.len() == times.len() + 1,
        admitted.len() == times.len(),
        bucket_of(states[0].filter(in_window(times[0])), client) < 0,
        states[0].filter(in_window(times[0])).len() < MAX_TRACKED_CLIENTS,
        forall|i: int| 0 <= i < times.len() ==> times[0] <= #[trigger] times[i] < times[0] + WINDOW_MS,
        forall|i: int|
            0 <= i < times.len() ==> states[i + 1] == (#[trigger] check_outcome(states[i], client, limit, times[i])).0
                && admitted[i] == check_outcome(states[i], client, limit, times[i]).1,
        0 <= i < times.len(),
    ensures
        admitted[i] <==> i + 1 <= limit,
        bucket_of(states[i + 1], client) >= 0,
        states[i + 1][bucket_of(states[i + 1], client)] == (client, times[0], (i + 1) as u32),
    decreases i,
{
    let out = check_outcome(states[i], client, limit, times[i]);
    let p = in_window(times[i]);
    let r = states[i].filter(p);
    if i == 0 {
        lemma_bucket_of(r, client);
        let e = (client, times[0], 1u32);
        assert(out.0 == r.push(e));
        assert forall|k: int| 0 <= k < r.len() implies (#[trigger] r.push(e)[k]).0 != client by {
            assert(r.push(e)[k] == r[k]);
        }
        lemma_bucket_at(r.push(e), client, r.len() as int);
    } else {
        lemma_window_count(states, admitted, times, client, limit, i - 1);
        let prev = states[i];
        let j = bucket_of(prev, client);
        assert(times[0] <= times[i] < times[0] + WINDOW_MS);
        assert(age(prev[j].1, times[i]) < WINDOW_MS);
        lemma_bucket_survives(prev, client, times[i]);
        let m = bucket_of(r, client);
        lemma_bucket_of(r, client);
        let n = i as u32;
        assert(r[m] == (client, times[0], n));
        let e = (client, times[0], (n + 1) as u32);
        assert(next_count(n as int) == n + 1);
        assert(out.0 == r.update(m, e));
        assert(out.1 == (n + 1 <= limit));
        assert forall|k: int| 0 <= k < m implies (#[trigger] r.update(m, e)[k]).0 != client by {
            assert(r.update(m, e)[k] == r[k]);
        }
        lemma_bucket_at(r.update(m, e), client, m);
    }
}

} // verus!
