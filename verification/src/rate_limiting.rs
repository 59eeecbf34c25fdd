//! A sliding-window rate limiter: at most `max_requests` requests are let
//! through in any `window_size` seconds.

use vstd::prelude::*;
use std::collections::HashMap;
use std::sync::Arc;
use std::time::Instant;
use vstd::rwlock::{RwLock, RwLockPredicate};
use crate::clock::{duration_secs, instant_elapsed, instant_now};

verus! {

broadcast use vstd::std_specs::hash::group_hash_axioms;

// ---------------------------------------------------------------- totals

/// The total of the counts in `m`.
pub open spec fn map_total(m: Map<u64, u32>) -> nat
    decreases m.dom().len(),
    when m.dom().finite()
{
    if m.dom().len() == 0 {
        0
    } else {
        proof {
            vstd::set_lib::lemma_set_empty_equivalency_len(m.dom());
        }
        let k = m.dom().choose();
        m[k] as nat + map_total(m.remove(k))
    }
}

/// The total of a map is the count of any one key plus the total of the rest.
pub proof fn lemma_total_remove(m: Map<u64, u32>, k: u64)
    requires
        m.dom().finite(),
        m.dom().contains(k),
    ensures
        map_total(m) == m[k] + map_total(m.remove(k)),
    decreases m.dom().len(),
{
    vstd::set_lib::lemma_set_empty_equivalency_len(m.dom());
    let c = m.dom().choose();
    if c != k {
        lemma_total_remove(m.remove(c), k);
        lemma_total_remove(m.remove(k), c);
        assert(m.remove(c).remove(k) =~= m.remove(k).remove(c));
    }
}

/// Nothing is counted in the empty map.
pub proof fn lemma_total_empty()
    ensures
        map_total(Map::<u64, u32>::empty()) == 0,
{
    assert(Map::<u64, u32>::empty().dom() =~= Set::<u64>::empty());
}

/// Setting the count of `k` to `v` replaces its share of the total.
pub proof fn lemma_total_insert(m: Map<u64, u32>, k: u64, v: u32)
    requires
        m.dom().finite(),
    ensures
        map_total(m.insert(k, v)) == map_total(m.remove(k)) + v,
        m.dom().contains(k) ==> map_total(m) == map_total(m.remove(k)) + m[k],
{
    lemma_total_remove(m.insert(k, v), k);
    assert(m.insert(k, v).remove(k) =~= m.remove(k));
    if m.dom().contains(k) {
        lemma_total_remove(m, k);
    } else {
        assert(m.remove(k) =~= m);
    }
}

/// A map included in another has no larger total.
pub proof fn lemma_total_submap(m1: Map<u64, u32>, m2: Map<u64, u32>)
    requires
        m2.dom().finite(),
        m1.submap_of(m2),
    ensures
        m1.dom().finite(),
        map_total(m1) <= map_total(m2),
    decreases m1.dom().len(),
{
    vstd::set_lib::lemma_len_subset(m1.dom(), m2.dom());
    vstd::set_lib::lemma_set_empty_equivalency_len(m1.dom());
    if m1.dom().len() != 0 {
        let k = m1.dom().choose();
        lemma_total_remove(m1, k);
        lemma_total_remove(m2, k);
        lemma_total_submap(m1.remove(k), m2.remove(k));
    } else {
        assert(m1.dom() =~= Set::<u64>::empty());
    }
}


// ---------------------------------------------------------------- the window

/// What a `RequestWindow` holds: the window length in seconds, the most requests
/// in any window, and the count of requests let through at each second.
pub struct WindowState {
    pub window_size: u64,
    pub max_requests: u32,
    pub requests: Map<u64, u32>,
}

/// Second `k` lies in the window of `window_size` seconds that ends at second `now`.
pub open spec fn within(k: u64, window_size: u64, now: u64) -> bool {
    k + window_size > now
}

/// The counts that lie in the window that ends at second `now`.
pub open spec fn in_window(s: WindowState, now: u64) -> Map<u64, u32> {
    s.requests.restrict(Set::new(|k: u64| within(k, s.window_size, now)))
}

/// The state after the window is checked at second `now`: counts outside it dropped.
pub open spec fn checked(s: WindowState, now: u64) -> WindowState {
    WindowState { requests: in_window(s, now), ..s }
}

/// A request at second `now` is let through: fewer than `max_requests` requests
/// are counted in the window that ends at `now`.
pub open spec fn admits(s: WindowState, now: u64) -> bool {
    map_total(in_window(s, now)) < s.max_requests
}

/// `m` with one more request counted at second `now`.
pub open spec fn count_one(m: Map<u64, u32>, now: u64) -> Map<u64, u32> {
    m.insert(
        now,
        if m.contains_key(now) {
            (m[now] + 1) as u32
        } else {
            1
        },
    )
}

/// The state after a request at second `now`.
pub open spec fn after_request(s: WindowState, now: u64) -> WindowState {
    let c = checked(s, now);
    if admits(s, now) {
        WindowState { requests: count_one(c.requests, now), ..c }
    } else {
        c
    }
}

// ---------------------------------------------------------------- many requests

/// The times of `times` never go back.
pub open spec fn nondecreasing(times: Seq<u64>) -> bool {
    forall|i: int, j: int| 0 <= i <= j < times.len() ==> times[i] <= times[j]
}

/// The state after requests at the seconds of `times`, one after the other, from `s`.
pub open spec fn state_after(s: WindowState, times: Seq<u64>) -> WindowState
    decreases times.len(),
{
    if times.len() == 0 {
        s
    } else {
        after_request(state_after(s, times.drop_last()), times.last())
    }
}

/// The `i`-th request of `times`, made after those before it, is let through.
pub open spec fn admitted(s: WindowState, times: Seq<u64>, i: int) -> bool {
    admits(state_after(s, times.take(i)), times[i])
}

/// How many of the first `n` requests of `times` were let through at a second that
/// lies in the window that ends at second `now`.
pub open spec fn admitted_within(s: WindowState, times: Seq<u64>, n: int, now: u64) -> nat
    decreases n,
{
    if n <= 0 {
        0
    } else {
        admitted_within(s, times, n - 1, now) + if admitted(s, times, n - 1) && within(
            times[n - 1],
            s.window_size,
            now,
        ) {
            1nat
        } else {
            0nat
        }
    }
}

/// How many of the first `n` requests of `times` were let through at a second from
/// `from` up to, not including, `from + window_size`.
pub open spec fn admitted_in_span(s: WindowState, times: Seq<u64>, n: int, from: u64) -> nat
    decreases n,
{
    if n <= 0 {
        0
    } else {
        admitted_in_span(s, times, n - 1, from) + if admitted(s, times, n - 1) && from <= times[n
            - 1] < from + s.window_size {
            1nat
        } else {
            0nat
        }
    }
}

/// The first `i + 1` requests of `times` lead to the state after the first `i`, then
/// the `i`-th.
proof fn lemma_state_after_step(s: WindowState, times: Seq<u64>, i: int)
    requires
        0 <= i < times.len(),
    ensures
        state_after(s, times.take(i + 1)) == after_request(state_after(s, times.take(i)), times[i]),
{
    assert(times.take(i + 1).drop_last() =~= times.take(i));
}

/// One count of a map is no more than its total.
proof fn lemma_count_within_total(m: Map<u64, u32>, k: u64)
    requires
        m.dom().finite(),
        m.dom().contains(k),
    ensures
        m[k] <= map_total(m),
{
    lemma_total_remove(m, k);
}

/// What a window counts at a second `now` no earlier than every request: the
/// requests let through at seconds in the window that ends at `now`.
proof fn lemma_window_counts(s: WindowState, times: Seq<u64>, n: int, now: u64)
    requires
        s.requests == Map::<u64, u32>::empty(),
        0 <= n <= times.len(),
        nondecreasing(times),
        n > 0 ==> times[n - 1] <= now,
    ensures
        state_after(s, times.take(n)).window_size == s.window_size,
        state_after(s, times.take(n)).max_requests == s.max_requests,
        state_after(s, times.take(n)).requests.dom().finite(),
        map_total(in_window(state_after(s, times.take(n)), now)) == admitted_within(
            s,
            times,
            n,
            now,
        ),
    decreases n,
{
    let ws = s.window_size;
    if n == 0 {
        assert(times.take(0) =~= Seq::<u64>::empty());
        assert(in_window(s, now) =~= Map::<u64, u32>::empty());
        lemma_total_empty();
    } else {
        let i = n - 1;
        let t = times[i];
        lemma_window_counts(s, times, i, now);
        lemma_state_after_step(s, times, i);
        let before = state_after(s, times.take(i));
        let after = state_after(s, times.take(n));
        let m = in_window(before, now);
        let mt = in_window(before, t);
        assert(mt.dom() =~= before.requests.dom().intersect(
            Set::new(|k: u64| within(k, ws, t)),
        ));
        assert(mt.dom().finite());
        assert(m.dom() =~= before.requests.dom().intersect(
            Set::new(|k: u64| within(k, ws, now)),
        ));
        assert(m.dom().finite());
        assert(in_window(checked(before, t), now) =~= m);
        if admits(before, t) {
            if mt.contains_key(t) {
                lemma_count_within_total(mt, t);
            }
            let v: u32 = if mt.contains_key(t) {
                (mt[t] + 1) as u32
            } else {
                1
            };
            assert(after.requests == mt.insert(t, v));
            assert(after.requests.dom().finite());
            if within(t, ws, now) {
                assert(in_window(after, now) =~= m.insert(t, v));
                lemma_total_insert(m, t, v);
                if !m.contains_key(t) {
                    assert(m.remove(t) =~= m);
                }
            } else {
                assert(in_window(after, now) =~= m);
            }
        } else {
            assert(after == checked(before, t));
        }
    }
}

/// A window counts requests at seconds within the window that ends at `to`, only
/// those that a window ending at a later second `now` counts too.
proof fn lemma_span_within(s: WindowState, times: Seq<u64>, n: int, from: u64, now: u64)
    requires
        0 <= n <= times.len(),
        forall|i: int| 0 <= i < n && from <= times[i] ==> within(times[i], s.window_size, now),
    ensures
        admitted_in_span(s, times, n, from) <= admitted_within(s, times, n, now),
    decreases n,
{
    if n > 0 {
        lemma_span_within(s, times, n - 1, from, now);
    }
}

/// A sliding window lets through at most `max_requests` requests in any span of
/// `window_size` seconds: of requests made one after the other to a new window, at
/// seconds that never go back, at most `max_requests` of those at seconds from
/// `from` up to `from + window_size` are let through.
pub proof fn lemma_sliding_window_limit(
    window_size: u64,
    max_requests: u32,
    times: Seq<u64>,
    from: u64,
)
    requires
        nondecreasing(times),
    ensures
        admitted_in_span(
            WindowState { window_size, max_requests, requests: Map::empty() },
            times,
            times.len() as int,
            from,
        ) <= max_requests,
{
    let s = WindowState { window_size, max_requests, requests: Map::empty() };
    lemma_span_limit_prefix(s, times, times.len() as int, from);
}

proof fn lemma_span_limit_prefix(s: WindowState, times: Seq<u64>, n: int, from: u64)
    requires
        s.requests == Map::<u64, u32>::empty(),
        nondecreasing(times),
        0 <= n <= times.len(),
    ensures
        admitted_in_span(s, times, n, from) <= s.max_requests,
    decreases n,
{
    if n > 0 {
        let j = n - 1;
        lemma_span_limit_prefix(s, times, j, from);
        let t = times[j];
        if admitted(s, times, j) && from <= t < from + s.window_size {
            assert forall|i: int| 0 <= i < j && from <= times[i] implies within(
                times[i],
                s.window_size,
                t,
            ) by {}
            lemma_span_within(s, times, j, from, t);
            lemma_window_counts(s, times, j, t);
        }
    }
}

/// The counts of requests let through in a sliding window. This is the plain state
/// of a rate limiter; `SlidingWindowRateLimiter` shares one between its copies.
#[derive(Debug)]
pub struct RequestWindow {
    window_size: u64,
    max_requests: u32,
    requests: HashMap<u64, u32>,
}

impl View for RequestWindow {
    type V = WindowState;

    closed spec fn view(&self) -> WindowState {
        WindowState {
            window_size: self.window_size,
            max_requests: self.max_requests,
            requests: self.requests@,
        }
    }
}

impl Clone for RequestWindow {
    /// A window with the same counts.
    fn clone(&self) -> (r: Self)
        ensures
            r@ == self@,
    {
        proof {
            use_type_invariant(self);
        }
        RequestWindow {
            window_size: self.window_size,
            max_requests: self.max_requests,
            requests: self.requests.clone(),
        }
    }
}

impl RequestWindow {
    /// No more requests are counted than the limit allows.
    #[verifier::type_invariant]
    spec fn counted_within_limit(self) -> bool {
        map_total(self.requests@) <= self.max_requests
    }

    /// An empty window of `window_size` seconds for at most `max_requests` requests.
    pub fn new(window_size: u64, max_requests: u32) -> (r: RequestWindow)
        ensures
            r@ == (WindowState { window_size, max_requests, requests: Map::empty() }),
    {
        proof {
            lemma_total_empty();
        }
        RequestWindow { window_size, max_requests, requests: HashMap::new() }
    }

    /// The counts in the window that ends at second `now` (all counts when `keep_all`),
    /// and their total.
    fn counts_in_window(&self, now: u64, keep_all: bool) -> (r: (HashMap<u64, u32>, u32))
        ensures
            !keep_all ==> r.0@ == in_window(self@, now),
            keep_all ==> r.0@ == self@.requests,
            r.1 == map_total(r.0@),
            r.1 <= self@.max_requests,
    {
        proof {
            use_type_invariant(self);
        }
        let ghost m = self.requests@;
        let ghost keep = Set::new(|k: u64| keep_all || within(k, self.window_size, now));
        let mut kept: HashMap<u64, u32> = HashMap::new();
        let mut total: u32 = 0;
        proof {
            lemma_total_empty();
        }
        for key in it: self.requests.keys()
            invariant
                m == self.requests@,
                keep == Set::new(|k: u64| keep_all || within(k, self.window_size, now)),
                m.dom().finite(),
                map_total(m) <= self.max_requests,
                it.seq().unref().to_set() == m.dom(),
                it.seq().no_duplicates(),
                forall|k: u64| #[trigger]
                    kept@.contains_key(k) <==> (keep.contains(k) && it.seq().take(
                        it.index(),
                    ).unref().contains(k)),
                forall|k: u64| #[trigger] kept@.contains_key(k) ==> kept@[k] == m[k],
                total == map_total(kept@),
                kept@.submap_of(m),
                it.index() == it.seq().len() ==> kept@ =~= m.restrict(keep),
        {
            let k: u64 = *key;
            let ghost i = it.index();
            assert(it.seq().unref()[i] == k);
            assert(m.dom().contains(k)) by {
                assert(it.seq().unref().contains(k));
            }
            assert(!kept@.contains_key(k)) by {
                if it.seq().take(i).unref().contains(k) {
                    let j = choose|j: int| 0 <= j < i && it.seq().take(i).unref()[j] == k;
                    assert(it.seq()[j] == it.seq()[i]);
                }
            }
            let v: u32 = match self.requests.get(&k) {
                Some(c) => *c,
                None => 0,
            };
            if keep_all || now < self.window_size || k > now - self.window_size {
                assert(keep.contains(k));
                proof {
                    lemma_total_insert(kept@, k, v);
                    assert(kept@.remove(k) =~= kept@);
                    lemma_total_submap(kept@.insert(k, v), m);
                }
                kept.insert(k, v);
                total = total + v;
            } else {
                assert(!keep.contains(k));
            }
            assert forall|x: u64| #[trigger] it.seq().take(i + 1).unref().contains(x) <==> (
            it.seq().take(i).unref().contains(x) || x == k) by {
                if it.seq().take(i + 1).unref().contains(x) {
                    let ghost pre = it.seq().take(i + 1).unref();
                    let j = choose|j: int| 0 <= j < pre.len() && #[trigger] pre[j] == x;
                    if j < i {
                        assert(it.seq().take(i).unref()[j] == x);
                    }
                }
                if it.seq().take(i).unref().contains(x) {
                    let j = choose|j: int| 0 <= j < i && it.seq().take(i).unref()[j] == x;
                    assert(it.seq().take(i + 1).unref()[j] == x);
                }
                if x == k {
                    assert(it.seq().take(i + 1).unref()[i] == x);
                }
            }
            assert(i + 1 == it.seq().len() ==> it.seq().take(i + 1) =~= it.seq());
        }
        proof {
            lemma_total_submap(kept@, m);
        }
        assert(keep_all ==> m.restrict(keep) =~= m);
        assert(!keep_all ==> m.restrict(keep) =~= in_window(self@, now));
        (kept, total)
    }

    /// Decides a request that arrives at second `now_secs`: counts of seconds that
    /// left the window ending at `now_secs` are dropped; the request is let through,
    /// and counted at `now_secs`, when fewer than `max_requests` requests remain.
    pub fn allow_request_at(&mut self, now_secs: u64) -> (allowed: bool)
        ensures
            allowed == admits(old(self)@, now_secs),
            final(self)@ == after_request(old(self)@, now_secs),
            final(self)@.requests.dom().finite(),
            map_total(final(self)@.requests) <= final(self)@.max_requests,
    {
        proof {
            use_type_invariant(&*self);
        }
        let (mut kept, count) = self.counts_in_window(now_secs, false);
        if count < self.max_requests {
            let cur: u32 = match kept.get(&now_secs) {
                Some(c) => *c,
                None => 0,
            };
            proof {
                if kept@.contains_key(now_secs) {
                    lemma_total_remove(kept@, now_secs);
                } else {
                    assert(kept@.remove(now_secs) =~= kept@);
                }
                lemma_total_insert(kept@, now_secs, (cur + 1) as u32);
            }
            kept.insert(now_secs, cur + 1);
            self.requests = kept;
            true
        } else {
            self.requests = kept;
            false
        }
    }

    /// Checks the window that ends at second `now_secs`: drops the counts of seconds
    /// outside it. Returns how many requests are counted.
    pub fn rate_limit_check_at(&mut self, now_secs: u64) -> (count: u32)
        ensures
            final(self)@ == checked(old(self)@, now_secs),
            count == map_total(final(self)@.requests),
            count <= final(self)@.max_requests,
    {
        proof {
            use_type_invariant(&*self);
        }
        let (kept, count) = self.counts_in_window(now_secs, false);
        self.requests = kept;
        count
    }

    /// How many requests are counted. The counted seconds are finitely many.
    pub fn request_count(&self) -> (count: u32)
        ensures
            self@.requests.dom().finite(),
            count == map_total(self@.requests),
            count <= self@.max_requests,
    {
        proof {
            use_type_invariant(self);
        }
        let (_, count) = self.counts_in_window(0, true);
        count
    }
}

// ---------------------------------------------------------------- the shared limiter

/// The settings a shared window keeps: its length and its limit.
pub struct WindowSettings {
    pub window_size: u64,
    pub max_requests: u32,
}

impl RwLockPredicate<RequestWindow> for WindowSettings {
    open spec fn inv(self, w: RequestWindow) -> bool {
        w@.window_size == self.window_size && w@.max_requests == self.max_requests
    }
}

/// What a `SlidingWindowRateLimiter` is set up with: the window length in seconds,
/// the limit, and the moment its clock starts.
pub struct LimiterSettings {
    pub window_size: u64,
    pub max_requests: u32,
    pub start_time: Instant,
}

/// Represents a sliding window rate limiter for controlling request rates. Its
/// copies share one window: a request let through by any of them counts for all.
pub struct SlidingWindowRateLimiter {
    window: Arc<RwLock<RequestWindow, WindowSettings>>,
    start_time: Instant,
}

impl View for SlidingWindowRateLimiter {
    type V = LimiterSettings;

    closed spec fn view(&self) -> LimiterSettings {
        LimiterSettings {
            window_size: self.window.pred().window_size,
            max_requests: self.window.pred().max_requests,
            start_time: self.start_time,
        }
    }
}

impl SlidingWindowRateLimiter {
    /// `self` and `other` count in one shared window.
    pub closed spec fn shares_window_with(&self, other: &SlidingWindowRateLimiter) -> bool {
        self.window == other.window
    }

    /// Creates a rate limiter that lets through at most `max_requests` requests in any
    /// `window_size` seconds. Its clock starts now.
    pub fn new(window_size: u64, max_requests: u32) -> (r: SlidingWindowRateLimiter)
        ensures
            r@.window_size == window_size,
            r@.max_requests == max_requests,
    {
        let settings = Ghost(WindowSettings { window_size, max_requests });
        let window = RequestWindow::new(window_size, max_requests);
        SlidingWindowRateLimiter {
            window: Arc::new(RwLock::new(window, settings)),
            start_time: instant_now(),
        }
    }

    /// The seconds elapsed on the limiter's clock.
    fn now_secs(&self) -> u64 {
        let elapsed = instant_elapsed(&self.start_time);
        duration_secs(&elapsed)
    }

    /// Checks if a request is allowed at the time elapsed on the limiter's clock, in the
    /// window shared by all copies of this limiter. Other copies may change that window
    /// at any time, so what is stated holds of the window as this call found it.
    pub fn allow_request(&self) -> (allowed: bool)
        ensures
            exists|s: WindowState, now: u64|
                {
                    &&& s.window_size == self@.window_size
                    &&& s.max_requests == self@.max_requests
                    &&& map_total(s.requests) <= s.max_requests
                    &&& allowed == admits(s, now)
                },
    {
        let now = self.now_secs();
        let (mut w, handle) = self.window.acquire_write();
        let ghost found = w@;
        proof {
            use_type_invariant(&w);
        }
        let allowed = w.allow_request_at(now);
        handle.release_write(w);
        assert(found.window_size == self@.window_size && found.max_requests == self@.max_requests
            && map_total(found.requests) <= found.max_requests && allowed == admits(found, now));
        allowed
    }

    /// Checks the shared window at the time elapsed on the limiter's clock: drops the
    /// counts that left it. Returns how many requests are counted.
    pub fn rate_limit_check(&self) -> (count: u32)
        ensures
            count <= self@.max_requests,
            exists|s: WindowState, now: u64|
                s.window_size == self@.window_size && count == map_total(in_window(s, now)),
    {
        let now = self.now_secs();
        let (mut w, handle) = self.window.acquire_write();
        let count = w.rate_limit_check_at(now);
        handle.release_write(w);
        count
    }

    /// How many requests the shared window counts now.
    pub fn request_count(&self) -> (count: u32)
        ensures
            count <= self@.max_requests,
    {
        let handle = self.window.acquire_read();
        let count = handle.borrow().request_count();
        handle.release_read();
        count
    }
}

impl Clone for SlidingWindowRateLimiter {
    /// A limiter that shares this one's window and clock.
    fn clone(&self) -> (r: Self)
        ensures
            r@ == self@,
            r.shares_window_with(self),
    {
        SlidingWindowRateLimiter { window: Arc::clone(&self.window), start_time: self.start_time }
    }
}

} // verus!
