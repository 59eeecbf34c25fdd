//! The load balancer: round-robin choice of an upstream server, rate limiting,
//! and the record of servers found dead by health checks.

use vstd::prelude::*;
use vstd::string::*;
use crate::args::Arguments;
use crate::errors::RateLimitingError;
use crate::rate_limiting::SlidingWindowRateLimiter;
use std::sync::Arc;
use vstd::rwlock::{RwLock, RwLockPredicate};
use crate::text::{chars_of, contains_chars, contains_text, occurs_at, text_of, texts};

verus! {

// ---------------------------------------------------------------- round robin

/// The index after `i`: one more, wrapping to zero past the largest index.
pub open spec fn next_index(i: usize) -> usize {
    if i == usize::MAX {
        0
    } else {
        (i + 1) as usize
    }
}

/// The index after `j` steps from `i`.
pub open spec fn advance(i: usize, j: nat) -> usize
    decreases j,
{
    if j == 0 {
        i
    } else {
        next_index(advance(i, (j - 1) as nat))
    }
}

/// Short of wrapping, `j` steps from `i` lead to `i + j`.
pub proof fn lemma_advance_no_wrap(i: usize, j: nat)
    requires
        i + j <= usize::MAX,
    ensures
        advance(i, j) == i + j,
    decreases j,
{
    if j > 0 {
        lemma_advance_no_wrap(i, (j - 1) as nat);
    }
}

/// Server `s` is among the `n` choices made from index `i` on, among `n` servers.
pub open spec fn chosen_within(i: usize, n: usize, s: int) -> bool {
    exists|j: nat| j < n && #[trigger] (advance(i, j) % n) == s
}

/// Server `s` is picked by one of the `n` increments of a counter that starts at `i`.
pub open spec fn picked_within(i: usize, n: usize, s: int) -> bool {
    exists|j: nat| j < n && #[trigger] pick(advance(i, j), n) == s
}

/// Round robin: `n` consecutive increments of a counter among `n` servers, starting
/// anywhere short of wrapping, pick each server exactly once.
pub proof fn lemma_round_robin_picks_each_once(i: usize, n: usize)
    requires
        n > 0,
        i + n < usize::MAX,
    ensures
        forall|s: int| 0 <= s < n ==> #[trigger] picked_within(i, n, s),
        forall|j1: nat, j2: nat|
            j1 < j2 < n ==> #[trigger] pick(advance(i, j1), n) != #[trigger] pick(advance(i, j2), n),
{
    let i1 = (i + 1) as usize;
    lemma_round_robin_each_once(i1, n);
    assert forall|j: nat| j < n implies #[trigger] pick(advance(i, j), n) == advance(i1, j) % n by {
        lemma_advance_no_wrap(i, j);
        lemma_advance_no_wrap(i1, j);
    }
    assert forall|s: int| 0 <= s < n implies #[trigger] picked_within(i, n, s) by {
        assert(chosen_within(i1, n, s));
        let j = choose|j: nat| j < n && #[trigger] (advance(i1, j) % n) == s;
        assert(pick(advance(i, j), n) == s);
    }
    assert forall|j1: nat, j2: nat| j1 < j2 < n implies #[trigger] pick(advance(i, j1), n)
        != #[trigger] pick(advance(i, j2), n) by {
        assert(advance(i1, j1) % n != advance(i1, j2) % n);
    }
}

/// Round robin: over `n` consecutive choices among `n` servers, starting from any
/// index (short of wrapping), each server is chosen exactly once.
pub proof fn lemma_round_robin_each_once(i: usize, n: usize)
    requires
        n > 0,
        i + n <= usize::MAX,
    ensures
        forall|s: int| 0 <= s < n ==> #[trigger] chosen_within(i, n, s),
        forall|j1: nat, j2: nat|
            j1 < j2 < n ==> #[trigger] (advance(i, j1) % n) != #[trigger] (advance(i, j2) % n),
{
    let q = i as int / n as int;
    let r = i as int % n as int;
    vstd::arithmetic::div_mod::lemma_fundamental_div_mod(i as int, n as int);
    assert forall|s: int| 0 <= s < n implies #[trigger] chosen_within(i, n, s) by {
        let j: nat = if s >= r {
            (s - r) as nat
        } else {
            (s + n - r) as nat
        };
        lemma_advance_no_wrap(i, j);
        if s >= r {
            assert(i + j == n * q + s);
            vstd::arithmetic::div_mod::lemma_mod_multiples_vanish(q, s, n as int);
        } else {
            assert(i + j == n * (q + 1) + s) by (nonlinear_arith)
                requires
                    i == n * q + r,
                    j == s + n - r,
            ;
            vstd::arithmetic::div_mod::lemma_mod_multiples_vanish(q + 1, s, n as int);
        }
        vstd::arithmetic::div_mod::lemma_small_mod(s as nat, n as nat);
        assert(advance(i, j) % n == s);
    }
    assert forall|j1: nat, j2: nat| j1 < j2 < n implies #[trigger] (advance(i, j1) % n)
        != #[trigger] (advance(i, j2) % n) by {
        lemma_advance_no_wrap(i, j1);
        lemma_advance_no_wrap(i, j2);
        let a = i + j1;
        let b = i + j2;
        vstd::arithmetic::div_mod::lemma_fundamental_div_mod(a as int, n as int);
        vstd::arithmetic::div_mod::lemma_fundamental_div_mod(b as int, n as int);
        if a % n as int == b % n as int {
            assert(b - a == n * (b / n as int - a / n as int)) by (nonlinear_arith)
                requires
                    a == n * (a / n as int) + a % n as int,
                    b == n * (b / n as int) + b % n as int,
                    a % n as int == b % n as int,
            ;
            assert(0 < b - a < n);
            assert(false) by (nonlinear_arith)
                requires
                    b - a == n * (b / n as int - a / n as int),
                    0 < b - a < n,
            ;
        }
    }
}

/// Any counter value may stand in an `IndexHolder`.
pub struct AnyIndex;

impl RwLockPredicate<usize> for AnyIndex {
    open spec fn inv(self, v: usize) -> bool {
        true
    }
}

/// The server picked when the counter moves on from `counter`, among `num_servers`.
pub open spec fn pick(counter: usize, num_servers: usize) -> int {
    next_index(counter) as int % num_servers as int
}

/// Holds the index of the last selected upstream server: a counter shared between
/// the holder and its copies, which may live in different threads.
pub struct IndexHolder {
    index: Arc<RwLock<usize, AnyIndex>>,
}

impl IndexHolder {
    /// `self` and `other` share one counter.
    pub closed spec fn shares_counter_with(&self, other: &IndexHolder) -> bool {
        self.index == other.index
    }

    /// Creates a new `IndexHolder` with the specified initial value. The counter is
    /// shared with every copy of the holder.
    pub fn new(value: usize) -> (r: Self) {
        IndexHolder { index: Arc::new(RwLock::new(value, Ghost(AnyIndex))) }
    }

    /// Increments the shared index by 1 (wrapping) and returns the result modulo
    /// `num_servers`. Copies in other threads may move the counter at any time, so
    /// what is stated holds of the value this call found.
    pub fn increment(&self, num_servers: usize) -> (r: usize)
        requires
            num_servers > 0,
        ensures
            exists|found: usize| r == pick(found, num_servers),
            r < num_servers,
    {
        let (found, handle) = self.index.acquire_write();
        let (next, r) = round_robin_step(found, num_servers);
        handle.release_write(next);
        r
    }
}

/// One step of round robin among `num_servers` servers: the counter after `counter`
/// (one more, wrapping) and the server that it picks.
pub fn round_robin_step(counter: usize, num_servers: usize) -> (r: (usize, usize))
    requires
        num_servers > 0,
    ensures
        r.0 == next_index(counter),
        r.1 == pick(counter, num_servers),
        r.1 < num_servers,
{
    let next = counter.wrapping_add(1);
    (next, next % num_servers)
}

impl Clone for IndexHolder {
    /// A holder that shares this one's counter.
    fn clone(&self) -> (r: Self)
        ensures
            r.shares_counter_with(self),
    {
        IndexHolder { index: Arc::clone(&self.index) }
    }
}

// ---------------------------------------------------------------- dead servers

/// `d` without any entry equal to `t`.
pub open spec fn remove_all(d: Seq<Seq<char>>, t: Seq<char>) -> Seq<Seq<char>>
    decreases d.len(),
{
    if d.len() == 0 {
        d
    } else if d.last() == t {
        remove_all(d.drop_last(), t)
    } else {
        remove_all(d.drop_last(), t).push(d.last())
    }
}

/// `d` with `t` added at the end, unless it is there already.
pub open spec fn insert_absent(d: Seq<Seq<char>>, t: Seq<char>) -> Seq<Seq<char>> {
    if d.contains(t) {
        d
    } else {
        d.push(t)
    }
}

/// What `remove_all` keeps, and that it keeps entries distinct.
pub proof fn lemma_remove_all(d: Seq<Seq<char>>, t: Seq<char>)
    ensures
        forall|x: Seq<char>| #[trigger] remove_all(d, t).contains(x) <==> (d.contains(x) && x != t),
        d.no_duplicates() ==> remove_all(d, t).no_duplicates(),
    decreases d.len(),
{
    if d.len() > 0 {
        let p = d.drop_last();
        lemma_remove_all(p, t);
        assert forall|x: Seq<char>| #[trigger] d.contains(x) <==> (p.contains(x) || x == d.last()) by {
            if d.contains(x) {
                let j = choose|j: int| 0 <= j < d.len() && d[j] == x;
                if j < d.len() - 1 {
                    assert(p[j] == x);
                }
            }
            if p.contains(x) {
                let j = choose|j: int| 0 <= j < p.len() && p[j] == x;
                assert(d[j] == x);
            }
            if x == d.last() {
                assert(d[d.len() - 1] == x);
            }
        }
        if d.last() != t {
            let r = remove_all(p, t);
            assert forall|x: Seq<char>| #[trigger] r.push(d.last()).contains(x) <==> (r.contains(x) || x == d.last()) by {
                if r.push(d.last()).contains(x) {
                    let j = choose|j: int| 0 <= j < r.len() + 1 && r.push(d.last())[j] == x;
                    if j < r.len() {
                        assert(r[j] == x);
                    }
                }
                if r.contains(x) {
                    let j = choose|j: int| 0 <= j < r.len() && r[j] == x;
                    assert(r.push(d.last())[j] == x);
                }
                if x == d.last() {
                    assert(r.push(d.last())[r.len() as int] == x);
                }
            }
            if d.no_duplicates() {
                assert(p.no_duplicates());
                assert(!p.contains(d.last())) by {
                    if p.contains(d.last()) {
                        let j = choose|j: int| 0 <= j < p.len() && p[j] == d.last();
                        assert(d[j] == d[d.len() - 1]);
                    }
                }
                assert(!r.contains(d.last()));
                assert forall|i: int, j: int| 0 <= i < j < r.len() + 1 implies r.push(d.last())[i]
                    != r.push(d.last())[j] by {
                    if j == r.len() {
                        assert(r.contains(r[i]));
                    }
                }
            }
        } else {
            if d.no_duplicates() {
                assert(p.no_duplicates());
            }
        }
    }
}

/// What `insert_absent` holds, and that it keeps entries distinct.
pub proof fn lemma_insert_absent(d: Seq<Seq<char>>, t: Seq<char>)
    ensures
        forall|x: Seq<char>| #[trigger] insert_absent(d, t).contains(x) <==> (d.contains(x) || x == t),
        d.no_duplicates() ==> insert_absent(d, t).no_duplicates(),
{
    if !d.contains(t) {
        assert forall|x: Seq<char>| #[trigger] d.push(t).contains(x) <==> (d.contains(x) || x == t) by {
            if d.push(t).contains(x) {
                let j = choose|j: int| 0 <= j < d.len() + 1 && d.push(t)[j] == x;
                if j < d.len() {
                    assert(d[j] == x);
                }
            }
            if d.contains(x) {
                let j = choose|j: int| 0 <= j < d.len() && d[j] == x;
                assert(d.push(t)[j] == x);
            }
            if x == t {
                assert(d.push(t)[d.len() as int] == x);
            }
        }
        if d.no_duplicates() {
            assert forall|i: int, j: int| 0 <= i < j < d.len() + 1 implies d.push(t)[i] != d.push(t)[j] by {
                if j == d.len() {
                    assert(d.contains(d[i]));
                }
            }
        }
    }
}

/// The marker of a healthy answer to a health check.
pub open spec fn healthy_marker() -> Seq<char> {
    seq!['2', '0', '0', ' ', 'O', 'K']
}

/// A health check's outcome: `None` when the server could not be reached, written
/// to or read from; else its answer, which passes when it holds `"200 OK"`.
pub open spec fn probe_passed(response: Option<Seq<char>>) -> bool {
    match response {
        Some(t) => contains_text(t, healthy_marker()),
        None => false,
    }
}

/// The outcomes of the health checks `rs`.
pub open spec fn verdicts(rs: Seq<Option<String>>) -> Seq<bool> {
    rs.map_values(|r: Option<String>| probe_passed(text_of(r)))
}

/// A health check passes exactly when the server answered and its answer holds the
/// text `"200 OK"` somewhere, whatever else it holds (any HTTP version, any
/// headers or body).
pub proof fn lemma_check_passes_on_200_ok(rs: Seq<Option<String>>, i: int)
    requires
        0 <= i < rs.len(),
    ensures
        verdicts(rs).len() == rs.len(),
        verdicts(rs)[i] <==> (rs[i] matches Some(a) && exists|k: int|
            0 <= k && k + 6 <= a@.len() && #[trigger] a@.subrange(k, k + 6) == seq![
                '2',
                '0',
                '0',
                ' ',
                'O',
                'K',
            ]),
{
    assert(healthy_marker() == seq!['2', '0', '0', ' ', 'O', 'K']);
    assert(verdicts(rs)[i] == probe_passed(text_of(rs[i])));
    if let Some(a) = rs[i] {
        if exists|k: int| 0 <= k && k + 6 <= a@.len() && #[trigger] a@.subrange(k, k + 6)
            == seq!['2', '0', '0', ' ', 'O', 'K'] {
            let k = choose|k: int| 0 <= k && k + 6 <= a@.len() && #[trigger] a@.subrange(k, k + 6)
                == seq!['2', '0', '0', ' ', 'O', 'K'];
            assert(occurs_at(a@, healthy_marker(), k));
        }
    }
}

/// After a round of health checks, the healthy servers returned are those whose
/// check passed, in order: a server checked at `i` is among them when its check
/// passed.
pub proof fn lemma_passed_holds_each_passing_target(ts: Seq<Seq<char>>, oks: Seq<bool>, i: int)
    requires
        ts.len() == oks.len(),
        0 <= i < ts.len(),
        oks[i],
    ensures
        passed(ts, oks).contains(ts[i]),
    decreases ts.len(),
{
    let p = passed(ts.drop_last(), oks.drop_last());
    if i == ts.len() - 1 {
        assert(passed(ts, oks) == p.push(ts.last()));
        assert(p.push(ts.last())[p.len() as int] == ts[i]);
    } else {
        lemma_passed_holds_each_passing_target(ts.drop_last(), oks.drop_last(), i);
        assert(ts.drop_last()[i] == ts[i]);
        let j = choose|j: int| 0 <= j < p.len() && p[j] == ts[i];
        if oks.last() {
            assert(passed(ts, oks) == p.push(ts.last()));
            assert(p.push(ts.last())[j] == ts[i]);
        }
    }
}

/// The dead servers `d` after the check of `t` passed (`ok`) or failed.
pub open spec fn record_probe(d: Seq<Seq<char>>, t: Seq<char>, ok: bool) -> Seq<Seq<char>> {
    if ok {
        remove_all(d, t)
    } else {
        insert_absent(d, t)
    }
}

/// The dead servers `d` after the checks of `ts`, in order, with outcomes `oks`.
pub open spec fn dead_after(d: Seq<Seq<char>>, ts: Seq<Seq<char>>, oks: Seq<bool>) -> Seq<Seq<char>>
    decreases ts.len(),
{
    if ts.len() == 0 || oks.len() != ts.len() {
        d
    } else {
        record_probe(dead_after(d, ts.drop_last(), oks.drop_last()), ts.last(), oks.last())
    }
}

/// The servers among `ts` whose check passed, in order.
pub open spec fn passed(ts: Seq<Seq<char>>, oks: Seq<bool>) -> Seq<Seq<char>>
    decreases ts.len(),
{
    if ts.len() == 0 || oks.len() != ts.len() {
        seq![]
    } else if oks.last() {
        passed(ts.drop_last(), oks.drop_last()).push(ts.last())
    } else {
        passed(ts.drop_last(), oks.drop_last())
    }
}

/// The outcome of the last check of `x` among `ts`, if `x` was checked.
pub open spec fn last_verdict(ts: Seq<Seq<char>>, oks: Seq<bool>, x: Seq<char>) -> Option<bool>
    decreases ts.len(),
{
    if ts.len() == 0 || oks.len() != ts.len() {
        None
    } else if ts.last() == x {
        Some(oks.last())
    } else {
        last_verdict(ts.drop_last(), oks.drop_last(), x)
    }
}

/// After a round of health checks, a server is dead exactly when its last check
/// failed; a server that was not checked stays as it was.
pub proof fn lemma_dead_after_last_verdict(
    d: Seq<Seq<char>>,
    ts: Seq<Seq<char>>,
    oks: Seq<bool>,
    x: Seq<char>,
)
    requires
        ts.len() == oks.len(),
    ensures
        dead_after(d, ts, oks).contains(x) <==> match last_verdict(ts, oks, x) {
            Some(ok) => !ok,
            None => d.contains(x),
        },
        d.no_duplicates() ==> dead_after(d, ts, oks).no_duplicates(),
    decreases ts.len(),
{
    if ts.len() > 0 {
        let p = dead_after(d, ts.drop_last(), oks.drop_last());
        lemma_dead_after_last_verdict(d, ts.drop_last(), oks.drop_last(), x);
        lemma_remove_all(p, ts.last());
        lemma_insert_absent(p, ts.last());
    }
}


// ---------------------------------------------------------------- the balancer

/// Represents a load balancer which distributes incoming requests among upstream servers.
/// Its copies share the round-robin counter and the rate limiter's window.
pub struct LoadBalancer {
    pub load_balancer_ip: String,
    pub health_check_path: String,
    pub health_check_interval: u64,
    pub upstream_servers: Vec<String>,
    pub dead_upstreams: Vec<String>,
    pub last_selected_index: IndexHolder,
    pub rate_limiter: SlidingWindowRateLimiter,
}

/// `a` and `b` hold the same address, health-check settings and upstream servers.
pub open spec fn same_settings(a: &LoadBalancer, b: &LoadBalancer) -> bool {
    &&& a.load_balancer_ip@ == b.load_balancer_ip@
    &&& a.health_check_path@ == b.health_check_path@
    &&& a.health_check_interval == b.health_check_interval
    &&& texts(a.upstream_servers@) == texts(b.upstream_servers@)
}

/// No server is recorded dead twice.
pub open spec fn dead_distinct(lb: &LoadBalancer) -> bool {
    texts(lb.dead_upstreams@).no_duplicates()
}

/// `a` and `b` share the round-robin counter and the rate limiter's window.
pub open spec fn shares_state(a: &LoadBalancer, b: &LoadBalancer) -> bool {
    &&& a.last_selected_index.shares_counter_with(&b.last_selected_index)
    &&& a.rate_limiter.shares_window_with(&b.rate_limiter)
    &&& a.rate_limiter@ == b.rate_limiter@
}

/// The text of the health-check request for `host`.
pub open spec fn health_check_text(path: Seq<char>, host: Seq<char>) -> Seq<char> {
    "GET "@ + path + " HTTP/1.1\r\nHost: "@ + host + "\r\nConnection: close\r\n\r\n"@
}

/// A copy of `v`, string by string.
fn copy_strings(v: &Vec<String>) -> (r: Vec<String>)
    ensures
        texts(r@) == texts(v@),
{
    let mut r: Vec<String> = Vec::new();
    let mut i: usize = 0;
    while i < v.len()
        invariant
            0 <= i <= v@.len(),
            r@.len() == i,
            forall|j: int| 0 <= j < i ==> #[trigger] r@[j]@ == v@[j]@,
        decreases v@.len() - i,
    {
        r.push(v[i].clone());
        i = i + 1;
    }
    assert(texts(r@) =~= texts(v@));
    r
}

/// `v` without any string equal to `t`.
fn without(v: &Vec<String>, t: &String) -> (r: Vec<String>)
    ensures
        texts(r@) == remove_all(texts(v@), t@),
{
    let mut r: Vec<String> = Vec::new();
    for i in 0..v.len()
        invariant
            texts(r@) == remove_all(texts(v@).take(i as int), t@),
    {
        assert(texts(v@).take(i + 1).drop_last() =~= texts(v@).take(i as int));
        if v[i] != *t {
            r.push(v[i].clone());
            assert(texts(r@) =~= remove_all(texts(v@).take(i as int), t@).push(v@[i as int]@));
        }
    }
    assert(texts(v@).take(v@.len() as int) =~= texts(v@));
    r
}

/// Whether `v` holds a string equal to `t`.
fn holds(v: &Vec<String>, t: &String) -> (r: bool)
    ensures
        r == texts(v@).contains(t@),
{
    for i in 0..v.len()
        invariant
            forall|j: int| 0 <= j < i ==> texts(v@)[j] != t@,
    {
        if v[i] == *t {
            assert(texts(v@)[i as int] == t@);
            return true;
        }
    }
    false
}

impl Clone for LoadBalancer {
    /// A load balancer with the same settings and dead servers, sharing this one's
    /// round-robin counter and rate limiter window.
    fn clone(&self) -> (r: Self)
        ensures
            same_settings(&r, self),
            texts(r.dead_upstreams@) == texts(self.dead_upstreams@),
            shares_state(&r, self),
    {
        LoadBalancer {
            load_balancer_ip: self.load_balancer_ip.clone(),
            health_check_path: self.health_check_path.clone(),
            health_check_interval: self.health_check_interval,
            upstream_servers: copy_strings(&self.upstream_servers),
            dead_upstreams: copy_strings(&self.dead_upstreams),
            last_selected_index: self.last_selected_index.clone(),
            rate_limiter: self.rate_limiter.clone(),
        }
    }
}

impl LoadBalancer {
    /// Creates a new `LoadBalancer` instance, with no dead servers, the round-robin
    /// counter at zero, and a rate limiter of at most `max_requests` requests in any
    /// `window_size_secs` seconds.
    pub fn new(
        load_balancer_ip: String,
        health_check_path: String,
        health_check_interval: u64,
        upstream_servers: Vec<String>,
        window_size_secs: u64,
        max_requests: u32,
    ) -> (r: LoadBalancer)
        ensures
            r.load_balancer_ip == load_balancer_ip,
            r.health_check_path == health_check_path,
            r.health_check_interval == health_check_interval,
            r.upstream_servers == upstream_servers,
            r.dead_upstreams@.len() == 0,
            dead_distinct(&r),
            r.rate_limiter@.window_size == window_size_secs,
            r.rate_limiter@.max_requests == max_requests,
    {
        let r = LoadBalancer {
            load_balancer_ip,
            health_check_path,
            health_check_interval,
            upstream_servers,
            dead_upstreams: Vec::new(),
            last_selected_index: IndexHolder::new(0),
            rate_limiter: SlidingWindowRateLimiter::new(window_size_secs, max_requests),
        };
        assert(texts(r.dead_upstreams@) =~= Seq::<Seq<char>>::empty());
        r
    }

    /// Creates the load balancer that the command-line arguments describe: the
    /// health-check path defaults to `/health-check` and the interval to 60 seconds.
    pub fn from_arguments(args: Arguments) -> (r: LoadBalancer)
        ensures
            r.load_balancer_ip@ == args.load_balancer_ip@,
            r.health_check_path@ == match args.health_check_path {
                Some(p) => p@,
                None => "/health-check"@,
            },
            r.health_check_interval == match args.health_check_interval {
                Some(i) => i,
                None => 60,
            },
            r.upstream_servers == args.bind,
            r.dead_upstreams@.len() == 0,
            dead_distinct(&r),
            r.rate_limiter@.window_size == args.window_size_secs,
            r.rate_limiter@.max_requests == args.max_requests,
    {
        let Arguments {
            load_balancer_ip,
            health_check_path,
            health_check_interval,
            bind,
            window_size_secs,
            max_requests,
        } = args;
        let path = match health_check_path {
            Some(p) => p,
            None => String::from_str("/health-check"),
        };
        let interval: u64 = match health_check_interval {
            Some(i) => i,
            None => 60,
        };
        LoadBalancer::new(load_balancer_ip, path, interval, bind, window_size_secs, max_requests)
    }

    /// Marks the specified upstream server as dead, unless it is marked already.
    pub fn mark_as_dead(&mut self, upstream: &String)
        ensures
            texts(final(self).dead_upstreams@) == insert_absent(
                texts(old(self).dead_upstreams@),
                upstream@,
            ),
            dead_distinct(&*old(self)) ==> dead_distinct(&*final(self)),
            same_settings(&*final(self), &*old(self)),
            final(self).last_selected_index == old(self).last_selected_index,
            final(self).rate_limiter == old(self).rate_limiter,
    {
        proof {
            lemma_insert_absent(texts(self.dead_upstreams@), upstream@);
        }
        if !holds(&self.dead_upstreams, upstream) {
            self.dead_upstreams.push(upstream.clone());
            assert(texts(self.dead_upstreams@) =~= texts(old(self).dead_upstreams@).push(upstream@));
        }
    }

    /// The answer to a request once the round-robin counter picked `index` and the
    /// rate limiter decided (`allowed`): the server at `index` when the request is let
    /// through, else `RateLimitingError::ExceededMaxRequests`.
    pub fn choose_upstream(&self, index: usize, allowed: bool) -> (r: Result<Option<String>, RateLimitingError>)
        requires
            index < self.upstream_servers@.len(),
        ensures
            allowed ==> (r matches Ok(Some(s)) && s@ == self.upstream_servers@[index as int]@),
            !allowed ==> r matches Err(RateLimitingError::ExceededMaxRequests),
    {
        if allowed {
            Ok(Some(self.upstream_servers[index].clone()))
        } else {
            Err(RateLimitingError::ExceededMaxRequests)
        }
    }

    /// Chooses the upstream server for a request: none when there are no servers,
    /// without moving the counter or asking the rate limiter; else the next one in
    /// round-robin order, handed out when the rate limiter lets the request through.
    /// The counter and the window are shared with other copies of this load balancer,
    /// so which server comes next depends on what they did.
    pub fn select_upstream(&self) -> (r: Result<Option<String>, RateLimitingError>)
        ensures
            self.upstream_servers@.len() == 0 ==> r matches Ok(None),
            self.upstream_servers@.len() > 0 ==> exists|found: usize|
                {
                    let k = #[trigger] pick(found, self.upstream_servers@.len() as usize);
                    ||| (r matches Ok(Some(s)) && s@ == self.upstream_servers@[k]@)
                    ||| r matches Err(RateLimitingError::ExceededMaxRequests)
                },
    {
        let num_servers = self.upstream_servers.len();
        if num_servers == 0 {
            return Ok(None);
        }
        let index = self.last_selected_index.increment(num_servers);
        let allowed = self.rate_limiter.allow_request();
        let ghost found = choose|f: usize| index == pick(f, num_servers);
        let r = self.choose_upstream(index, allowed);
        assert(self.upstream_servers@.len() as usize == num_servers);
        assert(index == pick(found, self.upstream_servers@.len() as usize));
        r
    }

    /// The servers a round of health checks visits: the upstream servers, then the
    /// dead ones.
    pub fn health_check_targets(&self) -> (r: Vec<String>)
        ensures
            texts(r@) == texts(self.upstream_servers@) + texts(self.dead_upstreams@),
    {
        let mut r = copy_strings(&self.upstream_servers);
        let mut dead = copy_strings(&self.dead_upstreams);
        let ghost r0 = r@;
        let ghost d0 = dead@;
        r.append(&mut dead);
        assert(texts(r@) =~= texts(r0) + texts(d0));
        r
    }

    /// The request sent to `upstream` to check its health.
    pub fn health_check_request(&self, upstream: &str) -> (r: String)
        ensures
            r@ == health_check_text(self.health_check_path@, upstream@),
    {
        let mut r = String::from_str("GET ");
        r.append(self.health_check_path.as_str());
        r.append(" HTTP/1.1\r\nHost: ");
        r.append(upstream);
        r.append("\r\nConnection: close\r\n\r\n");
        r
    }

    /// Records a round of health checks: `responses[i]` is what the check of
    /// `targets[i]` read back (`None` when the server could not be reached, written
    /// to or read from). A server whose answer holds `"200 OK"` is healthy and no
    /// longer dead; any other is marked dead. Returns the healthy servers, in order.
    pub fn health_checking_with(
        &mut self,
        targets: &Vec<String>,
        responses: &Vec<Option<String>>,
    ) -> (healthy: Vec<String>)
        requires
            targets@.len() == responses@.len(),
        ensures
            texts(healthy@) == passed(texts(targets@), verdicts(responses@)),
            texts(final(self).dead_upstreams@) == dead_after(
                texts(old(self).dead_upstreams@),
                texts(targets@),
                verdicts(responses@),
            ),
            dead_distinct(&*old(self)) ==> dead_distinct(&*final(self)),
            same_settings(&*final(self), &*old(self)),
            final(self).last_selected_index == old(self).last_selected_index,
            final(self).rate_limiter == old(self).rate_limiter,
    {
        let ghost ts = texts(targets@);
        let ghost oks = verdicts(responses@);
        let ghost d0 = texts(self.dead_upstreams@);
        let marker: Vec<char> = vec!['2', '0', '0', ' ', 'O', 'K'];
        assert(marker@ =~= healthy_marker());
        let mut healthy: Vec<String> = Vec::new();
        for i in 0..targets.len()
            invariant
                targets@.len() == responses@.len(),
                ts == texts(targets@),
                oks == verdicts(responses@),
                d0 == texts(old(self).dead_upstreams@),
                marker@ == healthy_marker(),
                texts(healthy@) == passed(ts.take(i as int), oks.take(i as int)),
                texts(self.dead_upstreams@) == dead_after(d0, ts.take(i as int), oks.take(i as int)),
                same_settings(&*self, &*old(self)),
                self.last_selected_index == old(self).last_selected_index,
                self.rate_limiter == old(self).rate_limiter,
        {
            let ok = match &responses[i] {
                Some(answer) => contains_chars(&chars_of(answer.as_str()), &marker),
                None => false,
            };
            assert(ok == oks[i as int]);
            assert(ts.take(i + 1).drop_last() =~= ts.take(i as int));
            assert(oks.take(i + 1).drop_last() =~= oks.take(i as int));
            let ghost before = texts(healthy@);
            if ok {
                healthy.push(targets[i].clone());
                assert(texts(healthy@) =~= before.push(ts[i as int]));
                self.dead_upstreams = without(&self.dead_upstreams, &targets[i]);
            } else {
                self.mark_as_dead(&targets[i]);
            }
        }
        assert(ts.take(targets@.len() as int) =~= ts);
        assert(oks.take(targets@.len() as int) =~= oks);
        proof {
            if ts.len() > 0 {
                lemma_dead_after_last_verdict(d0, ts, oks, ts[0]);
            }
        }
        healthy
    }
}

} // verus!
