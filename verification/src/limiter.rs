//! Throttling of failed password attempts per client.
//!
//! Each client key (an IP address) has a history of failure times. A check
//! first forgets the failures older than the window; when at least
//! [`MAX_FAILURES`] remain, the client is blocked and told how many seconds
//! remain until fewer than [`MAX_FAILURES`] of them count: until the
//! third-newest counted failure leaves the window.
//!
//! Times are nanoseconds on the limiter's own monotonic clock, which starts
//! when the limiter is created.

use std::time::Duration;
use std::time::Instant;
use vstd::prelude::*;

verus! {

/// Length of the window in which failures are counted, in seconds.
pub const WINDOW_SECS: u64 = 600;

/// Number of failures within the window from which a client is blocked.
pub const MAX_FAILURES: usize = 3;

/// Nanoseconds per second.
pub const NANOS_PER_SEC: u64 = 1_000_000_000;

#[verifier::external_type_specification]
#[verifier::external_body]
pub struct ExInstant(Instant);

/// `Instant::now`: a reading of the monotonic clock. Nothing is stated of it.
#[verifier::external_body]
fn instant_now() -> Instant {
    Instant::now()
}

/// `Instant::elapsed`: the time passed since `start`. Nothing is stated of it.
#[verifier::external_body]
fn instant_elapsed(start: &Instant) -> Duration {
    start.elapsed()
}

/// `Duration::as_nanos`: the whole nanoseconds of `d`. The duration is opaque
/// here, so nothing is stated of the number.
#[verifier::external_body]
fn duration_as_nanos(d: &Duration) -> u128 {
    d.as_nanos()
}

/// Whole seconds from `t` to `now`; zero when `t` lies after `now`, as
/// `Instant::duration_since` saturates.
pub open spec fn elapsed_secs(now: u64, t: u64) -> int {
    if now >= t {
        (now - t) / (NANOS_PER_SEC as int)
    } else {
        0
    }
}

/// Whether a failure at `t` still counts at `now`.
pub open spec fn is_recent(now: u64, t: u64) -> bool {
    elapsed_secs(now, t) < WINDOW_SECS
}

/// The predicate "still counts at `now`".
pub open spec fn recent_pred(now: u64) -> spec_fn(u64) -> bool {
    |t: u64| is_recent(now, t)
}

/// The failures of `times` that still count at `now`, in their order.
pub open spec fn recent(times: Seq<u64>, now: u64) -> Seq<u64> {
    times.filter(recent_pred(now))
}

/// The failure history of `key` (empty for an unknown key).
pub open spec fn history(m: Map<Seq<char>, Seq<u64>>, key: Seq<char>) -> Seq<u64> {
    if m.contains_key(key) {
        m[key]
    } else {
        Seq::empty()
    }
}

/// The state after checking `key` at `now`: its history keeps only the
/// failures that still count.
pub open spec fn after_check(m: Map<Seq<char>, Seq<u64>>, key: Seq<char>, now: u64) -> Map<
    Seq<char>,
    Seq<u64>,
> {
    m.insert(key, recent(history(m, key), now))
}

/// What a check of `key` at `now` answers: blocked with the remaining
/// cooldown, the seconds until the third-newest counted failure leaves the
/// window, or allowed.
pub open spec fn check_result(m: Map<Seq<char>, Seq<u64>>, key: Seq<char>, now: u64) -> Result<
    (),
    u64,
> {
    let kept = recent(history(m, key), now);
    if kept.len() >= MAX_FAILURES {
        Err((WINDOW_SECS - elapsed_secs(now, kept[kept.len() - MAX_FAILURES])) as u64)
    } else {
        Ok(())
    }
}

/// The state after a failure of `key` at `now`.
pub open spec fn after_failure(m: Map<Seq<char>, Seq<u64>>, key: Seq<char>, now: u64) -> Map<
    Seq<char>,
    Seq<u64>,
> {
    m.insert(key, history(m, key).push(now))
}

struct Entry {
    key: String,
    times: Vec<u64>,
}

/// The readings of a limiter's clock: the latest, and all so far in order.
struct Readings {
    latest: u64,
    all: Ghost<Seq<u64>>,
}

/// Failure histories of clients, keyed by client, and the limiter's clock.
pub struct RateLimiter {
    entries: Vec<Entry>,
    start: Instant,
    readings: Readings,
}

spec fn has_key(es: Seq<Entry>, k: Seq<char>) -> bool {
    exists|i: int| 0 <= i < es.len() && #[trigger] es[i].key@ == k
}

spec fn index_of(es: Seq<Entry>, k: Seq<char>) -> int {
    choose|i: int| 0 <= i < es.len() && #[trigger] es[i].key@ == k
}

spec fn distinct_keys(es: Seq<Entry>) -> bool {
    forall|i: int, j: int|
        0 <= i < es.len() && 0 <= j < es.len() && i != j ==> #[trigger] es[i].key@
            != #[trigger] es[j].key@
}

spec fn as_map(es: Seq<Entry>) -> Map<Seq<char>, Seq<u64>> {
    Map::new(|k: Seq<char>| has_key(es, k), |k: Seq<char>| es[index_of(es, k)].times@)
}

proof fn lemma_index_of(es: Seq<Entry>, i: int)
    requires
        distinct_keys(es),
        0 <= i < es.len(),
    ensures
        has_key(es, es[i].key@),
        index_of(es, es[i].key@) == i,
{
    let k = es[i].key@;
    assert(has_key(es, k));
    let j = index_of(es, k);
    assert(es[j].key@ == k);
}

proof fn lemma_map_update(es: Seq<Entry>, i: int, e: Entry)
    requires
        distinct_keys(es),
        0 <= i < es.len(),
        e.key@ == es[i].key@,
    ensures
        distinct_keys(es.update(i, e)),
        as_map(es.update(i, e)) == as_map(es).insert(e.key@, e.times@),
{
    let nes = es.update(i, e);
    assert forall|a: int, b: int|
        0 <= a < nes.len() && 0 <= b < nes.len() && a != b implies #[trigger] nes[a].key@
        != #[trigger] nes[b].key@ by {
        assert(es[a].key@ != es[b].key@);
    }
    lemma_index_of(nes, i);
    assert forall|k: Seq<char>| #[trigger] has_key(nes, k) == has_key(es, k) by {
        if has_key(es, k) {
            let j = index_of(es, k);
            assert(nes[j].key@ == k);
        }
        if has_key(nes, k) {
            let j = index_of(nes, k);
            assert(es[j].key@ == k);
        }
    }
    assert forall|k: Seq<char>| has_key(nes, k) && k != e.key@ implies nes[index_of(nes, k)]
        == es[index_of(es, k)] by {
        let j = index_of(nes, k);
        assert(j != i);
        lemma_index_of(es, j);
    }
    assert(as_map(nes) =~= as_map(es).insert(e.key@, e.times@));
}

proof fn lemma_map_push(es: Seq<Entry>, e: Entry)
    requires
        distinct_keys(es),
        !has_key(es, e.key@),
    ensures
        distinct_keys(es.push(e)),
        as_map(es.push(e)) == as_map(es).insert(e.key@, e.times@),
{
    let nes = es.push(e);
    assert forall|a: int, b: int|
        0 <= a < nes.len() && 0 <= b < nes.len() && a != b implies #[trigger] nes[a].key@
        != #[trigger] nes[b].key@ by {
        if a < es.len() && b < es.len() {
            assert(es[a].key@ != es[b].key@);
        } else if a < es.len() {
            assert(es[a].key@ != e.key@);
        } else {
            assert(es[b].key@ != e.key@);
        }
    }
    lemma_index_of(nes, es.len() as int);
    assert forall|k: Seq<char>| #[trigger] has_key(nes, k) == (has_key(es, k) || k == e.key@) by {
        if has_key(es, k) {
            let j = index_of(es, k);
            assert(nes[j].key@ == k);
        }
        if has_key(nes, k) && k != e.key@ {
            let j = index_of(nes, k);
            assert(es[j].key@ == k);
        }
    }
    assert forall|k: Seq<char>| has_key(nes, k) && k != e.key@ implies nes[index_of(nes, k)]
        == es[index_of(es, k)] by {
        let j = index_of(nes, k);
        assert(j < es.len());
        lemma_index_of(es, j);
    }
    assert(as_map(nes) =~= as_map(es).insert(e.key@, e.times@));
}

proof fn lemma_map_remove(es: Seq<Entry>, i: int)
    requires
        distinct_keys(es),
        0 <= i < es.len(),
    ensures
        distinct_keys(es.remove(i)),
        as_map(es.remove(i)) == as_map(es).remove(es[i].key@),
{
    let nes = es.remove(i);
    let k0 = es[i].key@;
    assert forall|a: int, b: int|
        0 <= a < nes.len() && 0 <= b < nes.len() && a != b implies #[trigger] nes[a].key@
        != #[trigger] nes[b].key@ by {
        let a0 = if a < i { a } else { a + 1 };
        let b0 = if b < i { b } else { b + 1 };
        assert(nes[a] == es[a0]);
        assert(nes[b] == es[b0]);
        assert(es[a0].key@ != es[b0].key@);
    }
    assert forall|k: Seq<char>| #[trigger] has_key(nes, k) == (has_key(es, k) && k != k0) by {
        if has_key(es, k) && k != k0 {
            let j = index_of(es, k);
            assert(j != i);
            if j < i {
                assert(nes[j].key@ == k);
            } else {
                assert(nes[j - 1].key@ == k);
            }
        }
        if has_key(nes, k) {
            let j = index_of(nes, k);
            let j0 = if j < i { j } else { j + 1 };
            assert(es[j0].key@ == k);
            assert(j0 != i);
        }
    }
    assert forall|k: Seq<char>| has_key(nes, k) implies nes[index_of(nes, k)] == es[index_of(
        es,
        k,
    )] by {
        let j = index_of(nes, k);
        let j0 = if j < i { j } else { j + 1 };
        assert(nes[j] == es[j0]);
        lemma_index_of(es, j0);
    }
    assert(as_map(nes) =~= as_map(es).remove(k0));
}

impl View for RateLimiter {
    type V = Map<Seq<char>, Seq<u64>>;

    closed spec fn view(&self) -> Map<Seq<char>, Seq<u64>> {
        as_map(self.entries@)
    }
}

/// Position of `key` among the entries.
fn find(entries: &Vec<Entry>, key: &String) -> (r: Option<usize>)
    ensures
        r matches Some(i) ==> i < entries@.len() && entries@[i as int].key@ == key@,
        r is None ==> !has_key(entries@, key@),
{
    let n = entries.len();
    let mut i: usize = 0;
    while i < n
        invariant
            n == entries@.len(),
            i <= n,
            forall|j: int| 0 <= j < i ==> entries@[j].key@ != key@,
        decreases n - i,
    {
        if entries[i].key == *key {
            return Some(i);
        }
        i = i + 1;
    }
    None
}

/// The failures of `times` that still count at `now`.
fn recent_times(times: &Vec<u64>, now: u64) -> (r: Vec<u64>)
    ensures
        r@ == recent(times@, now),
{
    let mut r: Vec<u64> = Vec::new();
    let n = times.len();
    let mut i: usize = 0;
    while i < n
        invariant
            n == times@.len(),
            i <= n,
            r@ == recent(times@.take(i as int), now),
        decreases n - i,
    {
        let t = times[i];
        proof {
            assert(times@.take(i + 1) =~= times@.take(i as int).push(t));
            times@.take(i as int).lemma_filter_push(t, recent_pred(now));
        }
        let e: u64 = if now >= t {
            (now - t) / NANOS_PER_SEC
        } else {
            0
        };
        if e < WINDOW_SECS {
            r.push(t);
        }
        i = i + 1;
    }
    assert(times@.take(n as int) =~= times@);
    r
}

impl RateLimiter {
    #[verifier::type_invariant]
    spec fn inv(self) -> bool {
        &&& distinct_keys(self.entries@)
        &&& in_order(self.readings.all@)
        &&& self.readings.all@.len() == 0 ==> self.readings.latest == 0
        &&& self.readings.all@.len() > 0 ==> self.readings.latest == self.readings.all@.last()
    }

    /// The latest reading of the limiter's clock (0 before the first).
    pub closed spec fn latest_reading(&self) -> u64 {
        self.readings.latest
    }

    /// All readings of the limiter's clock so far, oldest first: one for
    /// each check and each failure recorded on the clock.
    pub closed spec fn clock_readings(&self) -> Seq<u64> {
        self.readings.all@
    }

    /// A limiter that knows no client.
    pub fn new() -> (l: Self)
        ensures
            l@ == Map::<Seq<char>, Seq<u64>>::empty(),
            l.latest_reading() == 0,
            l.clock_readings() == Seq::<u64>::empty(),
    {
        let l = RateLimiter {
            entries: Vec::new(),
            start: instant_now(),
            readings: Readings { latest: 0, all: Ghost(Seq::empty()) },
        };
        assert(l@ =~= Map::<Seq<char>, Seq<u64>>::empty());
        l
    }

    /// The limiter's clock: nanoseconds since it was created (saturating).
    /// `Instant` never goes back; readings are also kept from going back
    /// here, so each reading is at least the one before.
    pub(crate) fn clock(&mut self) -> (now: u64)
        ensures
            final(self)@ == old(self)@,
            old(self).latest_reading() <= now,
            final(self).latest_reading() == now,
            final(self).clock_readings() == old(self).clock_readings().push(now),
            in_order(final(self).clock_readings()),
    {
        proof {
            use_type_invariant(&*self);
        }
        let d = instant_elapsed(&self.start);
        let n = duration_as_nanos(&d);
        let reading: u64 = if n > u64::MAX as u128 {
            u64::MAX
        } else {
            n as u64
        };
        let latest = self.readings.latest;
        let now = if reading > latest {
            reading
        } else {
            latest
        };
        let ghost all = self.readings.all@;
        proof {
            assert forall|k: int| 0 <= k < all.len() implies all[k] <= now by {
                assert(all[k] <= all[all.len() - 1]);
            }
            assert forall|i: int, j: int| 0 <= i <= j < all.push(now).len() implies all.push(
                now,
            )[i] <= all.push(now)[j] by {
                if j < all.len() {
                    assert(all[i] <= all[j]);
                }
            }
        }
        self.readings = Readings { latest: now, all: Ghost(all.push(now)) };
        now
    }

    /// Checks `key` at time `now`: forgets its failures that no longer
    /// count, then answers `Err` with the seconds to wait when at least
    /// [`MAX_FAILURES`] remain, `Ok` otherwise.
    pub fn check_at(&mut self, key: &str, now: u64) -> (r: Result<(), u64>)
        ensures
            final(self)@ == after_check(old(self)@, key@, now),
            r == check_result(old(self)@, key@, now),
            r matches Err(wait) ==> 1 <= wait <= WINDOW_SECS,
            final(self).latest_reading() == old(self).latest_reading(),
            final(self).clock_readings() == old(self).clock_readings(),
    {
        proof {
            use_type_invariant(&*self);
        }
        let k = key.to_owned();
        let ghost m = self@;
        let mut entries: Vec<Entry> = Vec::new();
        std::mem::swap(&mut entries, &mut self.entries);
        let kept = match find(&entries, &k) {
            Some(i) => {
                let kept = recent_times(&entries[i].times, now);
                let e = Entry { key: k, times: kept.clone() };
                proof {
                    lemma_index_of(entries@, i as int);
                    lemma_map_update(entries@, i as int, e);
                }
                entries.set(i, e);
                kept
            },
            None => {
                let kept = recent_times(&Vec::new(), now);
                let e = Entry { key: k, times: kept.clone() };
                proof {
                    lemma_map_push(entries@, e);
                }
                entries.push(e);
                kept
            },
        };
        self.entries = entries;
        assert(self@ == after_check(m, key@, now));
        if kept.len() >= MAX_FAILURES {
            let t = kept[kept.len() - MAX_FAILURES];
            proof {
                assert(recent_pred(now)(kept@[kept.len() - MAX_FAILURES]));
            }
            let e: u64 = if now >= t {
                (now - t) / NANOS_PER_SEC
            } else {
                0
            };
            Err(WINDOW_SECS - e)
        } else {
            Ok(())
        }
    }

    /// Records a failure of `key` at time `now`.
    pub fn record_failure_at(&mut self, key: &str, now: u64)
        ensures
            final(self)@ == after_failure(old(self)@, key@, now),
            final(self).latest_reading() == old(self).latest_reading(),
            final(self).clock_readings() == old(self).clock_readings(),
    {
        proof {
            use_type_invariant(&*self);
        }
        let k = key.to_owned();
        let mut entries: Vec<Entry> = Vec::new();
        std::mem::swap(&mut entries, &mut self.entries);
        match find(&entries, &k) {
            Some(i) => {
                let mut times = entries[i].times.clone();
                times.push(now);
                let e = Entry { key: k, times };
                proof {
                    lemma_index_of(entries@, i as int);
                    lemma_map_update(entries@, i as int, e);
                }
                entries.set(i, e);
            },
            None => {
                let mut times = Vec::new();
                times.push(now);
                let e = Entry { key: k, times };
                proof {
                    lemma_map_push(entries@, e);
                    assert(e.times@ =~= Seq::<u64>::empty().push(now));
                }
                entries.push(e);
            },
        }
        self.entries = entries;
    }

    /// Forgets all failures of `key`.
    pub fn reset(&mut self, key: &str)
        ensures
            final(self)@ == old(self)@.remove(key@),
            final(self).latest_reading() == old(self).latest_reading(),
            final(self).clock_readings() == old(self).clock_readings(),
    {
        proof {
            use_type_invariant(&*self);
        }
        let k = key.to_owned();
        let mut entries: Vec<Entry> = Vec::new();
        std::mem::swap(&mut entries, &mut self.entries);
        match find(&entries, &k) {
            Some(i) => {
                proof {
                    lemma_map_remove(entries@, i as int);
                }
                entries.remove(i);
            },
            None => {
                assert(as_map(entries@) =~= as_map(entries@).remove(key@));
            },
        }
        self.entries = entries;
    }

    /// Checks `key` now, on the limiter's clock (see [`RateLimiter::check_at`]).
    pub fn check(&mut self, key: &str) -> (r: Result<(), u64>)
        ensures
            exists|now: u64|
                #![trigger after_check(old(self)@, key@, now)]
                old(self).latest_reading() <= now && final(self).latest_reading() == now
                    && final(self).clock_readings() == old(self).clock_readings().push(now)
                    && final(self)@ == after_check(old(self)@, key@, now) && r == check_result(
                    old(self)@,
                    key@,
                    now,
                ),
            r matches Err(wait) ==> 1 <= wait <= WINDOW_SECS,
            in_order(final(self).clock_readings()),
    {
        let now = self.clock();
        self.check_at(key, now)
    }

    /// Records a failure of `key` now, on the limiter's clock.
    pub fn record_failure(&mut self, key: &str)
        ensures
            exists|now: u64|
                #![trigger after_failure(old(self)@, key@, now)]
                old(self).latest_reading() <= now && final(self).latest_reading() == now
                    && final(self).clock_readings() == old(self).clock_readings().push(now)
                    && final(self)@ == after_failure(old(self)@, key@, now),
            in_order(final(self).clock_readings()),
    {
        let now = self.clock();
        self.record_failure_at(key, now);
    }
}

/// Three failures of a client that all still count at `now` block it:
/// whatever the client's earlier history, a check after recording them answers
/// `Err`.
pub proof fn lemma_three_recent_failures_block(
    m: Map<Seq<char>, Seq<u64>>,
    key: Seq<char>,
    t1: u64,
    t2: u64,
    t3: u64,
    now: u64,
)
    requires
        is_recent(now, t1),
        is_recent(now, t2),
        is_recent(now, t3),
    ensures
        check_result(
            after_failure(after_failure(after_failure(m, key, t1), key, t2), key, t3),
            key,
            now,
        ) is Err,
{
    let h = history(m, key);
    let m3 = after_failure(after_failure(after_failure(m, key, t1), key, t2), key, t3);
    assert(history(m3, key) == h.push(t1).push(t2).push(t3));
    let p = recent_pred(now);
    assert(p(t1) && p(t2) && p(t3));
    h.lemma_filter_push(t1, p);
    h.push(t1).lemma_filter_push(t2, p);
    h.push(t1).push(t2).lemma_filter_push(t3, p);
    assert(recent(history(m3, key), now).len() == recent(h, now).len() + 3);
}

/// After a reset, the client is allowed again, at any time.
pub proof fn lemma_reset_unblocks(m: Map<Seq<char>, Seq<u64>>, key: Seq<char>, now: u64)
    ensures
        check_result(m.remove(key), key, now) == Ok::<(), u64>(()),
{
    reveal_with_fuel(Seq::filter, 1);
    assert(history(m.remove(key), key) =~= Seq::<u64>::empty());
}

/// Clients are counted apart: checking, failing or resetting one client
/// changes neither the history nor the answer of another.
pub proof fn lemma_clients_independent(
    m: Map<Seq<char>, Seq<u64>>,
    key: Seq<char>,
    other: Seq<char>,
    t: u64,
    now: u64,
)
    requires
        key != other,
    ensures
        history(after_check(m, key, t), other) == history(m, other),
        history(after_failure(m, key, t), other) == history(m, other),
        history(m.remove(key), other) == history(m, other),
        check_result(after_check(m, key, t), other, now) == check_result(m, other, now),
        check_result(after_failure(m, key, t), other, now) == check_result(m, other, now),
        check_result(m.remove(key), other, now) == check_result(m, other, now),
{
}

proof fn lemma_recent_idempotent(times: Seq<u64>, now: u64)
    ensures
        recent(recent(times, now), now) == recent(times, now),
    decreases times.len(),
{
    reveal_with_fuel(Seq::filter, 1);
    if times.len() > 0 {
        let init = times.drop_last();
        lemma_recent_idempotent(init, now);
        assert(times =~= init.push(times.last()));
        init.lemma_filter_push(times.last(), recent_pred(now));
        recent(init, now).lemma_filter_push(times.last(), recent_pred(now));
    }
}

/// Checking is idempotent: a second check at the same time changes nothing
/// and gives the same answer.
pub proof fn lemma_check_idempotent(m: Map<Seq<char>, Seq<u64>>, key: Seq<char>, now: u64)
    ensures
        after_check(after_check(m, key, now), key, now) == after_check(m, key, now),
        check_result(after_check(m, key, now), key, now) == check_result(m, key, now),
{
    lemma_recent_idempotent(history(m, key), now);
    assert(after_check(after_check(m, key, now), key, now) =~= after_check(m, key, now));
}

/// Failures that are all a full window old are forgotten: the client is
/// allowed and keeps no failure.
pub proof fn lemma_old_failures_forgotten(m: Map<Seq<char>, Seq<u64>>, key: Seq<char>, now: u64)
    requires
        forall|i: int| 0 <= i < history(m, key).len() ==> !is_recent(now, #[trigger] history(m, key)[i]),
    ensures
        check_result(m, key, now) == Ok::<(), u64>(()),
        history(after_check(m, key, now), key) == Seq::<u64>::empty(),
{
    let h = history(m, key);
    let r = recent(h, now);
    if r.len() > 0 {
        h.lemma_filter_pred(recent_pred(now), 0);
        lemma_filter_members(h, recent_pred(now), 0);
    }
    assert(r =~= Seq::<u64>::empty());
}

proof fn lemma_filter_members(s: Seq<u64>, p: spec_fn(u64) -> bool, i: int)
    requires
        0 <= i < s.filter(p).len(),
    ensures
        exists|j: int| 0 <= j < s.len() && s[j] == #[trigger] s.filter(p)[i],
    decreases s.len(),
{
    reveal_with_fuel(Seq::filter, 1);
    let init = s.drop_last();
    if i < init.filter(p).len() {
        lemma_filter_members(init, p, i);
        let j = choose|j: int| 0 <= j < init.len() && init[j] == #[trigger] init.filter(p)[i];
        assert(s[j] == s.filter(p)[i]);
    } else {
        assert(s[s.len() - 1] == s.filter(p)[i]);
    }
}

/// One operation of a request on a client's failures.
pub enum Event {
    /// A check at the given time.
    Check(u64),
    /// A failure recorded at the given time.
    Failure(u64),
    /// A reset.
    Reset,
}

/// The state after `e` on `key`.
pub open spec fn apply_event(m: Map<Seq<char>, Seq<u64>>, key: Seq<char>, e: Event) -> Map<
    Seq<char>,
    Seq<u64>,
> {
    match e {
        Event::Check(t) => after_check(m, key, t),
        Event::Failure(t) => after_failure(m, key, t),
        Event::Reset => m.remove(key),
    }
}

/// The state after the events `es` on `key`, in order.
pub open spec fn replay(m: Map<Seq<char>, Seq<u64>>, key: Seq<char>, es: Seq<Event>) -> Map<
    Seq<char>,
    Seq<u64>,
>
    decreases es.len(),
{
    if es.len() == 0 {
        m
    } else {
        apply_event(replay(m, key, es.drop_last()), key, es.last())
    }
}

/// The failures recorded by `es` since its last reset; before the first
/// reset the history `h0` the events started from comes first.
pub open spec fn failures_since_reset(h0: Seq<u64>, es: Seq<Event>) -> Seq<u64>
    decreases es.len(),
{
    if es.len() == 0 {
        h0
    } else {
        let b = failures_since_reset(h0, es.drop_last());
        match es.last() {
            Event::Failure(t) => b.push(t),
            Event::Reset => Seq::empty(),
            Event::Check(_) => b,
        }
    }
}

/// Whether every check among `es` happens no later than `now`.
pub open spec fn checks_by(es: Seq<Event>, now: u64) -> bool {
    forall|i: int|
        0 <= i < es.len() ==> match #[trigger] es[i] {
            Event::Check(u) => u <= now,
            _ => true,
        }
}

/// A failure that counts later counted earlier too (at a time no earlier
/// than the failure).
proof fn lemma_recent_earlier(x: u64, t: u64, now: u64)
    requires
        x <= t <= now,
        is_recent(now, x),
    ensures
        is_recent(t, x),
{
    assert((t - x) / (NANOS_PER_SEC as int) <= (now - x) / (NANOS_PER_SEC as int)) by (nonlinear_arith)
        requires
            x <= t <= now,
            NANOS_PER_SEC > 0;
}

/// Forgetting at `t` what no longer counts does not change what counts at
/// a later `now`.
proof fn lemma_recent_compose(h: Seq<u64>, t: u64, now: u64)
    requires
        t <= now,
    ensures
        recent(recent(h, t), now) == recent(h, now),
    decreases h.len(),
{
    reveal_with_fuel(Seq::filter, 1);
    if h.len() > 0 {
        let init = h.drop_last();
        let x = h.last();
        lemma_recent_compose(init, t, now);
        assert(h =~= init.push(x));
        init.lemma_filter_push(x, recent_pred(t));
        init.lemma_filter_push(x, recent_pred(now));
        recent(init, t).lemma_filter_push(x, recent_pred(now));
        if is_recent(now, x) && x <= t {
            lemma_recent_earlier(x, t, now);
        }
    }
}

/// What counts at `now` after a sequence of checks (none after `now`),
/// failures and resets is exactly the failures since the last reset that
/// still count (earlier failures never count again): the client is allowed
/// if and only if fewer than three of them fall within the window.
pub proof fn lemma_check_counts_failures_since_reset(
    m: Map<Seq<char>, Seq<u64>>,
    key: Seq<char>,
    es: Seq<Event>,
    now: u64,
)
    requires
        checks_by(es, now),
    ensures
        recent(history(replay(m, key, es), key), now) == recent(
            failures_since_reset(history(m, key), es),
            now,
        ),
        check_result(replay(m, key, es), key, now) is Ok <==> recent(
            failures_since_reset(history(m, key), es),
            now,
        ).len() < MAX_FAILURES,
    decreases es.len(),
{
    let h0 = history(m, key);
    if es.len() > 0 {
        let init = es.drop_last();
        assert forall|i: int| 0 <= i < init.len() implies match #[trigger] init[i] {
            Event::Check(u) => u <= now,
            _ => true,
        } by {
            assert(init[i] == es[i]);
        }
        lemma_check_counts_failures_since_reset(m, key, init, now);
        let h = history(replay(m, key, init), key);
        let b = failures_since_reset(h0, init);
        assert(match es[es.len() - 1] {
            Event::Check(u) => u <= now,
            _ => true,
        });
        match es.last() {
            Event::Check(t) => {
                lemma_recent_compose(h, t, now);
            },
            Event::Failure(t) => {
                h.lemma_filter_push(t, recent_pred(now));
                b.lemma_filter_push(t, recent_pred(now));
            },
            Event::Reset => {
                reveal_with_fuel(Seq::filter, 1);
                assert(history(replay(m, key, es), key) =~= Seq::<u64>::empty());
            },
        }
    }
}

/// Checks record nothing: any number of checks of `key`, none later than
/// `later`, leave what counts at `later`, and so the answer of a check at
/// `later`, unchanged for `key` and for every other client.
pub proof fn lemma_checks_change_nothing_later(
    m: Map<Seq<char>, Seq<u64>>,
    key: Seq<char>,
    other: Seq<char>,
    es: Seq<Event>,
    later: u64,
)
    requires
        forall|i: int| 0 <= i < es.len() ==> #[trigger] es[i] is Check,
        checks_by(es, later),
    ensures
        recent(history(replay(m, key, es), other), later) == recent(history(m, other), later),
        check_result(replay(m, key, es), other, later) == check_result(m, other, later),
    decreases es.len(),
{
    if es.len() > 0 {
        let init = es.drop_last();
        assert forall|i: int| 0 <= i < init.len() implies #[trigger] init[i] is Check && match init[i] {
            Event::Check(u) => u <= later,
            _ => true,
        } by {
            assert(init[i] == es[i]);
        }
        lemma_checks_change_nothing_later(m, key, other, init, later);
        assert(es[es.len() - 1] is Check);
        assert(match es[es.len() - 1] {
            Event::Check(u) => u <= later,
            _ => true,
        });
        if other == key {
            let t = es.last()->Check_0;
            lemma_recent_compose(history(replay(m, key, init), key), t, later);
        }
    }
}

/// Whether `times` is in order, oldest first.
pub open spec fn in_order(times: Seq<u64>) -> bool {
    forall|i: int, j: int| 0 <= i <= j < times.len() ==> times[i] <= times[j]
}

proof fn lemma_filter_in_order(s: Seq<u64>, p: spec_fn(u64) -> bool)
    requires
        in_order(s),
    ensures
        in_order(s.filter(p)),
    decreases s.len(),
{
    reveal_with_fuel(Seq::filter, 1);
    if s.len() > 0 {
        let init = s.drop_last();
        assert(in_order(init)) by {
            assert forall|i: int, j: int| 0 <= i <= j < init.len() implies init[i] <= init[j] by {
                assert(init[i] == s[i] && init[j] == s[j]);
            }
        }
        lemma_filter_in_order(init, p);
        let f = init.filter(p);
        if p(s.last()) {
            assert forall|i: int| 0 <= i < f.len() implies #[trigger] f[i] <= s.last() by {
                lemma_filter_members(init, p, i);
                let j = choose|j: int| 0 <= j < init.len() && init[j] == #[trigger] init.filter(p)[i];
                assert(init[j] == s[j]);
            }
            let g = f.push(s.last());
            assert forall|i: int, j: int| 0 <= i <= j < g.len() implies g[i] <= g[j] by {
                if j == g.len() - 1 {
                    if i < f.len() {
                        assert(g[i] == f[i]);
                    }
                } else {
                    assert(g[i] == f[i] && g[j] == f[j]);
                }
            }
        }
    }
}

/// A sequence in which only the last `k` elements may meet `p` keeps at
/// most `k` of them.
proof fn lemma_filter_tail(s: Seq<u64>, p: spec_fn(u64) -> bool, k: int)
    requires
        k >= 0,
        forall|i: int| 0 <= i < s.len() - k ==> !p(#[trigger] s[i]),
    ensures
        s.filter(p).len() <= k,
    decreases s.len(),
{
    reveal_with_fuel(Seq::filter, 1);
    if s.len() > 0 {
        let init = s.drop_last();
        if p(s.last()) {
            assert(s.len() - 1 >= s.len() - k);
            assert forall|i: int| 0 <= i < init.len() - (k - 1) implies !p(#[trigger] init[i]) by {
                assert(init[i] == s[i]);
            }
            lemma_filter_tail(init, p, k - 1);
        } else {
            assert forall|i: int| 0 <= i < init.len() - k implies !p(#[trigger] init[i]) by {
                assert(init[i] == s[i]);
            }
            lemma_filter_tail(init, p, k);
        }
    }
}

/// A failure no later than `t` no longer counts once the wait reported for
/// `t` has passed.
proof fn lemma_out_after_wait(x: u64, t: u64, now: u64, wait: u64, later: u64)
    requires
        x <= t <= now,
        wait == WINDOW_SECS - (now - t) / (NANOS_PER_SEC as int),
        later >= now + wait * NANOS_PER_SEC,
    ensures
        !is_recent(later, x),
{
    let e = (now - t) / (NANOS_PER_SEC as int);
    assert((later - x) / (NANOS_PER_SEC as int) >= e + wait) by (nonlinear_arith)
        requires
            e == (now - t) / (NANOS_PER_SEC as int),
            x <= t <= now,
            later >= now + wait * NANOS_PER_SEC,
            wait >= 0,
            NANOS_PER_SEC > 0;
}

/// The wait a blocked check reports is the remaining cooldown: with no
/// failure recorded after the check (the failures in order, none later than
/// the check), the client is allowed at every time from the check plus the
/// wait on, however many failures counted, whether or not the check's
/// forgetting took place.
pub proof fn lemma_wait_then_allowed(
    m: Map<Seq<char>, Seq<u64>>,
    key: Seq<char>,
    now: u64,
    wait: u64,
    later: u64,
)
    requires
        check_result(m, key, now) == Err::<(), u64>(wait),
        in_order(history(m, key)),
        forall|i: int| 0 <= i < history(m, key).len() ==> #[trigger] history(m, key)[i] <= now,
        later >= now + wait * NANOS_PER_SEC,
    ensures
        check_result(m, key, later) == Ok::<(), u64>(()),
        check_result(after_check(m, key, now), key, later) == Ok::<(), u64>(()),
{
    let h = history(m, key);
    let r = recent(h, now);
    let n = r.len();
    lemma_recent_compose(h, now, later);
    assert(history(after_check(m, key, now), key) == r);
    lemma_filter_in_order(h, recent_pred(now));
    assert forall|k: int| 0 <= k < r.len() implies #[trigger] r[k] <= now by {
        lemma_filter_members(h, recent_pred(now), k);
    }
    let t = r[n - 3];
    assert(wait == WINDOW_SECS - (now - t) / (NANOS_PER_SEC as int));
    assert forall|i: int| 0 <= i < r.len() - 2 implies !recent_pred(later)(#[trigger] r[i]) by {
        assert(r[i] <= t);
        lemma_out_after_wait(r[i], t, now, wait, later);
    }
    lemma_filter_tail(r, recent_pred(later), 2);
}
/// The failure times recorded by `es`, in order.
pub open spec fn failures_of(es: Seq<Event>) -> Seq<u64>
    decreases es.len(),
{
    if es.len() == 0 {
        Seq::empty()
    } else {
        let b = failures_of(es.drop_last());
        match es.last() {
            Event::Failure(t) => b.push(t),
            _ => b,
        }
    }
}

proof fn lemma_since_reset_append(h0: Seq<u64>, a: Seq<Event>, b: Seq<Event>)
    requires
        forall|i: int| 0 <= i < b.len() ==> !(#[trigger] b[i] is Reset),
    ensures
        failures_since_reset(h0, a + b) == failures_since_reset(h0, a) + failures_of(b),
    decreases b.len(),
{
    if b.len() == 0 {
        assert(a + b =~= a);
        assert(failures_since_reset(h0, a) + failures_of(b) =~= failures_since_reset(h0, a));
    } else {
        let bi = b.drop_last();
        assert forall|i: int| 0 <= i < bi.len() implies !(#[trigger] bi[i] is Reset) by {
            assert(bi[i] == b[i]);
        }
        lemma_since_reset_append(h0, a, bi);
        assert((a + b).drop_last() =~= a + bi);
        assert((a + b).last() == b.last());
        assert(!(b[b.len() - 1] is Reset));
        match b.last() {
            Event::Failure(t) => {
                assert(failures_since_reset(h0, a) + failures_of(b) =~= (failures_since_reset(
                    h0,
                    a,
                ) + failures_of(bi)).push(t));
            },
            _ => {},
        }
    }
}

/// After a reset a client stays allowed until three failures recorded after
/// it count at once: failures from before the reset never count again,
/// whatever checks and failures come after it.
pub proof fn lemma_reset_then_allowed(
    m: Map<Seq<char>, Seq<u64>>,
    key: Seq<char>,
    pre: Seq<Event>,
    post: Seq<Event>,
    now: u64,
)
    requires
        forall|i: int| 0 <= i < post.len() ==> !(#[trigger] post[i] is Reset),
        checks_by(pre + seq![Event::Reset] + post, now),
    ensures
        recent(history(replay(m, key, pre + seq![Event::Reset] + post), key), now) == recent(
            failures_of(post),
            now,
        ),
        check_result(replay(m, key, pre + seq![Event::Reset] + post), key, now) is Ok
            <==> recent(failures_of(post), now).len() < MAX_FAILURES,
{
    let h0 = history(m, key);
    let a = pre + seq![Event::Reset];
    assert(a.drop_last() =~= pre);
    assert(failures_since_reset(h0, a) =~= Seq::<u64>::empty());
    lemma_since_reset_append(h0, a, post);
    assert(failures_since_reset(h0, a + post) =~= failures_of(post));
    lemma_check_counts_failures_since_reset(m, key, a + post, now);
}

proof fn lemma_recent_one(t: u64, now: u64)
    requires
        is_recent(now, t),
    ensures
        recent(seq![t], now) == seq![t],
{
    reveal_with_fuel(Seq::filter, 2);
    assert(seq![t].drop_last() =~= Seq::<u64>::empty());
    assert(Seq::<u64>::empty().push(t) =~= seq![t]);
}

/// Three failures recorded since the last reset that all still count lock
/// the client out, whatever its earlier history and whatever checks (none
/// later than `now`) and failures come before, between and after them.
pub proof fn lemma_three_failures_lock_from_any_history(
    m: Map<Seq<char>, Seq<u64>>,
    key: Seq<char>,
    pre: Seq<Event>,
    t1: u64,
    mid1: Seq<Event>,
    t2: u64,
    mid2: Seq<Event>,
    t3: u64,
    post: Seq<Event>,
    now: u64,
)
    requires
        forall|i: int| 0 <= i < mid1.len() ==> !(#[trigger] mid1[i] is Reset),
        forall|i: int| 0 <= i < mid2.len() ==> !(#[trigger] mid2[i] is Reset),
        forall|i: int| 0 <= i < post.len() ==> !(#[trigger] post[i] is Reset),
        checks_by(
            pre + seq![Event::Failure(t1)] + mid1 + seq![Event::Failure(t2)] + mid2 + seq![
                Event::Failure(t3),
            ] + post,
            now,
        ),
        is_recent(now, t1),
        is_recent(now, t2),
        is_recent(now, t3),
    ensures
        check_result(
            replay(
                m,
                key,
                pre + seq![Event::Failure(t1)] + mid1 + seq![Event::Failure(t2)] + mid2 + seq![
                    Event::Failure(t3),
                ] + post,
            ),
            key,
            now,
        ) is Err,
{
    broadcast use vstd::seq_lib::group_seq_lib_default;

    let h0 = history(m, key);
    let f1 = seq![Event::Failure(t1)];
    let f2 = seq![Event::Failure(t2)];
    let f3 = seq![Event::Failure(t3)];
    let es = pre + f1 + mid1 + f2 + mid2 + f3 + post;
    // the failures since the last reset, in pieces
    assert forall|i: int| 0 <= i < f1.len() implies !(#[trigger] f1[i] is Reset) by {}
    assert forall|i: int| 0 <= i < f2.len() implies !(#[trigger] f2[i] is Reset) by {}
    assert forall|i: int| 0 <= i < f3.len() implies !(#[trigger] f3[i] is Reset) by {}
    reveal_with_fuel(failures_of, 2);
    assert(f1.drop_last() =~= Seq::<Event>::empty());
    assert(f2.drop_last() =~= Seq::<Event>::empty());
    assert(f3.drop_last() =~= Seq::<Event>::empty());
    assert(failures_of(f1) =~= seq![t1]);
    assert(failures_of(f2) =~= seq![t2]);
    assert(failures_of(f3) =~= seq![t3]);
    let a1 = pre + f1;
    let a2 = a1 + mid1;
    let a3 = a2 + f2;
    let a4 = a3 + mid2;
    let a5 = a4 + f3;
    assert(es =~= a5 + post);
    lemma_since_reset_append(h0, pre, f1);
    lemma_since_reset_append(h0, a1, mid1);
    lemma_since_reset_append(h0, a2, f2);
    lemma_since_reset_append(h0, a3, mid2);
    lemma_since_reset_append(h0, a4, f3);
    lemma_since_reset_append(h0, a5, post);
    let x = failures_since_reset(h0, pre);
    let total = x + seq![t1] + failures_of(mid1) + seq![t2] + failures_of(mid2) + seq![t3]
        + failures_of(post);
    assert(failures_since_reset(h0, es) =~= total);
    lemma_recent_one(t1, now);
    lemma_recent_one(t2, now);
    lemma_recent_one(t3, now);
    assert(recent(total, now).len() >= 3);
    lemma_check_counts_failures_since_reset(m, key, es, now);
}

} // verus!
