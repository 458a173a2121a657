//! Caps the number of distinct metrics that go through in a sliding window
//! of time.
//!
//! A metric is known by a hash of its name and tags. Each quota keeps its
//! window as granules: sets of hashes under the second at which the granule
//! starts, which is a multiple of the granularity. A hash is written to
//! every granule that starts in the window, so the oldest granule that is
//! left holds the hashes of the window, and a metric fits if it fits there.

use crate::bytes::append;
use crate::clock::unix_seconds;
use crate::config::{CardinalityLimitConfig, LimitConfig};
use crate::middleware::{Error, Middleware};
use crate::types::{Metric, MetricView};
use std::collections::BTreeSet;
use vstd::prelude::*;

verus! {

/// A quota as a plain value.
pub struct QuotaView {
    /// Seconds that the limit is counted over.
    pub window: u64,
    /// How many distinct hashes are let through per window.
    pub limit: u64,
    /// Seconds between the starts of two granules.
    pub granularity: u64,
    /// The hashes of each granule, by the second at which it starts.
    pub usage: Map<u64, Set<u32>>,
}

/// Seconds between granules: one for windows of up to five minutes, a
/// minute up to half an hour, else an hour.
pub open spec fn granularity_of(window: u16) -> u64 {
    if window <= 300 {
        1
    } else if window <= 1800 {
        60
    } else {
        3600
    }
}

/// Whether `t` is the start of a granule between `start` and `end`: a
/// multiple of `step` that is `start` at least and less than `end`.
pub open spec fn on_grid(start: u64, step: u64, end: u64, t: u64) -> bool {
    start <= t < end && t % step == 0
}

impl QuotaView {
    /// The granularity is not zero, and every granule starts at a multiple
    /// of it.
    pub open spec fn valid(self) -> bool {
        &&& self.granularity > 0
        &&& forall|t: u64| self.usage.contains_key(t) ==> t % self.granularity == 0
    }

    /// The second at which the window that ends at `now` begins.
    pub open spec fn window_start(self, now: u64) -> u64 {
        if now >= self.window {
            (now - self.window) as u64
        } else {
            0
        }
    }

    /// Whether `t` is the oldest granule of the window that ends at `now`.
    pub open spec fn oldest(self, now: u64, t: u64) -> bool {
        &&& self.usage.contains_key(t)
        &&& t >= self.window_start(now)
        &&& forall|u: u64|
            self.usage.contains_key(u) && u >= self.window_start(now) ==> t <= u
    }

    /// The quota without the granules that start before the window.
    pub open spec fn remove_old_keys(self, now: u64) -> QuotaView {
        QuotaView {
            window: self.window,
            limit: self.limit,
            granularity: self.granularity,
            usage: Map::new(
                |t: u64| self.usage.contains_key(t) && t >= self.window_start(now),
                |t: u64| self.usage[t],
            ),
        }
    }

    /// Whether the hash fits: the window has no granule, or its oldest
    /// granule is not full or holds the hash.
    pub open spec fn does_metric_fit(self, now: u64, hash: u32) -> bool {
        forall|t: u64| #[trigger]
            self.oldest(now, t) ==> self.usage[t].len() < self.limit || self.usage[t].contains(
                hash,
            )
    }

    /// The quota with the hash written to every granule that starts in the
    /// window.
    pub open spec fn insert_metric(self, now: u64, hash: u32) -> QuotaView {
        self.insert_until(now, now, hash)
    }

    /// The quota with the hash written to the granules of the window that
    /// start before `end`.
    pub open spec fn insert_until(self, now: u64, end: u64, hash: u32) -> QuotaView {
        let start = self.window_start(now);
        QuotaView {
            window: self.window,
            limit: self.limit,
            granularity: self.granularity,
            usage: Map::new(
                |t: u64| self.usage.contains_key(t) || on_grid(start, self.granularity, end, t),
                |t: u64|
                    if on_grid(start, self.granularity, end, t) {
                        if self.usage.contains_key(t) {
                            self.usage[t].insert(hash)
                        } else {
                            set![hash]
                        }
                    } else {
                        self.usage[t]
                    },
            ),
        }
    }
}

/// Evicting and inserting leave a quota valid.
pub proof fn lemma_quota_stays_valid(quota: QuotaView, now: u64, hash: u32)
    requires
        quota.valid(),
    ensures
        quota.remove_old_keys(now).valid(),
        quota.insert_metric(now, hash).valid(),
{
}

/// Two multiples of the step less than a step apart are the same.
proof fn lemma_grid_gap(step: u64, a: int, b: int)
    requires
        step > 0,
        0 <= a <= b,
        b - a < step,
        a % (step as int) == 0,
        b % (step as int) == 0,
    ensures
        a == b,
{
    let m = step as int;
    vstd::arithmetic::div_mod::lemma_fundamental_div_mod(a, m);
    vstd::arithmetic::div_mod::lemma_fundamental_div_mod(b, m);
    let p = a / m;
    let q = b / m;
    assert(p == q) by (nonlinear_arith)
        requires
            m > 0,
            a == m * p,
            b == m * q,
            a <= b,
            b - a < m,
    ;
}

/// A step behind a multiple of the step stands the next one.
proof fn lemma_grid_next(step: u64, a: int)
    requires
        step > 0,
        0 <= a,
        a % (step as int) == 0,
    ensures
        (a + step) % (step as int) == 0,
{
    vstd::arithmetic::div_mod::lemma_mod_add_multiples_vanish(a, step as int);
}

/// The first multiple of the step at or behind `start`.
pub open spec fn first_on_grid(start: u64, step: u64) -> int {
    if start % step == 0 {
        start as int
    } else {
        start - start % step + step
    }
}

/// `first_on_grid` is a multiple of the step, less than a step behind
/// `start`, and no multiple stands between the two.
proof fn lemma_first_on_grid(start: u64, step: u64)
    requires
        step > 0,
    ensures
        first_on_grid(start, step) % (step as int) == 0,
        start <= first_on_grid(start, step) < start + step,
        forall|end: u64, t: u64| #[trigger]
            on_grid(start, step, end, t) ==> first_on_grid(start, step) <= t,
{
    let m = step as int;
    let rem = start as int % m;
    let base = start - rem;
    vstd::arithmetic::div_mod::lemma_fundamental_div_mod(start as int, m);
    vstd::arithmetic::div_mod::lemma_mod_multiples_basic(start as int / m, m);
    assert(m * (start as int / m) == (start as int / m) * m) by (nonlinear_arith);
    assert(base % m == 0);
    if rem != 0 {
        lemma_grid_next(step, base);
    }
    assert forall|end: u64, t: u64| #[trigger] on_grid(start, step, end, t) implies first_on_grid(
        start,
        step,
    ) <= t by {
        if t < first_on_grid(start, step) {
            lemma_grid_gap(step, base, t as int);
        }
    }
}

/// Before the first granule start of the window there is nothing to write
/// to.
proof fn lemma_insert_none(quota: QuotaView, now: u64, end: u64, hash: u32)
    requires
        quota.granularity > 0,
        end <= first_on_grid(quota.window_start(now), quota.granularity),
    ensures
        quota.insert_until(now, end, hash).usage == quota.usage,
{
    lemma_first_on_grid(quota.window_start(now), quota.granularity);
    assert(quota.insert_until(now, end, hash).usage =~= quota.usage);
}

/// Writing to the granule at a granule start extends the insert by that
/// granule.
proof fn lemma_insert_one(quota: QuotaView, now: u64, at: u64, hash: u32)
    requires
        quota.granularity > 0,
        at < now,
        quota.window_start(now) <= at,
        at % quota.granularity == 0,
    ensures
        quota.insert_until(now, (at + 1) as u64, hash).usage == quota.insert_until(
            now,
            at,
            hash,
        ).usage.insert(
            at,
            if quota.insert_until(now, at, hash).usage.contains_key(at) {
                quota.insert_until(now, at, hash).usage[at].insert(hash)
            } else {
                set![hash]
            },
        ),
{
    let before = quota.insert_until(now, at, hash).usage;
    let after = quota.insert_until(now, (at + 1) as u64, hash).usage;
    let start = quota.window_start(now);
    let step = quota.granularity;
    let written = if before.contains_key(at) {
        before[at].insert(hash)
    } else {
        set![hash]
    };
    assert forall|t: u64| on_grid(start, step, (at + 1) as u64, t) == (on_grid(start, step, at, t)
        || t == at) by {}
    assert(after =~= before.insert(at, written));
}

/// Between a granule start and the next there is nothing to write to.
proof fn lemma_insert_rest(quota: QuotaView, now: u64, at: u64, end: u64, hash: u32)
    requires
        quota.granularity > 0,
        quota.window_start(now) <= at < end,
        end - at <= quota.granularity,
        at % quota.granularity == 0,
    ensures
        quota.insert_until(now, end, hash) == quota.insert_until(now, (at + 1) as u64, hash),
{
    let start = quota.window_start(now);
    let step = quota.granularity;
    assert forall|t: u64| on_grid(start, step, end, t) == on_grid(
        start,
        step,
        (at + 1) as u64,
        t,
    ) by {
        if on_grid(start, step, end, t) && t > at {
            lemma_grid_gap(step, at as int, t as int);
        }
    }
    assert(quota.insert_until(now, end, hash).usage =~= quota.insert_until(
        now,
        (at + 1) as u64,
        hash,
    ).usage);
}

/// One granule: the hashes seen, under the second at which it starts.
struct Granule {
    start: u64,
    hashes: BTreeSet<u32>,
}

/// Whether the granules are in the order of their starts, each start once.
spec fn ascending(granules: Seq<Granule>) -> bool {
    forall|i: int, j: int| 0 <= i < j < granules.len() ==> granules[i].start < granules[j].start
}

/// Whether a granule starts at `t`.
spec fn starts_at(granules: Seq<Granule>, t: u64) -> bool {
    exists|i: int| 0 <= i < granules.len() && granules[i].start == t
}

/// The hashes of each granule, by its start.
spec fn usage_of(granules: Seq<Granule>) -> Map<u64, Set<u32>> {
    Map::new(
        |t: u64| starts_at(granules, t),
        |t: u64| granules[choose|i: int| 0 <= i < granules.len() && granules[i].start == t].hashes@,
    )
}

/// In ascending granules the usage under a start is that of the granule.
proof fn lemma_usage_at(granules: Seq<Granule>, i: int)
    requires
        ascending(granules),
        0 <= i < granules.len(),
    ensures
        usage_of(granules).contains_key(granules[i].start),
        usage_of(granules)[granules[i].start] == granules[i].hashes@,
{
    let t = granules[i].start;
    let c = choose|c: int| 0 <= c < granules.len() && granules[c].start == t;
    assert(c == i) by {
        if c < i {
            assert(granules[c].start < granules[i].start);
        } else if i < c {
            assert(granules[i].start < granules[c].start);
        }
    }
}

/// Changing the hashes of one granule changes the usage under its start.
proof fn lemma_usage_update(before: Seq<Granule>, after: Seq<Granule>, at: int)
    requires
        ascending(before),
        0 <= at < before.len(),
        after.len() == before.len(),
        after[at].start == before[at].start,
        forall|i: int| 0 <= i < before.len() && i != at ==> after[i] == before[i],
    ensures
        ascending(after),
        usage_of(after) == usage_of(before).insert(before[at].start, after[at].hashes@),
{
    assert forall|i: int| 0 <= i < after.len() implies after[i].start == before[i].start by {}
    assert(ascending(after));
    let want = usage_of(before).insert(before[at].start, after[at].hashes@);
    assert forall|t: u64| #[trigger] want.dom().contains(t) implies usage_of(after).dom().contains(
        t,
    ) && usage_of(after)[t] == want[t] by {
        if t == before[at].start {
            lemma_usage_at(after, at);
        } else {
            assert(starts_at(before, t));
            let i = choose|i: int| 0 <= i < before.len() && before[i].start == t;
            lemma_usage_at(before, i);
            lemma_usage_at(after, i);
        }
    }
    assert forall|t: u64| #[trigger] usage_of(after).dom().contains(t) implies want.dom().contains(
        t,
    ) by {
        assert(starts_at(after, t));
        let i = choose|i: int| 0 <= i < after.len() && after[i].start == t;
        assert(before[i].start == t);
        assert(starts_at(before, t));
    }
    assert(usage_of(after) =~= want);
}

/// A new granule in its place adds its hashes under its start.
proof fn lemma_usage_insert(before: Seq<Granule>, at: int, granule: Granule)
    requires
        ascending(before),
        0 <= at <= before.len(),
        forall|i: int| 0 <= i < at ==> before[i].start < granule.start,
        forall|i: int| at <= i < before.len() ==> granule.start < before[i].start,
    ensures
        ascending(before.insert(at, granule)),
        !usage_of(before).contains_key(granule.start),
        usage_of(before.insert(at, granule)) == usage_of(before).insert(
            granule.start,
            granule.hashes@,
        ),
{
    let after = before.insert(at, granule);
    assert forall|i: int| 0 <= i < after.len() implies after[i] == if i < at {
        before[i]
    } else if i == at {
        granule
    } else {
        before[i - 1]
    } by {}
    assert(ascending(after));
    if usage_of(before).contains_key(granule.start) {
        assert(starts_at(before, granule.start));
        let i = choose|i: int| 0 <= i < before.len() && before[i].start == granule.start;
        assert(false);
    }
    let want = usage_of(before).insert(granule.start, granule.hashes@);
    assert forall|t: u64| #[trigger] want.dom().contains(t) implies usage_of(after).dom().contains(
        t,
    ) && usage_of(after)[t] == want[t] by {
        if t == granule.start {
            lemma_usage_at(after, at);
        } else {
            assert(starts_at(before, t));
            let i = choose|i: int| 0 <= i < before.len() && before[i].start == t;
            lemma_usage_at(before, i);
            if i < at {
                lemma_usage_at(after, i);
            } else {
                lemma_usage_at(after, i + 1);
            }
        }
    }
    assert forall|t: u64| #[trigger] usage_of(after).dom().contains(t) implies want.dom().contains(
        t,
    ) by {
        assert(starts_at(after, t));
        let i = choose|i: int| 0 <= i < after.len() && after[i].start == t;
        if i < at {
            assert(before[i].start == t);
            assert(starts_at(before, t));
        } else if i > at {
            assert(before[i - 1].start == t);
            assert(starts_at(before, t));
        }
    }
    assert(usage_of(after) =~= want);
}

/// In ascending granules that start at multiples of the step, the granule at
/// index `i` starts `i` steps behind the first at least.
proof fn lemma_starts_spread(granules: Seq<Granule>, step: u64, i: int)
    requires
        step > 0,
        ascending(granules),
        forall|k: int| 0 <= k < granules.len() ==> (#[trigger] granules[k]).start % step == 0,
        0 <= i < granules.len(),
    ensures
        granules[i].start >= granules[0].start + i * step,
    decreases i,
{
    if i > 0 {
        lemma_starts_spread(granules, step, i - 1);
        let a = granules[i - 1].start;
        let b = granules[i].start;
        assert(granules[i - 1].start % step == 0);
        assert(granules[i].start % step == 0);
        assert(a < b);
        if b - a < step {
            lemma_grid_gap(step, a as int, b as int);
        }
        assert((i - 1) * step + step == i * step) by (nonlinear_arith);
    }
}

/// A quota on the number of distinct metrics per window of time.
pub struct Quota {
    window: u64,
    limit: u64,
    granularity: u64,
    usage: Vec<Granule>,
}

impl View for Quota {
    type V = QuotaView;

    closed spec fn view(&self) -> QuotaView {
        QuotaView {
            window: self.window,
            limit: self.limit,
            granularity: self.granularity,
            usage: usage_of(self.usage@),
        }
    }
}

impl Quota {
    /// The granules are kept in the order of their starts.
    pub closed spec fn ordered(&self) -> bool {
        ascending(self.usage@)
    }

    /// The granules are in order, and the quota is valid as a plain value.
    pub open spec fn valid(&self) -> bool {
        &&& self.ordered()
        &&& self@.valid()
    }

    /// The number of granules that are held.
    pub closed spec fn granules(&self) -> nat {
        self.usage@.len()
    }

    /// A quota whose granules all start in the window that ends at `now`
    /// holds no more than one granule per step of the window, and one.
    pub proof fn lemma_granule_bound(&self, now: u64)
        requires
            self.valid(),
            forall|t: u64|
                self@.usage.contains_key(t) ==> self@.window_start(now) <= t < now,
        ensures
            self.granules() <= self@.window / self@.granularity + 1,
    {
        let granules = self.usage@;
        let step = self.granularity;
        let window = self.window;
        let n = granules.len() as int;
        if n > 0 {
            assert(self@.usage == usage_of(granules));
            assert forall|k: int| 0 <= k < n implies (#[trigger] granules[k]).start % step
                == 0 by {
                lemma_usage_at(granules, k);
                assert(self@.usage.contains_key(granules[k].start));
            }
            lemma_starts_spread(granules, step, n - 1);
            lemma_usage_at(granules, 0);
            lemma_usage_at(granules, n - 1);
            let first = granules[0].start as int;
            let last = granules[n - 1].start as int;
            assert(self@.usage.contains_key(granules[0].start));
            assert(self@.usage.contains_key(granules[n - 1].start));
            assert(last - first < window);
            assert(n - 1 <= window as int / step as int) by (nonlinear_arith)
                requires
                    step > 0,
                    window >= 0,
                    (n - 1) * step <= last - first,
                    last - first < window,
                    n >= 1,
            ;
        }
    }

    /// A quota on which nothing has been counted.
    pub fn from(config: LimitConfig) -> (quota: Self)
        ensures
            quota.valid(),
            quota@ == (QuotaView {
                window: config.window as u64,
                limit: config.limit,
                granularity: granularity_of(config.window),
                usage: Map::empty(),
            }),
    {
        let granularity: u64 = if config.window <= 300 {
            1
        } else if config.window <= 1800 {
            60
        } else {
            3600
        };
        let quota = Quota {
            window: config.window as u64,
            limit: config.limit,
            granularity,
            usage: Vec::new(),
        };
        assert(quota@.usage =~= Map::empty());
        quota
    }

    fn window_start(&self, now: u64) -> (start: u64)
        ensures
            start == self@.window_start(now),
    {
        if now >= self.window {
            now - self.window
        } else {
            0
        }
    }

    /// Evicts the granules that start before the window.
    pub fn remove_old_keys(&mut self, now: u64)
        requires
            old(self).valid(),
        ensures
            final(self).valid(),
            final(self)@ == old(self)@.remove_old_keys(now),
    {
        let start = self.window_start(now);
        let mut n: usize = 0;
        while n < self.usage.len() && self.usage[n].start < start
            invariant
                n <= self.usage@.len(),
                *self == *old(self),
                ascending(self.usage@),
                forall|i: int| 0 <= i < n ==> self.usage@[i].start < start,
            decreases self.usage@.len() - n,
        {
            n += 1;
        }
        let ghost before = self.usage@;
        let kept = self.usage.split_off(n);
        self.usage = kept;
        proof {
            let after = self.usage@;
            assert forall|i: int| 0 <= i < after.len() implies after[i] == before[i + n] by {}
            assert(ascending(after));
            assert forall|i: int| n <= i < before.len() implies before[i].start >= start by {
                if i > n {
                    assert(before[n as int].start < before[i].start);
                }
            }
            let want = old(self)@.remove_old_keys(now).usage;
            assert forall|t: u64| #[trigger] want.dom().contains(t) implies usage_of(
                after,
            ).dom().contains(t) && usage_of(after)[t] == want[t] by {
                assert(starts_at(before, t));
                let i = choose|i: int| 0 <= i < before.len() && before[i].start == t;
                lemma_usage_at(before, i);
                if i < n {
                    assert(before[i].start < start);
                }
                assert(after[i - n] == before[i]);
                lemma_usage_at(after, i - n);
            }
            assert forall|t: u64| #[trigger] usage_of(after).dom().contains(t) implies want.dom().contains(
                t,
            ) by {
                assert(starts_at(after, t));
                let i = choose|i: int| 0 <= i < after.len() && after[i].start == t;
                assert(before[i + n].start == t);
                assert(starts_at(before, t));
                assert(before[i + n].start >= start);
            }
            assert(usage_of(after) =~= want);
        }
    }

    /// Whether a metric with this hash is let through.
    pub fn does_metric_fit(&self, now: u64, hash: u32) -> (fits: bool)
        requires
            self.valid(),
        ensures
            fits == self@.does_metric_fit(now, hash),
    {
        let start = self.window_start(now);
        let mut n: usize = 0;
        while n < self.usage.len() && self.usage[n].start < start
            invariant
                n <= self.usage@.len(),
                forall|i: int| 0 <= i < n ==> self.usage@[i].start < start,
            decreases self.usage@.len() - n,
        {
            n += 1;
        }
        if n < self.usage.len() {
            let granule = &self.usage[n];
            let fits = (granule.hashes.len() as u64) < self.limit || granule.hashes.contains(&hash);
            proof {
                let t = granule.start;
                lemma_usage_at(self.usage@, n as int);
                assert forall|u: u64| self@.usage.contains_key(u) && u >= start implies t <= u by {
                    let i = choose|i: int| 0 <= i < self.usage@.len() && self.usage@[i].start == u;
                    if i < n {
                        assert(self.usage@[i].start < start);
                    } else if i > n {
                        assert(self.usage@[n as int].start < self.usage@[i].start);
                    }
                }
                assert(self@.oldest(now, t));
                assert forall|u: u64| #[trigger] self@.oldest(now, u) implies u == t by {}
            }
            fits
        } else {
            proof {
                assert forall|t: u64| !#[trigger] self@.oldest(now, t) by {
                    if self@.usage.contains_key(t) {
                        let i = choose|i: int|
                            0 <= i < self.usage@.len() && self.usage@[i].start == t;
                        assert(self.usage@[i].start < start);
                    }
                }
            }
            true
        }
    }

    /// Writes the hash to every granule of the window.
    pub fn insert_metric(&mut self, now: u64, hash: u32)
        requires
            old(self).valid(),
        ensures
            final(self).valid(),
            final(self)@ == old(self)@.insert_metric(now, hash),
    {
        let start = self.window_start(now);
        let step = self.granularity;
        let ghost model = self@;
        proof {
            lemma_first_on_grid(start, step);
        }
        assert(start % step <= start) by (nonlinear_arith)
            requires
                step > 0,
        ;
        let rem = start % step;
        let first: u64 = if rem == 0 {
            start
        } else if step > u64::MAX - (start - rem) {
            proof {
                lemma_insert_none(model, now, now, hash);
            }
            return ;
        } else {
            start - rem + step
        };
        if first >= now {
            proof {
                lemma_insert_none(model, now, now, hash);
            }
            return ;
        }
        let mut current = first;
        let mut pos: usize = 0;
        proof {
            lemma_insert_none(model, now, first, hash);
        }
        loop
            invariant_except_break
                start <= current < now,
                current % step == 0,
                pos <= self.usage@.len(),
                forall|i: int| 0 <= i < pos ==> self.usage@[i].start < current,
                usage_of(self.usage@) == model.insert_until(now, current, hash).usage,
            invariant
                model == old(self)@,
                start == model.window_start(now),
                step == model.granularity,
                step > 0,
                self.window == old(self).window,
                self.limit == old(self).limit,
                self.granularity == old(self).granularity,
                ascending(self.usage@),
            ensures
                self.window == old(self).window,
                self.limit == old(self).limit,
                self.granularity == old(self).granularity,
                ascending(self.usage@),
                usage_of(self.usage@) == model.insert_until(now, now, hash).usage,
            decreases now - current,
        {
            while pos < self.usage.len() && self.usage[pos].start < current
                invariant
                    pos <= self.usage@.len(),
                    forall|i: int| 0 <= i < pos ==> self.usage@[i].start < current,
                decreases self.usage@.len() - pos,
            {
                pos += 1;
            }
            let ghost before = self.usage@;
            if pos < self.usage.len() && self.usage[pos].start == current {
                self.usage[pos].hashes.insert(hash);
                proof {
                    lemma_usage_at(before, pos as int);
                    lemma_usage_update(before, self.usage@, pos as int);
                }
            } else {
                let mut hashes: BTreeSet<u32> = BTreeSet::new();
                hashes.insert(hash);
                let granule = Granule { start: current, hashes };
                proof {
                    assert(granule.hashes@ =~= set![hash]);
                    assert forall|i: int| pos <= i < before.len() implies current
                        < before[i].start by {
                        if i > pos {
                            assert(before[pos as int].start < before[i].start);
                        }
                    }
                    lemma_usage_insert(before, pos as int, granule);
                }
                self.usage.insert(pos, granule);
            }
            proof {
                lemma_insert_one(model, now, current, hash);
            }
            let len = self.usage.len();
            assert(pos < len);
            pos += 1;
            if now - current <= step {
                proof {
                    lemma_insert_rest(model, now, current, now, hash);
                }
                break ;
            }
            proof {
                lemma_insert_rest(model, now, current, (current + step) as u64, hash);
                lemma_grid_next(step, current as int);
            }
            current += step;
        }
    }
}

/// The CRC-32 checksum (IEEE) of the bytes.
pub uninterp spec fn crc32(bytes: Seq<u8>) -> u32;

/// Calls `crc32fast::hash`, which runs a fresh hasher over the slice and
/// gives the CRC-32 checksum of its bytes.
#[verifier::external_body]
fn checksum(bytes: &[u8]) -> (sum: u32)
    ensures
        sum == crc32(bytes@),
{
    crc32fast::hash(bytes)
}

/// What a metric is known by: its name, followed by its tag list as it
/// stands.
pub open spec fn identity(metric: MetricView) -> Seq<u8> {
    match metric.tags() {
        Some(tags) => metric.name() + tags,
        None => metric.name(),
    }
}

/// The quotas as plain values.
spec fn quota_views(quotas: Seq<Quota>) -> Seq<QuotaView> {
    Seq::new(quotas.len(), |i: int| quotas[i]@)
}

/// The quotas that a configuration asks for, with nothing counted yet.
pub open spec fn configured(config: CardinalityLimitConfig) -> Seq<QuotaView> {
    Seq::new(
        config.limits@.len(),
        |i: int|
            QuotaView {
                window: config.limits@[i].window as u64,
                limit: config.limits@[i].limit,
                granularity: granularity_of(config.limits@[i].window),
                usage: Map::empty(),
            },
    )
}

/// Whether quota `i` lets the hash through at second `now`, once its old
/// granules are evicted.
pub open spec fn fits(quotas: Seq<QuotaView>, i: int, now: u64, hash: u32) -> bool {
    quotas[i].remove_old_keys(now).does_metric_fit(now, hash)
}

/// The quotas after a metric that fits all of them went through.
pub open spec fn counted(quotas: Seq<QuotaView>, now: u64, hash: u32) -> Seq<QuotaView> {
    Seq::new(quotas.len(), |i: int| quotas[i].remove_old_keys(now).insert_metric(now, hash))
}

/// The quotas after a metric was dropped at quota `full`: the quotas up to
/// that one have evicted their old granules.
pub open spec fn evicted(quotas: Seq<QuotaView>, now: u64, full: int) -> Seq<QuotaView> {
    Seq::new(
        quotas.len(),
        |i: int|
            if i <= full {
                quotas[i].remove_old_keys(now)
            } else {
                quotas[i]
            },
    )
}

pub struct CardinalityLimit<M> {
    quotas: Vec<Quota>,
    next: M,
}

impl<M> CardinalityLimit<M> {
    /// The quotas, in the order in which they were configured.
    pub closed spec fn quotas(&self) -> Seq<QuotaView> {
        quota_views(self.quotas@)
    }

    /// The stage that the metrics are handed to.
    pub closed spec fn next(&self) -> &M {
        &self.next
    }

    /// Every quota is in order.
    pub closed spec fn quotas_valid(&self) -> bool {
        forall|i: int| 0 <= i < self.quotas@.len() ==> (#[trigger] self.quotas@[i]).valid()
    }
}

impl<M> CardinalityLimit<M> where M: Middleware {
    pub fn new(config: CardinalityLimitConfig, next: M) -> (stage: Self)
        ensures
            stage.quotas() == configured(config),
            stage.quotas_valid(),
            *stage.next() == next,
    {
        let mut quotas: Vec<Quota> = Vec::new();
        let mut n: usize = 0;
        while n < config.limits.len()
            invariant
                n <= config.limits@.len(),
                quota_views(quotas@) == configured(config).subrange(0, n as int),
                forall|i: int| 0 <= i < quotas@.len() ==> (#[trigger] quotas@[i]).valid(),
            decreases config.limits@.len() - n,
        {
            let limit = LimitConfig {
                window: config.limits[n].window,
                limit: config.limits[n].limit,
            };
            let quota = Quota::from(limit);
            let ghost before = quota_views(quotas@);
            quotas.push(quota);
            assert(quota_views(quotas@) =~= before.push(configured(config)[n as int]));
            n += 1;
            assert(quota_views(quotas@) =~= configured(config).subrange(0, n as int));
        }
        assert(configured(config).subrange(0, n as int) =~= configured(config));
        Self { quotas, next }
    }

    /// The hash that a metric is known by.
    pub fn hash_metric(&self, metric: &Metric) -> (hash: u32)
        requires
            metric.valid(),
        ensures
            hash == crc32(identity(metric@)),
    {
        let mut bytes: Vec<u8> = Vec::new();
        if let Some(name) = metric.name() {
            append(&mut bytes, name);
        }
        if let Some(tags) = metric.tags() {
            append(&mut bytes, tags);
        }
        assert(bytes@ =~= identity(metric@));
        checksum(bytes.as_slice())
    }

    /// What a `submit` at second `now` may do: a metric that fits every
    /// quota is handed on and then counted on every quota; one that does
    /// not fit is dropped at the first quota that is full, and counted
    /// nowhere.
    pub open spec fn submitted_at(
        &self,
        now: u64,
        metric: MetricView,
        after: &Self,
        left: MetricView,
    ) -> bool {
        let hash = crc32(identity(metric));
        let quotas = self.quotas();
        if forall|i: int| 0 <= i < quotas.len() ==> fits(quotas, i, now, hash) {
            &&& after.quotas() == counted(quotas, now, hash)
            &&& self.next().submitted(metric, after.next(), left)
        } else {
            &&& exists|full: int|
                {
                    &&& 0 <= full < quotas.len()
                    &&& !fits(quotas, full, now, hash)
                    &&& forall|i: int| 0 <= i < full ==> fits(quotas, i, now, hash)
                    &&& after.quotas() == evicted(quotas, now, full)
                }
            &&& *after.next() == *self.next()
            &&& left == metric
        }
    }

    /// Submits a metric as of second `now`.
    pub fn submit_at(&mut self, now: u64, metric: &mut Metric)
        requires
            old(self).valid(),
            old(metric).valid(),
        ensures
            final(self).valid(),
            final(metric).valid(),
            old(self).submitted_at(now, old(metric)@, final(self), final(metric)@),
    {
        let hash = self.hash_metric(metric);
        let ghost quotas = self.quotas();
        let mut i: usize = 0;
        while i < self.quotas.len()
            invariant
                i <= self.quotas@.len(),
                self.quotas@.len() == quotas.len(),
                quotas == old(self).quotas(),
                self.quotas_valid(),
                *self.next() == *old(self).next(),
                self.next().valid(),
                *metric == *old(metric),
                metric.valid(),
                hash == crc32(identity(metric@)),
                forall|k: int| 0 <= k < i ==> fits(quotas, k, now, hash),
                forall|k: int|
                    0 <= k < i ==> (#[trigger] self.quotas()[k]) == quotas[k].remove_old_keys(now),
                forall|k: int| i <= k < quotas.len() ==> (#[trigger] self.quotas()[k]) == quotas[k],
            decreases self.quotas@.len() - i,
        {
            let ghost prior = self.quotas@;
            assert(self.quotas()[i as int] == quotas[i as int]);
            assert(self.quotas@[i as int].valid());
            self.quotas[i].remove_old_keys(now);
            proof {
                assert forall|k: int| 0 <= k < prior.len() && k != i implies self.quotas@[k]
                    == prior[k] by {}
                assert forall|k: int| 0 <= k < self.quotas@.len() implies (
                #[trigger] self.quotas@[k]).valid() by {
                    if k != i {
                        assert(prior[k].valid());
                    }
                }
                assert forall|k: int| 0 <= k < quotas.len() && k != i implies (
                #[trigger] self.quotas()[k]) == quota_views(prior)[k] by {}
            }
            if !self.quotas[i].does_metric_fit(now, hash) {
                proof {
                    let full = i as int;
                    assert(!fits(quotas, full, now, hash));
                    assert(self.quotas() =~= evicted(quotas, now, full));
                }
                return ;
            }
            i += 1;
        }
        let ghost evicted_all = self.quotas();
        assert forall|k: int| 0 <= k < quotas.len() implies evicted_all[k]
            == #[trigger] quotas[k].remove_old_keys(now) by {
            assert(self.quotas()[k] == quotas[k].remove_old_keys(now));
        }
        self.next.submit(metric);
        let ghost sent = *self.next();
        assert(self.quotas() == evicted_all);
        i = 0;
        while i < self.quotas.len()
            invariant
                i <= self.quotas@.len(),
                self.quotas@.len() == quotas.len(),
                evicted_all.len() == quotas.len(),
                self.quotas_valid(),
                *self.next() == sent,
                forall|k: int|
                    0 <= k < i ==> (#[trigger] self.quotas()[k]) == evicted_all[k].insert_metric(
                        now,
                        hash,
                    ),
                forall|k: int|
                    i <= k < quotas.len() ==> (#[trigger] self.quotas()[k]) == evicted_all[k],
            decreases self.quotas@.len() - i,
        {
            let ghost prior = self.quotas@;
            assert(self.quotas()[i as int] == evicted_all[i as int]);
            assert(self.quotas@[i as int].valid());
            self.quotas[i].insert_metric(now, hash);
            proof {
                assert forall|k: int| 0 <= k < prior.len() && k != i implies self.quotas@[k]
                    == prior[k] by {}
                assert forall|k: int| 0 <= k < self.quotas@.len() implies (
                #[trigger] self.quotas@[k]).valid() by {
                    if k != i {
                        assert(prior[k].valid());
                    }
                }
                assert forall|k: int| 0 <= k < quotas.len() && k != i implies (
                #[trigger] self.quotas()[k]) == quota_views(prior)[k] by {}
            }
            i += 1;
        }
        assert(self.quotas() =~= counted(quotas, now, hash));
    }
}

impl<M> Middleware for CardinalityLimit<M> where M: Middleware {
    open spec fn valid(&self) -> bool {
        &&& self.quotas_valid()
        &&& self.next().valid()
    }

    open spec fn polled(&self, after: &Self) -> bool {
        &&& after.quotas() == self.quotas()
        &&& self.next().polled(after.next())
    }

    /// A submit at some second of the clock.
    open spec fn submitted(&self, metric: MetricView, after: &Self, left: MetricView) -> bool {
        exists|now: u64| self.submitted_at(now, metric, after, left)
    }

    open spec fn joined(&self, after: &Self, ok: bool) -> bool {
        &&& after.quotas() == self.quotas()
        &&& self.next().joined(after.next(), ok)
    }

    fn join(&mut self) -> (result: Result<(), Error>) {
        self.next.join()
    }

    fn poll(&mut self) {
        self.next.poll()
    }

    fn submit(&mut self, metric: &mut Metric) {
        let now = unix_seconds();
        self.submit_at(now, metric);
    }
}

} // verus!
