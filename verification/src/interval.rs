//! Accounting of claimed byte ranges.
//!
//! A store keeps a list of intervals. Adding an interval merges it with the
//! intervals that it touches, so that ranges claimed next to each other grow
//! into one. Every interval in the store is visited on each addition.

use vstd::prelude::*;
use vstd::seq_lib::{to_multiset_build, to_multiset_insert};

verus! {

/// An interval from `start` (inclusive) to `end` (exclusive).
#[derive(Clone, Copy, Debug, PartialEq, Eq, Structural)]
pub struct Interval {
    /// The start of the interval (inclusive).
    pub start: usize,
    /// The end of the interval (exclusive).
    pub end: usize,
}

impl Interval {
    /// Whether the two intervals overlap or are adjacent.
    pub open spec fn spec_can_merge(self, other: Interval) -> bool {
        (self.start <= other.start && other.start <= self.end) || (other.start <= self.start
            && self.start <= other.end)
    }

    /// The smallest interval that spans both.
    pub open spec fn hull(self, other: Interval) -> Interval {
        Interval {
            start: if self.start <= other.start {
                self.start
            } else {
                other.start
            },
            end: if self.end >= other.end {
                self.end
            } else {
                other.end
            },
        }
    }

    /// The order of the sorted listing: by start, then by end.
    pub open spec fn before(self, other: Interval) -> bool {
        self.start < other.start || (self.start == other.start && self.end <= other.end)
    }

    /// Returns true if `self` and `other` can be combined: intervals that
    /// are adjacent may merge, not only those that overlap.
    pub fn can_merge(&self, other: &Interval) -> (r: bool)
        ensures
            r == self.spec_can_merge(*other),
    {
        (self.start <= other.start && other.start <= self.end) || (other.start <= self.start
            && self.start <= other.end)
    }

    /// Merges `other` into this interval.
    pub fn merge(&mut self, other: &Interval)
        requires
            old(self).spec_can_merge(*other),
        ensures
            *final(self) == old(self).hull(*other),
    {
        if other.start < self.start {
            self.start = other.start;
        }
        if other.end > self.end {
            self.end = other.end;
        }
    }

    fn is_before(&self, other: &Interval) -> (r: bool)
        ensures
            r == self.before(*other),
    {
        self.start < other.start || (self.start == other.start && self.end <= other.end)
    }
}

/// The hull of `acc` and of every interval of `rest` that can merge with `m`.
pub open spec fn absorb(rest: Seq<Interval>, m: Interval, acc: Interval) -> Interval
    decreases rest.len(),
{
    if rest.len() == 0 {
        acc
    } else {
        let sub = absorb(rest.drop_last(), m, acc);
        if rest.last().spec_can_merge(m) {
            sub.hull(rest.last())
        } else {
            sub
        }
    }
}

/// The intervals of `rest` that cannot merge with `m`, in order.
pub open spec fn apart(rest: Seq<Interval>, m: Interval) -> Seq<Interval> {
    rest.filter(|c: Interval| !c.spec_can_merge(m))
}

/// Whether `k` is the first position of `s` whose interval can merge with `n`.
pub open spec fn first_match(s: Seq<Interval>, n: Interval, k: int) -> bool {
    &&& 0 <= k < s.len()
    &&& s[k].spec_can_merge(n)
    &&& forall|j: int| 0 <= j < k ==> !(#[trigger] s[j]).spec_can_merge(n)
}

/// The store `s` after `n` was added, where `k` is the first position whose
/// interval can merge with `n`: that interval grows to span `n`, then takes
/// in every later interval that touches the grown one, and those leave the
/// list.
pub open spec fn merged_at(s: Seq<Interval>, n: Interval, k: int) -> Seq<Interval> {
    let m = s[k].hull(n);
    let rest = s.subrange(k + 1, s.len() as int);
    s.subrange(0, k).push(absorb(rest, m, m)) + apart(rest, m)
}

/// The store `s` after `n` was added: where no interval of `s` touches `n`,
/// `n` comes last; otherwise the first that touches it takes it in.
pub open spec fn added(s: Seq<Interval>, n: Interval) -> Seq<Interval> {
    if exists|k: int| first_match(s, n, k) {
        merged_at(s, n, choose|k: int| first_match(s, n, k))
    } else {
        s.push(n)
    }
}

/// Whether the sequence is sorted by start, then by end.
pub open spec fn sorted(s: Seq<Interval>) -> bool {
    forall|i: int, j: int| 0 <= i < j < s.len() ==> s[i].before(s[j])
}

/// A list of intervals in which touching ranges were merged as they came.
#[derive(Debug)]
pub struct IntervalStore {
    intervals: Vec<Interval>,
}

impl View for IntervalStore {
    type V = Seq<Interval>;

    closed spec fn view(&self) -> Seq<Interval> {
        self.intervals@
    }
}

impl Default for IntervalStore {
    fn default() -> (store: IntervalStore)
        ensures
            store@ == Seq::<Interval>::empty(),
    {
        IntervalStore::new()
    }
}

impl IntervalStore {
    /// Generates a new empty store.
    pub fn new() -> (store: IntervalStore)
        ensures
            store@ == Seq::<Interval>::empty(),
    {
        IntervalStore { intervals: Vec::new() }
    }

    /// Adds an interval to the store.
    ///
    /// Where no stored interval touches the new one, it is appended.
    /// Otherwise the first that touches it takes it in, as `merged_at` says.
    pub fn add(&mut self, start: usize, end: usize)
        ensures
            final(self)@ == added(old(self)@, Interval { start, end }),
    {
        let ghost s = self.intervals@;
        let ghost n = Interval { start, end };
        let mut new_interval = Interval { start, end };
        let mut out: Vec<Interval> = Vec::new();
        let mut first: Option<usize> = None;
        let mut i: usize = 0;
        while i < self.intervals.len()
            invariant
                i <= s.len(),
                self.intervals@ == s,
                first is None ==> new_interval == n && out@ == s.subrange(0, i as int) && forall|
                    j: int,
                | 0 <= j < i ==> !(#[trigger] s[j]).spec_can_merge(n),
                first is Some ==> {
                    let k = first->Some_0 as int;
                    let rest = s.subrange(k + 1, i as int);
                    &&& first_match(s, n, k)
                    &&& k < i
                    &&& new_interval == s[k].hull(n)
                    &&& out@ == s.subrange(0, k).push(absorb(rest, new_interval, new_interval))
                        + apart(rest, new_interval)
                },
            decreases s.len() - i,
        {
            let interval = self.intervals[i];
            match first {
                None => {
                    if interval.can_merge(&new_interval) {
                        let mut grown = interval;
                        grown.merge(&new_interval);
                        new_interval = grown;
                        first = Some(i);
                        out.push(grown);
                        proof {
                            let rest = s.subrange(i + 1, i + 1);
                            assert(rest =~= Seq::<Interval>::empty());
                            assert(apart(rest, new_interval) =~= Seq::<Interval>::empty());
                            assert(out@ =~= s.subrange(0, i as int).push(
                                absorb(rest, new_interval, new_interval),
                            ) + apart(rest, new_interval));
                        }
                    } else {
                        out.push(interval);
                        assert(out@ =~= s.subrange(0, i + 1));
                    }
                },
                Some(k) => {
                    proof {
                        let rest = s.subrange(k + 1, i as int);
                        let next = s.subrange(k + 1, i + 1);
                        assert(next.drop_last() =~= rest);
                        assert(next.last() == interval);
                        assert(next =~= rest.push(interval));
                        rest.lemma_filter_push(
                            interval,
                            |c: Interval| !c.spec_can_merge(new_interval),
                        );
                        lemma_absorb_spans(rest, new_interval);
                    }
                    if interval.can_merge(&new_interval) {
                        let mut grown = out[k];
                        grown.merge(&interval);
                        out[k] = grown;
                        proof {
                            let rest = s.subrange(k + 1, i as int);
                            let next = s.subrange(k + 1, i + 1);
                            assert(out@ =~= s.subrange(0, k as int).push(
                                absorb(next, new_interval, new_interval),
                            ) + apart(next, new_interval));
                        }
                    } else {
                        out.push(interval);
                        proof {
                            let rest = s.subrange(k + 1, i as int);
                            let next = s.subrange(k + 1, i + 1);
                            assert(out@ =~= s.subrange(0, k as int).push(
                                absorb(next, new_interval, new_interval),
                            ) + apart(next, new_interval));
                        }
                    }
                },
            }
            i = i + 1;
        }
        match first {
            None => {
                out.push(new_interval);
                assert(s.subrange(0, i as int) =~= s);
                assert(!exists|k: int| first_match(s, n, k));
            },
            Some(k) => {
                let ghost chosen = choose|c: int| first_match(s, n, c);
                assert(first_match(s, n, k as int));
                assert(chosen == k) by {
                    if chosen < k {
                        assert(!s[chosen].spec_can_merge(n));
                    } else if k < chosen {
                        assert(!s[k as int].spec_can_merge(n));
                    }
                }
            },
        }
        self.intervals = out;
    }

    /// Returns an owned, sorted list of the intervals in the store.
    pub fn get_intervals(&self) -> (r: Vec<Interval>)
        ensures
            sorted(r@),
            r@.to_multiset() == self@.to_multiset(),
    {
        let mut out: Vec<Interval> = Vec::new();
        let mut i: usize = 0;
        assert(self.intervals@.subrange(0, 0) =~= out@);
        while i < self.intervals.len()
            invariant
                i <= self.intervals@.len(),
                sorted(out@),
                out@.to_multiset() == self.intervals@.subrange(0, i as int).to_multiset(),
            decreases self.intervals@.len() - i,
        {
            let x = self.intervals[i];
            let mut p: usize = 0;
            while p < out.len() && out[p].is_before(&x)
                invariant
                    p <= out@.len(),
                    forall|j: int| 0 <= j < p ==> out@[j].before(x),
                decreases out@.len() - p,
            {
                p = p + 1;
            }
            proof {
                let before = out@;
                let after = before.insert(p as int, x);
                to_multiset_insert(before, p as int, x);
                let done = self.intervals@.subrange(0, i as int);
                let next = self.intervals@.subrange(0, i + 1);
                assert(next =~= done.push(x));
                to_multiset_build(done, x);
                assert forall|a: int, b: int| 0 <= a < b < after.len() implies after[a].before(
                    after[b],
                ) by {
                    if b < p {
                        assert(after[a] == before[a] && after[b] == before[b]);
                    } else if b == p {
                        assert(after[a] == before[a]);
                    } else if a < p {
                        assert(after[a] == before[a] && after[b] == before[b - 1]);
                        assert(before[a].before(x));
                        assert(!before[p as int].before(x));
                        if p < b - 1 {
                            assert(before[p as int].before(before[b - 1]));
                        }
                    } else if a == p {
                        assert(after[b] == before[b - 1]);
                        assert(!before[p as int].before(x));
                        if p < b - 1 {
                            assert(before[p as int].before(before[b - 1]));
                        }
                    } else {
                        assert(after[a] == before[a - 1] && after[b] == before[b - 1]);
                    }
                }
            }
            out.insert(p, x);
            i = i + 1;
        }
        assert(self.intervals@.subrange(0, i as int) =~= self.intervals@);
        out
    }
}

/// The interval that `absorb` builds from `m` spans `m`, so whatever touches
/// `m` touches it too.
pub proof fn lemma_absorb_spans(rest: Seq<Interval>, m: Interval)
    requires
        m.start <= m.end,
    ensures
        absorb(rest, m, m).start <= m.start,
        m.end <= absorb(rest, m, m).end,
        forall|c: Interval|
            c.spec_can_merge(m) ==> absorb(rest, m, m).spec_can_merge(c),
    decreases rest.len(),
{
    if rest.len() > 0 {
        lemma_absorb_spans(rest.drop_last(), m);
    }
}

/// Whether some interval of the list holds the point `x`.
pub open spec fn covers(s: Seq<Interval>, x: int) -> bool {
    exists|i: int| 0 <= i < s.len() && (#[trigger] s[i]).start <= x < s[i].end
}

/// The interval that `absorb` builds spans what it started from.
pub proof fn lemma_absorb_grows(rest: Seq<Interval>, m: Interval, acc: Interval)
    ensures
        absorb(rest, m, acc).start <= acc.start,
        acc.end <= absorb(rest, m, acc).end,
    decreases rest.len(),
{
    if rest.len() > 0 {
        lemma_absorb_grows(rest.drop_last(), m, acc);
    }
}

/// The interval that `absorb` builds holds every point of the intervals
/// that it took in.
pub proof fn lemma_absorb_covers(rest: Seq<Interval>, m: Interval, acc: Interval, j: int, x: int)
    requires
        0 <= j < rest.len(),
        rest[j].spec_can_merge(m),
        rest[j].start <= x < rest[j].end,
    ensures
        absorb(rest, m, acc).start <= x < absorb(rest, m, acc).end,
    decreases rest.len(),
{
    if j < rest.len() - 1 {
        lemma_absorb_covers(rest.drop_last(), m, acc, j, x);
    } else {
        lemma_absorb_grows(rest.drop_last(), m, acc);
    }
}

/// Adding an interval loses no claimed point: what the store covered, and
/// what the new interval holds, is covered afterwards.
pub proof fn lemma_added_covers(s: Seq<Interval>, n: Interval, x: int)
    requires
        covers(s, x) || n.start <= x < n.end,
    ensures
        covers(added(s, n), x),
{
    let after = added(s, n);
    if exists|k: int| first_match(s, n, k) {
        let k = choose|k: int| first_match(s, n, k);
        let m = s[k].hull(n);
        let rest = s.subrange(k + 1, s.len() as int);
        let grown = absorb(rest, m, m);
        let kept = apart(rest, m);
        assert(after == s.subrange(0, k).push(grown) + kept);
        assert(after[k] == grown);
        lemma_absorb_grows(rest, m, m);
        if n.start <= x < n.end {
            assert(after[k].start <= x < after[k].end);
        } else {
            let i = choose|i: int| 0 <= i < s.len() && (#[trigger] s[i]).start <= x < s[i].end;
            if i < k {
                assert(after[i] == s[i]);
            } else if i == k {
                assert(after[k].start <= x < after[k].end);
            } else {
                let c = rest[i - k - 1];
                assert(c == s[i]);
                if c.spec_can_merge(m) {
                    lemma_absorb_covers(rest, m, m, i - k - 1, x);
                    assert(after[k].start <= x < after[k].end);
                } else {
                    let pred = |c: Interval| !c.spec_can_merge(m);
                    rest.lemma_filter_contains(pred, i - k - 1);
                    assert(kept.contains(c));
                    let q = choose|q: int| 0 <= q < kept.len() && kept[q] == c;
                    assert(after[k + 1 + q] == c);
                }
            }
        }
    } else {
        if n.start <= x < n.end {
            assert(after[s.len() as int] == n);
        } else {
            let i = choose|i: int| 0 <= i < s.len() && (#[trigger] s[i]).start <= x < s[i].end;
            assert(after[i] == s[i]);
        }
    }
}

impl Interval {
    /// Whether the interval ends no earlier than it starts.
    pub open spec fn valid(self) -> bool {
        self.start <= self.end
    }

    /// Whether the interval holds the point `x`.
    pub open spec fn holds(self, x: int) -> bool {
        self.start <= x < self.end
    }
}

/// Whether every interval of the list is valid.
pub open spec fn all_valid(s: Seq<Interval>) -> bool {
    forall|i: int| 0 <= i < s.len() ==> (#[trigger] s[i]).valid()
}

/// Whether no two intervals of the list overlap or are adjacent.
pub open spec fn pairwise_apart(s: Seq<Interval>) -> bool {
    forall|i: int, j: int|
        0 <= i < j < s.len() ==> !(#[trigger] s[i]).spec_can_merge(#[trigger] s[j])
}

/// Whether `a` and `b` are places of `s`, in this order, whose items are
/// the items `p` and `q` of what `pred` keeps of `s`.
pub open spec fn kept_from(
    s: Seq<Interval>,
    pred: spec_fn(Interval) -> bool,
    p: int,
    q: int,
    a: int,
    b: int,
) -> bool {
    &&& 0 <= a < b < s.len()
    &&& s[a] == s.filter(pred)[p]
    &&& s[b] == s.filter(pred)[q]
    &&& pred(s[a])
    &&& pred(s[b])
}

/// Two items that a filter keeps come from two places of the list, in the
/// same order.
pub proof fn lemma_filter_keeps_order(
    s: Seq<Interval>,
    pred: spec_fn(Interval) -> bool,
    p: int,
    q: int,
)
    requires
        0 <= p < q < s.filter(pred).len(),
    ensures
        exists|a: int, b: int| #[trigger] kept_from(s, pred, p, q, a, b),
    decreases s.len(),
{
    reveal(Seq::filter);
    if s.len() > 0 {
        let sub = s.drop_last().filter(pred);
        if q < sub.len() {
            lemma_filter_keeps_order(s.drop_last(), pred, p, q);
            let (a, b) = choose|a: int, b: int| #[trigger]
                kept_from(s.drop_last(), pred, p, q, a, b);
            assert(kept_from(s, pred, p, q, a, b));
        } else {
            assert(pred(s.last()));
            assert(s.filter(pred) == sub.push(s.last()));
            assert(sub.contains(sub[p]));
            s.drop_last().lemma_filter_contains_rev(pred, sub[p]);
            let a = choose|a: int| 0 <= a < s.drop_last().len() && s.drop_last()[a] == sub[p];
            s.drop_last().lemma_filter_pred(pred, p);
            assert(kept_from(s, pred, p, q, a, s.len() - 1));
        }
    }
}

/// What touches the interval that `absorb` builds touches what it started
/// from or one of the intervals that it took in.
pub proof fn lemma_absorb_touched(rest: Seq<Interval>, m: Interval, acc: Interval, c: Interval)
    requires
        all_valid(rest),
        m.valid(),
        acc.valid(),
        c.valid(),
        acc.start <= m.start,
        m.end <= acc.end,
        c.spec_can_merge(absorb(rest, m, acc)),
    ensures
        c.spec_can_merge(acc) || exists|j: int|
            0 <= j < rest.len() && (#[trigger] rest[j]).spec_can_merge(m) && c.spec_can_merge(
                rest[j],
            ),
    decreases rest.len(),
{
    if rest.len() > 0 {
        let sub = absorb(rest.drop_last(), m, acc);
        lemma_absorb_grows(rest.drop_last(), m, acc);
        assert(rest.last().valid());
        if rest.last().spec_can_merge(m) && c.spec_can_merge(rest.last()) {
            assert(rest[rest.len() - 1].spec_can_merge(m));
        } else {
            assert(c.spec_can_merge(sub));
            lemma_absorb_touched(rest.drop_last(), m, acc, c);
            if !c.spec_can_merge(acc) {
                let front = rest.drop_last();
                let j = choose|j: int|
                    0 <= j < front.len() && (#[trigger] front[j]).spec_can_merge(m)
                        && c.spec_can_merge(front[j]);
                assert(rest[j] == front[j]);
            }
        }
    }
}

/// A point that the interval built by `absorb` holds is held by what it
/// started from or by one of the intervals that it took in.
pub proof fn lemma_absorb_held(rest: Seq<Interval>, m: Interval, acc: Interval, x: int)
    requires
        all_valid(rest),
        m.valid(),
        acc.valid(),
        acc.start <= m.start,
        m.end <= acc.end,
        absorb(rest, m, acc).holds(x),
    ensures
        acc.holds(x) || exists|j: int|
            0 <= j < rest.len() && (#[trigger] rest[j]).spec_can_merge(m) && rest[j].holds(x),
    decreases rest.len(),
{
    if rest.len() > 0 {
        let sub = absorb(rest.drop_last(), m, acc);
        lemma_absorb_grows(rest.drop_last(), m, acc);
        assert(rest.last().valid());
        if rest.last().spec_can_merge(m) && rest.last().holds(x) {
            assert(rest[rest.len() - 1].spec_can_merge(m));
        } else {
            assert(sub.holds(x));
            lemma_absorb_held(rest.drop_last(), m, acc, x);
            if !acc.holds(x) {
                let front = rest.drop_last();
                let j = choose|j: int|
                    0 <= j < front.len() && (#[trigger] front[j]).spec_can_merge(m)
                        && front[j].holds(x);
                assert(rest[j] == front[j]);
            }
        }
    }
}

/// Adding a valid interval to a store of valid intervals leaves a store of
/// valid intervals.
pub proof fn lemma_added_valid(s: Seq<Interval>, n: Interval)
    requires
        all_valid(s),
        n.valid(),
    ensures
        all_valid(added(s, n)),
{
    let after = added(s, n);
    if exists|k: int| first_match(s, n, k) {
        let k = choose|k: int| first_match(s, n, k);
        let m = s[k].hull(n);
        let rest = s.subrange(k + 1, s.len() as int);
        let kept = apart(rest, m);
        lemma_absorb_grows(rest, m, m);
        assert(s[k].valid());
        assert forall|i: int| 0 <= i < after.len() implies (#[trigger] after[i]).valid() by {
            if i < k {
                assert(after[i] == s[i]);
            } else if i > k {
                let c = kept[i - k - 1];
                assert(after[i] == c);
                assert(kept.contains(c));
                rest.lemma_filter_contains_rev(|c: Interval| !c.spec_can_merge(m), c);
                let a = choose|a: int| 0 <= a < rest.len() && rest[a] == c;
                assert(rest[a] == s[k + 1 + a]);
            }
        }
    } else {
        assert forall|i: int| 0 <= i < after.len() implies (#[trigger] after[i]).valid() by {
            if i < s.len() {
                assert(after[i] == s[i]);
            }
        }
    }
}

/// A store of valid intervals of which no two touch stays such a store
/// when a valid interval is added.
pub proof fn lemma_added_apart(s: Seq<Interval>, n: Interval)
    requires
        all_valid(s),
        n.valid(),
        pairwise_apart(s),
    ensures
        pairwise_apart(added(s, n)),
{
    let after = added(s, n);
    lemma_added_valid(s, n);
    if exists|k: int| first_match(s, n, k) {
        let k = choose|k: int| first_match(s, n, k);
        let m = s[k].hull(n);
        let rest = s.subrange(k + 1, s.len() as int);
        let grown = absorb(rest, m, m);
        let pred = |c: Interval| !c.spec_can_merge(m);
        let kept = apart(rest, m);
        assert(s[k].valid());
        assert(all_valid(rest)) by {
            assert forall|i: int| 0 <= i < rest.len() implies (#[trigger] rest[i]).valid() by {
                assert(rest[i] == s[k + 1 + i]);
            }
        }
        assert forall|i: int, j: int| 0 <= i < j < after.len() implies !(
        #[trigger] after[i]).spec_can_merge(#[trigger] after[j]) by {
            if j < k {
                assert(after[i] == s[i] && after[j] == s[j]);
            } else if j == k {
                // An earlier interval touches neither the first that
                // touches the new one, nor the new one, nor a later one.
                let c = s[i];
                assert(after[i] == c && after[j] == grown);
                assert(c.valid());
                assert(!c.spec_can_merge(s[k]));
                assert(!c.spec_can_merge(n));
                if c.spec_can_merge(grown) {
                    lemma_absorb_touched(rest, m, m, c);
                    let a = choose|a: int|
                        0 <= a < rest.len() && (#[trigger] rest[a]).spec_can_merge(m)
                            && c.spec_can_merge(rest[a]);
                    assert(rest[a] == s[k + 1 + a]);
                    assert(!s[i].spec_can_merge(s[k + 1 + a]));
                }
            } else {
                let d = kept[j - k - 1];
                assert(after[j] == d);
                if i < k {
                    assert(after[i] == s[i]);
                    assert(kept.contains(d));
                    rest.lemma_filter_contains_rev(pred, d);
                    let b = choose|b: int| 0 <= b < rest.len() && rest[b] == d;
                    assert(rest[b] == s[k + 1 + b]);
                    assert(!s[i].spec_can_merge(s[k + 1 + b]));
                } else if i == k {
                    assert(after[i] == grown);
                    rest.lemma_filter_pred(pred, j - k - 1);
                    assert(!d.spec_can_merge(m));
                    assert(kept.contains(d));
                    rest.lemma_filter_contains_rev(pred, d);
                    let b = choose|b: int| 0 <= b < rest.len() && rest[b] == d;
                    assert(rest[b] == s[k + 1 + b]);
                    assert(d.valid());
                    if d.spec_can_merge(grown) {
                        lemma_absorb_touched(rest, m, m, d);
                        let a = choose|a: int|
                            0 <= a < rest.len() && (#[trigger] rest[a]).spec_can_merge(m)
                                && d.spec_can_merge(rest[a]);
                        assert(rest[a] == s[k + 1 + a]);
                        assert(a != b);
                        if a < b {
                            assert(!s[k + 1 + a].spec_can_merge(s[k + 1 + b]));
                        } else {
                            assert(!s[k + 1 + b].spec_can_merge(s[k + 1 + a]));
                        }
                    }
                } else {
                    let c = kept[i - k - 1];
                    assert(after[i] == c);
                    lemma_filter_keeps_order(rest, pred, i - k - 1, j - k - 1);
                    let (a, b) = choose|a: int, b: int| #[trigger]
                        kept_from(rest, pred, i - k - 1, j - k - 1, a, b);
                    assert(rest[a] == s[k + 1 + a] && rest[b] == s[k + 1 + b]);
                    assert(!s[k + 1 + a].spec_can_merge(s[k + 1 + b]));
                }
            }
        }
    } else {
        assert forall|i: int, j: int| 0 <= i < j < after.len() implies !(
        #[trigger] after[i]).spec_can_merge(#[trigger] after[j]) by {
            if j < s.len() {
                assert(after[i] == s[i] && after[j] == s[j]);
            } else {
                assert(after[i] == s[i] && after[j] == n);
                assert(!first_match(s, n, i));
                assert(!s[i].spec_can_merge(n)) by {
                    if s[i].spec_can_merge(n) {
                        lemma_has_first_match(s, n, i);
                    }
                }
            }
        }
    }
}

/// Where an interval of the list touches `n`, there is a first that does.
pub proof fn lemma_has_first_match(s: Seq<Interval>, n: Interval, i: int)
    requires
        0 <= i < s.len(),
        s[i].spec_can_merge(n),
    ensures
        exists|k: int| first_match(s, n, k),
    decreases i,
{
    if exists|j: int| 0 <= j < i && (#[trigger] s[j]).spec_can_merge(n) {
        let j = choose|j: int| 0 <= j < i && (#[trigger] s[j]).spec_can_merge(n);
        lemma_has_first_match(s, n, j);
    } else {
        assert(first_match(s, n, i));
    }
}

/// After a valid interval was added to a store of valid intervals, a point
/// is held exactly if the store held it before or the new interval holds
/// it.
pub proof fn lemma_added_holds(s: Seq<Interval>, n: Interval, x: int)
    requires
        all_valid(s),
        n.valid(),
    ensures
        covers(added(s, n), x) <==> covers(s, x) || n.holds(x),
{
    if covers(s, x) || n.holds(x) {
        lemma_added_covers(s, n, x);
    }
    let after = added(s, n);
    if covers(after, x) {
        let i = choose|i: int|
            0 <= i < after.len() && (#[trigger] after[i]).start <= x < after[i].end;
        if exists|k: int| first_match(s, n, k) {
            let k = choose|k: int| first_match(s, n, k);
            let m = s[k].hull(n);
            let rest = s.subrange(k + 1, s.len() as int);
            let kept = apart(rest, m);
            assert(s[k].valid());
            assert(all_valid(rest)) by {
                assert forall|a: int| 0 <= a < rest.len() implies (#[trigger] rest[a]).valid() by {
                    assert(rest[a] == s[k + 1 + a]);
                }
            }
            if i < k {
                assert(after[i] == s[i]);
            } else if i == k {
                assert(after[i] == absorb(rest, m, m));
                lemma_absorb_held(rest, m, m, x);
                if m.holds(x) {
                    if !n.holds(x) {
                        assert(s[k].start <= x < s[k].end);
                    }
                } else {
                    let a = choose|a: int|
                        0 <= a < rest.len() && (#[trigger] rest[a]).spec_can_merge(m)
                            && rest[a].holds(x);
                    assert(rest[a] == s[k + 1 + a]);
                    assert(s[k + 1 + a].start <= x < s[k + 1 + a].end);
                }
            } else {
                let c = kept[i - k - 1];
                assert(after[i] == c);
                assert(kept.contains(c));
                rest.lemma_filter_contains_rev(|c: Interval| !c.spec_can_merge(m), c);
                let a = choose|a: int| 0 <= a < rest.len() && rest[a] == c;
                assert(rest[a] == s[k + 1 + a]);
                assert(s[k + 1 + a].start <= x < s[k + 1 + a].end);
            }
        } else {
            if i < s.len() {
                assert(after[i] == s[i]);
            } else {
                assert(after[i] == n);
            }
        }
    }
}

} // verus!
