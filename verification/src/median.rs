//! Medians of integer samples, of a whole slice and of a growing set.

use crate::heap::Heap;
use vstd::prelude::*;
use vstd::relations::*;

verus! {

/// The samples in ascending order.
pub open spec fn ascending(s: Seq<i64>) -> Seq<i64> {
    s.sort_by(|a: i64, b: i64| a <= b)
}

/// The upper median: the element at half the length of the sorted samples.
pub open spec fn upper_median(s: Seq<i64>) -> i64 {
    ascending(s)[s.len() as int / 2]
}

/// Whether no sample is followed by a smaller one.
pub open spec fn is_ascending(s: Seq<i64>) -> bool {
    forall|i: int, j: int| 0 <= i <= j < s.len() ==> s[i] <= s[j]
}

/// `ascending` sorts: same samples, in order.
pub proof fn lemma_ascending(s: Seq<i64>)
    ensures
        ascending(s).len() == s.len(),
        ascending(s).to_multiset() == s.to_multiset(),
        is_ascending(ascending(s)),
{
    broadcast use vstd::seq_lib::group_to_multiset_ensures;

    let leq = |a: i64, b: i64| a <= b;
    assert(total_ordering(leq));
    s.lemma_sort_by_ensures(leq);
    let r = ascending(s);
    assert(r.len() == s.len()) by {
        assert(r.to_multiset().len() == s.to_multiset().len());
    }
    assert forall|i: int, j: int| 0 <= i <= j < r.len() implies r[i] <= r[j] by {
        if i < j {
            assert(leq(r[i], r[j]));
        }
    }
}

/// A sorted arrangement of the same samples is the one that `ascending` gives.
pub proof fn lemma_ascending_unique(s: Seq<i64>, r: Seq<i64>)
    requires
        r.to_multiset() == s.to_multiset(),
        is_ascending(r),
    ensures
        r == ascending(s),
{
    let leq = |a: i64, b: i64| a <= b;
    assert(total_ordering(leq));
    s.lemma_sort_by_ensures(leq);
    assert(sorted_by(r, leq));
    vstd::seq_lib::lemma_sorted_unique(r, ascending(s), leq);
}

/// The order in which samples came makes no difference.
proof fn lemma_same_samples(s: Seq<i64>, t: Seq<i64>)
    requires
        s.to_multiset() == t.to_multiset(),
    ensures
        ascending(s) == ascending(t),
{
    lemma_ascending(s);
    lemma_ascending_unique(t, ascending(s));
}

/// Whether no sample of the lower half is above one of the upper half.
spec fn halves(low: Seq<i64>, high: Seq<i64>) -> bool {
    forall|a: i64, b: i64| #[trigger]
        low.contains(a) && #[trigger] high.contains(b) ==> a <= b
}

/// The least sample of the upper half is the upper median of both halves.
proof fn lemma_halves(low: Seq<i64>, high: Seq<i64>, m: i64)
    requires
        halves(low, high),
        high.contains(m),
        forall|y: i64| high.contains(y) ==> m <= y,
        high.len() == low.len() || high.len() == low.len() + 1,
    ensures
        upper_median(low + high) == m,
{
    broadcast use vstd::seq_lib::group_to_multiset_ensures;

    lemma_ascending(low);
    lemma_ascending(high);
    let a = ascending(low);
    let b = ascending(high);
    let c = a + b;
    vstd::seq_lib::lemma_multiset_commutative(a, b);
    vstd::seq_lib::lemma_multiset_commutative(low, high);
    assert forall|i: int| 0 <= i < a.len() implies low.contains(#[trigger] a[i]) by {
        assert(a.contains(a[i]));
        assert(a.to_multiset().count(a[i]) > 0);
    }
    assert forall|i: int| 0 <= i < b.len() implies high.contains(#[trigger] b[i]) by {
        assert(b.contains(b[i]));
        assert(b.to_multiset().count(b[i]) > 0);
    }
    assert forall|i: int, j: int| 0 <= i <= j < c.len() implies c[i] <= c[j] by {
        if i < a.len() && j >= a.len() {
            assert(low.contains(a[i]) && high.contains(b[j - a.len()]));
        }
    }
    assert(c.to_multiset() =~= (low + high).to_multiset());
    lemma_ascending_unique(low + high, c);
    assert(high.to_multiset().count(m) > 0);
    assert(b.contains(m));
    let k = choose|k: int| 0 <= k < b.len() && b[k] == m;
    assert(b[0] <= b[k]);
    assert(high.contains(b[0]));
}

/// Incremental median over a growing set of samples. A push takes time that grows with
/// the logarithm of their number.
pub struct RunningMedian {
    low: Heap,
    high: Heap,
}

impl RunningMedian {
    /// The samples pushed so far, in ascending order.
    pub closed spec fn view(&self) -> Seq<i64> {
        ascending(self.low.values() + self.high.values())
    }

    /// The samples lie in two halves, of which the upper has as many as the lower or
    /// one more.
    pub closed spec fn wf(&self) -> bool {
        &&& self.low.wf()
        &&& self.high.wf()
        &&& !self.low.is_least()
        &&& self.high.is_least()
        &&& halves(self.low.values(), self.high.values())
        &&& self.high.values().len() == self.low.values().len() || self.high.values().len()
            == self.low.values().len() + 1
    }

    /// No samples yet.
    pub fn new() -> (set: Self)
        ensures
            set.wf(),
            set@ == Seq::<i64>::empty(),
            set@ == ascending(Seq::<i64>::empty()),
    {
        let set = RunningMedian { low: Heap::new(false), high: Heap::new(true) };
        proof {
            lemma_ascending(Seq::<i64>::empty());
            assert(ascending(Seq::<i64>::empty()) =~= Seq::<i64>::empty());
            assert(set.low.values() + set.high.values() =~= Seq::<i64>::empty());
        }
        set
    }

    /// Add one sample.
    pub fn push(&mut self, x: i64)
        requires
            old(self).wf(),
        ensures
            final(self).wf(),
            final(self)@ == ascending(old(self)@.push(x)),
            final(self)@.len() == old(self)@.len() + 1,
    {
        broadcast use vstd::seq_lib::group_to_multiset_ensures;

        let ghost all = self.low@.add(self.high@).insert(x);
        let below: bool = self.high.len() > 0 && x < self.high.top();
        if below {
            self.low.push(x);
        } else {
            self.high.push(x);
        }
        assert(self.low@.add(self.high@) =~= all);
        assert forall|a: i64, b: i64| #[trigger]
            self.low.values().contains(a) && #[trigger] self.high.values().contains(b) implies a
            <= b by {
            assert(self.low@.count(a) > 0 && self.high@.count(b) > 0);
            let (l, h) = (old(self).low, old(self).high);
            assert(l@.count(a) > 0 ==> l.values().contains(a));
            assert(h@.count(b) > 0 ==> h.values().contains(b));
            if !below && h.values().len() > 0 {
                assert(h.values().contains(h.values()[0]));
            }
            if !below && h.values().len() == 0 {
                assert(l.values() =~= Seq::<i64>::empty());
                assert(l@.count(a) == 0);
            }
        }
        let ghost (low, high) = (self.low, self.high);
        if self.high.len() > self.low.len() && self.high.len() - self.low.len() > 1 {
            let v: i64 = self.high.pop();
            self.low.push(v);
            assert(high@.count(v) > 0);
            assert(self.low@.add(self.high@) =~= all);
        } else if self.low.len() > self.high.len() {
            let v: i64 = self.low.pop();
            self.high.push(v);
            assert(low@.count(v) > 0);
            assert(self.low@.add(self.high@) =~= all);
        }
        assert forall|a: i64, b: i64| #[trigger]
            self.low.values().contains(a) && #[trigger] self.high.values().contains(b) implies a
            <= b by {
            assert(self.low@.count(a) > 0 && self.high@.count(b) > 0);
            assert(low@.count(a) > 0 ==> low.values().contains(a));
            assert(high@.count(b) > 0 ==> high.values().contains(b));
            assert(high@.count(a) > 0 ==> high.values().contains(a));
            assert(low@.count(b) > 0 ==> low.values().contains(b));
        }
        proof {
            let was = old(self).low.values() + old(self).high.values();
            let now = self.low.values() + self.high.values();
            vstd::seq_lib::lemma_multiset_commutative(
                old(self).low.values(),
                old(self).high.values(),
            );
            vstd::seq_lib::lemma_multiset_commutative(self.low.values(), self.high.values());
            lemma_ascending(was);
            lemma_ascending(now);
            assert(now.to_multiset() =~= ascending(was).push(x).to_multiset());
            lemma_same_samples(now, ascending(was).push(x));
        }
    }

    /// The upper median of the samples pushed so far.
    pub fn median(&self) -> (m: i64)
        requires
            self.wf(),
            self@.len() > 0,
        ensures
            m == upper_median(self@),
            m == self@[self@.len() as int / 2],
    {
        let ghost all = self.low.values() + self.high.values();
        proof {
            lemma_ascending(all);
            lemma_running_matches_whole(all);
        }
        let m: i64 = self.high.top();
        proof {
            lemma_halves(self.low.values(), self.high.values(), m);
        }
        m
    }

    /// Forget all samples.
    pub fn clear(&mut self)
        requires
            old(self).wf(),
        ensures
            final(self).wf(),
            final(self)@ == Seq::<i64>::empty(),
    {
        self.low.clear();
        self.high.clear();
        proof {
            lemma_ascending(Seq::<i64>::empty());
            assert(ascending(Seq::<i64>::empty()) =~= Seq::<i64>::empty());
            assert(self.low.values() + self.high.values() =~= Seq::<i64>::empty());
        }
    }
}

/// Pushing onto the sorted samples or onto the samples as they came makes no
/// difference to the set.
pub proof fn lemma_push_onto_ascending(s: Seq<i64>, x: i64)
    ensures
        ascending(ascending(s).push(x)) == ascending(s.push(x)),
{
    broadcast use vstd::seq_lib::group_to_multiset_ensures;

    lemma_ascending(s);
    lemma_ascending(ascending(s).push(x));
    assert(ascending(s).push(x).to_multiset() =~= s.push(x).to_multiset());
    lemma_ascending_unique(s.push(x), ascending(ascending(s).push(x)));
}

/// The median of a growing set agrees with the median of the whole: whatever
/// the order of the pushes, `RunningMedian::median` is the upper median.
pub proof fn lemma_running_matches_whole(s: Seq<i64>)
    requires
        s.len() > 0,
    ensures
        upper_median(ascending(s)) == upper_median(s),
{
    lemma_ascending(s);
    lemma_ascending(ascending(s));
    lemma_ascending_unique(s, ascending(ascending(s)));
}

/// The upper median of the samples.
pub fn median_cents(vals: &[i64]) -> (m: i64)
    requires
        vals@.len() > 0,
    ensures
        m == upper_median(vals@),
        vals@.contains(m),
{
    let mut set = RunningMedian::new();
    assert(vals@.take(0) =~= Seq::<i64>::empty());
    let mut i: usize = 0;
    while i < vals.len()
        invariant
            i <= vals@.len(),
            set.wf(),
            set@ == ascending(vals@.take(i as int)),
            set@.len() == i,
        decreases vals@.len() - i,
    {
        proof {
            lemma_push_onto_ascending(vals@.take(i as int), vals@[i as int]);
            assert(vals@.take(i as int).push(vals@[i as int]) =~= vals@.take(i + 1));
        }
        set.push(vals[i]);
        i = i + 1;
    }
    proof {
        assert(vals@.take(i as int) =~= vals@);
        lemma_median_is_sample(vals@);
    }
    set.median()
}

/// The upper median is one of the samples.
pub proof fn lemma_median_is_sample(s: Seq<i64>)
    requires
        s.len() > 0,
    ensures
        s.contains(upper_median(s)),
{
    broadcast use vstd::seq_lib::group_to_multiset_ensures;

    lemma_ascending(s);
    let r = ascending(s);
    assert(r.contains(r[s.len() as int / 2]));
    assert(r.to_multiset().count(r[s.len() as int / 2]) > 0);
}

/// Whether every sample is `c`, but for one at most.
pub open spec fn almost_all(s: Seq<i64>, c: i64) -> bool {
    exists|at: int| #[trigger] all_but(s, c, at)
}

/// Whether every sample is `c`, but for the one at `at`.
pub open spec fn all_but(s: Seq<i64>, c: i64, at: int) -> bool {
    forall|k: int| 0 <= k < s.len() && k != at ==> #[trigger] s[k] == c
}

/// The median of three samples or more does not mind one that stands out.
pub proof fn lemma_median_ignores_outlier(s: Seq<i64>, c: i64)
    requires
        s.len() >= 3,
        almost_all(s, c),
    ensures
        upper_median(s) == c,
{
    broadcast use vstd::seq_lib::group_to_multiset_ensures;

    lemma_ascending(s);
    let at = choose|at: int| #[trigger] all_but(s, c, at);
    let r = ascending(s);
    let m = s.len() as int / 2;
    let y = r[m];
    if y != c {
        let z = if y > c { r[m + 1] } else { r[m - 1] };
        let n = if y > c { m + 1 } else { m - 1 };
        assert(z == r[n] && z != c);
        assert(r.contains(y) && r.contains(z));
        assert(s.to_multiset().count(y) > 0 && s.to_multiset().count(z) > 0);
        assert(s.contains(y) && s.contains(z));
        let p = choose|p: int| 0 <= p < s.len() && s[p] == y;
        let q = choose|q: int| 0 <= q < s.len() && s[q] == z;
        assert(p == at && q == at);
        let others = s.remove(at);
        assert forall|k: int| 0 <= k < others.len() implies #[trigger] others[k] == c by {
            if k < at {
                assert(others[k] == s[k]);
            } else {
                assert(others[k] == s[k + 1]);
            }
        }
        assert(!others.contains(y));
        assert(others.to_multiset().count(y) == 0);
        let rest = r.remove(m);
        assert(rest[if n > m { m } else { n }] == y);
        assert(rest.contains(y));
        assert(rest.to_multiset().count(y) > 0);
    }
}

} // verus!
