//! Binary heaps of integers, with the least or the greatest on top.

use vstd::multiset::Multiset;
use vstd::prelude::*;

verus! {

/// Whether `a` may stand above `b`, in a heap with the least on top or else with the
/// greatest.
pub open spec fn may_top(least: bool, a: i64, b: i64) -> bool {
    if least { a <= b } else { a >= b }
}

/// The place above place `i`.
pub open spec fn parent(i: int) -> int {
    (i - 1) / 2
}

/// Whether every value may stand below the one above it, but for the one at place
/// `at`.
spec fn ordered_but(least: bool, s: Seq<i64>, at: int) -> bool {
    forall|i: int| #![trigger s[i]]
        0 < i < s.len() && i != at ==> may_top(least, s[parent(i)], s[i])
}

/// Whether every value may stand below the one above it, but for those below place
/// `at`.
spec fn ordered_but_below(least: bool, s: Seq<i64>, at: int) -> bool {
    forall|i: int| #![trigger s[i]]
        0 < i < s.len() && parent(i) != at ==> may_top(least, s[parent(i)], s[i])
}

/// Whether the values below place `at` may stand below the one above it.
spec fn skips(least: bool, s: Seq<i64>, at: int) -> bool {
    at > 0 ==> forall|i: int| #![trigger s[i]]
        0 < i < s.len() && parent(i) == at ==> may_top(least, s[parent(at)], s[i])
}

proof fn lemma_swap(s: Seq<i64>, i: int, j: int)
    requires
        0 <= i < s.len(),
        0 <= j < s.len(),
    ensures
        s.update(i, s[j]).update(j, s[i]).to_multiset() == s.to_multiset(),
{
    broadcast use vstd::seq_lib::group_to_multiset_ensures;

    if i != j {
        vstd::seq_lib::to_multiset_update(s, i, s[j]);
        let t = s.update(i, s[j]);
        vstd::seq_lib::to_multiset_update(t, j, s[i]);
        assert(s.contains(s[i]) && s.contains(s[j]));
        assert(s.to_multiset().count(s[i]) > 0);
        assert(t.update(j, s[i]).to_multiset() =~= s.to_multiset());
    } else {
        assert(s.update(i, s[j]).update(j, s[i]) =~= s);
    }
}

/// The value on top may stand above every value.
proof fn lemma_top(least: bool, s: Seq<i64>, i: int)
    requires
        ordered_but(least, s, 0),
        0 <= i < s.len(),
    ensures
        may_top(least, s[0], s[i]),
    decreases i,
{
    if i > 0 {
        lemma_top(least, s, parent(i));
        assert(may_top(least, s[parent(i)], s[i]));
    }
}

/// A binary heap.
pub struct Heap {
    least: bool,
    items: Vec<i64>,
}

impl Heap {
    /// The values, in no order that matters.
    pub closed spec fn values(&self) -> Seq<i64> {
        self.items@
    }

    /// Whether the least value is on top.
    pub closed spec fn is_least(&self) -> bool {
        self.least
    }

    /// Every value stands below one that may stand above it.
    pub closed spec fn wf(&self) -> bool {
        ordered_but(self.least, self.items@, 0)
    }

    /// The values, each as often as it occurs.
    pub open spec fn view(&self) -> Multiset<i64> {
        self.values().to_multiset()
    }

    /// An empty heap.
    pub fn new(least: bool) -> (heap: Self)
        ensures
            heap.wf(),
            heap.is_least() == least,
            heap.values() == Seq::<i64>::empty(),
    {
        Heap { least, items: Vec::new() }
    }

    /// How many values there are.
    pub fn len(&self) -> (n: usize)
        ensures
            n == self.values().len(),
    {
        self.items.len()
    }

    /// The value on top: the least, or else the greatest.
    pub fn top(&self) -> (x: i64)
        requires
            self.wf(),
            self.values().len() > 0,
        ensures
            self.values().contains(x),
            forall|y: i64| self.values().contains(y) ==> may_top(self.is_least(), x, y),
    {
        proof {
            assert(self.items@[0] == self.items@[0]);
            assert forall|y: i64| self.values().contains(y) implies may_top(
                self.least,
                self.items@[0],
                y,
            ) by {
                let i = choose|i: int| 0 <= i < self.items@.len() && self.items@[i] == y;
                lemma_top(self.least, self.items@, i);
            }
        }
        self.items[0]
    }

    fn may_stand_above(&self, a: i64, b: i64) -> (yes: bool)
        ensures
            yes == may_top(self.least, a, b),
    {
        if self.least {
            a <= b
        } else {
            a >= b
        }
    }

    fn swap(&mut self, i: usize, j: usize)
        requires
            i < old(self).items@.len(),
            j < old(self).items@.len(),
        ensures
            final(self).least == old(self).least,
            final(self).items@ == old(self).items@.update(i as int, old(self).items@[j as int])
                .update(j as int, old(self).items@[i as int]),
            final(self).items@.to_multiset() == old(self).items@.to_multiset(),
    {
        proof {
            lemma_swap(self.items@, i as int, j as int);
        }
        let a: i64 = self.items[i];
        let b: i64 = self.items[j];
        self.items[i] = b;
        self.items[j] = a;
    }

    /// Add a value, in time that grows with the logarithm of their number.
    pub fn push(&mut self, x: i64)
        requires
            old(self).wf(),
        ensures
            final(self).wf(),
            final(self).is_least() == old(self).is_least(),
            final(self)@ == old(self)@.insert(x),
            final(self).values().len() == old(self).values().len() + 1,
    {
        broadcast use vstd::seq_lib::group_to_multiset_ensures;

        let ghost before = self.items@;
        let mut at: usize = self.items.len();
        self.items.push(x);
        let ghost added = self.items@;
        assert(added.to_multiset() == before.to_multiset().insert(x));
        assert forall|i: int| #![trigger added[i]] 0 < i < added.len() && i != at implies may_top(
            self.least,
            added[parent(i)],
            added[i],
        ) by {
            assert(before[i] == added[i]);
            assert(before[parent(i)] == added[parent(i)]);
        }
        while at > 0 && !self.may_stand_above(self.items[(at - 1) / 2], self.items[at])
            invariant
                at < self.items@.len(),
                self.items@.len() == before.len() + 1,
                self.least == old(self).least,
                self.items@.to_multiset() == before.to_multiset().insert(x),
                ordered_but(self.least, self.items@, at as int),
                skips(self.least, self.items@, at as int),
            decreases at,
        {
            let up: usize = (at - 1) / 2;
            let ghost was = self.items@;
            self.swap(at, up);
            let ghost now = self.items@;
            assert forall|i: int| #![trigger now[i]] 0 < i < now.len() && i != up implies may_top(
                self.least,
                now[parent(i)],
                now[i],
            ) by {
                assert(may_top(self.least, was[up as int], was[up as int]));
                if i != at {
                    assert(was[i] == was[i]);
                    assert(may_top(self.least, was[parent(i)], was[i]));
                }
            }
            assert(skips(self.least, now, up as int)) by {
                if up > 0 {
                    assert(may_top(self.least, was[parent(up as int)], was[up as int]));
                    assert forall|i: int| #![trigger now[i]]
                        0 < i < now.len() && parent(i) == up implies may_top(
                        self.least,
                        now[parent(up as int)],
                        now[i],
                    ) by {
                        if i != at {
                            assert(may_top(self.least, was[parent(i)], was[i]));
                        }
                    }
                }
            }
            at = up;
        }
        assert(ordered_but(self.least, self.items@, 0)) by {
            assert forall|i: int| #![trigger self.items@[i]] 0 < i < self.items@.len() implies
                may_top(self.least, self.items@[parent(i)], self.items@[i]) by {}
        }
    }

    /// Take the value on top, in time that grows with the logarithm of their number.
    pub fn pop(&mut self) -> (x: i64)
        requires
            old(self).wf(),
            old(self).values().len() > 0,
        ensures
            final(self).wf(),
            final(self).is_least() == old(self).is_least(),
            old(self).values().contains(x),
            forall|y: i64| old(self).values().contains(y) ==> may_top(old(self).is_least(), x, y),
            final(self)@ == old(self)@.remove(x),
            final(self).values().len() == old(self).values().len() - 1,
    {
        broadcast use vstd::seq_lib::group_to_multiset_ensures;

        let ghost before = self.items@;
        let x: i64 = self.top();
        assert(x == before[0]) by {
            assert(before.contains(before[0]));
            assert(may_top(self.least, x, before[0]));
            let i = choose|i: int| 0 <= i < before.len() && before[i] == x;
            lemma_top(self.least, before, i);
        }
        let last: usize = self.items.len() - 1;
        self.swap(0, last);
        let ghost swapped = self.items@;
        self.items.pop();
        let ghost kept = self.items@;
        assert(kept.to_multiset() == before.to_multiset().remove(x)) by {
            assert(swapped =~= kept.push(x));
            assert(kept.to_multiset() =~= kept.push(x).to_multiset().remove(x));
        }
        assert forall|i: int| #![trigger kept[i]] 0 < i < kept.len() && parent(i) != 0 implies
            may_top(self.least, kept[parent(i)], kept[i]) by {
            assert(kept[i] == before[i] && kept[parent(i)] == before[parent(i)]);
        }
        let n: usize = self.items.len();
        let mut at: usize = 0;
        let mut done: bool = false;
        while !done
            invariant
                n == self.items@.len(),
                n == before.len() - 1,
                self.least == old(self).least,
                self.items@.to_multiset() == before.to_multiset().remove(x),
                at <= n,
                n > 0 ==> at < n,
                !done ==> ordered_but_below(self.least, self.items@, at as int),
                !done ==> skips(self.least, self.items@, at as int),
                done ==> ordered_but(self.least, self.items@, 0),
            decreases (if done { 0int } else { 1 + n - at }),
        {
            if at >= n / 2 {
                assert forall|i: int| #![trigger self.items@[i]] 0 < i < n implies may_top(
                    self.least,
                    self.items@[parent(i)],
                    self.items@[i],
                ) by {
                    assert(parent(i) != at);
                }
                done = true;
            } else {
                let left: usize = 2 * at + 1;
                let right: usize = left + 1;
                let child: usize = if right < n && !self.may_stand_above(
                    self.items[left],
                    self.items[right],
                ) {
                    right
                } else {
                    left
                };
                let ghost was = self.items@;
                if self.may_stand_above(self.items[at], self.items[child]) {
                    assert forall|i: int| #![trigger self.items@[i]] 0 < i < n implies may_top(
                        self.least,
                        self.items@[parent(i)],
                        self.items@[i],
                    ) by {
                        if parent(i) == at {
                            assert(i == left || i == right);
                        }
                    }
                    done = true;
                } else {
                    self.swap(at, child);
                    let ghost now = self.items@;
                    assert forall|i: int| #![trigger now[i]]
                        0 < i < now.len() && parent(i) != child implies may_top(
                        self.least,
                        now[parent(i)],
                        now[i],
                    ) by {
                        if parent(i) == at {
                            assert(i == left || i == right);
                        } else if i == at {
                            assert(may_top(self.least, was[parent(at as int)], was[child as int]));
                        } else {
                            assert(may_top(self.least, was[parent(i)], was[i]));
                        }
                    }
                    assert forall|i: int| #![trigger now[i]]
                        0 < i < now.len() && parent(i) == child implies may_top(
                        self.least,
                        now[parent(child as int)],
                        now[i],
                    ) by {
                        assert(may_top(self.least, was[parent(i)], was[i]));
                    }
                    at = child;
                }
            }
        }
        x
    }

    /// Take all values away.
    pub fn clear(&mut self)
        ensures
            final(self).wf(),
            final(self).is_least() == old(self).is_least(),
            final(self).values() == Seq::<i64>::empty(),
    {
        self.items.clear();
    }
}

} // verus!
