//! A vector clock: a mapping from actors to the highest event counter
//! witnessed for each, kept as a canonical sorted sequence of dots.
//!
//! The clock supports operation-based convergence (`apply`), state-based
//! convergence (`merge`, a join), the meet (`glb`), causal pruning
//! (`forget`) and concurrency detection (`partial_cmp`, `concurrent`).

use vstd::prelude::*;

use core::cmp::Ordering;
use crate::dot::Dot;

verus! {

/// The actors of the dots are strictly increasing: each actor occurs at
/// most once and iteration order is ascending actor order.
pub open spec fn sorted(s: Seq<Dot>) -> bool {
    forall|i: int, j: int| 0 <= i < j < s.len() ==> s[i].actor < s[j].actor
}

/// Counters of value 0 are never stored: absence of an actor already
/// means "no events witnessed".
pub open spec fn positive(s: Seq<Dot>) -> bool {
    forall|i: int| 0 <= i < s.len() ==> s[i].counter > 0
}

/// Whether some dot of `s` belongs to `a`.
pub open spec fn seq_has(s: Seq<Dot>, a: u64) -> bool {
    exists|i: int| 0 <= i < s.len() && s[i].actor == a
}

/// The counter stored for `a` in `s`: the counter of the first dot of
/// `a`, or 0 when `a` is absent.
pub open spec fn seq_get(s: Seq<Dot>, a: u64) -> u64
    decreases s.len(),
{
    if s.len() == 0 {
        0
    } else if s[0].actor == a {
        s[0].counter
    } else {
        seq_get(s.drop_first(), a)
    }
}

/// The larger of two counters.
pub open spec fn max_u64(a: u64, b: u64) -> u64 {
    if a >= b { a } else { b }
}

/// The smaller of two counters.
pub open spec fn min_u64(a: u64, b: u64) -> u64 {
    if a <= b { a } else { b }
}

/// A vector clock over `u64` actor identities.
///
/// Each actor maps to the highest counter witnessed for it; actors not
/// present have an implied counter of 0. The representation is a
/// canonical sorted sequence, so two clocks with the same counters are
/// the same value.
#[derive(Debug, Clone, PartialEq, Eq, Hash)]
pub struct VClock {
    entries: Vec<Dot>,
}

impl View for VClock {
    type V = Seq<Dot>;

    closed spec fn view(&self) -> Seq<Dot> {
        self.entries@
    }
}

/// `x` causally dominates (or equals) `y`: every counter witnessed by
/// `y` has also been witnessed by `x`.
pub open spec fn dominates(x: VClock, y: VClock) -> bool {
    forall|a: u64| #[trigger] y.count(a) <= x.count(a)
}

/// The ordering `partial_cmp` returns: `Equal` when the clocks hold the
/// same counters, `Greater`/`Less` when one side dominates strictly,
/// `None` when the clocks are concurrent.
pub open spec fn spec_partial_cmp(x: VClock, y: VClock) -> Option<Ordering> {
    if dominates(x, y) && dominates(y, x) {
        Some(Ordering::Equal)
    } else if dominates(x, y) {
        Some(Ordering::Greater)
    } else if dominates(y, x) {
        Some(Ordering::Less)
    } else {
        None
    }
}

impl VClock {
    /// The representation invariant: dots sorted strictly by actor, no
    /// zero counters stored.
    pub open spec fn wf(self) -> bool {
        sorted(self@) && positive(self@)
    }

    /// The counter the clock holds for `a` (0 when absent).
    pub open spec fn count(self, a: u64) -> u64 {
        seq_get(self@, a)
    }
}

proof fn lemma_get_absent(s: Seq<Dot>, a: u64)
    requires
        !seq_has(s, a),
    ensures
        seq_get(s, a) == 0,
    decreases s.len(),
{
    if s.len() > 0 {
        assert(s[0].actor != a);
        assert(forall|i: int| 0 <= i < s.drop_first().len() ==> s.drop_first()[i] == s[i + 1]);
        assert(!seq_has(s.drop_first(), a));
        lemma_get_absent(s.drop_first(), a);
    }
}

proof fn lemma_get_found(s: Seq<Dot>, i: int)
    requires
        0 <= i < s.len(),
        forall|j: int| 0 <= j < i ==> s[j].actor != s[i].actor,
    ensures
        seq_get(s, s[i].actor) == s[i].counter,
    decreases i,
{
    if i > 0 {
        let t = s.drop_first();
        assert(forall|k: int| 0 <= k < t.len() ==> t[k] == s[k + 1]);
        assert(t[i - 1] == s[i]);
        assert(forall|j: int| 0 <= j < i - 1 ==> (#[trigger] t[j]).actor != t[i - 1].actor);
        lemma_get_found(t, i - 1);
    }
}

/// For a sorted sequence the stored counter is the counter of any dot
/// of that actor, and 0 when the actor is absent.
proof fn lemma_get_sorted(s: Seq<Dot>, a: u64)
    requires
        sorted(s),
    ensures
        forall|i: int| 0 <= i < s.len() && (#[trigger] s[i]).actor == a ==> seq_get(s, a) == s[i].counter,
        !seq_has(s, a) ==> seq_get(s, a) == 0,
{
    assert forall|i: int| 0 <= i < s.len() && (#[trigger] s[i]).actor == a implies seq_get(s, a)
        == s[i].counter by {
        assert(forall|j: int| 0 <= j < i ==> s[j].actor != s[i].actor);
        lemma_get_found(s, i);
    }
    if !seq_has(s, a) {
        lemma_get_absent(s, a);
    }
}

proof fn lemma_get_push(s: Seq<Dot>, d: Dot, a: u64)
    ensures
        a != d.actor ==> seq_get(s.push(d), a) == seq_get(s, a),
        a == d.actor && !seq_has(s, a) ==> seq_get(s.push(d), a) == d.counter,
        a == d.actor && seq_has(s, a) ==> seq_get(s.push(d), a) == seq_get(s, a),
    decreases s.len(),
{
    if s.len() == 0 {
        assert(s.push(d)[0] == d);
        if a != d.actor {
            assert(seq_get(s.push(d), a) == seq_get(s.push(d).drop_first(), a));
            assert(s.push(d).drop_first().len() == 0);
        }
    } else {
        assert(s.push(d).drop_first() =~= s.drop_first().push(d));
        lemma_get_push(s.drop_first(), d, a);
        assert(forall|i: int| 0 <= i < s.drop_first().len() ==> s.drop_first()[i] == s[i + 1]);
        if s[0].actor == a {
            assert(seq_has(s, a));
            assert(s.push(d)[0] == s[0]);
        } else {
            // membership in `s` and in its tail agree for `a`
            if seq_has(s, a) {
                let i = choose|i: int| 0 <= i < s.len() && s[i].actor == a;
                assert(s.drop_first()[i - 1] == s[i]);
                assert(seq_has(s.drop_first(), a));
            }
            if seq_has(s.drop_first(), a) {
                let i = choose|i: int| 0 <= i < s.drop_first().len() && s.drop_first()[i].actor == a;
                assert(s[i + 1].actor == a);
                assert(seq_has(s, a));
            }
        }
    }
}

/// Canonical form: two well-formed clocks holding the same counters are
/// the same sequence of dots.
proof fn lemma_canonical(s: Seq<Dot>, t: Seq<Dot>)
    requires
        sorted(s),
        positive(s),
        sorted(t),
        positive(t),
        forall|a: u64| #[trigger] seq_get(s, a) == seq_get(t, a),
    ensures
        s == t,
    decreases s.len() + t.len(),
{
    if s.len() == 0 && t.len() == 0 {
        assert(s =~= t);
    } else if s.len() == 0 {
        lemma_get_found(t, 0);
        assert(!seq_has(s, t[0].actor));
        lemma_get_absent(s, t[0].actor);
        assert(false);
    } else if t.len() == 0 {
        lemma_get_found(s, 0);
        assert(!seq_has(t, s[0].actor));
        lemma_get_absent(t, s[0].actor);
        assert(false);
    } else {
        let x = s[0].actor;
        let y = t[0].actor;
        lemma_get_found(s, 0);
        lemma_get_found(t, 0);
        if x < y {
            assert(forall|j: int| 0 <= j < t.len() ==> t[j].actor != x);
            lemma_get_absent(t, x);
            assert(false);
        }
        if y < x {
            assert(forall|j: int| 0 <= j < s.len() ==> s[j].actor != y);
            lemma_get_absent(s, y);
            assert(false);
        }
        let s1 = s.drop_first();
        let t1 = t.drop_first();
        assert(forall|i: int| 0 <= i < s1.len() ==> s1[i] == s[i + 1]);
        assert(forall|i: int| 0 <= i < t1.len() ==> t1[i] == t[i + 1]);
        assert forall|a: u64| #[trigger] seq_get(s1, a) == seq_get(t1, a) by {
            if a == x {
                assert(forall|j: int| 0 <= j < s1.len() ==> s1[j].actor != a);
                assert(forall|j: int| 0 <= j < t1.len() ==> t1[j].actor != a);
                lemma_get_absent(s1, a);
                lemma_get_absent(t1, a);
            } else {
                assert(seq_get(s, a) == seq_get(s1, a));
                assert(seq_get(t, a) == seq_get(t1, a));
            }
        }
        lemma_canonical(s1, t1);
        assert(s[0] == t[0]);
        assert forall|i: int| 0 <= i < s.len() implies s[i] == t[i] by {
            if i > 0 {
                assert(s1[i - 1] == s[i]);
                assert(t1[i - 1] == t[i]);
            }
        }
        assert(s =~= t);
    }
}

impl VClock {
    /// A fresh clock: no events witnessed for any actor.
    pub fn new() -> (r: Self)
        ensures
            r.wf(),
            r@.len() == 0,
            forall|a: u64| #[trigger] r.count(a) == 0,
    {
        VClock { entries: Vec::new() }
    }

    /// The counter witnessed for `actor`; actors not present have an
    /// implied count of 0.
    pub fn get(&self, actor: u64) -> (r: u64)
        requires
            self.wf(),
        ensures
            r == self.count(actor),
    {
        let n = self.entries.len();
        let mut i: usize = 0;
        while i < n
            invariant
                i <= n,
                n == self@.len(),
                self.wf(),
                forall|j: int| 0 <= j < i ==> (#[trigger] self@[j]).actor != actor,
            decreases n - i,
        {
            if self.entries[i].actor == actor {
                proof {
                    lemma_get_found(self@, i as int);
                }
                return self.entries[i].counter;
            }
            i += 1;
        }
        proof {
            assert(!seq_has(self@, actor));
            lemma_get_absent(self@, actor);
        }
        0
    }

    /// A snapshot dot for `actor`: its current counter, not a new event.
    pub fn dot(&self, actor: u64) -> (d: Dot)
        requires
            self.wf(),
        ensures
            d.actor == actor,
            d.counter == self.count(actor),
    {
        let counter = self.get(actor);
        Dot::new(actor, counter)
    }

    /// The next event for `actor`. Pure: the clock itself is not
    /// changed; the caller must `apply` the returned dot.
    pub fn inc(&self, actor: u64) -> (d: Dot)
        requires
            self.wf(),
            self.count(actor) < u64::MAX,
        ensures
            d.actor == actor,
            d.counter == self.count(actor) + 1,
    {
        self.dot(actor).inc()
    }

    /// Record `dot` if it is newer than what the clock already
    /// witnessed for its actor; otherwise a no-op. Idempotent and
    /// monotone: a counter never decreases.
    fn apply_dot(&mut self, dot: Dot)
        requires
            old(self).wf(),
        ensures
            final(self).wf(),
            forall|a: u64| #[trigger] final(self).count(a) == if a == dot.actor {
                max_u64(old(self).count(a), dot.counter)
            } else {
                old(self).count(a)
            },
    {
        let ghost s0 = self@;
        let cur = self.get(dot.actor);
        if cur < dot.counter {
            let n = self.entries.len();
            let mut i: usize = 0;
            while i < n && self.entries[i].actor < dot.actor
                invariant
                    i <= n,
                    n == self@.len(),
                    self.wf(),
                    self@ == s0,
                    forall|j: int| 0 <= j < i ==> (#[trigger] self@[j]).actor < dot.actor,
                decreases n - i,
            {
                i += 1;
            }
            if i < n && self.entries[i].actor == dot.actor {
                self.entries[i] = dot;
                proof {
                    let s1 = self@;
                    assert(s1 =~= s0.update(i as int, dot));
                    assert(sorted(s1));
                    lemma_get_found(s0, i as int);
                    assert(cur == s0[i as int].counter);
                    assert forall|a: u64| #[trigger] seq_get(s1, a) == if a == dot.actor {
                        max_u64(seq_get(s0, a), dot.counter)
                    } else {
                        seq_get(s0, a)
                    } by {
                        lemma_get_sorted(s0, a);
                        lemma_get_sorted(s1, a);
                        if a == dot.actor {
                            assert(s1[i as int].actor == a);
                        } else {
                            if seq_has(s0, a) {
                                let k = choose|k: int| 0 <= k < s0.len() && s0[k].actor == a;
                                assert(s1[k].actor == a && s1[k].counter == s0[k].counter);
                            } else {
                                assert(forall|j: int| 0 <= j < s1.len()
                                    ==> (#[trigger] s1[j]).actor == s0[j].actor);
                                assert(!seq_has(s1, a));
                            }
                        }
                    }
                }
            } else {
                proof {
                    s0.insert_ensures(i as int, dot);
                    assert(forall|m: int| i <= m < s0.len()
                        ==> (#[trigger] s0[m]).actor > dot.actor) by {
                        if i < s0.len() {
                            assert(s0[i as int].actor >= dot.actor);
                            assert(s0[i as int].actor != dot.actor || true);
                        }
                    }
                }
                self.entries.insert(i, dot);
                proof {
                    let s1 = self@;
                    assert(s1 == s0.insert(i as int, dot));
                    s0.insert_ensures(i as int, dot);
                    // every entry at or after the insertion point has a larger actor
                    assert(forall|m: int| i <= m < s0.len()
                        ==> (#[trigger] s0[m]).actor > dot.actor);
                    assert forall|p: int, q: int| 0 <= p < q < s1.len() implies s1[p].actor
                        < s1[q].actor by {
                        if p < i && q > i {
                            assert(s1[p] == s0[p] && s1[q] == s0[q - 1]);
                        }
                    }
                    assert(sorted(s1));
                    assert(positive(s1));
                    assert forall|a: u64| #[trigger] seq_get(s1, a) == if a == dot.actor {
                        max_u64(seq_get(s0, a), dot.counter)
                    } else {
                        seq_get(s0, a)
                    } by {
                        lemma_get_sorted(s0, a);
                        lemma_get_sorted(s1, a);
                        if a == dot.actor {
                            assert(s1[i as int].actor == a);
                            assert(!seq_has(s0, a));
                        } else {
                            if seq_has(s0, a) {
                                let k = choose|k: int| 0 <= k < s0.len() && s0[k].actor == a;
                                if k < i {
                                    assert(s1[k].actor == a && s1[k].counter == s0[k].counter);
                                } else {
                                    assert(s1[k + 1] == s0[k]);
                                }
                            } else {
                                assert forall|j: int| 0 <= j < s1.len() implies (#[trigger] s1[j]).actor
                                    != a by {
                                    if j < i {
                                        assert(s1[j] == s0[j]);
                                    } else if j == i {
                                    } else {
                                        assert(s1[j] == s0[j - 1]);
                                    }
                                }
                                assert(!seq_has(s1, a));
                            }
                        }
                    }
                }
            }
        }
    }

    /// Operation-based convergence: witness the event `dot`.
    pub fn apply(&mut self, dot: Dot)
        requires
            old(self).wf(),
        ensures
            final(self).wf(),
            forall|a: u64| #[trigger] final(self).count(a) == if a == dot.actor {
                max_u64(old(self).count(a), dot.counter)
            } else {
                old(self).count(a)
            },
    {
        self.apply_dot(dot);
    }

    /// State-based convergence: the join. Per actor the clock keeps the
    /// larger of the two counters.
    pub fn merge(&mut self, other: VClock)
        requires
            old(self).wf(),
            other.wf(),
        ensures
            final(self).wf(),
            forall|a: u64| #[trigger] final(self).count(a)
                == max_u64(old(self).count(a), other.count(a)),
    {
        let ghost s0 = self@;
        let n = other.entries.len();
        let mut i: usize = 0;
        while i < n
            invariant
                i <= n,
                n == other@.len(),
                other.wf(),
                self.wf(),
                forall|a: u64| #[trigger] self.count(a)
                    == max_u64(seq_get(s0, a), seq_get(other@.take(i as int), a)),
            decreases n - i,
        {
            let d = other.entries[i];
            proof {
                let p = other@.take(i as int);
                assert(other@.take(i as int + 1) =~= p.push(d));
                assert(forall|j: int| 0 <= j < p.len() ==> p[j] == other@[j]);
                assert(forall|j: int| 0 <= j < p.len() ==> (#[trigger] p[j]).actor != d.actor);
                assert(!seq_has(p, d.actor));
                lemma_get_absent(p, d.actor);
            }
            let ghost before = *self;
            self.apply_dot(d);
            proof {
                let p = other@.take(i as int);
                assert forall|a: u64| #[trigger] self.count(a)
                    == max_u64(seq_get(s0, a), seq_get(other@.take(i as int + 1), a)) by {
                    lemma_get_push(p, d, a);
                    assert(before.count(a) == max_u64(seq_get(s0, a), seq_get(p, a)));
                }
            }
            i += 1;
        }
        proof {
            assert(other@.take(n as int) =~= other@);
        }
    }

    /// The dots of `self` that survive pruning against `other`: those
    /// whose counter is strictly larger than what `other` witnessed.
    fn retained(&self, other: &Self) -> (kept: Vec<Dot>)
        requires
            self.wf(),
            other.wf(),
        ensures
            sorted(kept@),
            positive(kept@),
            forall|a: u64| #[trigger] seq_get(kept@, a) == if other.count(a) >= self.count(a) {
                0u64
            } else {
                self.count(a)
            },
    {
        let mut kept: Vec<Dot> = Vec::new();
        let n = self.entries.len();
        let mut i: usize = 0;
        while i < n
            invariant
                i <= n,
                n == self@.len(),
                self.wf(),
                other.wf(),
                sorted(kept@),
                positive(kept@),
                forall|k: int| 0 <= k < kept@.len()
                    ==> exists|j: int| 0 <= j < i && (#[trigger] kept@[k]).actor == self@[j].actor,
                forall|a: u64| #[trigger] seq_get(kept@, a) == if other.count(a)
                    >= seq_get(self@.take(i as int), a) {
                    0u64
                } else {
                    seq_get(self@.take(i as int), a)
                },
            decreases n - i,
        {
            let d = self.entries[i];
            let ghost p = self@.take(i as int);
            let ghost k0 = kept@;
            proof {
                assert(self@.take(i as int + 1) =~= p.push(d));
                assert(forall|j: int| 0 <= j < p.len() ==> p[j] == self@[j]);
                assert(forall|j: int| 0 <= j < p.len() ==> (#[trigger] p[j]).actor != d.actor);
                assert(!seq_has(p, d.actor));
                lemma_get_absent(p, d.actor);
                // all kept actors are strictly below the next actor
                assert forall|k: int| 0 <= k < k0.len() implies (#[trigger] k0[k]).actor
                    < d.actor by {
                    let j = choose|j: int| 0 <= j < i && k0[k].actor == self@[j].actor;
                    assert(self@[j].actor < self@[i as int].actor);
                }
            }
            let oc = other.get(d.actor);
            if oc < d.counter {
                kept.push(d);
                proof {
                    assert(kept@ =~= k0.push(d));
                    assert forall|x: int, y: int| 0 <= x < y < kept@.len() implies kept@[x].actor
                        < kept@[y].actor by {
                        if y == kept@.len() - 1 && x < y {
                            assert(kept@[x] == k0[x]);
                        }
                    }
                    assert(!seq_has(k0, d.actor)) by {
                        assert(forall|k: int| 0 <= k < k0.len()
                            ==> (#[trigger] k0[k]).actor != d.actor);
                    }
                    assert forall|k: int| 0 <= k < kept@.len() implies exists|j: int|
                        0 <= j < i + 1 && (#[trigger] kept@[k]).actor == self@[j].actor by {
                        if k < k0.len() {
                            let j = choose|j: int| 0 <= j < i && k0[k].actor == self@[j].actor;
                            assert(0 <= j < i + 1 && kept@[k].actor == self@[j].actor);
                        } else {
                            assert(kept@[k] == d);
                            assert(kept@[k].actor == self@[i as int].actor);
                        }
                    }
                    assert forall|a: u64| #[trigger] seq_get(kept@, a) == if other.count(a)
                        >= seq_get(self@.take(i as int + 1), a) {
                        0u64
                    } else {
                        seq_get(self@.take(i as int + 1), a)
                    } by {
                        lemma_get_push(k0, d, a);
                        lemma_get_push(p, d, a);
                    }
                }
            } else {
                proof {
                    assert(!seq_has(k0, d.actor)) by {
                        assert(forall|k: int| 0 <= k < k0.len()
                            ==> (#[trigger] k0[k]).actor != d.actor);
                    }
                    lemma_get_absent(k0, d.actor);
                    assert forall|a: u64| #[trigger] seq_get(kept@, a) == if other.count(a)
                        >= seq_get(self@.take(i as int + 1), a) {
                        0u64
                    } else {
                        seq_get(self@.take(i as int + 1), a)
                    } by {
                        lemma_get_push(p, d, a);
                    }
                }
            }
            i += 1;
        }
        proof {
            assert(self@.take(n as int) =~= self@);
        }
        kept
    }

    /// Causal pruning: drop every actor whose counter in `other` is
    /// greater than or equal to the counter stored here. Inclusive on
    /// purpose: entries exactly matched by `other` are dropped too.
    pub fn forget(&mut self, other: &Self)
        requires
            old(self).wf(),
            other.wf(),
        ensures
            final(self).wf(),
            forall|a: u64| #[trigger] final(self).count(a) == if other.count(a)
                >= old(self).count(a) {
                0u64
            } else {
                old(self).count(a)
            },
    {
        let kept = self.retained(other);
        self.entries = kept;
    }

    /// A copy of `self` with everything `base_clock` already dominates
    /// (or exactly matches) forgotten.
    pub fn clone_without(&self, base_clock: &Self) -> (r: Self)
        requires
            self.wf(),
            base_clock.wf(),
        ensures
            r.wf(),
            forall|a: u64| #[trigger] r.count(a) == if base_clock.count(a) >= self.count(a) {
                0u64
            } else {
                self.count(a)
            },
    {
        VClock { entries: self.retained(base_clock) }
    }

    /// The dots common to both clocks: actors whose counters are
    /// exactly equal on the two sides.
    pub fn intersection(left: &VClock, right: &Self) -> (r: Self)
        requires
            left.wf(),
            right.wf(),
        ensures
            r.wf(),
            forall|a: u64| #[trigger] r.count(a) == if left.count(a) == right.count(a) {
                left.count(a)
            } else {
                0u64
            },
    {
        let mut kept: Vec<Dot> = Vec::new();
        let n = left.entries.len();
        let mut i: usize = 0;
        while i < n
            invariant
                i <= n,
                n == left@.len(),
                left.wf(),
                right.wf(),
                sorted(kept@),
                positive(kept@),
                forall|k: int| 0 <= k < kept@.len()
                    ==> exists|j: int| 0 <= j < i && (#[trigger] kept@[k]).actor == left@[j].actor,
                forall|a: u64| #[trigger] seq_get(kept@, a) == if seq_get(left@.take(i as int), a)
                    == right.count(a) {
                    seq_get(left@.take(i as int), a)
                } else {
                    0u64
                },
            decreases n - i,
        {
            let d = left.entries[i];
            let ghost p = left@.take(i as int);
            let ghost k0 = kept@;
            proof {
                assert(left@.take(i as int + 1) =~= p.push(d));
                assert(forall|j: int| 0 <= j < p.len() ==> p[j] == left@[j]);
                assert(forall|j: int| 0 <= j < p.len() ==> (#[trigger] p[j]).actor != d.actor);
                assert(!seq_has(p, d.actor));
                lemma_get_absent(p, d.actor);
                assert forall|k: int| 0 <= k < k0.len() implies (#[trigger] k0[k]).actor
                    < d.actor by {
                    let j = choose|j: int| 0 <= j < i && k0[k].actor == left@[j].actor;
                    assert(left@[j].actor < left@[i as int].actor);
                }
                assert(!seq_has(k0, d.actor)) by {
                    assert(forall|k: int| 0 <= k < k0.len() ==> (#[trigger] k0[k]).actor != d.actor);
                }
                lemma_get_absent(k0, d.actor);
            }
            let rc = right.get(d.actor);
            if rc == d.counter {
                kept.push(d);
                proof {
                    assert(kept@ =~= k0.push(d));
                    assert forall|x: int, y: int| 0 <= x < y < kept@.len() implies kept@[x].actor
                        < kept@[y].actor by {
                        if y == kept@.len() - 1 && x < y {
                            assert(kept@[x] == k0[x]);
                        }
                    }
                    assert forall|k: int| 0 <= k < kept@.len() implies exists|j: int|
                        0 <= j < i + 1 && (#[trigger] kept@[k]).actor == left@[j].actor by {
                        if k < k0.len() {
                            let j = choose|j: int| 0 <= j < i && k0[k].actor == left@[j].actor;
                            assert(0 <= j < i + 1 && kept@[k].actor == left@[j].actor);
                        } else {
                            assert(kept@[k] == d);
                            assert(kept@[k].actor == left@[i as int].actor);
                        }
                    }
                    assert forall|a: u64| #[trigger] seq_get(kept@, a) == if seq_get(
                        left@.take(i as int + 1),
                        a,
                    ) == right.count(a) {
                        seq_get(left@.take(i as int + 1), a)
                    } else {
                        0u64
                    } by {
                        lemma_get_push(k0, d, a);
                        lemma_get_push(p, d, a);
                    }
                }
            } else {
                proof {
                    assert forall|a: u64| #[trigger] seq_get(kept@, a) == if seq_get(
                        left@.take(i as int + 1),
                        a,
                    ) == right.count(a) {
                        seq_get(left@.take(i as int + 1), a)
                    } else {
                        0u64
                    } by {
                        lemma_get_push(p, d, a);
                    }
                }
            }
            i += 1;
        }
        proof {
            assert(left@.take(n as int) =~= left@);
        }
        VClock { entries: kept }
    }

    /// The meet: per actor the clock keeps the smaller of the two
    /// counters, dropping actors whose minimum is 0.
    pub fn glb(&mut self, other: &Self)
        requires
            old(self).wf(),
            other.wf(),
        ensures
            final(self).wf(),
            forall|a: u64| #[trigger] final(self).count(a)
                == min_u64(old(self).count(a), other.count(a)),
    {
        let ghost s0 = self@;
        let mut kept: Vec<Dot> = Vec::new();
        let n = self.entries.len();
        let mut i: usize = 0;
        while i < n
            invariant
                i <= n,
                n == self@.len(),
                self@ == s0,
                self.wf(),
                other.wf(),
                sorted(kept@),
                positive(kept@),
                forall|k: int| 0 <= k < kept@.len()
                    ==> exists|j: int| 0 <= j < i && (#[trigger] kept@[k]).actor == s0[j].actor,
                forall|a: u64| #[trigger] seq_get(kept@, a)
                    == min_u64(seq_get(s0.take(i as int), a), other.count(a)),
            decreases n - i,
        {
            let d = self.entries[i];
            let ghost p = s0.take(i as int);
            let ghost k0 = kept@;
            proof {
                assert(s0.take(i as int + 1) =~= p.push(d));
                assert(forall|j: int| 0 <= j < p.len() ==> p[j] == s0[j]);
                assert(forall|j: int| 0 <= j < p.len() ==> (#[trigger] p[j]).actor != d.actor);
                assert(!seq_has(p, d.actor));
                lemma_get_absent(p, d.actor);
                assert forall|k: int| 0 <= k < k0.len() implies (#[trigger] k0[k]).actor
                    < d.actor by {
                    let j = choose|j: int| 0 <= j < i && k0[k].actor == s0[j].actor;
                    assert(s0[j].actor < s0[i as int].actor);
                }
                assert(!seq_has(k0, d.actor)) by {
                    assert(forall|k: int| 0 <= k < k0.len() ==> (#[trigger] k0[k]).actor != d.actor);
                }
                lemma_get_absent(k0, d.actor);
            }
            let oc = other.get(d.actor);
            let m = if d.counter <= oc {
                d.counter
            } else {
                oc
            };
            if m > 0 {
                let e = Dot::new(d.actor, m);
                kept.push(e);
                proof {
                    assert(kept@ =~= k0.push(e));
                    assert forall|x: int, y: int| 0 <= x < y < kept@.len() implies kept@[x].actor
                        < kept@[y].actor by {
                        if y == kept@.len() - 1 && x < y {
                            assert(kept@[x] == k0[x]);
                        }
                    }
                    assert forall|k: int| 0 <= k < kept@.len() implies exists|j: int|
                        0 <= j < i + 1 && (#[trigger] kept@[k]).actor == s0[j].actor by {
                        if k < k0.len() {
                            let j = choose|j: int| 0 <= j < i && k0[k].actor == s0[j].actor;
                            assert(0 <= j < i + 1 && kept@[k].actor == s0[j].actor);
                        } else {
                            assert(kept@[k] == e);
                            assert(kept@[k].actor == s0[i as int].actor);
                        }
                    }
                    assert forall|a: u64| #[trigger] seq_get(kept@, a)
                        == min_u64(seq_get(s0.take(i as int + 1), a), other.count(a)) by {
                        lemma_get_push(k0, e, a);
                        lemma_get_push(p, d, a);
                    }
                }
            } else {
                proof {
                    assert forall|a: u64| #[trigger] seq_get(kept@, a)
                        == min_u64(seq_get(s0.take(i as int + 1), a), other.count(a)) by {
                        lemma_get_push(p, d, a);
                    }
                }
            }
            i += 1;
        }
        proof {
            assert(s0.take(n as int) =~= s0);
        }
        self.entries = kept;
    }

    /// Whether `self` dominates `other`: every counter of `other` is
    /// already witnessed by `self`.
    fn dominates_clock(&self, other: &Self) -> (r: bool)
        requires
            self.wf(),
            other.wf(),
        ensures
            r == dominates(*self, *other),
    {
        let n = other.entries.len();
        let mut i: usize = 0;
        while i < n
            invariant
                i <= n,
                n == other@.len(),
                self.wf(),
                other.wf(),
                forall|j: int| 0 <= j < i ==> (#[trigger] other@[j]).counter
                    <= seq_get(self@, other@[j].actor),
            decreases n - i,
        {
            let d = other.entries[i];
            let c = self.get(d.actor);
            if c < d.counter {
                proof {
                    lemma_get_sorted(other@, d.actor);
                    assert(other.count(d.actor) == d.counter);
                    assert(!(other.count(d.actor) <= self.count(d.actor)));
                }
                return false;
            }
            i += 1;
        }
        proof {
            assert forall|a: u64| #[trigger] other.count(a) <= self.count(a) by {
                lemma_get_sorted(other@, a);
                if seq_has(other@, a) {
                    let j = choose|j: int| 0 <= j < other@.len() && other@[j].actor == a;
                    assert(other@[j].counter <= seq_get(self@, other@[j].actor));
                }
            }
        }
        true
    }

    /// Compare the causal histories. `Equal` when the clocks hold the
    /// same counters; `Greater`/`Less` when one strictly dominates the
    /// other; `None` when each witnessed something the other has not.
    pub fn partial_cmp(&self, other: &Self) -> (r: Option<Ordering>)
        requires
            self.wf(),
            other.wf(),
        ensures
            r == spec_partial_cmp(*self, *other),
    {
        let sd = self.dominates_clock(other);
        let od = other.dominates_clock(self);
        if sd && od {
            Some(Ordering::Equal)
        } else if sd {
            Some(Ordering::Greater)
        } else if od {
            Some(Ordering::Less)
        } else {
            None
        }
    }

    /// True when the two clocks have diverged: neither dominates the
    /// other, so they were mutated in isolation.
    pub fn concurrent(&self, other: &VClock) -> (r: bool)
        requires
            self.wf(),
            other.wf(),
        ensures
            r == (!dominates(*self, *other) && !dominates(*other, *self)),
            r == spec_partial_cmp(*self, *other).is_none(),
    {
        self.partial_cmp(other).is_none()
    }

    /// True when the clock has witnessed no events at all.
    pub fn is_empty(&self) -> (r: bool)
        requires
            self.wf(),
        ensures
            r == (self@.len() == 0),
            r == forall|a: u64| #[trigger] self.count(a) == 0,
    {
        proof {
            if self@.len() > 0 {
                lemma_get_found(self@, 0);
                assert(self.count(self@[0].actor) > 0);
            } else {
                assert forall|a: u64| #[trigger] self.count(a) == 0 by {
                    assert(!seq_has(self@, a));
                    lemma_get_absent(self@, a);
                }
            }
        }
        self.entries.len() == 0
    }

    /// The dots of the clock in ascending actor order: the canonical
    /// iteration, serialization and display order.
    pub fn iter(&self) -> (r: Vec<Dot>)
        requires
            self.wf(),
        ensures
            r@ == self@,
    {
        let mut r: Vec<Dot> = Vec::new();
        let n = self.entries.len();
        let mut i: usize = 0;
        while i < n
            invariant
                i <= n,
                n == self@.len(),
                r@ == self@.take(i as int),
            decreases n - i,
        {
            let d = self.entries[i];
            r.push(d);
            proof {
                assert(r@ =~= self@.take(i as int + 1));
            }
            i += 1;
        }
        proof {
            assert(self@.take(n as int) =~= self@);
        }
        r
    }

    /// Consume the clock and iterate its dots in ascending actor order.
    pub fn into_iter(self) -> (it: IntoIter)
        requires
            self.wf(),
        ensures
            it.wf(),
            it.remaining() == self@,
    {
        proof {
            assert(self@.skip(0) =~= self@);
        }
        IntoIter { entries: self.entries, pos: 0 }
    }

    /// Reconstruct a clock by folding `apply` over a sequence of dots:
    /// per actor the largest counter in the sequence wins.
    pub fn from_dots(dots: Vec<Dot>) -> (r: VClock)
        ensures
            r.wf(),
            forall|a: u64| #[trigger] r.count(a) == dots_max(dots@, a),
    {
        let mut clock = VClock::new();
        let n = dots.len();
        let mut i: usize = 0;
        while i < n
            invariant
                i <= n,
                n == dots@.len(),
                clock.wf(),
                forall|a: u64| #[trigger] clock.count(a) == dots_max(dots@.take(i as int), a),
            decreases n - i,
        {
            let d = dots[i];
            let ghost before = clock;
            clock.apply(d);
            proof {
                assert(dots@.take(i as int + 1).drop_last() =~= dots@.take(i as int));
                assert(dots@.take(i as int + 1).last() == d);
                assert forall|a: u64| #[trigger] clock.count(a)
                    == dots_max(dots@.take(i as int + 1), a) by {
                    assert(before.count(a) == dots_max(dots@.take(i as int), a));
                }
            }
            i += 1;
        }
        proof {
            assert(dots@.take(n as int) =~= dots@);
        }
        clock
    }

    /// Assemble a clock from an already canonical sequence of dots.
    pub(crate) fn from_entries(entries: Vec<Dot>) -> (r: VClock)
        requires
            sorted(entries@),
            positive(entries@),
        ensures
            r.wf(),
            r@ == entries@,
    {
        VClock { entries }
    }

    /// The clock that has witnessed exactly one dot.
    pub fn from_dot(dot: Dot) -> (r: VClock)
        ensures
            r.wf(),
            forall|a: u64| #[trigger] r.count(a) == if a == dot.actor {
                dot.counter
            } else {
                0u64
            },
    {
        let mut clock = VClock::new();
        clock.apply(dot);
        clock
    }
}

/// The largest counter a sequence of dots holds for `a` (0 when none).
pub open spec fn dots_max(s: Seq<Dot>, a: u64) -> u64
    decreases s.len(),
{
    if s.len() == 0 {
        0
    } else {
        let m = dots_max(s.drop_last(), a);
        if s.last().actor == a && s.last().counter > m {
            s.last().counter
        } else {
            m
        }
    }
}

impl Default for VClock {
    /// The default clock is the fresh, empty clock.
    fn default() -> (r: Self)
        ensures
            r.wf(),
            r@.len() == 0,
    {
        VClock::new()
    }
}

/// Consuming iterator over the dots of a [`VClock`], in ascending actor
/// order.
pub struct IntoIter {
    entries: Vec<Dot>,
    pos: usize,
}

impl IntoIter {
    /// The cursor never runs past the end.
    pub closed spec fn wf(self) -> bool {
        self.pos <= self.entries@.len()
    }

    /// The dots not yet handed out.
    pub closed spec fn remaining(self) -> Seq<Dot> {
        self.entries@.skip(self.pos as int)
    }

    /// The next dot, or `None` once all dots were handed out.
    pub fn next(&mut self) -> (r: Option<Dot>)
        requires
            old(self).wf(),
        ensures
            final(self).wf(),
            old(self).remaining().len() > 0 ==> r == Some(old(self).remaining()[0])
                && final(self).remaining() == old(self).remaining().drop_first(),
            old(self).remaining().len() == 0 ==> r == None::<Dot>
                && final(self).remaining() == old(self).remaining(),
    {
        if self.pos < self.entries.len() {
            let d = self.entries[self.pos];
            self.pos = self.pos + 1;
            proof {
                assert(old(self).remaining()[0] == self.entries@[old(self).pos as int]);
                assert(final(self).remaining() =~= old(self).remaining().drop_first());
            }
            Some(d)
        } else {
            proof {
                assert(final(self).remaining() =~= old(self).remaining());
            }
            None
        }
    }
}

/// Join-semilattice law: merging is idempotent. Any well-formed clock
/// whose counters are the pointwise join of a clock with itself is that
/// clock.
pub proof fn lemma_merge_idempotent(a: VClock, m: VClock)
    requires
        a.wf(),
        m.wf(),
        forall|k: u64| #[trigger] m.count(k) == max_u64(a.count(k), a.count(k)),
    ensures
        m@ == a@,
{
    assert forall|k: u64| #[trigger] seq_get(m@, k) == seq_get(a@, k) by {
        assert(m.count(k) == max_u64(a.count(k), a.count(k)));
    }
    lemma_canonical(m@, a@);
}

/// Join-semilattice law: merging is commutative. Merging `a` into `b`
/// and `b` into `a` yield the same clock.
pub proof fn lemma_merge_commutative(a: VClock, b: VClock, ab: VClock, ba: VClock)
    requires
        a.wf(),
        b.wf(),
        ab.wf(),
        ba.wf(),
        forall|k: u64| #[trigger] ab.count(k) == max_u64(a.count(k), b.count(k)),
        forall|k: u64| #[trigger] ba.count(k) == max_u64(b.count(k), a.count(k)),
    ensures
        ab@ == ba@,
{
    assert forall|k: u64| #[trigger] seq_get(ab@, k) == seq_get(ba@, k) by {
        assert(ab.count(k) == max_u64(a.count(k), b.count(k)));
        assert(ba.count(k) == max_u64(b.count(k), a.count(k)));
    }
    lemma_canonical(ab@, ba@);
}

/// Join-semilattice law: merging is associative.
pub proof fn lemma_merge_associative(
    a: VClock,
    b: VClock,
    c: VClock,
    bc: VClock,
    a_bc: VClock,
    ab: VClock,
    ab_c: VClock,
)
    requires
        a.wf(),
        b.wf(),
        c.wf(),
        bc.wf(),
        a_bc.wf(),
        ab.wf(),
        ab_c.wf(),
        forall|k: u64| #[trigger] bc.count(k) == max_u64(b.count(k), c.count(k)),
        forall|k: u64| #[trigger] a_bc.count(k) == max_u64(a.count(k), bc.count(k)),
        forall|k: u64| #[trigger] ab.count(k) == max_u64(a.count(k), b.count(k)),
        forall|k: u64| #[trigger] ab_c.count(k) == max_u64(ab.count(k), c.count(k)),
    ensures
        a_bc@ == ab_c@,
{
    assert forall|k: u64| #[trigger] a_bc.count(k) == ab_c.count(k) by {
        assert(bc.count(k) == max_u64(b.count(k), c.count(k)));
        assert(ab.count(k) == max_u64(a.count(k), b.count(k)));
    }
    assert forall|k: u64| #[trigger] seq_get(a_bc@, k) == seq_get(ab_c@, k) by {
        assert(a_bc.count(k) == ab_c.count(k));
    }
    lemma_canonical(a_bc@, ab_c@);
}

/// Applying the same dot twice leaves the clock exactly as after the
/// first application.
pub proof fn lemma_apply_idempotent(v: VClock, once: VClock, twice: VClock, d: Dot)
    requires
        v.wf(),
        once.wf(),
        twice.wf(),
        forall|a: u64| #[trigger] once.count(a) == if a == d.actor {
            max_u64(v.count(a), d.counter)
        } else {
            v.count(a)
        },
        forall|a: u64| #[trigger] twice.count(a) == if a == d.actor {
            max_u64(once.count(a), d.counter)
        } else {
            once.count(a)
        },
    ensures
        twice@ == once@,
{
    assert forall|a: u64| #[trigger] twice.count(a) == once.count(a) by {
        assert(once.count(a) == if a == d.actor {
            max_u64(v.count(a), d.counter)
        } else {
            v.count(a)
        });
    }
    assert forall|a: u64| #[trigger] seq_get(twice@, a) == seq_get(once@, a) by {
        assert(twice.count(a) == once.count(a));
    }
    lemma_canonical(twice@, once@);
}

/// Applying a dot is monotone: the dot's counter is reached and no
/// actor's counter ever decreases.
pub proof fn lemma_apply_monotonic(v: VClock, w: VClock, d: Dot)
    requires
        forall|a: u64| #[trigger] w.count(a) == if a == d.actor {
            max_u64(v.count(a), d.counter)
        } else {
            v.count(a)
        },
    ensures
        w.count(d.actor) >= d.counter,
        forall|a: u64| #[trigger] w.count(a) >= v.count(a),
{
    assert(w.count(d.actor) == max_u64(v.count(d.actor), d.counter));
}

/// `partial_cmp` is antisymmetric: one side sees `Greater` exactly when
/// the other sees `Less`.
pub proof fn lemma_partial_cmp_antisymmetric(a: VClock, b: VClock)
    ensures
        (spec_partial_cmp(a, b) == Some(Ordering::Greater)) <==> (spec_partial_cmp(b, a)
            == Some(Ordering::Less)),
{
}

/// Equal clocks compare as `Equal`.
pub proof fn lemma_partial_cmp_equal(a: VClock, b: VClock)
    requires
        a == b,
    ensures
        spec_partial_cmp(a, b) == Some(Ordering::Equal),
{
    assert(dominates(a, b));
}

/// `partial_cmp` is transitive on defined orderings: two comparisons
/// with the same outcome chain to that outcome.
pub proof fn lemma_partial_cmp_transitive(a: VClock, b: VClock, c: VClock, o: Ordering)
    requires
        spec_partial_cmp(a, b) == Some(o),
        spec_partial_cmp(b, c) == Some(o),
    ensures
        spec_partial_cmp(a, c) == Some(o),
{
    if dominates(a, b) && dominates(b, c) {
        assert forall|k: u64| #[trigger] c.count(k) <= a.count(k) by {
            assert(c.count(k) <= b.count(k));
            assert(b.count(k) <= a.count(k));
        }
    }
    if dominates(c, b) && dominates(b, a) {
        assert forall|k: u64| #[trigger] a.count(k) <= c.count(k) by {
            assert(a.count(k) <= b.count(k));
            assert(b.count(k) <= c.count(k));
        }
    }
    if o == Ordering::Greater && dominates(c, a) {
        // a >= c and c >= a pointwise would make b compare `Equal` to c
        assert forall|k: u64| #[trigger] b.count(k) <= c.count(k) by {
            assert(b.count(k) <= a.count(k));
            assert(a.count(k) <= c.count(k));
        }
        assert(false);
    }
    if o == Ordering::Less && dominates(a, c) {
        assert forall|k: u64| #[trigger] c.count(k) <= b.count(k) by {
            assert(c.count(k) <= a.count(k));
            assert(a.count(k) <= b.count(k));
        }
        assert(false);
    }
}

/// The meet is idempotent: the pointwise meet of a clock with itself is
/// that clock.
pub proof fn lemma_glb_idempotent(a: VClock, m: VClock)
    requires
        a.wf(),
        m.wf(),
        forall|k: u64| #[trigger] m.count(k) == min_u64(a.count(k), a.count(k)),
    ensures
        m@ == a@,
{
    assert forall|k: u64| #[trigger] seq_get(m@, k) == seq_get(a@, k) by {
        assert(m.count(k) == min_u64(a.count(k), a.count(k)));
    }
    lemma_canonical(m@, a@);
}

/// The meet never introduces an actor absent from both inputs.
pub proof fn lemma_glb_no_new_actors(a: VClock, b: VClock, m: VClock)
    requires
        forall|k: u64| #[trigger] m.count(k) == min_u64(a.count(k), b.count(k)),
    ensures
        forall|k: u64| #[trigger] m.count(k) > 0 ==> a.count(k) > 0 && b.count(k) > 0,
{
}

} // verus!
