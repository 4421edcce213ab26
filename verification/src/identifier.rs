//! Dense identifiers.
//!
//! An identifier is a non-empty path of (rational, payload) entries,
//! ordered lexicographically by the rational components, a strict
//! prefix coming first. Between any two identifiers, one strictly
//! below the other, a third can always be synthesized, so an
//! ordered-sequence replica can position a concurrent insert from its
//! two neighbors alone, arbitrarily many times, without renumbering.

use vstd::prelude::*;

use num_rational::BigRational;
use crate::rational::{
    rat_clone, rat_denom_positive, rat_eqv, rat_equal, rat_frac, rat_less, rat_lt, rat_wf,
    rational_between, rden, rnum,
};

verus! {

/// Lexicographic order over the rational components of two paths: the
/// first position whose values differ decides; with no such position
/// the strictly shorter path comes first.
pub open spec fn path_lt<T>(a: Seq<(BigRational, T)>, b: Seq<(BigRational, T)>) -> bool
    decreases a.len(),
{
    if a.len() == 0 {
        b.len() > 0
    } else if b.len() == 0 {
        false
    } else if rat_eqv(a[0].0, b[0].0) {
        path_lt(a.drop_first(), b.drop_first())
    } else {
        rat_lt(a[0].0, b[0].0)
    }
}

/// How many leading entries of the two paths carry equal rational
/// values: the shared ancestry copied by [`Identifier::between`].
pub open spec fn fork_depth<T>(a: Seq<(BigRational, T)>, b: Seq<(BigRational, T)>) -> int
    decreases a.len(),
{
    if a.len() == 0 || b.len() == 0 {
        0
    } else if rat_eqv(a[0].0, b[0].0) {
        1 + fork_depth(a.drop_first(), b.drop_first())
    } else {
        0
    }
}

/// A dense identifier: a non-empty path of (rational, payload) entries.
/// The payload of interest is the last entry's; earlier entries only
/// fix the position relative to siblings created earlier.
#[derive(Debug, Clone, PartialEq, Eq, PartialOrd, Ord, Hash)]
pub struct Identifier<T> {
    path: Vec<(BigRational, T)>,
}

impl<T> View for Identifier<T> {
    type V = Seq<(BigRational, T)>;

    closed spec fn view(&self) -> Seq<(BigRational, T)> {
        self.path@
    }
}

impl<T> Identifier<T> {
    /// A publicly constructed identifier is never empty and all its
    /// rationals carry positive denominators.
    pub open spec fn wf(self) -> bool {
        self@.len() >= 1 && forall|i: int| 0 <= i < self@.len() ==> rat_wf(
            (#[trigger] self@[i]).0,
        )
    }

    /// The single-entry identifier holding `elem` at `rational`.
    pub fn from_entry(rational: BigRational, elem: T) -> (r: Self)
        requires
            rat_wf(rational),
        ensures
            r.wf(),
            r@.len() == 1,
            r@[0].0 == rational,
            r@[0].1 == elem,
    {
        let mut path: Vec<(BigRational, T)> = Vec::new();
        path.push((rational, elem));
        Identifier { path }
    }

    /// The payload this identifier carries: the last entry's element.
    pub fn value(&self) -> (r: &T)
        requires
            self.wf(),
        ensures
            *r == self@.last().1,
    {
        let n = self.path.len();
        &self.path[n - 1].1
    }

    /// The payload, consuming the identifier.
    pub fn into_value(self) -> (r: T)
        requires
            self.wf(),
        ensures
            r == self@.last().1,
    {
        let mut path = self.path;
        match path.pop() {
            Some(entry) => entry.1,
            None => unreached(),
        }
    }

    /// Whether `self` is strictly before `other` in the dense order.
    pub fn lt(&self, other: &Self) -> (r: bool)
        requires
            self.wf(),
            other.wf(),
        ensures
            r == path_lt(self@, other@),
    {
        let na = self.path.len();
        let nb = other.path.len();
        let m = if na <= nb {
            na
        } else {
            nb
        };
        let mut i: usize = 0;
        while i < m
            invariant
                i <= m,
                m == if na <= nb {
                    na
                } else {
                    nb
                },
                na == self@.len(),
                nb == other@.len(),
                self.wf(),
                other.wf(),
                forall|j: int| 0 <= j < i ==> rat_eqv(
                    (#[trigger] self@[j]).0,
                    other@[j].0,
                ),
            decreases m - i,
        {
            let ae = &self.path[i];
            let be = &other.path[i];
            if !rat_equal(&ae.0, &be.0) {
                let r = rat_less(&ae.0, &be.0);
                proof {
                    lemma_path_lt_skip(self@, other@, i as int);
                }
                return r;
            }
            i += 1;
        }
        proof {
            lemma_path_lt_skip(self@, other@, m as int);
        }
        na < nb
    }
}

impl<T: Copy> Identifier<T> {
    /// The path as a vector of (rational, payload) entries, in path
    /// order, for serialization at the process edge: same length,
    /// value-equal rationals, equal payloads.
    pub fn entries(&self) -> (r: Vec<(BigRational, T)>)
        requires
            self.wf(),
        ensures
            r@.len() == self@.len(),
            forall|j: int| 0 <= j < r@.len() ==> rat_frac((#[trigger] r@[j]).0) == rat_frac(
                self@[j].0,
            ) && r@[j].1 == self@[j].1,
    {
        let mut r: Vec<(BigRational, T)> = Vec::new();
        let n = self.path.len();
        let mut i: usize = 0;
        while i < n
            invariant
                i <= n,
                n == self@.len(),
                self.wf(),
                r@.len() == i,
                forall|j: int| 0 <= j < i ==> rat_frac((#[trigger] r@[j]).0) == rat_frac(
                    self@[j].0,
                ) && r@[j].1 == self@[j].1,
            decreases n - i,
        {
            let e = &self.path[i];
            r.push((rat_clone(&e.0), e.1));
            i += 1;
        }
        r
    }
}

impl<T> Identifier<T> {
    /// Rebuild an identifier from a path, checking what data read back
    /// from outside cannot guarantee: the path is non-empty and every
    /// rational carries a positive denominator. Returns `None` exactly
    /// on paths that violate this.
    pub fn from_path(path: Vec<(BigRational, T)>) -> (r: Option<Self>)
        ensures
            match r {
                Some(id) => id.wf() && id@ == path@,
                None => !(path@.len() >= 1 && forall|j: int|
                    0 <= j < path@.len() ==> rat_wf((#[trigger] path@[j]).0)),
            },
    {
        let n = path.len();
        if n == 0 {
            return None;
        }
        let mut i: usize = 0;
        while i < n
            invariant
                i <= n,
                n == path@.len(),
                forall|j: int| 0 <= j < i ==> rat_wf((#[trigger] path@[j]).0),
            decreases n - i,
        {
            if !rat_denom_positive(&path[i].0) {
                proof {
                    assert(!rat_wf(path@[i as int].0));
                }
                return None;
            }
            i += 1;
        }
        Some(Identifier { path })
    }
}

/// With the first `i` rational values equal, the path order is decided
/// by what remains past `i`.
proof fn lemma_path_lt_skip<T>(a: Seq<(BigRational, T)>, b: Seq<(BigRational, T)>, i: int)
    requires
        0 <= i <= a.len(),
        i <= b.len(),
        forall|j: int| 0 <= j < i ==> rat_eqv((#[trigger] a[j]).0, b[j].0),
    ensures
        path_lt(a, b) == path_lt(a.skip(i), b.skip(i)),
    decreases i,
{
    if i == 0 {
        assert(a.skip(0) =~= a);
        assert(b.skip(0) =~= b);
    } else {
        let a1 = a.drop_first();
        let b1 = b.drop_first();
        assert(forall|k: int| 0 <= k < a1.len() ==> a1[k] == a[k + 1]);
        assert(forall|k: int| 0 <= k < b1.len() ==> b1[k] == b[k + 1]);
        assert(rat_eqv(a[0].0, b[0].0));
        lemma_path_lt_skip(a1, b1, i - 1);
        assert(a1.skip(i - 1) =~= a.skip(i));
        assert(b1.skip(i - 1) =~= b.skip(i));
    }
}

/// With the first `i` rational values equal and a strict fork at `i`,
/// the fork depth is exactly `i`.
proof fn lemma_fork_depth_is<T>(a: Seq<(BigRational, T)>, b: Seq<(BigRational, T)>, i: int)
    requires
        0 <= i <= a.len(),
        i <= b.len(),
        forall|j: int| 0 <= j < i ==> rat_eqv((#[trigger] a[j]).0, b[j].0),
        i < a.len() && i < b.len() ==> !rat_eqv(a[i].0, b[i].0),
    ensures
        fork_depth(a, b) == i,
    decreases i,
{
    if i == 0 {
    } else {
        let a1 = a.drop_first();
        let b1 = b.drop_first();
        assert(forall|k: int| 0 <= k < a1.len() ==> a1[k] == a[k + 1]);
        assert(forall|k: int| 0 <= k < b1.len() ==> b1[k] == b[k + 1]);
        assert(rat_eqv(a[0].0, b[0].0));
        lemma_fork_depth_is(a1, b1, i - 1);
    }
}

impl<T: Copy> Identifier<T> {
    /// Construct an identifier between `low` and `high` holding `elem`.
    ///
    /// With both bounds, the shared ancestry (leading entries with
    /// equal rational values) is copied and one new entry is appended,
    /// its rational strictly between the two diverging values; where
    /// one path ran out, that side is the unconstrained bound of the
    /// midpoint rule. So whenever `low < high` the result lies
    /// strictly between them. With one bound (or none), the result is
    /// a single entry placed after the bound's first rational, or
    /// before it, or at zero.
    pub fn between(low: Option<&Self>, high: Option<&Self>, elem: T) -> (r: Self)
        requires
            match low {
                Some(l) => l.wf(),
                None => true,
            },
            match high {
                Some(h) => h.wf(),
                None => true,
            },
        ensures
            r.wf(),
            r@.last().1 == elem,
            match (low, high) {
                (None, None) => r@.len() == 1 && rat_frac(r@[0].0) == (0int, 1int),
                (Some(l), None) => r@.len() == 1 && path_lt(l@, r@) && rnum(r@[0].0) * rden(
                    l@[0].0,
                ) == (rnum(l@[0].0) + rden(l@[0].0)) * rden(r@[0].0),
                (None, Some(h)) => r@.len() == 1 && path_lt(r@, h@) && rnum(r@[0].0) * rden(
                    h@[0].0,
                ) == (rnum(h@[0].0) - rden(h@[0].0)) * rden(r@[0].0),
                (Some(l), Some(h)) => {
                    let k = fork_depth(l@, h@);
                    &&& r@.len() == k + 1
                    &&& forall|j: int| 0 <= j < k ==> rat_frac((#[trigger] r@[j]).0) == rat_frac(
                        l@[j].0,
                    ) && r@[j].1 == l@[j].1
                    &&& (k < l@.len() && k < h@.len() ==> rnum(r@[k].0) * (2 * (rden(l@[k].0)
                        * rden(h@[k].0))) == (rnum(l@[k].0) * rden(h@[k].0) + rnum(h@[k].0) * rden(
                        l@[k].0,
                    )) * rden(r@[k].0))
                    &&& (k == l@.len() && k < h@.len() ==> rnum(r@[k].0) * rden(h@[k].0) == (rnum(
                        h@[k].0,
                    ) - rden(h@[k].0)) * rden(r@[k].0))
                    &&& (k < l@.len() && k == h@.len() ==> rnum(r@[k].0) * rden(l@[k].0) == (rnum(
                        l@[k].0,
                    ) + rden(l@[k].0)) * rden(r@[k].0))
                    &&& (k == l@.len() && k == h@.len() ==> rat_frac(r@[k].0) == (0int, 1int))
                    &&& (path_lt(l@, h@) ==> path_lt(l@, r@) && path_lt(r@, h@))
                },
            },
    {
        match (low, high) {
            (Some(low_id), Some(high_id)) => {
                let nl = low_id.path.len();
                let nh = high_id.path.len();
                let m = if nl <= nh {
                    nl
                } else {
                    nh
                };
                let mut path: Vec<(BigRational, T)> = Vec::new();
                let mut i: usize = 0;
                while i < m
                    invariant
                        i <= m,
                        m == if nl <= nh {
                            nl
                        } else {
                            nh
                        },
                        nl == low_id@.len(),
                        nh == high_id@.len(),
                        low == Some(low_id),
                        high == Some(high_id),
                        low_id.wf(),
                        high_id.wf(),
                        path@.len() == i,
                        forall|j: int| 0 <= j < i ==> rat_eqv(
                            (#[trigger] low_id@[j]).0,
                            high_id@[j].0,
                        ),
                        forall|j: int| 0 <= j < i ==> rat_frac((#[trigger] path@[j]).0)
                            == rat_frac(low_id@[j].0) && path@[j].1 == low_id@[j].1,
                    decreases m - i,
                {
                    let le = &low_id.path[i];
                    let he = &high_id.path[i];
                    if rat_equal(&le.0, &he.0) {
                        let copied = rat_clone(&le.0);
                        path.push((copied, le.1));
                    } else {
                        // the paths fork here: place `elem` strictly
                        // between the two diverging rationals
                        let mid = rational_between(Some(&le.0), Some(&he.0));
                        proof {
                            lemma_fork_depth_is(low_id@, high_id@, i as int);
                        }
                        path.push((mid, elem));
                        let ghost k = i as int;
                        proof {
                            if path_lt(low_id@, high_id@) {
                                lemma_path_lt_skip(low_id@, high_id@, k);
                                assert(low_id@.skip(k)[0] == low_id@[k]);
                                assert(high_id@.skip(k)[0] == high_id@[k]);
                                assert(rat_lt(low_id@[k].0, high_id@[k].0));
                                assert forall|j: int| 0 <= j < k implies rat_eqv(
                                    (#[trigger] low_id@[j]).0,
                                    path@[j].0,
                                ) by {
                                    crate::rational::lemma_eqv_from_frac(
                                        path@[j].0,
                                        low_id@[j].0,
                                    );
                                }
                                lemma_path_lt_skip(low_id@, path@, k);
                                assert(path@.skip(k)[0] == path@[k]);
                                assert(path@[k].0 == mid);
                                assert(path_lt(low_id@.skip(k), path@.skip(k)));
                                assert forall|j: int| 0 <= j < k implies rat_eqv(
                                    (#[trigger] path@[j]).0,
                                    high_id@[j].0,
                                ) by {
                                    crate::rational::lemma_eqv_from_frac(
                                        path@[j].0,
                                        low_id@[j].0,
                                    );
                                    lemma_eqv_trans(path@[j].0, low_id@[j].0, high_id@[j].0);
                                }
                                lemma_path_lt_skip(path@, high_id@, k);
                                assert(path@.skip(k).len() == 1);
                                assert(path_lt(path@.skip(k), high_id@.skip(k)));
                            }
                        }
                        return Identifier { path };
                    }
                    i += 1;
                }
                // one side's path ran out while the rationals still
                // agreed: the exhausted side is the unconstrained
                // bound; the surviving side still bounds the midpoint
                let z = if nl < nh {
                    rational_between(None, Some(&high_id.path[i].0))
                } else if nh < nl {
                    rational_between(Some(&low_id.path[i].0), None)
                } else {
                    rational_between(None, None)
                };
                proof {
                    lemma_fork_depth_is(low_id@, high_id@, m as int);
                }
                path.push((z, elem));
                proof {
                    let k = m as int;
                    assert forall|j: int| 0 <= j < k implies rat_eqv(
                        (#[trigger] low_id@[j]).0,
                        path@[j].0,
                    ) by {
                        crate::rational::lemma_eqv_from_frac(path@[j].0, low_id@[j].0);
                    }
                    assert forall|j: int| 0 <= j < k implies rat_eqv(
                        (#[trigger] path@[j]).0,
                        high_id@[j].0,
                    ) by {
                        crate::rational::lemma_eqv_from_frac(path@[j].0, low_id@[j].0);
                        lemma_eqv_trans(path@[j].0, low_id@[j].0, high_id@[j].0);
                    }
                    if nl < nh {
                        // low is a strict prefix: low < result < high
                        lemma_path_lt_skip(low_id@, path@, k);
                        assert(low_id@.skip(k).len() == 0);
                        assert(path@.skip(k).len() == 1);
                        assert(path_lt(low_id@.skip(k), path@.skip(k)));
                        lemma_path_lt_skip(path@, high_id@, k);
                        assert(path@.skip(k)[0] == path@[k]);
                        assert(high_id@.skip(k)[0] == high_id@[k]);
                        assert(rat_lt(path@[k].0, high_id@[k].0));
                        assert(path_lt(path@.skip(k), high_id@.skip(k)));
                    } else {
                        // high's path ends at or before low's, so high
                        // never exceeds low and no betweenness is owed
                        lemma_path_lt_skip(low_id@, high_id@, k);
                        assert(high_id@.skip(k).len() == 0);
                        assert(!path_lt(low_id@.skip(k), high_id@.skip(k)));
                    }
                }
                Identifier { path }
            },
            (low_single, high_single) => {
                let bound_low = match low_single {
                    Some(l) => Some(&l.path[0].0),
                    None => None,
                };
                let bound_high = match high_single {
                    Some(h) => Some(&h.path[0].0),
                    None => None,
                };
                let r0 = rational_between(bound_low, bound_high);
                let mut path: Vec<(BigRational, T)> = Vec::new();
                path.push((r0, elem));
                let result = Identifier { path };
                proof {
                    if let Some(l) = low_single {
                        assert(rat_lt(l@[0].0, result@[0].0));
                        assert(!rat_eqv(l@[0].0, result@[0].0));
                    }
                    if let Some(h) = high_single {
                        assert(rat_lt(result@[0].0, h@[0].0));
                        assert(!rat_eqv(result@[0].0, h@[0].0));
                    }
                }
                result
            },
        }
    }
}

/// Equality of rational values is transitive.
proof fn lemma_eqv_trans(a: BigRational, b: BigRational, c: BigRational)
    requires
        rat_eqv(a, b),
        rat_eqv(b, c),
        rat_wf(a),
        rat_wf(b),
        rat_wf(c),
    ensures
        rat_eqv(a, c),
{
    assert(rnum(a) * rden(c) == rnum(c) * rden(a)) by (nonlinear_arith)
        requires
            rnum(a) * rden(b) == rnum(b) * rden(a),
            rnum(b) * rden(c) == rnum(c) * rden(b),
            rden(a) > 0,
            rden(b) > 0,
            rden(c) > 0,
    ;
}

} // verus!
