//! Knot vectors: immutable non-decreasing sequences of rational parameters.

use vstd::prelude::*;
use crate::rat::{Rat, RatV, rat_eq, rat_le, rat_wf, norm};
use crate::rat::{lemma_le_trans, lemma_fits_small, lemma_norm, lemma_eq_le_compat};

verus! {

/// Every entry of the sequence is a well-formed rational.
pub open spec fn seq_wf(s: Seq<RatV>) -> bool {
    forall|i: int| 0 <= i < s.len() ==> rat_wf(#[trigger] s[i])
}

/// Adjacent entries are ordered; with `lemma_sorted_le` this gives the
/// order between any two positions.
pub open spec fn nondecreasing(s: Seq<RatV>) -> bool {
    forall|i: int| 0 <= i && i + 1 < s.len() ==> #[trigger] rat_le(s[i], s[i + 1])
}

pub proof fn lemma_sorted_le(s: Seq<RatV>, i: int, j: int)
    requires
        seq_wf(s),
        nondecreasing(s),
        0 <= i <= j < s.len(),
    ensures
        rat_le(s[i], s[j]),
    decreases j - i,
{
    if i == j {
        assert(rat_le(s[i], s[j])) by (nonlinear_arith)
            requires
                s[i] == s[j],
        ;
    } else {
        lemma_sorted_le(s, i, j - 1);
        assert(rat_le(s[j - 1], s[j - 1 + 1]));
        lemma_le_trans(s[i], s[j - 1], s[j]);
    }
}

/// A non-decreasing sequence of rational knot values.
#[derive(Clone, Debug)]
pub struct KnotVec {
    values: Vec<Rat>,
}

impl View for KnotVec {
    type V = Seq<RatV>;

    closed spec fn view(&self) -> Seq<RatV> {
        self.values@.map_values(|r: Rat| r@)
    }
}

impl KnotVec {
    /// All entries representable and the sequence non-decreasing.
    pub open spec fn wf(&self) -> bool {
        seq_wf(self@) && nondecreasing(self@)
    }

    /// Wraps an already sorted sequence; `None` when it is not
    /// non-decreasing, so no misordered knot vector is ever constructed.
    pub fn from_sorted(values: Vec<Rat>) -> (r: Option<KnotVec>)
        requires
            seq_wf(values@.map_values(|x: Rat| x@)),
        ensures
            r is Some <==> nondecreasing(values@.map_values(|x: Rat| x@)),
            r is Some ==> (r->0)@ == values@.map_values(|x: Rat| x@) && r->0.wf(),
    {
        let ghost s = values@.map_values(|x: Rat| x@);
        let n = values.len();
        let mut i: usize = 1;
        while i < n
            invariant
                1 <= i,
                n == values@.len(),
                s == values@.map_values(|x: Rat| x@),
                seq_wf(s),
                forall|k: int| 0 <= k && k + 1 < i ==> #[trigger] rat_le(s[k], s[k + 1]),
            decreases n - i,
        {
            let prev = values[i - 1];
            let cur = values[i];
            proof {
                assert(s[i as int - 1] == values@[i as int - 1]@);
                assert(s[i as int] == values@[i as int]@);
            }
            if !prev.le(&cur) {
                proof {
                    if nondecreasing(s) {
                        assert(rat_le(s[i as int - 1], s[i as int - 1 + 1]));
                    }
                }
                return None;
            }
            i += 1;
        }
        Some(KnotVec { values })
    }

    /// The open (clamped) knot vector for `n` basis functions of degree
    /// `p`: `p+1` zeros, the `n-p-1` interior knots `k/(n-p)` in order,
    /// then `p+1` ones.
    pub fn open(n: usize, p: usize) -> (r: KnotVec)
        requires
            p + 1 <= n,
            n + p + 1 <= usize::MAX,
            n - p <= i64::MAX,
        ensures
            r@.len() == n + p + 1,
            r.wf(),
            forall|i: int| 0 <= i <= p ==> r@[i] == (RatV { n: 0, d: 1 }),
            forall|i: int| n <= i < n + p + 1 ==> r@[i] == (RatV { n: 1, d: 1 }),
            forall|i: int| p < i < n ==> rat_eq(#[trigger] r@[i], RatV { n: i - p, d: n - p }),
            forall|i: int| p < i < n ==> #[trigger] r@[i] == norm(RatV { n: i - p, d: n - p }),
    {
        let m: usize = n + p + 1;
        let mut values: Vec<Rat> = Vec::new();
        let mut i: usize = 0;
        while i < m
            invariant
                i <= m,
                m == n + p + 1,
                p + 1 <= n,
                n - p <= i64::MAX,
                values@.len() == i,
                forall|k: int| 0 <= k < i && k <= p ==> (#[trigger] values@[k])@
                    == (RatV { n: 0, d: 1 }),
                forall|k: int| n <= k < i ==> (#[trigger] values@[k])@
                    == (RatV { n: 1, d: 1 }),
                forall|k: int| p < k < n && k < i ==> (#[trigger] values@[k])@
                    == norm(RatV { n: k - p, d: n - p }),
            decreases m - i,
        {
            if i <= p {
                values.push(Rat::zero());
            } else if i >= n {
                values.push(Rat::one());
            } else {
                let ghost iv = RatV { n: i - p, d: n - p };
                proof {
                    lemma_fits_small(iv);
                }
                let f = Rat::new((i - p) as i64, (n - p) as i64);
                values.push(f.unwrap());
            }
            i += 1;
        }
        let ghost s = values@.map_values(|x: Rat| x@);
        proof {
            assert forall|k: int| p < k < n implies rat_eq(#[trigger] s[k], RatV {
                n: k - p,
                d: n - p,
            }) by {
                lemma_norm(RatV { n: k - p, d: n - p });
            }
            assert forall|k: int| 0 <= k < s.len() implies rat_wf(#[trigger] s[k]) by {
                if p < k < n {
                    lemma_norm(RatV { n: k - p, d: n - p });
                }
            }
            assert forall|k: int| 0 <= k && k + 1 < s.len() implies #[trigger] rat_le(
                s[k],
                s[k + 1],
            ) by {
                lemma_open_step(s, n as int, p as int, k);
            }
        }
        KnotVec { values }
    }

    /// Number of knots.
    pub fn len(&self) -> (r: usize)
        ensures
            r == self@.len(),
    {
        self.values.len()
    }

    /// The knot at position `i`.
    pub fn at(&self, i: usize) -> (r: Rat)
        requires
            i < self@.len(),
        ensures
            r@ == self@[i as int],
    {
        self.values[i]
    }

    /// The lower domain bound, the first knot.
    pub fn first(&self) -> (r: Rat)
        requires
            self@.len() >= 1,
        ensures
            r@ == self@[0],
    {
        self.values[0]
    }

    /// The upper domain bound, the last knot.
    pub fn last(&self) -> (r: Rat)
        requires
            self@.len() >= 1,
        ensures
            r@ == self@[self@.len() - 1],
    {
        self.values[self.values.len() - 1]
    }

    /// The distinct knot values in ascending order, each paired with its
    /// multiplicity.
    pub fn breaks_with_multiplicity(&self) -> (r: Vec<(Rat, usize)>)
        requires
            self.wf(),
        ensures
            r@.map_values(|pr: (Rat, usize)| (pr.0@, pr.1 as int)) == breaks_from(self@, 0),
    {
        let ghost s = self@;
        let len = self.values.len();
        let mut out: Vec<(Rat, usize)> = Vec::new();
        let mut i: usize = 0;
        while i < len
            invariant
                i <= len,
                len == s.len(),
                s == self@,
                self.wf(),
                breaks_from(s, 0) == out@.map_values(|pr: (Rat, usize)| (pr.0@, pr.1 as int))
                    + breaks_from(s, i as int),
            decreases len - i,
        {
            let ghost oldmap = out@.map_values(|pr: (Rat, usize)| (pr.0@, pr.1 as int));
            let mut c: usize = 1;
            while i + c < len && self.values[i + c - 1].eq_val(&self.values[i + c])
                invariant
                    1 <= c,
                    i + c <= len,
                    i < len,
                    len == s.len(),
                    s == self@,
                    self.wf(),
                    run_len(s, i as int) == c - 1 + run_len(s, i + c - 1),
                decreases len - (i + c),
            {
                proof {
                    assert(s[i + c - 1] == self.values@[i + c - 1]@);
                    assert(s[i + c] == self.values@[i + c]@);
                }
                c += 1;
            }
            proof {
                lemma_run_len_pos(s, i as int);
                if i + c < len {
                    assert(s[i + c - 1] == self.values@[i + c - 1]@);
                    assert(s[i + c] == self.values@[i + c]@);
                    assert(!rat_eq(s[i + c - 1], s[i + c]));
                }
                assert(run_len(s, i + c - 1) == 1);
                assert(run_len(s, i as int) == c as int);
            }
            let v = self.values[i];
            out.push((v, c));
            i += c;
            proof {
                let f = |pr: (Rat, usize)| (pr.0@, pr.1 as int);
                assert(out@.map_values(f) =~= oldmap.push((v@, c as int)));
                assert(breaks_from(s, i - c) == seq![(s[i - c], c as int)] + breaks_from(
                    s,
                    i as int,
                ));
                assert(oldmap + breaks_from(s, i - c) =~= out@.map_values(f) + breaks_from(
                    s,
                    i as int,
                ));
            }
        }
        out
    }
}

/// Length of the run of equal values starting at `i`.
pub open spec fn run_len(s: Seq<RatV>, i: int) -> int
    decreases s.len() - i,
{
    if i < 0 || i >= s.len() {
        0
    } else if i + 1 < s.len() && rat_eq(s[i], s[i + 1]) {
        1 + run_len(s, i + 1)
    } else {
        1
    }
}

pub proof fn lemma_run_len_pos(s: Seq<RatV>, i: int)
    requires
        0 <= i < s.len(),
    ensures
        1 <= run_len(s, i),
        i + run_len(s, i) <= s.len(),
    decreases s.len() - i,
{
    if i + 1 < s.len() && rat_eq(s[i], s[i + 1]) {
        lemma_run_len_pos(s, i + 1);
    }
}

/// The distinct-value runs of `s` from position `i` on, each paired with
/// its multiplicity.
pub open spec fn breaks_from(s: Seq<RatV>, i: int) -> Seq<(RatV, int)>
    decreases s.len() - i,
    via breaks_from_decreases
{
    if i < 0 || i >= s.len() {
        Seq::empty()
    } else {
        seq![(s[i], run_len(s, i))] + breaks_from(s, i + run_len(s, i))
    }
}

#[via_fn]
proof fn breaks_from_decreases(s: Seq<RatV>, i: int) {
    if 0 <= i < s.len() {
        lemma_run_len_pos(s, i);
    }
}

/// One ordering step of the open knot vector.
proof fn lemma_open_step(s: Seq<RatV>, n: int, p: int, k: int)
    requires
        p + 1 <= n,
        n - p <= i64::MAX,
        s.len() == n + p + 1,
        0 <= k,
        k + 1 < s.len(),
        forall|i: int| 0 <= i <= p && i < s.len() ==> s[i] == (RatV { n: 0, d: 1 }),
        forall|i: int| n <= i < s.len() ==> s[i] == (RatV { n: 1, d: 1 }),
        forall|i: int| p < i < n ==> #[trigger] s[i] == norm(RatV { n: i - p, d: n - p }),
    ensures
        rat_le(s[k], s[k + 1]),
{
    let zero = RatV { n: 0, d: 1 };
    let one = RatV { n: 1, d: 1 };
    let lo = RatV { n: k - p, d: n - p };
    let hi = RatV { n: k + 1 - p, d: n - p };
    if p < k < n {
        lemma_norm(lo);
    }
    if p < k + 1 < n {
        lemma_norm(hi);
    }
    if k + 1 <= p {
        assert(rat_le(s[k], s[k + 1]));
    } else if k >= n {
        assert(rat_le(s[k], s[k + 1]));
    } else if k <= p && k + 1 < n {
        // zero up to k/(n-p) with k+1-p >= 1... here s[k+1] = norm(hi), hi.n >= 1
        lemma_eq_le_compat(s[k + 1], hi, s[k + 1], hi);
        assert(zero.n * hi.d <= hi.n * zero.d) by (nonlinear_arith)
            requires
                zero.n == 0,
                zero.d == 1,
                hi.n >= 0,
                hi.d >= 1,
        ;
        assert(rat_le(zero, hi));
        lemma_eq_le_compat(zero, zero, hi, s[k + 1]);
    } else if k <= p && k + 1 >= n {
        assert(rat_le(zero, one));
    } else if p < k && k + 1 < n {
        assert(lo.n * hi.d <= hi.n * lo.d) by (nonlinear_arith)
            requires
                lo.d == hi.d,
                lo.d >= 1,
                lo.n < hi.n,
        ;
        assert(rat_le(lo, hi));
        lemma_eq_le_compat(lo, s[k], hi, s[k + 1]);
    } else {
        // p < k < n and k + 1 >= n: interior against the final one
        assert(lo.n * one.d <= one.n * lo.d) by (nonlinear_arith)
            requires
                lo.n <= lo.d,
                lo.d >= 1,
                one.n == 1,
                one.d == 1,
        ;
        assert(rat_le(lo, one));
        lemma_eq_le_compat(lo, s[k], one, one);
    }
}

} // verus!
