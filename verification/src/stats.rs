//! Per-key running statistics: count, exact fixed-point sum, minimum and
//! maximum, together with their mathematical model and the merge rule.

use vstd::prelude::*;

verus! {

/// Mathematical model of a running statistic: number of observations,
/// exact sum of the observed (scaled) values, least and greatest value.
pub ghost struct GStats {
    pub count: int,
    pub sum: int,
    pub lo: int,
    pub hi: int,
}

/// The statistic recording a single observed value `v`.
pub open spec fn gsingle(v: int) -> GStats {
    GStats { count: 1, sum: v, lo: v, hi: v }
}

/// The merge rule for statistics: counts and sums add, extrema combine.
pub open spec fn gmerge(a: GStats, b: GStats) -> GStats {
    GStats {
        count: a.count + b.count,
        sum: a.sum + b.sum,
        lo: if a.lo <= b.lo { a.lo } else { b.lo },
        hi: if a.hi >= b.hi { a.hi } else { b.hi },
    }
}

/// Merging statistics is commutative.
pub proof fn lemma_gmerge_commutative(a: GStats, b: GStats)
    ensures
        gmerge(a, b) == gmerge(b, a),
{
}

/// Merging statistics is associative.
pub proof fn lemma_gmerge_associative(a: GStats, b: GStats, c: GStats)
    ensures
        gmerge(gmerge(a, b), c) == gmerge(a, gmerge(b, c)),
{
}

/// Running statistic for one key.  `sum`, `min` and `max` are fixed-point
/// values in hundredths of the input's unit.
#[derive(Clone, Copy)]
pub struct Stats {
    pub count: u64,
    pub sum: i128,
    pub min: i64,
    pub max: i64,
}

impl View for Stats {
    type V = GStats;

    open spec fn view(&self) -> GStats {
        GStats {
            count: self.count as int,
            sum: self.sum as int,
            lo: self.min as int,
            hi: self.max as int,
        }
    }
}

/// `g` describes at least one observation, its extrema are ordered and lie
/// in the value range, and its sum is bounded by `count` times the value
/// range.  The bound keeps every merge of well-formed statistics inside
/// `i128` as long as the total count fits in `u64`.
pub open spec fn gwf(g: GStats) -> bool {
    &&& 1 <= g.count
    &&& i64::MIN <= g.lo <= g.hi <= i64::MAX
    &&& g.count * (i64::MIN as int) <= g.sum <= g.count * (i64::MAX as int)
}

/// Merging preserves well-formedness.
pub proof fn lemma_gmerge_wf(a: GStats, b: GStats)
    requires
        gwf(a),
        gwf(b),
    ensures
        gwf(gmerge(a, b)),
{
    broadcast use vstd::arithmetic::mul::group_mul_properties;

    assert((a.count + b.count) * (i64::MIN as int) == a.count * (i64::MIN as int) + b.count * (
    i64::MIN as int));
    assert((a.count + b.count) * (i64::MAX as int) == a.count * (i64::MAX as int) + b.count * (
    i64::MAX as int));
}

/// The sum of a well-formed statistic with `count <= u64::MAX` fits in
/// `i128`.
pub proof fn lemma_gwf_sum_in_i128(g: GStats)
    requires
        gwf(g),
        g.count <= u64::MAX,
    ensures
        i128::MIN <= g.sum <= i128::MAX,
{
    vstd::arithmetic::mul::lemma_mul_inequality(g.count, u64::MAX as int, i64::MAX as int);
    vstd::arithmetic::mul::lemma_mul_inequality(g.count, u64::MAX as int, -(i64::MIN as int));
    assert(g.count * (i64::MIN as int) == -(g.count * -(i64::MIN as int))) by (nonlinear_arith);
}

impl Stats {
    /// The executable statistic matches its model's bounds.
    pub open spec fn wf(self) -> bool {
        gwf(self@)
    }

    /// Start a statistic from one observed value.
    pub fn new(v: i64) -> (r: Stats)
        ensures
            r.wf(),
            r@ == gsingle(v as int),
    {
        Stats { count: 1, sum: v as i128, min: v, max: v }
    }

    /// Fold one more observed value into the statistic.
    pub fn observe(&mut self, v: i64)
        requires
            old(self).wf(),
            old(self).count < u64::MAX,
        ensures
            final(self).wf(),
            final(self)@ == gmerge(old(self)@, gsingle(v as int)),
    {
        proof {
            lemma_gmerge_wf(self@, gsingle(v as int));
            lemma_gwf_sum_in_i128(gmerge(self@, gsingle(v as int)));
        }
        self.count = self.count + 1;
        self.sum = self.sum + v as i128;
        if v < self.min {
            self.min = v;
        }
        if v > self.max {
            self.max = v;
        }
    }

    /// Fold another statistic into this one.  The merged count must fit in
    /// `u64`; that is a machine limit, not a rule of the merge itself.
    pub fn merge(&mut self, other: &Stats)
        requires
            old(self).wf(),
            other.wf(),
            old(self).count + other.count <= u64::MAX,
        ensures
            final(self).wf(),
            final(self)@ == gmerge(old(self)@, other@),
    {
        proof {
            lemma_gmerge_wf(self@, other@);
            lemma_gwf_sum_in_i128(gmerge(self@, other@));
        }
        self.count = self.count + other.count;
        self.sum = self.sum + other.sum;
        if other.min < self.min {
            self.min = other.min;
        }
        if other.max > self.max {
            self.max = other.max;
        }
    }
}

} // verus!
