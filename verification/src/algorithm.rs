//! The enrichment-score engine: the weighted running-sum (random-walk)
//! statistic and the permutation generator.
//!
//! The walk over a ranking of length `n` with membership indicator `tag` and
//! nonnegative integer metric adds `v_i / H` at each hit and subtracts
//! `1 / M` at each miss, where `H` is the summed metric over the hits and
//! `M` the number of misses.  Every partial sum is therefore the fraction
//! `(M * hit_sum - H * misses) / (H * M)`; the library computes the integer
//! numerators exactly.

use vstd::prelude::*;
use vstd::arithmetic::mul::lemma_mul_inequality;
use crate::frac::{Frac, abs1};
use crate::utils::{DynamicEnum, cnt_true, cnt_p};
use crate::rng::new_small_rng;
use rand::rngs::SmallRng;

verus! {

/// Sum of the first `j` metric entries.
pub open spec fn sum_prefix(metric: Seq<u64>, j: int) -> int
    decreases j,
{
    if j <= 0 {
        0
    } else {
        sum_prefix(metric, j - 1) + metric[j - 1]
    }
}

/// Total weight of the metric.
pub open spec fn seq_sum(metric: Seq<u64>) -> int {
    sum_prefix(metric, metric.len() as int)
}

/// Summed metric over the hit positions below `j`.
pub open spec fn hit_sum(metric: Seq<u64>, tag: Seq<bool>, j: int) -> int
    decreases j,
{
    if j <= 0 {
        0
    } else {
        hit_sum(metric, tag, j - 1) + (if tag[j - 1] {
            metric[j - 1] as int
        } else {
            0int
        })
    }
}

/// Number of hit positions below `j`.
pub open spec fn hit_cnt(tag: Seq<bool>, j: int) -> int
    decreases j,
{
    if j <= 0 {
        0
    } else {
        hit_cnt(tag, j - 1) + (if tag[j - 1] {
            1int
        } else {
            0int
        })
    }
}

/// Denominator of every value of the walk: hit weight times miss count.
pub open spec fn walk_den(metric: Seq<u64>, tag: Seq<bool>) -> int {
    hit_sum(metric, tag, tag.len() as int) * (tag.len() - hit_cnt(tag, tag.len() as int))
}

/// Numerator of the running score after position `j` has been consumed.
pub open spec fn run_num(metric: Seq<u64>, tag: Seq<bool>, j: int) -> int {
    (tag.len() - hit_cnt(tag, tag.len() as int)) * hit_sum(metric, tag, j + 1) - hit_sum(
        metric,
        tag,
        tag.len() as int,
    ) * (j + 1 - hit_cnt(tag, j + 1))
}

/// The signed extreme of the walk over its first `j` positions, ties kept
/// from the earlier position: the value the streaming pass returns.
pub open spec fn extreme_prefix(metric: Seq<u64>, tag: Seq<bool>, j: int) -> int
    decreases j,
{
    if j <= 0 {
        0
    } else {
        let prev = extreme_prefix(metric, tag, j - 1);
        let cur = run_num(metric, tag, j - 1);
        if abs1(cur) > abs1(prev) {
            cur
        } else {
            prev
        }
    }
}

/// The enrichment score's numerator: the signed extreme of the whole walk.
pub open spec fn extreme_num(metric: Seq<u64>, tag: Seq<bool>) -> int {
    extreme_prefix(metric, tag, tag.len() as int)
}

/// The inputs on which the walk is defined: equal lengths, at least one hit,
/// at least one miss, positive hit weight, and totals small enough that every
/// numerator fits the machine arithmetic.
pub open spec fn valid_walk(metric: Seq<u64>, tag: Seq<bool>) -> bool {
    &&& metric.len() == tag.len()
    &&& 0 < tag.len() < 0x8000_0000
    &&& seq_sum(metric) < 0x8000_0000
    &&& 0 < hit_cnt(tag, tag.len() as int) < tag.len()
    &&& hit_sum(metric, tag, tag.len() as int) > 0
}

/// The observed score `es` matches the walk over `(metric, tag)`: it is a
/// value the running score takes, none of whose values is larger in
/// magnitude.  This is the streaming statistic's whole meaning.
pub open spec fn es_matches(es: Frac, metric: Seq<u64>, tag: Seq<bool>) -> bool {
    &&& es.den == walk_den(metric, tag)
    &&& es.num == extreme_num(metric, tag)
    &&& (exists|j: int| 0 <= j < tag.len() && run_num(metric, tag, j) == es.num)
    &&& (forall|j: int|
        0 <= j < tag.len() ==> abs1(run_num(metric, tag, j)) <= abs1(es.num as int))
    &&& es.wf()
}

pub proof fn lemma_sum_prefix_monotone(metric: Seq<u64>, i: int, j: int)
    requires
        0 <= i <= j,
    ensures
        sum_prefix(metric, i) <= sum_prefix(metric, j),
    decreases j - i,
{
    if i < j {
        lemma_sum_prefix_monotone(metric, i, j - 1);
    }
}

pub proof fn lemma_hit_sum_bounds(metric: Seq<u64>, tag: Seq<bool>, i: int, j: int)
    requires
        0 <= i <= j,
    ensures
        0 <= hit_sum(metric, tag, i) <= hit_sum(metric, tag, j),
        hit_sum(metric, tag, j) <= sum_prefix(metric, j),
    decreases j,
{
    lemma_hit_le_prefix(metric, tag, j);
    if i < j {
        lemma_hit_sum_bounds(metric, tag, i, j - 1);
    } else if j > 0 {
        lemma_hit_sum_bounds(metric, tag, 0, j - 1);
    }
}

proof fn lemma_hit_le_prefix(metric: Seq<u64>, tag: Seq<bool>, j: int)
    ensures
        hit_sum(metric, tag, j) <= sum_prefix(metric, j),
        hit_sum(metric, tag, j) >= 0,
    decreases j,
{
    if j > 0 {
        lemma_hit_le_prefix(metric, tag, j - 1);
    }
}

pub proof fn lemma_hit_cnt_bounds(tag: Seq<bool>, i: int, j: int)
    requires
        0 <= i <= j,
    ensures
        0 <= hit_cnt(tag, i) <= hit_cnt(tag, j) <= j,
        hit_cnt(tag, j) - hit_cnt(tag, i) <= j - i,
    decreases j,
{
    if i < j {
        lemma_hit_cnt_bounds(tag, i, j - 1);
    } else if j > 0 {
        lemma_hit_cnt_bounds(tag, 0, j - 1);
    }
}

/// Every value of the walk stays within `[-H*M, H*M]`: the hit part of the
/// numerator is at most `M * H`, the miss part at most `H * M`.
pub proof fn lemma_run_num_bounds(metric: Seq<u64>, tag: Seq<bool>, j: int)
    requires
        valid_walk(metric, tag),
        0 <= j < tag.len(),
    ensures
        -walk_den(metric, tag) <= run_num(metric, tag, j) <= walk_den(metric, tag),
{
    let n = tag.len() as int;
    let h = hit_sum(metric, tag, n);
    let m = n - hit_cnt(tag, n);
    lemma_hit_sum_bounds(metric, tag, j + 1, n);
    lemma_hit_cnt_bounds(tag, j + 1, n);
    lemma_hit_cnt_bounds(tag, 0, j + 1);
    lemma_mul_inequality(hit_sum(metric, tag, j + 1), h, m);
    lemma_mul_inequality(j + 1 - hit_cnt(tag, j + 1), m, h);
    assert(m * hit_sum(metric, tag, j + 1) == hit_sum(metric, tag, j + 1) * m) by (nonlinear_arith);
    assert(h * (j + 1 - hit_cnt(tag, j + 1)) == (j + 1 - hit_cnt(tag, j + 1)) * h)
        by (nonlinear_arith);
    assert(m * hit_sum(metric, tag, j + 1) >= 0) by (nonlinear_arith)
        requires
            m >= 0,
            hit_sum(metric, tag, j + 1) >= 0,
    ;
    assert(h * (j + 1 - hit_cnt(tag, j + 1)) >= 0) by (nonlinear_arith)
        requires
            h >= 0,
            j + 1 - hit_cnt(tag, j + 1) >= 0,
    ;
}

/// The hit count of an indicator is its number of `true` entries.
pub proof fn lemma_hit_cnt_is_cnt_true(tag: Seq<bool>, j: int)
    requires
        0 <= j <= tag.len(),
    ensures
        hit_cnt(tag, j) == cnt_true(tag.subrange(0, j)),
    decreases j,
{
    if j > 0 {
        lemma_hit_cnt_is_cnt_true(tag, j - 1);
        assert(tag.subrange(0, j).drop_last() =~= tag.subrange(0, j - 1));
        assert(tag.subrange(0, j).last() == tag[j - 1]);
    }
}

/// Each product in one step of the walk stays below `2^62`.
proof fn lemma_walk_step_bounds(m: int, hs: int, h: int, mc: int)
    requires
        0 <= m < 0x8000_0000,
        0 <= hs < 0x8000_0000,
        0 <= h < 0x8000_0000,
        0 <= mc < 0x8000_0000,
    ensures
        0 <= m * hs < 0x4000_0000_0000_0000,
        0 <= h * mc < 0x4000_0000_0000_0000,
{
    assert(0 <= m * hs < 0x4000_0000_0000_0000 && 0 <= h * mc < 0x4000_0000_0000_0000)
        by (nonlinear_arith)
        requires
            0 <= m < 0x8000_0000,
            0 <= hs < 0x8000_0000,
            0 <= h < 0x8000_0000,
            0 <= mc < 0x8000_0000,
    ;
}

/// Streaming state of both walk functions: totals of the indicator.
pub struct WalkTotals {
    pub h: u64,
    pub k: usize,
}

/// Computes the hit weight `H` and hit count `K` of an indicator.
pub fn walk_totals(metric: &Vec<u64>, tag: &Vec<bool>) -> (r: WalkTotals)
    requires
        metric@.len() == tag@.len(),
        seq_sum(metric@) < 0x8000_0000,
    ensures
        r.h == hit_sum(metric@, tag@, tag@.len() as int),
        r.k == hit_cnt(tag@, tag@.len() as int),
{
    let n = metric.len();
    let mut h: u64 = 0;
    let mut k: usize = 0;
    let mut j: usize = 0;
    while j < n
        invariant
            0 <= j <= n,
            n == metric@.len() == tag@.len(),
            seq_sum(metric@) < 0x8000_0000,
            h == hit_sum(metric@, tag@, j as int),
            k == hit_cnt(tag@, j as int),
        decreases n - j,
    {
        proof {
            lemma_hit_sum_bounds(metric@, tag@, j + 1, n as int);
            lemma_sum_prefix_monotone(metric@, n as int, n as int);
            lemma_hit_le_prefix(metric@, tag@, n as int);
            lemma_hit_cnt_bounds(tag@, j + 1, n as int);
        }
        if tag[j] {
            h = h + metric[j];
            k = k + 1;
        }
        j = j + 1;
    }
    WalkTotals { h, k }
}

pub trait EnrichmentScoreTrait {
    /// The full cumulative path of the walk, as exact numerators over the
    /// common denominator `H * M`.
    fn running_enrichment_score(&self, metric: &Vec<u64>, tag: &Vec<bool>) -> (r: Vec<i128>)
        requires
            valid_walk(metric@, tag@),
        ensures
            r@.len() == tag@.len(),
            forall|j: int| 0 <= j < r@.len() ==> r@[j] == run_num(metric@, tag@, j),
    ;

    /// The enrichment score: the most extreme value of the walk, found in one
    /// streaming pass that keeps only the running value and the extreme.
    fn fast_random_walk(&self, metric: &Vec<u64>, tag: &Vec<bool>) -> (r: i128)
        requires
            valid_walk(metric@, tag@),
        ensures
            r == extreme_num(metric@, tag@),
            exists|j: int| 0 <= j < tag@.len() && run_num(metric@, tag@, j) == r,
            forall|j: int|
                0 <= j < tag@.len() ==> abs1(run_num(metric@, tag@, j)) <= abs1(r as int),
    ;
}

/// The per-run scoring engine: the gene universe, the number of arrangements
/// to produce, and the seeded generator that shuffles them.
#[derive(Debug)]
pub struct EnrichmentScore {
    pub gene: DynamicEnum<String>,
    pub nperm: usize,
    pub rng: SmallRng,
}

impl EnrichmentScoreTrait for EnrichmentScore {
    fn running_enrichment_score(&self, metric: &Vec<u64>, tag: &Vec<bool>) -> (r: Vec<i128>) {
        let n = metric.len();
        let totals = walk_totals(metric, tag);
        let m: usize = n - totals.k;
        let mut r: Vec<i128> = Vec::new();
        let mut hs: u64 = 0;
        let mut hc: usize = 0;
        let mut j: usize = 0;
        while j < n
            invariant
                0 <= j <= n,
                n == metric@.len() == tag@.len(),
                valid_walk(metric@, tag@),
                totals.h == hit_sum(metric@, tag@, n as int),
                totals.k == hit_cnt(tag@, n as int),
                m == n - totals.k,
                hs == hit_sum(metric@, tag@, j as int),
                hc == hit_cnt(tag@, j as int),
                r@.len() == j,
                forall|i: int| 0 <= i < j ==> r@[i] == run_num(metric@, tag@, i),
            decreases n - j,
        {
            proof {
                lemma_hit_sum_bounds(metric@, tag@, j + 1, n as int);
                lemma_hit_cnt_bounds(tag@, j + 1, n as int);
                lemma_hit_cnt_bounds(tag@, 0, j + 1);
            }
            if tag[j] {
                hs = hs + metric[j];
                hc = hc + 1;
            }
            let mc: usize = j + 1 - hc;
            proof {
                lemma_walk_step_bounds(m as int, hs as int, totals.h as int, mc as int);
            }
            let cur: i128 = (m as i128) * (hs as i128) - (totals.h as i128) * (mc as i128);
            r.push(cur);
            j = j + 1;
        }
        r
    }

    fn fast_random_walk(&self, metric: &Vec<u64>, tag: &Vec<bool>) -> (r: i128) {
        let n = metric.len();
        let totals = walk_totals(metric, tag);
        let m: usize = n - totals.k;
        let mut res: i128 = 0;
        let mut hs: u64 = 0;
        let mut hc: usize = 0;
        let mut j: usize = 0;
        while j < n
            invariant
                0 <= j <= n,
                n == metric@.len() == tag@.len(),
                valid_walk(metric@, tag@),
                totals.h == hit_sum(metric@, tag@, n as int),
                totals.k == hit_cnt(tag@, n as int),
                m == n - totals.k,
                hs == hit_sum(metric@, tag@, j as int),
                hc == hit_cnt(tag@, j as int),
                -0x4000_0000_0000_0000 < res < 0x4000_0000_0000_0000,
                res == extreme_prefix(metric@, tag@, j as int),
                j == 0 ==> res == 0,
                j > 0 ==> exists|i: int| 0 <= i < j && run_num(metric@, tag@, i) == res,
                forall|i: int| 0 <= i < j ==> abs1(run_num(metric@, tag@, i)) <= abs1(res as int),
            decreases n - j,
        {
            proof {
                lemma_hit_sum_bounds(metric@, tag@, j + 1, n as int);
                lemma_hit_cnt_bounds(tag@, j + 1, n as int);
                lemma_hit_cnt_bounds(tag@, 0, j + 1);
            }
            if tag[j] {
                hs = hs + metric[j];
                hc = hc + 1;
            }
            let mc: usize = j + 1 - hc;
            proof {
                lemma_walk_step_bounds(m as int, hs as int, totals.h as int, mc as int);
            }
            let cur: i128 = (m as i128) * (hs as i128) - (totals.h as i128) * (mc as i128);
            let acur: i128 = if cur < 0 {
                -cur
            } else {
                cur
            };
            let ares: i128 = if res < 0 {
                -res
            } else {
                res
            };
            proof {
                assert(cur == run_num(metric@, tag@, j as int));
            }
            if acur > ares {
                res = cur;
                proof {
                    assert(run_num(metric@, tag@, j as int) == res);
                }
            } else {
                proof {
                    if j == 0 {
                        assert(abs1(cur as int) <= 0);
                        assert(run_num(metric@, tag@, 0) == res);
                    }
                }
            }
            j = j + 1;
        }
        res
    }
}

impl EnrichmentScore {
    /// Builds the engine for one run: indexes the (distinct) ranked genes and
    /// seeds the generator.  `nperm + 1` arrangements will be produced.
    pub fn new(gene: &Vec<String>, nperm: usize, seed: u64) -> (r: Self)
        requires
            crate::utils::distinct_ids(gene.deep_view()),
            nperm < usize::MAX,
        ensures
            r.gene.ids() =~= gene.deep_view(),
            r.gene.wf(),
            r.nperm == nperm + 1,
    {
        let rng = new_small_rng(seed);
        let gene_enum = match DynamicEnum::<String>::from(gene) {
            Some(g) => g,
            None => vstd::pervasive::unreached(),
        };
        EnrichmentScore { gene: gene_enum, nperm: nperm + 1, rng }
    }

    /// The 0-indexed ranked positions of the indicator's hits, in increasing
    /// order: exactly the positions whose entry is `true`.
    pub fn hit_index(&self, tag: &Vec<bool>) -> (r: Vec<usize>)
        ensures
            r@.len() == cnt_true(tag@),
            forall|a: int, b: int| 0 <= a < b < r@.len() ==> r@[a] < r@[b],
            forall|a: int| 0 <= a < r@.len() ==> r@[a] < tag@.len() && tag@[r@[a] as int],
            forall|i: int| 0 <= i < tag@.len() ==> (tag@[i] <==> r@.contains(i as usize)),
            r@.no_duplicates(),
    {
        let n = tag.len();
        let mut r: Vec<usize> = Vec::new();
        let mut i: usize = 0;
        while i < n
            invariant
                0 <= i <= n,
                n == tag@.len(),
                r@.len() == cnt_p(tag@.subrange(0, i as int), |b: bool| b),
                forall|a: int, b: int| 0 <= a < b < r@.len() ==> r@[a] < r@[b],
                forall|a: int| 0 <= a < r@.len() ==> r@[a] < i && tag@[r@[a] as int],
                forall|k: int| 0 <= k < i ==> (tag@[k] <==> r@.contains(k as usize)),
            decreases n - i,
        {
            proof {
                assert(tag@.subrange(0, i + 1).drop_last() =~= tag@.subrange(0, i as int));
                assert(tag@.subrange(0, i + 1).last() == tag@[i as int]);
            }
            let ghost prev = r@;
            if tag[i] {
                r.push(i);
                proof {
                    assert(r@.contains(i as usize)) by {
                        assert(r@[r@.len() - 1] == i as usize);
                    }
                    assert forall|k: int| 0 <= k < i && tag@[k] implies r@.contains(k as usize) by {
                        let a = choose|a: int| 0 <= a < prev.len() && prev[a] == k as usize;
                        assert(r@[a] == k as usize);
                    }
                    assert forall|k: int| 0 <= k < i && !tag@[k] implies !r@.contains(
                        k as usize,
                    ) by {
                        if r@.contains(k as usize) {
                            let a = choose|a: int| 0 <= a < r@.len() && r@[a] == k as usize;
                            assert(a < prev.len() ==> prev[a] == k as usize);
                        }
                    }
                }
            }
            i = i + 1;
        }
        proof {
            assert(tag@.subrange(0, n as int) =~= tag@);
        }
        r
    }

    /// Generates the permutation set: arrangement 0 is the identity (the
    /// observed ranking); each later arrangement is one more shuffle of the
    /// previous one, drawn from the engine's seeded generator.
    pub fn gene_permutation(&mut self) -> (r: Vec<DynamicEnum<usize>>)
        requires
            old(self).nperm >= 1,
        ensures
            r@.len() == old(self).nperm,
            final(self).nperm == old(self).nperm,
            final(self).gene == old(self).gene,
            forall|p: int|
                0 <= p < r@.len() ==> (#[trigger] r@[p]).wf_perm(old(self).gene@.len() as int),
            forall|i: int| 0 <= i < old(self).gene@.len() ==> r@[0]@[i] == i,
    {
        let n = self.gene.size();
        let mut cur = DynamicEnum::<usize>::identity(n);
        let mut gperm: Vec<DynamicEnum<usize>> = Vec::new();
        let mut p: usize = 0;
        let np = self.nperm;
        while p < np
            invariant
                0 <= p <= np,
                np == self.nperm,
                self.nperm == old(self).nperm,
                self.gene == old(self).gene,
                n == self.gene@.len(),
                cur.wf_perm(n as int),
                gperm@.len() == p,
                forall|q: int| 0 <= q < p ==> (#[trigger] gperm@[q]).wf_perm(n as int),
                p > 0 ==> forall|i: int| 0 <= i < n ==> gperm@[0]@[i] == i,
                p == 0 ==> forall|i: int| 0 <= i < n ==> cur@[i] == i,
            decreases np - p,
        {
            if p > 0 {
                cur.shuffle(&mut self.rng);
            }
            let mut copy: Vec<usize> = Vec::new();
            let mut i: usize = 0;
            while i < n
                invariant
                    0 <= i <= n,
                    n == cur@.len(),
                    copy@.len() == i,
                    forall|k: int| 0 <= k < i ==> copy@[k] == cur@[k],
                decreases n - i,
            {
                copy.push(cur.at(i));
                i = i + 1;
            }
            let snapshot = DynamicEnum::<usize>::from_positions(copy);
            proof {
                assert(snapshot@ =~= cur@);
            }
            gperm.push(snapshot);
            p = p + 1;
        }
        gperm
    }

    /// Scores the indicator of every arrangement and returns, besides the
    /// scores, the full running path of the first (observed) indicator.
    pub fn enrichment_score_gene(&self, metric: &Vec<u64>, tags: &Vec<Vec<bool>>) -> (r: (
        Vec<Frac>,
        Vec<Frac>,
    ))
        requires
            tags@.len() > 0,
            forall|p: int| 0 <= p < tags@.len() ==> valid_walk(metric@, (#[trigger] tags@[p])@),
        ensures
            r.0@.len() == tags@.len(),
            forall|p: int|
                0 <= p < tags@.len() ==> es_matches(#[trigger] r.0@[p], metric@, tags@[p]@),
            r.1@.len() == tags@[0]@.len(),
            forall|j: int|
                0 <= j < r.1@.len() ==> (#[trigger] r.1@[j]).num == run_num(
                    metric@,
                    tags@[0]@,
                    j,
                ) && r.1@[j].den == walk_den(metric@, tags@[0]@) && r.1@[j].wf(),
    {
        let mut es: Vec<Frac> = Vec::new();
        let mut p: usize = 0;
        let np = tags.len();
        while p < np
            invariant
                0 <= p <= np,
                np == tags@.len(),
                forall|q: int| 0 <= q < tags@.len() ==> valid_walk(metric@, (#[trigger] tags@[q])@),
                es@.len() == p,
                forall|q: int| 0 <= q < p ==> es_matches(#[trigger] es@[q], metric@, tags@[q]@),
            decreases np - p,
        {
            let tag = &tags[p];
            proof {
                assert(valid_walk(metric@, tags@[p as int]@));
            }
            let num = self.fast_random_walk(metric, tag);
            let den = self.walk_denominator(metric, tag);
            proof {
                let j = choose|j: int|
                    0 <= j < tag@.len() && run_num(metric@, tag@, j) == num;
                lemma_run_num_bounds(metric@, tag@, j);
            }
            es.push(Frac { num, den });
            p = p + 1;
        }
        let tag0 = &tags[0];
        proof {
            assert(valid_walk(metric@, tags@[0]@));
        }
        let nums = self.running_enrichment_score(metric, tag0);
        let den0 = self.walk_denominator(metric, tag0);
        let mut run_es: Vec<Frac> = Vec::new();
        let mut j: usize = 0;
        let n = nums.len();
        while j < n
            invariant
                0 <= j <= n,
                n == nums@.len() == tag0@.len(),
                valid_walk(metric@, tag0@),
                den0 == walk_den(metric@, tag0@),
                0 < den0 < 0x4000_0000_0000_0000,
                forall|i: int| 0 <= i < n ==> nums@[i] == run_num(metric@, tag0@, i),
                run_es@.len() == j,
                forall|i: int|
                    0 <= i < j ==> (#[trigger] run_es@[i]).num == run_num(metric@, tag0@, i)
                        && run_es@[i].den == walk_den(metric@, tag0@) && run_es@[i].wf(),
            decreases n - j,
        {
            proof {
                lemma_run_num_bounds(metric@, tag0@, j as int);
            }
            run_es.push(Frac { num: nums[j], den: den0 });
            j = j + 1;
        }
        (es, run_es)
    }

    /// The common denominator `H * M` of the walk over `(metric, tag)`.
    fn walk_denominator(&self, metric: &Vec<u64>, tag: &Vec<bool>) -> (r: i128)
        requires
            valid_walk(metric@, tag@),
        ensures
            r == walk_den(metric@, tag@),
            0 < r < 0x4000_0000_0000_0000,
    {
        let totals = walk_totals(metric, tag);
        proof {
            lemma_hit_sum_bounds(metric@, tag@, 0, tag@.len() as int);
            lemma_hit_cnt_bounds(tag@, 0, tag@.len() as int);
        }
        let m: usize = tag.len() - totals.k;
        proof {
            assert((totals.h as int) * (m as int) > 0) by (nonlinear_arith)
                requires
                    totals.h > 0,
                    m > 0,
            ;
            assert((totals.h as int) * (m as int) < 0x4000_0000_0000_0000) by (nonlinear_arith)
                requires
                    0 < totals.h < 0x8000_0000,
                    0 < m < 0x8000_0000,
            ;
        }
        (totals.h as i128) * (m as i128)
    }
}

} // verus!
