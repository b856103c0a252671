//! Per-set summaries and the orchestration of a run: membership, size
//! filtering, scoring against every arrangement, and the nominal p-value.

use vstd::prelude::*;
use crate::frac::Frac;
use crate::algorithm::{
    EnrichmentScore, EnrichmentScoreTrait, es_matches, run_num, walk_den, valid_walk, seq_sum,
    lemma_hit_cnt_is_cnt_true,
};
use crate::utils::{
    DynamicEnum, cnt_p, cnt_true, contains_id, distinct_ids, lemma_indicator_count,
    lemma_cnt_p_bounds, klt_pred, kle_pred, kge_pred,
};

verus! {

/// One record per gene set: the observed score, its null distribution, the
/// observed running path, the hit positions, and the nominal p-value.  The
/// normalized score and the pooled corrections live with the caller, which
/// owns the normalization basis.
#[derive(Debug)]
pub struct GSEASummary {
    pub term: String,
    pub es: Frac,
    pub pval: Frac,
    pub run_es: Vec<Frac>,
    pub hits: Vec<usize>,
    pub esnull: Vec<Frac>,
}

/// Predicate closures the counting statistics are stated with.
pub open spec fn le_pred(e: Frac) -> spec_fn(Frac) -> bool {
    |x: Frac| x.le_spec(e)
}

pub open spec fn ge_pred(e: Frac) -> spec_fn(Frac) -> bool {
    |x: Frac| e.le_spec(x)
}

pub open spec fn neg_pred() -> spec_fn(Frac) -> bool {
    |x: Frac| x.is_neg_spec()
}

pub open spec fn nonneg_pred() -> spec_fn(Frac) -> bool {
    |x: Frac| !x.is_neg_spec()
}

/// The one-sided empirical p-value `p` of an observed score against its null
/// distribution: on the observed score's own sign side, the share of null
/// scores at least as extreme.  A side with no samples gives `1` (no
/// evidence).
pub open spec fn pval_matches(p: Frac, es: Frac, esnull: Seq<Frac>) -> bool {
    let nomi = if es.is_neg_spec() {
        cnt_p(esnull, le_pred(es))
    } else {
        cnt_p(esnull, ge_pred(es))
    };
    let deno = if es.is_neg_spec() {
        cnt_p(esnull, neg_pred())
    } else {
        cnt_p(esnull, nonneg_pred())
    };
    if deno == 0 {
        p.num == 1 && p.den == 1
    } else {
        p.num == nomi && p.den == deno
    }
}

/// Counts the null scores at or below `e`.
fn count_le(v: &Vec<Frac>, e: &Frac) -> (r: usize)
    requires
        e.wf(),
        forall|i: int| 0 <= i < v@.len() ==> (#[trigger] v@[i]).wf(),
    ensures
        r == cnt_p(v@, le_pred(*e)),
        r <= v@.len(),
{
    let mut r: usize = 0;
    let mut i: usize = 0;
    while i < v.len()
        invariant
            0 <= i <= v@.len(),
            e.wf(),
            forall|k: int| 0 <= k < v@.len() ==> (#[trigger] v@[k]).wf(),
            r == cnt_p(v@.subrange(0, i as int), le_pred(*e)),
            r <= i,
        decreases v@.len() - i,
    {
        proof {
            assert(v@.subrange(0, i + 1).drop_last() =~= v@.subrange(0, i as int));
            assert(v@.subrange(0, i + 1).last() == v@[i as int]);
        }
        if v[i].le(e) {
            r = r + 1;
        }
        i = i + 1;
    }
    proof {
        assert(v@.subrange(0, v@.len() as int) =~= v@);
    }
    r
}

/// Counts the null scores at or above `e`.
fn count_ge(v: &Vec<Frac>, e: &Frac) -> (r: usize)
    requires
        e.wf(),
        forall|i: int| 0 <= i < v@.len() ==> (#[trigger] v@[i]).wf(),
    ensures
        r == cnt_p(v@, ge_pred(*e)),
        r <= v@.len(),
{
    let mut r: usize = 0;
    let mut i: usize = 0;
    while i < v.len()
        invariant
            0 <= i <= v@.len(),
            e.wf(),
            forall|k: int| 0 <= k < v@.len() ==> (#[trigger] v@[k]).wf(),
            r == cnt_p(v@.subrange(0, i as int), ge_pred(*e)),
            r <= i,
        decreases v@.len() - i,
    {
        proof {
            assert(v@.subrange(0, i + 1).drop_last() =~= v@.subrange(0, i as int));
            assert(v@.subrange(0, i + 1).last() == v@[i as int]);
        }
        if e.le(&v[i]) {
            r = r + 1;
        }
        i = i + 1;
    }
    proof {
        assert(v@.subrange(0, v@.len() as int) =~= v@);
    }
    r
}

/// Counts the strictly negative (`neg` true) or nonnegative (`neg` false)
/// null scores.
fn count_sign(v: &Vec<Frac>, neg: bool) -> (r: usize)
    ensures
        neg ==> r == cnt_p(v@, neg_pred()),
        !neg ==> r == cnt_p(v@, nonneg_pred()),
        r <= v@.len(),
{
    let mut r: usize = 0;
    let mut i: usize = 0;
    while i < v.len()
        invariant
            0 <= i <= v@.len(),
            neg ==> r == cnt_p(v@.subrange(0, i as int), neg_pred()),
            !neg ==> r == cnt_p(v@.subrange(0, i as int), nonneg_pred()),
            r <= i,
        decreases v@.len() - i,
    {
        proof {
            assert(v@.subrange(0, i + 1).drop_last() =~= v@.subrange(0, i as int));
            assert(v@.subrange(0, i + 1).last() == v@[i as int]);
        }
        if v[i].is_neg() == neg {
            r = r + 1;
        }
        i = i + 1;
    }
    proof {
        assert(v@.subrange(0, v@.len() as int) =~= v@);
    }
    r
}

/// The one-sided empirical p-value of `es` against `esnull`.
pub fn compute_pval(es: &Frac, esnull: &Vec<Frac>) -> (r: Frac)
    requires
        es.wf(),
        forall|i: int| 0 <= i < esnull@.len() ==> (#[trigger] esnull@[i]).wf(),
        esnull@.len() < 0x8000_0000,
    ensures
        pval_matches(r, *es, esnull@),
        r.wf(),
        0 <= r.num <= r.den,
{
    let neg = es.is_neg();
    let deno = count_sign(esnull, neg);
    let nomi = if neg {
        count_le(esnull, es)
    } else {
        count_ge(esnull, es)
    };
    if deno == 0 {
        Frac::one()
    } else {
        proof {
            if neg {
                assert forall|i: int|
                    0 <= i < esnull@.len() && le_pred(*es)(#[trigger] esnull@[i]) implies neg_pred()(
                    esnull@[i],
                ) by {
                    let x = esnull@[i];
                    assert(es.num * x.den < 0) by (nonlinear_arith)
                        requires
                            es.num < 0,
                            x.den > 0,
                    ;
                    assert(x.num < 0) by (nonlinear_arith)
                        requires
                            x.num * es.den < 0,
                            es.den > 0,
                    ;
                }
                crate::utils::lemma_cnt_p_subset(esnull@, le_pred(*es), neg_pred());
            } else {
                assert forall|i: int|
                    0 <= i < esnull@.len() && ge_pred(*es)(#[trigger] esnull@[i]) implies nonneg_pred()(
                    esnull@[i],
                ) by {
                    let x = esnull@[i];
                    assert(es.num * x.den >= 0) by (nonlinear_arith)
                        requires
                            es.num >= 0,
                            x.den > 0,
                    ;
                    assert(x.num >= 0) by (nonlinear_arith)
                        requires
                            x.num * es.den >= 0,
                            es.den > 0,
                    ;
                }
                crate::utils::lemma_cnt_p_subset(esnull@, ge_pred(*es), nonneg_pred());
            }
        }
        Frac { num: nomi as i128, den: deno as i128 }
    }
}

impl GSEASummary {
    /// Fills in the record's nominal p-value from its own null distribution.
    pub fn pval(&mut self)
        requires
            old(self).es.wf(),
            forall|i: int| 0 <= i < old(self).esnull@.len() ==> (#[trigger] old(self).esnull@[i]).wf(),
            old(self).esnull@.len() < 0x8000_0000,
        ensures
            pval_matches(final(self).pval, old(self).es, old(self).esnull@),
            final(self).term == old(self).term,
            final(self).es == old(self).es,
            final(self).run_es == old(self).run_es,
            final(self).hits == old(self).hits,
            final(self).esnull == old(self).esnull,
    {
        let p = compute_pval(&self.es, &self.esnull);
        self.pval = p;
    }
}

/// The identity-arrangement membership indicator of `elts` against the
/// ranked identifiers `ids`.
pub open spec fn identity_tag(ids: Seq<Seq<char>>, elts: Seq<Seq<char>>) -> Seq<bool> {
    Seq::new(ids.len(), |i: int| contains_id(elts, ids[i]))
}

/// The membership indicator of `elts` under the arrangement `arr`: slot `i`
/// of the arrangement holds ranked position `arr[i]`, whose identifier is
/// `ids[arr[i]]`.
pub open spec fn perm_tag(ids: Seq<Seq<char>>, elts: Seq<Seq<char>>, arr: Seq<usize>) -> Seq<bool> {
    Seq::new(arr.len(), |i: int| contains_id(elts, ids[arr[i] as int]))
}

/// The hit positions are exactly the marked positions of the identity
/// indicator, listed in increasing order.
pub open spec fn hits_match(hits: Seq<usize>, ids: Seq<Seq<char>>, elts: Seq<Seq<char>>) -> bool {
    &&& hits.len() == cnt_true(identity_tag(ids, elts))
    &&& (forall|a: int, b: int| 0 <= a < b < hits.len() ==> hits[a] < hits[b])
    &&& (forall|a: int| 0 <= a < hits.len() ==> (#[trigger] hits[a]) < ids.len())
    &&& (forall|i: int|
        0 <= i < ids.len() ==> (identity_tag(ids, elts)[i] <==> hits.contains(i as usize)))
}

/// A gene set qualifies when its hit count passes the size filter and the
/// walk is well defined under every shared arrangement (in particular, no
/// arrangement gives the set zero hit weight).
pub open spec fn qualifies(
    ids: Seq<Seq<char>>,
    arrs: Seq<Seq<usize>>,
    metric: Seq<u64>,
    elts: Seq<Seq<char>>,
    min_size: int,
    max_size: int,
) -> bool {
    &&& min_size <= cnt_true(identity_tag(ids, elts)) <= max_size
    &&& (forall|p: int|
        0 <= p < arrs.len() ==> valid_walk(metric, perm_tag(ids, elts, #[trigger] arrs[p])))
}

/// One summary is the exact record of one gene set: its term, hit positions,
/// observed score and path under the first arrangement, and one null score
/// per later arrangement.
pub open spec fn summary_matches(
    s: GSEASummary,
    ids: Seq<Seq<char>>,
    arrs: Seq<Seq<usize>>,
    metric: Seq<u64>,
    term: Seq<char>,
    elts: Seq<Seq<char>>,
) -> bool {
    let tag0 = perm_tag(ids, elts, arrs[0]);
    &&& s.term@ == term
    &&& hits_match(s.hits@, ids, elts)
    &&& es_matches(s.es, metric, tag0)
    &&& s.run_es@.len() == tag0.len()
    &&& (forall|j: int|
        0 <= j < s.run_es@.len() ==> (#[trigger] s.run_es@[j]).num == run_num(metric, tag0, j)
            && s.run_es@[j].den == walk_den(metric, tag0) && s.run_es@[j].wf())
    &&& s.esnull@.len() == arrs.len() - 1
    &&& (forall|p: int|
        0 <= p < arrs.len() - 1 ==> es_matches(
            #[trigger] s.esnull@[p],
            metric,
            perm_tag(ids, elts, arrs[p + 1]),
        ))
    &&& (if arrs.len() > 1 {
        pval_matches(s.pval, s.es, s.esnull@)
    } else {
        s.pval.num == 0 && s.pval.den == 1
    })
}

/// The summaries are exactly the records of the qualifying gene sets, in the
/// gene sets' own order.
pub open spec fn summaries_match(
    r: Seq<GSEASummary>,
    ids: Seq<Seq<char>>,
    arrs: Seq<Seq<usize>>,
    metric: Seq<u64>,
    gmt: Seq<(String, Vec<String>)>,
    min_size: int,
    max_size: int,
) -> bool
    decreases gmt.len(),
{
    if gmt.len() == 0 {
        r.len() == 0
    } else {
        let elts = gmt.last().1.deep_view();
        if qualifies(ids, arrs, metric, elts, min_size, max_size) {
            &&& r.len() >= 1
            &&& summaries_match(r.drop_last(), ids, arrs, metric, gmt.drop_last(), min_size, max_size)
            &&& summary_matches(r.last(), ids, arrs, metric, gmt.last().0@, elts)
        } else {
            summaries_match(r, ids, arrs, metric, gmt.drop_last(), min_size, max_size)
        }
    }
}

/// Why a run was rejected before any computation.
#[derive(Debug, Clone, Copy, PartialEq, Eq, Structural)]
pub enum GseaError {
    /// The ranking's identifiers and scores differ in length.
    LengthMismatch,
    /// The ranking is empty.
    EmptyRanking,
    /// Two ranked identifiers are equal.
    DuplicateGene,
    /// The size filter is empty or inverted.
    BadSizeBounds,
}

/// The run's parameters and, after `prerank`, one summary per qualifying
/// gene set.  The weighting exponent is applied by the caller, which hands
/// the already-weighted metric in as nonnegative integers.
#[derive(Debug)]
pub struct GSEAResult {
    pub summaries: Vec<GSEASummary>,
    pub min_size: usize,
    pub max_size: usize,
    pub nperm: usize,
    pub seed: u64,
}

impl GSEAResult {
    /// A result shell holding the run's parameters.
    pub fn new(max_size: usize, min_size: usize, nperm: usize, seed: u64) -> (r: Self)
        ensures
            r.summaries@.len() == 0,
            r.min_size == min_size,
            r.max_size == max_size,
            r.nperm == nperm,
            r.seed == seed,
    {
        GSEAResult { summaries: Vec::new(), min_size, max_size, nperm, seed }
    }

    /// Runs the whole preranked analysis: validates the input shape, builds
    /// the universe, draws the shared arrangements (identity first), scores
    /// every qualifying gene set against all of them and fills in the
    /// nominal p-values.  The arrangements exist but are not pinned: they
    /// come from the seeded generator.
    pub fn prerank(
        &mut self,
        genes: &Vec<String>,
        metric: &Vec<u64>,
        gmt: &Vec<(String, Vec<String>)>,
    ) -> (r: Result<(), GseaError>)
        requires
            old(self).nperm < 0x7FFF_FFFE,
            genes@.len() < 0x8000_0000,
            seq_sum(metric@) < 0x8000_0000,
        ensures
            final(self).min_size == old(self).min_size,
            final(self).max_size == old(self).max_size,
            final(self).nperm == old(self).nperm,
            final(self).seed == old(self).seed,
            r is Err ==> final(self).summaries == old(self).summaries,
            match r {
                Err(GseaError::LengthMismatch) => genes@.len() != metric@.len(),
                Err(GseaError::EmptyRanking) => genes@.len() == metric@.len() && genes@.len() == 0,
                Err(GseaError::DuplicateGene) => genes@.len() == metric@.len() && genes@.len() > 0
                    && !distinct_ids(genes.deep_view()),
                Err(GseaError::BadSizeBounds) => genes@.len() == metric@.len() && genes@.len() > 0
                    && distinct_ids(genes.deep_view()) && (old(self).min_size < 1 || old(
                    self,
                ).min_size > old(self).max_size),
                Ok(()) => genes@.len() == metric@.len() && genes@.len() > 0 && distinct_ids(
                    genes.deep_view(),
                ) && 1 <= old(self).min_size <= old(self).max_size && (exists|
                    arrs: Seq<Seq<usize>>,
                |
                    {
                        &&& arrs.len() == old(self).nperm + 1
                        &&& (forall|i: int| 0 <= i < genes@.len() ==> arrs[0][i] == i)
                        &&& (forall|p: int|
                            0 <= p < arrs.len() ==> (#[trigger] arrs[p]).len() == genes@.len()
                                && arrs[p].no_duplicates() && (forall|i: int|
                                0 <= i < genes@.len() ==> (#[trigger] arrs[p][i]) < genes@.len()))
                        &&& summaries_match(
                            final(self).summaries@,
                            genes.deep_view(),
                            arrs,
                            metric@,
                            gmt@,
                            old(self).min_size as int,
                            old(self).max_size as int,
                        )
                    }),
            },
    {
        if genes.len() != metric.len() {
            return Err(GseaError::LengthMismatch);
        }
        if genes.len() == 0 {
            return Err(GseaError::EmptyRanking);
        }
        match DynamicEnum::<String>::from(genes) {
            Some(_) => (),
            None => {
                return Err(GseaError::DuplicateGene);
            },
        }
        if self.min_size < 1 || self.min_size > self.max_size {
            return Err(GseaError::BadSizeBounds);
        }
        let mut engine = EnrichmentScore::new(genes, self.nperm, self.seed);
        let gperm = engine.gene_permutation();
        let summ = score_sets(&engine, &gperm, metric, gmt, self.min_size, self.max_size);
        self.summaries = summ;
        proof {
            let arrs = Seq::new(gperm@.len() as nat, |p: int| gperm@[p]@);
            assert(forall|p: int|
                0 <= p < arrs.len() ==> (#[trigger] arrs[p]) == gperm@[p]@);
            assert(arrs_views(gperm@) =~= arrs);
        }
        Ok(())
    }
}

/// The arrangements' position sequences.
pub open spec fn arrs_views(gperm: Seq<DynamicEnum<usize>>) -> Seq<Seq<usize>> {
    Seq::new(gperm.len(), |p: int| gperm[p]@)
}

/// Scores every gene set against the given shared arrangements, applying the
/// size filter and rejecting sets whose walk would be degenerate under any
/// arrangement.  The summaries come back in the gene sets' input order.
pub fn score_sets(
    engine: &EnrichmentScore,
    arrangements: &Vec<DynamicEnum<usize>>,
    metric: &Vec<u64>,
    gmt: &Vec<(String, Vec<String>)>,
    min_size: usize,
    max_size: usize,
) -> (r: Vec<GSEASummary>)
    requires
        engine.gene.wf(),
        metric@.len() == engine.gene@.len(),
        metric@.len() < 0x8000_0000,
        seq_sum(metric@) < 0x8000_0000,
        min_size >= 1,
        arrangements@.len() >= 1,
        arrangements@.len() < 0x8000_0000,
        forall|p: int|
            0 <= p < arrangements@.len() ==> (#[trigger] arrangements@[p]).wf_perm(
                engine.gene@.len() as int,
            ),
    ensures
        summaries_match(
            r@,
            engine.gene.ids(),
            arrs_views(arrangements@),
            metric@,
            gmt@,
            min_size as int,
            max_size as int,
        ),
{
    let ghost ids = engine.gene.ids();
    let ghost arrs = arrs_views(arrangements@);
    let n = metric.len();
    let mut r: Vec<GSEASummary> = Vec::new();
    let mut g: usize = 0;
    let ng = gmt.len();
    while g < ng
        invariant
            0 <= g <= ng,
            ng == gmt@.len(),
            ids == engine.gene.ids(),
            arrs == arrs_views(arrangements@),
            n == metric@.len() == engine.gene@.len(),
            engine.gene.wf(),
            metric@.len() < 0x8000_0000,
            seq_sum(metric@) < 0x8000_0000,
            min_size >= 1,
            1 <= arrangements@.len() < 0x8000_0000,
            forall|p: int|
                0 <= p < arrangements@.len() ==> (#[trigger] arrangements@[p]).wf_perm(n as int),
            summaries_match(
                r@,
                ids,
                arrs,
                metric@,
                gmt@.subrange(0, g as int),
                min_size as int,
                max_size as int,
            ),
        decreases ng - g,
    {
        let ghost elts = gmt@[g as int].1.deep_view();
        let gtag = engine.gene.isin(&gmt[g].1);
        let gidx = engine.hit_index(&gtag);
        let k = gidx.len();
        proof {
            assert(gtag@ =~= identity_tag(ids, elts));
        }
        let mut keep = k >= min_size && k <= max_size && k < n;
        proof {
            if !keep {
                if min_size <= k <= max_size {
                    crate::utils::lemma_cnt_p_bounds(gtag@, |b: bool| b);
                    assert(k == gtag@.len());
                    crate::utils::lemma_cnt_p_all(gtag@, |b: bool| b);
                    let arr0 = arrs[0];
                    assert(arrangements@[0].wf_perm(n as int));
                    assert forall|i: int| 0 <= i < n implies perm_tag(ids, elts, arr0)[i] by {
                        assert(arr0[i] < n);
                        assert(gtag@[arr0[i] as int]);
                    }
                    lemma_all_true_cnt(perm_tag(ids, elts, arr0));
                    lemma_hit_cnt_is_cnt_true(
                        perm_tag(ids, elts, arr0),
                        perm_tag(ids, elts, arr0).len() as int,
                    );
                    assert(perm_tag(ids, elts, arr0).subrange(
                        0,
                        perm_tag(ids, elts, arr0).len() as int,
                    ) =~= perm_tag(ids, elts, arr0));
                    assert(!valid_walk(metric@, perm_tag(ids, elts, arr0)));
                }
                assert(!qualifies(ids, arrs, metric@, elts, min_size as int, max_size as int));
            }
        }
        let mut tags: Vec<Vec<bool>> = Vec::new();
        let mut p: usize = 0;
        let np = arrangements.len();
        while keep && p < np
            invariant
                0 <= p <= np,
                np == arrangements@.len() < 0x8000_0000,
                g < ng == gmt@.len(),
                ids == engine.gene.ids(),
                arrs == arrs_views(arrangements@),
                n == metric@.len() == engine.gene@.len(),
                engine.gene.wf(),
                seq_sum(metric@) < 0x8000_0000,
                metric@.len() < 0x8000_0000,
                elts == gmt@[g as int].1.deep_view(),
                gtag@ == identity_tag(ids, elts),
                k == gidx@.len() == cnt_true(gtag@),
                forall|a: int, b: int| 0 <= a < b < gidx@.len() ==> gidx@[a] < gidx@[b],
                forall|a: int| 0 <= a < gidx@.len() ==> (#[trigger] gidx@[a]) < n && gtag@[gidx@[a] as int],
                forall|i: int| 0 <= i < n ==> (gtag@[i] <==> gidx@.contains(i as usize)),
                gidx@.no_duplicates(),
                min_size >= 1,
                forall|q: int|
                    0 <= q < arrangements@.len() ==> (#[trigger] arrangements@[q]).wf_perm(n as int),
                keep ==> min_size <= k <= max_size && k < n,
                keep ==> tags@.len() == p,
                keep ==> forall|q: int|
                    0 <= q < p ==> (#[trigger] tags@[q])@ == perm_tag(ids, elts, arrs[q]),
                keep ==> forall|q: int|
                    0 <= q < p ==> valid_walk(metric@, (#[trigger] tags@[q])@),
                !keep ==> !qualifies(ids, arrs, metric@, elts, min_size as int, max_size as int),
            decreases np - p,
        {
            let tg = arrangements[p].isin(&gidx);
            proof {
                lemma_tag_transport(ids, elts, arrangements@[p as int]@, gtag@, gidx@, tg@);
                assert(tg@ =~= perm_tag(ids, elts, arrs[p as int]));
            }
            let totals = crate::algorithm::walk_totals(metric, &tg);
            proof {
                assert(ids.len() == n);
                lemma_perm_count(ids, elts, arrangements@[p as int]@, gtag@, gidx@, tg@);
                lemma_hit_cnt_is_cnt_true(tg@, tg@.len() as int);
                assert(tg@.subrange(0, tg@.len() as int) =~= tg@);
            }
            if totals.h == 0 {
                keep = false;
                proof {
                    assert(!valid_walk(metric@, perm_tag(ids, elts, arrs[p as int])));
                }
            } else {
                proof {
                    assert(valid_walk(metric@, tg@));
                }
                tags.push(tg);
            }
            p = p + 1;
        }
        if keep {
            proof {
                assert forall|q: int|
                    0 <= q < arrs.len() implies valid_walk(
                    metric@,
                    perm_tag(ids, elts, #[trigger] arrs[q]),
                ) by {
                    assert(tags@[q]@ == perm_tag(ids, elts, arrs[q]));
                    assert(valid_walk(metric@, tags@[q]@));
                }
                assert(qualifies(ids, arrs, metric@, elts, min_size as int, max_size as int));
            }
            let (ess, run_es) = engine.enrichment_score_gene(metric, &tags);
            let es0 = ess[0];
            let mut esnull: Vec<Frac> = Vec::new();
            let mut q: usize = 1;
            while q < ess.len()
                invariant
                    1 <= q <= ess@.len(),
                    esnull@.len() == q - 1,
                    forall|t: int| 0 <= t < q - 1 ==> esnull@[t] == ess@[t + 1],
                decreases ess@.len() - q,
            {
                esnull.push(ess[q]);
                q = q + 1;
            }
            let pv = if arrangements.len() > 1 {
                compute_pval(&es0, &esnull)
            } else {
                Frac::zero()
            };
            let summary = GSEASummary {
                term: gmt[g].0.clone(),
                es: es0,
                pval: pv,
                run_es,
                hits: gidx,
                esnull,
            };
            let ghost prev_r = r@;
            r.push(summary);
            proof {
                assert(r@.drop_last() =~= prev_r);
                assert(summary_matches(r@.last(), ids, arrs, metric@, gmt@[g as int].0@, elts));
                assert(gmt@.subrange(0, g + 1).drop_last() =~= gmt@.subrange(0, g as int));
                assert(gmt@.subrange(0, g + 1).last() == gmt@[g as int]);
            }
        } else {
            proof {
                assert(gmt@.subrange(0, g + 1).drop_last() =~= gmt@.subrange(0, g as int));
                assert(gmt@.subrange(0, g + 1).last() == gmt@[g as int]);
            }
        }
        g = g + 1;
    }
    proof {
        assert(gmt@.subrange(0, ng as int) =~= gmt@);
    }
    r
}

/// Every entry true means the count is the length.
proof fn lemma_all_true_cnt(s: Seq<bool>)
    requires
        forall|i: int| 0 <= i < s.len() ==> s[i],
    ensures
        cnt_true(s) == s.len(),
    decreases s.len(),
{
    if s.len() > 0 {
        assert(forall|i: int| 0 <= i < s.drop_last().len() ==> s.drop_last()[i]);
        lemma_all_true_cnt(s.drop_last());
    }
}

/// Transport of the membership indicator through an arrangement: marking the
/// hit positions of a gene set under a permuted arrangement is the same as
/// reading the gene set's membership at the permuted identifiers.
proof fn lemma_tag_transport(
    ids: Seq<Seq<char>>,
    elts: Seq<Seq<char>>,
    arr: Seq<usize>,
    gtag: Seq<bool>,
    gidx: Seq<usize>,
    tg: Seq<bool>,
)
    requires
        gtag == identity_tag(ids, elts),
        arr.len() == ids.len(),
        forall|i: int| 0 <= i < arr.len() ==> (#[trigger] arr[i]) < ids.len(),
        forall|i: int| 0 <= i < ids.len() ==> (gtag[i] <==> gidx.contains(i as usize)),
        tg.len() == arr.len(),
        forall|i: int| 0 <= i < tg.len() ==> tg[i] == gidx.contains(#[trigger] arr[i]),
    ensures
        tg =~= perm_tag(ids, elts, arr),
{
    assert forall|i: int| 0 <= i < tg.len() implies tg[i] == perm_tag(ids, elts, arr)[i] by {
        assert(tg[i] == gidx.contains(arr[i]));
        assert(gtag[arr[i] as int] == gidx.contains(arr[i]));
    }
}

/// The hit count of a gene set is the same under every arrangement: the
/// arrangement only moves the marked positions around.
proof fn lemma_perm_count(
    ids: Seq<Seq<char>>,
    elts: Seq<Seq<char>>,
    arr: Seq<usize>,
    gtag: Seq<bool>,
    gidx: Seq<usize>,
    tg: Seq<bool>,
)
    requires
        gtag == identity_tag(ids, elts),
        ids.len() < 0x8000_0000,
        arr.len() == ids.len(),
        arr.no_duplicates(),
        forall|i: int| 0 <= i < arr.len() ==> (#[trigger] arr[i]) < ids.len(),
        forall|i: int| 0 <= i < ids.len() ==> (gtag[i] <==> gidx.contains(i as usize)),
        gidx.no_duplicates(),
        forall|a: int| 0 <= a < gidx.len() ==> (#[trigger] gidx[a]) < ids.len(),
        tg.len() == arr.len(),
        forall|i: int| 0 <= i < tg.len() ==> tg[i] == gidx.contains(#[trigger] arr[i]),
        gidx.len() == cnt_true(gtag),
    ensures
        cnt_true(tg) == gidx.len(),
{
    let n = ids.len() as int;
    lemma_indicator_count(arr, gidx, tg);
    gidx.unique_seq_to_set();
    arr.unique_seq_to_set();
    let idseq = Seq::new(n as nat, |i: int| i as usize);
    assert forall|a: int, b: int| 0 <= a < b < idseq.len() implies idseq[a] != idseq[b] by {
        assert(idseq[a] == a as usize);
        assert(idseq[b] == b as usize);
    }
    assert(idseq.no_duplicates());
    idseq.unique_seq_to_set();
    assert forall|x: usize| arr.to_set().contains(x) implies idseq.to_set().contains(x) by {
        assert(arr.contains(x));
        let i = choose|i: int| 0 <= i < arr.len() && arr[i] == x;
        assert(idseq[x as int] == x);
        assert(idseq.contains(x));
    }
    vstd::set_lib::lemma_subset_equality(arr.to_set(), idseq.to_set());
    assert forall|x: usize| gidx.to_set().contains(x) implies arr.to_set().contains(x) by {
        assert(gidx.contains(x));
        let a = choose|a: int| 0 <= a < gidx.len() && gidx[a] == x;
        assert(idseq[x as int] == x);
        assert(idseq.contains(x));
        assert(idseq.to_set().contains(x));
    }
    assert(gidx.to_set().intersect(arr.to_set()) =~= gidx.to_set());
}

/// Order-preserving integer keys of the normalized scores: the key of zero.
/// Keys below it stand for strictly negative scores.
pub const ZERO_KEY: u64 = 0x8000_0000_0000_0000;

/// Column `j` of the pooled null matrix laid out set-major: one normalized
/// null score per gene set for permutation `j`.
pub open spec fn col_seq(nulls: Seq<u64>, nperm: int, nsets: int, j: int) -> Seq<u64> {
    Seq::new(nsets as nat, |k: int| nulls[k * nperm + j])
}

/// Largest key of a column, with the zero key as baseline: the column's
/// most extreme positive score, or zero if it has none.
pub open spec fn fold_max(s: Seq<u64>) -> u64
    decreases s.len(),
{
    if s.len() == 0 {
        ZERO_KEY
    } else {
        let r = fold_max(s.drop_last());
        if s.last() > r {
            s.last()
        } else {
            r
        }
    }
}

/// Smallest key of a column, with the zero key as baseline: the column's
/// most extreme negative score, or zero if it has none.
pub open spec fn fold_min(s: Seq<u64>) -> u64
    decreases s.len(),
{
    if s.len() == 0 {
        ZERO_KEY
    } else {
        let r = fold_min(s.drop_last());
        if s.last() < r {
            s.last()
        } else {
            r
        }
    }
}

/// Per-permutation positive extremes across all gene sets.
pub open spec fn extremes_pos(nulls: Seq<u64>, nperm: int, nsets: int) -> Seq<u64> {
    Seq::new(nperm as nat, |j: int| fold_max(col_seq(nulls, nperm, nsets, j)))
}

/// Per-permutation negative extremes across all gene sets.
pub open spec fn extremes_neg(nulls: Seq<u64>, nperm: int, nsets: int) -> Seq<u64> {
    Seq::new(nperm as nat, |j: int| fold_min(col_seq(nulls, nperm, nsets, j)))
}

/// The family-wise error rate estimate of one observed key `e`: the share of
/// permutations whose most extreme same-signed pooled score is at least as
/// extreme as `e`.  On the negative side the denominator counts only the
/// permutations that produced a negative extreme at all; if none did, the
/// estimate degrades to `1` (no evidence).
pub open spec fn fwer_matches(f: Frac, e: u64, nulls: Seq<u64>, nperm: int, nsets: int) -> bool {
    let mx = extremes_pos(nulls, nperm, nsets);
    let mn = extremes_neg(nulls, nperm, nsets);
    if e < ZERO_KEY {
        let deno = cnt_p(mn, klt_pred(ZERO_KEY));
        if deno == 0 {
            f.num == 1 && f.den == 1
        } else {
            f.num == cnt_p(mn, klt_pred(e)) && f.den == deno
        }
    } else {
        f.num == cnt_p(mx, kge_pred(e)) && f.den == nperm
    }
}

/// The false discovery rate estimate of one observed key `e` against the
/// pooled observed keys and pooled null keys: the ratio of the null tail
/// share to the observed tail share on `e`'s own sign side, capped at `1`.
/// A side with no null samples gives `0`.
pub open spec fn fdr_matches(f: Frac, e: u64, nes: Seq<u64>, nulls: Seq<u64>) -> bool {
    let nh = if e < ZERO_KEY {
        cnt_p(nes, kle_pred(e))
    } else {
        cnt_p(nes, kge_pred(e))
    };
    let ah = if e < ZERO_KEY {
        cnt_p(nulls, kle_pred(e))
    } else {
        cnt_p(nulls, kge_pred(e))
    };
    let ap = if e < ZERO_KEY {
        cnt_p(nulls, klt_pred(ZERO_KEY))
    } else {
        cnt_p(nulls, kge_pred(ZERO_KEY))
    };
    let np_ = if e < ZERO_KEY {
        cnt_p(nes, klt_pred(ZERO_KEY))
    } else {
        cnt_p(nes, kge_pred(ZERO_KEY))
    };
    if ap == 0 {
        f.num == 0 && f.den == 1
    } else {
        f.den == ap * nh && f.num == (if ah * np_ <= ap * nh {
            ah * np_
        } else {
            ap * nh
        })
    }
}

/// Counts the keys strictly below `e`.
fn count_keys_lt(v: &Vec<u64>, e: u64) -> (r: usize)
    ensures
        r == cnt_p(v@, klt_pred(e)),
        r <= v@.len(),
{
    let mut r: usize = 0;
    let mut i: usize = 0;
    while i < v.len()
        invariant
            0 <= i <= v@.len(),
            r == cnt_p(v@.subrange(0, i as int), klt_pred(e)),
            r <= i,
        decreases v@.len() - i,
    {
        proof {
            assert(v@.subrange(0, i + 1).drop_last() =~= v@.subrange(0, i as int));
            assert(v@.subrange(0, i + 1).last() == v@[i as int]);
        }
        if v[i] < e {
            r = r + 1;
        }
        i = i + 1;
    }
    proof {
        assert(v@.subrange(0, v@.len() as int) =~= v@);
    }
    r
}

/// Counts the keys at or above `e`.
fn count_keys_ge(v: &Vec<u64>, e: u64) -> (r: usize)
    ensures
        r == cnt_p(v@, kge_pred(e)),
        r <= v@.len(),
{
    let mut r: usize = 0;
    let mut i: usize = 0;
    while i < v.len()
        invariant
            0 <= i <= v@.len(),
            r == cnt_p(v@.subrange(0, i as int), kge_pred(e)),
            r <= i,
        decreases v@.len() - i,
    {
        proof {
            assert(v@.subrange(0, i + 1).drop_last() =~= v@.subrange(0, i as int));
            assert(v@.subrange(0, i + 1).last() == v@[i as int]);
        }
        if v[i] >= e {
            r = r + 1;
        }
        i = i + 1;
    }
    proof {
        assert(v@.subrange(0, v@.len() as int) =~= v@);
    }
    r
}

impl GSEAResult {
    /// Family-wise error rate estimates for every observed key, against the
    /// pooled null keys laid out set-major with `self.nperm` columns.
    pub fn fwer_pval(&self, nes_keys: &Vec<u64>, nesnull_keys: &Vec<u64>) -> (r: Vec<Frac>)
        requires
            1 <= self.nperm < 0x8000_0000,
            nes_keys@.len() < 0x8000_0000,
            nesnull_keys@.len() == nes_keys@.len() * self.nperm,
        ensures
            r@.len() == nes_keys@.len(),
            forall|s: int|
                0 <= s < r@.len() ==> fwer_matches(
                    #[trigger] r@[s],
                    nes_keys@[s],
                    nesnull_keys@,
                    self.nperm as int,
                    nes_keys@.len() as int,
                ),
            forall|s: int| 0 <= s < r@.len() ==> (#[trigger] r@[s]).wf() && 0 <= r@[s].num <= r@[s].den,
    {
        let nperm = self.nperm;
        let nsets = nes_keys.len();
        let nl = nesnull_keys.len();
        let ghost nulls = nesnull_keys@;
        let mut mx: Vec<u64> = Vec::new();
        let mut mn: Vec<u64> = Vec::new();
        let mut j: usize = 0;
        while j < nperm
            invariant
                0 <= j <= nperm,
                1 <= nperm < 0x8000_0000,
                nsets < 0x8000_0000,
                nsets == nes_keys@.len(),
                nulls == nesnull_keys@,
                nulls.len() == nsets * nperm,
                nl == nulls.len(),
                mx@.len() == j,
                mn@.len() == j,
                forall|t: int|
                    0 <= t < j ==> (#[trigger] mx@[t]) == fold_max(
                        col_seq(nulls, nperm as int, nsets as int, t),
                    ),
                forall|t: int|
                    0 <= t < j ==> (#[trigger] mn@[t]) == fold_min(
                        col_seq(nulls, nperm as int, nsets as int, t),
                    ),
            decreases nperm - j,
        {
            let ghost cs = col_seq(nulls, nperm as int, nsets as int, j as int);
            let mut hi: u64 = ZERO_KEY;
            let mut lo: u64 = ZERO_KEY;
            let mut k: usize = 0;
            while k < nsets
                invariant
                    0 <= k <= nsets,
                    j < nperm,
                    1 <= nperm < 0x8000_0000,
                    nsets < 0x8000_0000,
                    nsets == nes_keys@.len(),
                    nulls == nesnull_keys@,
                    nulls.len() == nsets * nperm,
                    nl == nulls.len(),
                    cs == col_seq(nulls, nperm as int, nsets as int, j as int),
                    hi == fold_max(cs.subrange(0, k as int)),
                    lo == fold_min(cs.subrange(0, k as int)),
                decreases nsets - k,
            {
                proof {
                    assert(0 <= (k as int) * (nperm as int) + (j as int) < (nsets as int) * (
                    nperm as int)) by (nonlinear_arith)
                        requires
                            0 <= (k as int) < (nsets as int),
                            0 <= (j as int) < (nperm as int),
                    ;
                    assert((k as int) * (nperm as int) + (j as int) < nl as int);
                    assert((k * nperm + j) as int == (k as int) * (nperm as int) + (j as int));
                    assert(cs.subrange(0, k + 1).drop_last() =~= cs.subrange(0, k as int));
                    assert(cs.subrange(0, k + 1).last() == cs[k as int]);
                    assert(cs[k as int] == nulls[(k as int) * (nperm as int) + (j as int)]);
                }
                let e = nesnull_keys[k * nperm + j];
                if e > hi {
                    hi = e;
                }
                if e < lo {
                    lo = e;
                }
                k = k + 1;
            }
            proof {
                assert(cs.subrange(0, nsets as int) =~= cs);
            }
            mx.push(hi);
            mn.push(lo);
            j = j + 1;
        }
        proof {
            assert(mx@ =~= extremes_pos(nulls, nperm as int, nsets as int));
            assert(mn@ =~= extremes_neg(nulls, nperm as int, nsets as int));
        }
        let mut r: Vec<Frac> = Vec::new();
        let mut s: usize = 0;
        while s < nsets
            invariant
                0 <= s <= nsets,
                nsets == nes_keys@.len() < 0x8000_0000,
                1 <= nperm < 0x8000_0000,
                nulls == nesnull_keys@,
                nulls.len() == nsets * nperm,
                mx@ == extremes_pos(nulls, nperm as int, nsets as int),
                mn@ == extremes_neg(nulls, nperm as int, nsets as int),
                mx@.len() == nperm,
                mn@.len() == nperm,
                r@.len() == s,
                forall|t: int|
                    0 <= t < s ==> fwer_matches(
                        #[trigger] r@[t],
                        nes_keys@[t],
                        nulls,
                        nperm as int,
                        nsets as int,
                    ),
                forall|t: int| 0 <= t < s ==> (#[trigger] r@[t]).wf() && 0 <= r@[t].num <= r@[t].den,
            decreases nsets - s,
        {
            let e = nes_keys[s];
            let f: Frac = if e < ZERO_KEY {
                let deno = count_keys_lt(&mn, ZERO_KEY);
                if deno == 0 {
                    Frac::one()
                } else {
                    let nomi = count_keys_lt(&mn, e);
                    proof {
                        assert forall|i: int|
                            0 <= i < mn@.len() && klt_pred(e)(#[trigger] mn@[i]) implies klt_pred(
                            ZERO_KEY,
                        )(mn@[i]) by {}
                        crate::utils::lemma_cnt_p_subset(mn@, klt_pred(e), klt_pred(ZERO_KEY));
                    }
                    Frac { num: nomi as i128, den: deno as i128 }
                }
            } else {
                let nomi = count_keys_ge(&mx, e);
                Frac { num: nomi as i128, den: nperm as i128 }
            };
            r.push(f);
            s = s + 1;
        }
        r
    }

    /// False discovery rate estimates for every observed key, computed over
    /// sorted copies of the two pools by binary-searched partition points and
    /// written back in the observed keys' input order.  Every estimate lies
    /// in `[0, 1]`.
    pub fn fdr(&self, nes_keys: &Vec<u64>, nesnull_keys: &Vec<u64>) -> (r: Vec<Frac>)
        requires
            nes_keys@.len() < 0x8000_0000,
            nesnull_keys@.len() < 0x8000_0000,
        ensures
            r@.len() == nes_keys@.len(),
            forall|i: int|
                0 <= i < r@.len() ==> fdr_matches(
                    #[trigger] r@[i],
                    nes_keys@[i],
                    nes_keys@,
                    nesnull_keys@,
                ),
            forall|i: int| 0 <= i < r@.len() ==> (#[trigger] r@[i]).wf() && 0 <= r@[i].num <= r@[i].den,
    {
        let ghost nes = nes_keys@;
        let ghost nulls = nesnull_keys@;
        let n = nes_keys.len();
        let sortednull = crate::utils::sort_keys(nesnull_keys);
        let (sidx, sval) = crate::utils::argsort(nes_keys);
        let mut fdrs: Vec<Frac> = Vec::new();
        let mut k: usize = 0;
        while k < n
            invariant
                0 <= k <= n,
                n == nes.len() < 0x8000_0000,
                nes == nes_keys@,
                nulls == nesnull_keys@,
                nulls.len() < 0x8000_0000,
                crate::utils::sorted(sortednull@),
                sortednull@.to_multiset() == nulls.to_multiset(),
                sortednull@.len() == nulls.len(),
                crate::utils::sorted(sval@),
                sval@.to_multiset() == nes.to_multiset(),
                sval@.len() == n,
                sidx@.len() == n,
                forall|t: int| 0 <= t < n ==> (#[trigger] sidx@[t]) < n && sval@[t] == nes[sidx@[t] as int],
                sidx@.no_duplicates(),
                fdrs@.len() == k,
                forall|t: int|
                    0 <= t < k ==> fdr_matches(#[trigger] fdrs@[t], sval@[t], nes, nulls),
                forall|t: int| 0 <= t < k ==> (#[trigger] fdrs@[t]).wf() && 0 <= fdrs@[t].num
                    <= fdrs@[t].den,
            decreases n - k,
        {
            let e = sval[k];
            let nh: usize;
            let ah: usize;
            let ap: usize;
            let np_: usize;
            if e < ZERO_KEY {
                nh = crate::utils::partition_le(&sval, e);
                ah = crate::utils::partition_le(&sortednull, e);
                ap = crate::utils::partition_lt(&sortednull, ZERO_KEY);
                np_ = crate::utils::partition_lt(&sval, ZERO_KEY);
                proof {
                    crate::utils::lemma_cnt_p_multiset(sval@, nes, kle_pred(e));
                    crate::utils::lemma_cnt_p_multiset(sortednull@, nulls, kle_pred(e));
                    crate::utils::lemma_cnt_p_multiset(sortednull@, nulls, klt_pred(ZERO_KEY));
                    crate::utils::lemma_cnt_p_multiset(sval@, nes, klt_pred(ZERO_KEY));
                    crate::utils::lemma_cnt_p_pos(sval@, k as int, kle_pred(e));
                    crate::utils::lemma_cnt_p_multiset(nes, sval@, kle_pred(e));
                }
            } else {
                nh = n - crate::utils::partition_lt(&sval, e);
                ah = sortednull.len() - crate::utils::partition_lt(&sortednull, e);
                ap = sortednull.len() - crate::utils::partition_lt(&sortednull, ZERO_KEY);
                np_ = n - crate::utils::partition_lt(&sval, ZERO_KEY);
                proof {
                    lemma_klt_complement(sval@, e);
                    lemma_klt_complement(sortednull@, e);
                    lemma_klt_complement(sortednull@, ZERO_KEY);
                    lemma_klt_complement(sval@, ZERO_KEY);
                    crate::utils::lemma_cnt_p_multiset(sval@, nes, kge_pred(e));
                    crate::utils::lemma_cnt_p_multiset(sortednull@, nulls, kge_pred(e));
                    crate::utils::lemma_cnt_p_multiset(sortednull@, nulls, kge_pred(ZERO_KEY));
                    crate::utils::lemma_cnt_p_multiset(sval@, nes, kge_pred(ZERO_KEY));
                    crate::utils::lemma_cnt_p_pos(sval@, k as int, kge_pred(e));
                    crate::utils::lemma_cnt_p_multiset(nes, sval@, kge_pred(e));
                }
            }
            let f: Frac = if ap == 0 {
                Frac::zero()
            } else {
                proof {
                    assert((ah as int) * (np_ as int) < 0x4000_0000_0000_0000
                        && (ap as int) * (nh as int) < 0x4000_0000_0000_0000 && (ap as int) * (
                    nh as int) > 0) by (nonlinear_arith)
                        requires
                            0 <= ah < 0x8000_0000,
                            0 <= np_ < 0x8000_0000,
                            0 < ap < 0x8000_0000,
                            0 < nh < 0x8000_0000,
                    ;
                }
                let num_raw: i128 = (ah as i128) * (np_ as i128);
                let den: i128 = (ap as i128) * (nh as i128);
                let num = if num_raw <= den {
                    num_raw
                } else {
                    den
                };
                Frac { num, den }
            };
            fdrs.push(f);
            k = k + 1;
        }
        let mut out: Vec<Frac> = Vec::new();
        let mut i: usize = 0;
        while i < n
            invariant
                0 <= i <= n,
                n == nes.len() < 0x8000_0000,
                nes == nes_keys@,
                nulls == nesnull_keys@,
                sval@.len() == n,
                sidx@.len() == n,
                forall|t: int| 0 <= t < n ==> (#[trigger] sidx@[t]) < n && sval@[t] == nes[sidx@[t] as int],
                sidx@.no_duplicates(),
                fdrs@.len() == n,
                forall|t: int|
                    0 <= t < n ==> fdr_matches(#[trigger] fdrs@[t], sval@[t], nes, nulls),
                forall|t: int| 0 <= t < n ==> (#[trigger] fdrs@[t]).wf() && 0 <= fdrs@[t].num
                    <= fdrs@[t].den,
                out@.len() == i,
                forall|t: int|
                    0 <= t < i ==> fdr_matches(#[trigger] out@[t], nes[t], nes, nulls),
                forall|t: int| 0 <= t < i ==> (#[trigger] out@[t]).wf() && 0 <= out@[t].num
                    <= out@[t].den,
            decreases n - i,
        {
            proof {
                crate::utils::lemma_full_range(sidx@, n as int);
                assert(sidx@.contains(i as usize));
            }
            let mut k: usize = 0;
            let mut found = false;
            let mut val = Frac::zero();
            while k < n
                invariant
                    0 <= k <= n,
                    n == nes.len(),
                    sidx@.len() == n,
                    sval@.len() == n,
                    fdrs@.len() == n,
                    i < n,
                    forall|t: int| 0 <= t < n ==> (#[trigger] sidx@[t]) < n && sval@[t] == nes[sidx@[t] as int],
                    forall|t: int|
                        0 <= t < n ==> fdr_matches(#[trigger] fdrs@[t], sval@[t], nes, nulls),
                    forall|t: int| 0 <= t < n ==> (#[trigger] fdrs@[t]).wf() && 0 <= fdrs@[t].num
                        <= fdrs@[t].den,
                    !found ==> forall|t: int| 0 <= t < k ==> (#[trigger] sidx@[t]) != i as usize,
                    found ==> fdr_matches(val, nes[i as int], nes, nulls) && val.wf() && 0 <= val.num
                        <= val.den,
                decreases n - k,
            {
                if !found && sidx[k] == i {
                    found = true;
                    val = fdrs[k];
                }
                k = k + 1;
            }
            proof {
                if !found {
                    let t = choose|t: int| 0 <= t < sidx@.len() && sidx@[t] == i as usize;
                    assert(false);
                }
            }
            out.push(val);
            i = i + 1;
        }
        out
    }
}

/// Below `e` and at-or-above `e` split the keys.
proof fn lemma_klt_complement(s: Seq<u64>, e: u64)
    ensures
        cnt_p(s, klt_pred(e)) + cnt_p(s, kge_pred(e)) == s.len(),
{
    assert(forall|i: int|
        0 <= i < s.len() ==> (kge_pred(e)(#[trigger] s[i]) <==> !klt_pred(e)(s[i])));
    crate::utils::lemma_cnt_p_complement(s, klt_pred(e), kge_pred(e));
}

/// Determinism of the nominal p-value: its contract pins the value, so any
/// two computations over the same observed score and null distribution
/// agree exactly.
pub proof fn lemma_pval_deterministic(p1: Frac, p2: Frac, es: Frac, esnull: Seq<Frac>)
    requires
        pval_matches(p1, es, esnull),
        pval_matches(p2, es, esnull),
    ensures
        p1.num == p2.num,
        p1.den == p2.den,
{
}

/// Determinism of the false discovery rate estimate: its contract pins the
/// value for every observed key against fixed pools.
pub proof fn lemma_fdr_deterministic(f1: Frac, f2: Frac, e: u64, nes: Seq<u64>, nulls: Seq<u64>)
    requires
        fdr_matches(f1, e, nes, nulls),
        fdr_matches(f2, e, nes, nulls),
    ensures
        f1.num == f2.num,
        f1.den == f2.den,
{
}

/// Determinism of the family-wise error rate estimate.
pub proof fn lemma_fwer_deterministic(
    f1: Frac,
    f2: Frac,
    e: u64,
    nulls: Seq<u64>,
    nperm: int,
    nsets: int,
)
    requires
        fwer_matches(f1, e, nulls, nperm, nsets),
        fwer_matches(f2, e, nulls, nperm, nsets),
    ensures
        f1.num == f2.num,
        f1.den == f2.den,
{
}

/// Two strictly increasing position lists with the same members are the
/// same list.
proof fn lemma_increasing_same_members(h1: Seq<usize>, h2: Seq<usize>)
    requires
        forall|a: int, b: int| 0 <= a < b < h1.len() ==> h1[a] < h1[b],
        forall|a: int, b: int| 0 <= a < b < h2.len() ==> h2[a] < h2[b],
        forall|x: usize| h1.contains(x) <==> h2.contains(x),
    ensures
        h1 =~= h2,
    decreases h1.len(),
{
    if h1.len() == 0 {
        if h2.len() > 0 {
            assert(h2.contains(h2[0]));
            assert(h1.contains(h2[0]));
        }
    } else {
        assert(h1.contains(h1[0]));
        assert(h2.contains(h1[0]));
        let k2 = choose|k: int| 0 <= k < h2.len() && h2[k] == h1[0];
        assert(h2[0] <= h1[0]);
        assert(h2.contains(h2[0]));
        assert(h1.contains(h2[0]));
        let k1 = choose|k: int| 0 <= k < h1.len() && h1[k] == h2[0];
        assert(h1[0] <= h2[0]);
        let t1 = h1.drop_first();
        let t2 = h2.drop_first();
        assert forall|x: usize| t1.contains(x) implies t2.contains(x) by {
            let a = choose|a: int| 0 <= a < t1.len() && t1[a] == x;
            assert(h1[a + 1] == x);
            assert(h1.contains(x));
            assert(h2.contains(x));
            let b = choose|b: int| 0 <= b < h2.len() && h2[b] == x;
            assert(x > h1[0]);
            assert(b != 0);
            assert(t2[b - 1] == x);
        }
        assert forall|x: usize| t2.contains(x) implies t1.contains(x) by {
            let a = choose|a: int| 0 <= a < t2.len() && t2[a] == x;
            assert(h2[a + 1] == x);
            assert(h2.contains(x));
            assert(h1.contains(x));
            let b = choose|b: int| 0 <= b < h1.len() && h1[b] == x;
            assert(x > h2[0]);
            assert(b != 0);
            assert(t1[b - 1] == x);
        }
        assert(forall|a: int, b: int| 0 <= a < b < t1.len() ==> t1[a] < t1[b]);
        assert(forall|a: int, b: int| 0 <= a < b < t2.len() ==> t2[a] < t2[b]);
        lemma_increasing_same_members(t1, t2);
        assert(h1 =~= seq![h1[0]] + t1);
        assert(h2 =~= seq![h2[0]] + t2);
    }
}

/// Determinism: two summaries that record the same gene set against the
/// same ranking, metric and shared arrangements agree on every field.  The
/// one source of variation in a whole run is therefore which arrangements
/// the seeded generator produced.
pub proof fn lemma_summary_deterministic(
    s1: GSEASummary,
    s2: GSEASummary,
    ids: Seq<Seq<char>>,
    arrs: Seq<Seq<usize>>,
    metric: Seq<u64>,
    term: Seq<char>,
    elts: Seq<Seq<char>>,
)
    requires
        arrs.len() >= 1,
        summary_matches(s1, ids, arrs, metric, term, elts),
        summary_matches(s2, ids, arrs, metric, term, elts),
    ensures
        s1.term@ == s2.term@,
        s1.hits@ == s2.hits@,
        s1.es == s2.es,
        s1.pval == s2.pval,
        s1.run_es@ == s2.run_es@,
        s1.esnull@ == s2.esnull@,
{
    let tag0 = perm_tag(ids, elts, arrs[0]);
    assert forall|x: usize| s1.hits@.contains(x) implies s2.hits@.contains(x) by {
        let a = choose|a: int| 0 <= a < s1.hits@.len() && s1.hits@[a] == x;
        assert(identity_tag(ids, elts)[x as int]);
    }
    assert forall|x: usize| s2.hits@.contains(x) implies s1.hits@.contains(x) by {
        let a = choose|a: int| 0 <= a < s2.hits@.len() && s2.hits@[a] == x;
        assert(identity_tag(ids, elts)[x as int]);
    }
    lemma_increasing_same_members(s1.hits@, s2.hits@);
    assert(s1.es == s2.es);
    assert(s1.run_es@ =~= s2.run_es@);
    assert(s1.esnull@ =~= s2.esnull@);
    if arrs.len() > 1 {
        lemma_pval_deterministic(s1.pval, s2.pval, s1.es, s1.esnull@);
    }
    assert(s1.pval == s2.pval);
}

/// Determinism of a whole run, given the arrangements: two summary lists
/// that record the same gene sets against the same ranking, metric and
/// shared arrangements agree pairwise on every field.  With the identity
/// arrangement first and a fixed seed driving the generator, rerunning the
/// analysis can therefore differ only if the generator itself does.
pub proof fn lemma_summaries_deterministic(
    r1: Seq<GSEASummary>,
    r2: Seq<GSEASummary>,
    ids: Seq<Seq<char>>,
    arrs: Seq<Seq<usize>>,
    metric: Seq<u64>,
    gmt: Seq<(String, Vec<String>)>,
    min_size: int,
    max_size: int,
)
    requires
        arrs.len() >= 1,
        summaries_match(r1, ids, arrs, metric, gmt, min_size, max_size),
        summaries_match(r2, ids, arrs, metric, gmt, min_size, max_size),
    ensures
        r1.len() == r2.len(),
        forall|k: int|
            0 <= k < r1.len() ==> ((#[trigger] r1[k]).term@ == r2[k].term@ && r1[k].hits@
                == r2[k].hits@ && r1[k].es == r2[k].es && r1[k].pval == r2[k].pval && r1[k].run_es@
                == r2[k].run_es@ && r1[k].esnull@ == r2[k].esnull@),
    decreases gmt.len(),
{
    if gmt.len() > 0 {
        let elts = gmt.last().1.deep_view();
        if qualifies(ids, arrs, metric, elts, min_size, max_size) {
            lemma_summaries_deterministic(
                r1.drop_last(),
                r2.drop_last(),
                ids,
                arrs,
                metric,
                gmt.drop_last(),
                min_size,
                max_size,
            );
            lemma_summary_deterministic(
                r1.last(),
                r2.last(),
                ids,
                arrs,
                metric,
                gmt.last().0@,
                elts,
            );
            assert forall|k: int|
                0 <= k < r1.len() implies ((#[trigger] r1[k]).term@ == r2[k].term@ && r1[k].hits@
                == r2[k].hits@ && r1[k].es == r2[k].es && r1[k].pval == r2[k].pval && r1[k].run_es@
                == r2[k].run_es@ && r1[k].esnull@ == r2[k].esnull@) by {
                if k < r1.len() - 1 {
                    assert(r1.drop_last()[k] == r1[k]);
                    assert(r2.drop_last()[k] == r2[k]);
                } else {
                    assert(r1.last() == r1[k]);
                    assert(r2.last() == r2[k]);
                }
            }
        } else {
            lemma_summaries_deterministic(
                r1,
                r2,
                ids,
                arrs,
                metric,
                gmt.drop_last(),
                min_size,
                max_size,
            );
        }
    }
}

} // verus!

