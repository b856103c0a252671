use gsea_core::frac::Frac;
use gsea_core::utils::DynamicEnum;
use gsea_core::utils::{argsort, count_true, partition_le, partition_lt, sort_keys};
use gsea_core::algorithm::{EnrichmentScore, EnrichmentScoreTrait};
use gsea_core::stats::{GSEAResult, GSEASummary, GseaError, ZERO_KEY};

fn genes5() -> Vec<String> {
    vec![
        "g1".to_string(),
        "g2".to_string(),
        "g3".to_string(),
        "g4".to_string(),
        "g5".to_string(),
    ]
}

/// The weighted metric |[2, 1, 0, -1, -2]|^1, as exact integers.
fn metric5() -> Vec<u64> {
    vec![2, 1, 0, 1, 2]
}

fn set_a() -> Vec<(String, Vec<String>)> {
    vec![("A".to_string(), vec!["g1".to_string(), "g2".to_string()])]
}

#[test]
fn concrete_scenario_identity_only() {
    let mut gsea = GSEAResult::new(5, 1, 0, 0);
    let r = gsea.prerank(&genes5(), &metric5(), &set_a());
    assert_eq!(r, Ok(()));
    assert_eq!(gsea.summaries.len(), 1);
    let s = &gsea.summaries[0];
    assert_eq!(s.term, "A".to_string());
    assert_eq!(s.hits, vec![0usize, 1]);
    // H = 3, M = 3, den = 9: path 2/3, 1, 2/3, 1/3, 0.
    let den = 9i128;
    let nums = [6i128, 9, 6, 3, 0];
    assert_eq!(s.run_es.len(), 5);
    for (j, f) in s.run_es.iter().enumerate() {
        assert_eq!(f.den, den);
        assert_eq!(f.num, nums[j]);
    }
    // The enrichment score is the extreme of the path: 1.0.
    assert_eq!(s.es, Frac { num: 9, den: 9 });
    assert_eq!(s.esnull.len(), 0);
    // nperm = 0: statistics stay at their neutral defaults.
    assert_eq!(s.pval, Frac { num: 0, den: 1 });
}

#[test]
fn permutation_scenario_and_determinism() {
    let mut first = GSEAResult::new(5, 1, 100, 42);
    assert_eq!(first.prerank(&genes5(), &metric5(), &set_a()), Ok(()));
    assert_eq!(first.summaries.len(), 1);
    let s = &first.summaries[0];
    assert_eq!(s.esnull.len(), 100);
    assert!(s.pval.den > 0);
    assert!(s.pval.num >= 0 && s.pval.num <= s.pval.den);

    let mut second = GSEAResult::new(5, 1, 100, 42);
    assert_eq!(second.prerank(&genes5(), &metric5(), &set_a()), Ok(()));
    let t = &second.summaries[0];
    assert_eq!(s.es, t.es);
    assert_eq!(s.esnull, t.esnull);
    assert_eq!(s.pval, t.pval);
    assert_eq!(s.hits, t.hits);
    assert_eq!(s.run_es, t.run_es);
}

#[test]
fn membership_counts_present_elements() {
    let u = DynamicEnum::<String>::from(&vec![
        "a".to_string(),
        "b".to_string(),
        "c".to_string(),
    ])
    .unwrap();
    let ind = u.isin(&vec![
        "a".to_string(),
        "c".to_string(),
        "zz".to_string(),
        "a".to_string(),
    ]);
    assert_eq!(ind, vec![true, false, true]);
    assert_eq!(count_true(&ind), 2);
}

#[test]
fn universe_rejects_duplicates() {
    assert!(DynamicEnum::<String>::from(&vec!["a".to_string(), "a".to_string()]).is_none());
}

#[test]
fn index_of_and_size() {
    let u = DynamicEnum::<String>::from(&vec!["x".to_string(), "y".to_string()]).unwrap();
    assert_eq!(u.size(), 2);
    assert_eq!(u.index_of(&"y".to_string()), Some(1));
    assert_eq!(u.index_of(&"q".to_string()), None);
}

#[test]
fn pval_empty_same_sign_null_is_one() {
    let mut s = GSEASummary {
        term: "t".to_string(),
        es: Frac { num: 1, den: 2 },
        pval: Frac { num: 0, den: 1 },
        run_es: Vec::new(),
        hits: Vec::new(),
        esnull: vec![Frac { num: -1, den: 2 }, Frac { num: -3, den: 4 }],
    };
    s.pval();
    assert_eq!(s.pval, Frac { num: 1, den: 1 });
}

#[test]
fn pval_counts_same_sign_tail() {
    let mut s = GSEASummary {
        term: "t".to_string(),
        es: Frac { num: -1, den: 2 },
        pval: Frac { num: 0, den: 1 },
        run_es: Vec::new(),
        hits: Vec::new(),
        esnull: vec![
            Frac { num: -1, den: 1 },
            Frac { num: -1, den: 4 },
            Frac { num: 1, den: 2 },
        ],
    };
    s.pval();
    // Negative side: two negative nulls, one of them at or below -1/2.
    assert_eq!(s.pval, Frac { num: 1, den: 2 });
}

#[test]
fn walk_score_is_path_extreme() {
    let engine = EnrichmentScore::new(&genes5(), 0, 7);
    let metric = metric5();
    let tag = vec![true, false, false, false, true];
    let path = engine.running_enrichment_score(&metric, &tag);
    let es = engine.fast_random_walk(&metric, &tag);
    let mut extreme = 0i128;
    for &v in path.iter() {
        if v.abs() > extreme.abs() {
            extreme = v;
        }
    }
    assert_eq!(es.abs(), extreme.abs());
    assert!(path.contains(&es));
}

#[test]
fn first_arrangement_is_identity() {
    let mut engine = EnrichmentScore::new(&genes5(), 3, 9);
    let gperm = engine.gene_permutation();
    assert_eq!(gperm.len(), 4);
    let id = &gperm[0];
    assert_eq!(id.size(), 5);
    for i in 0..5 {
        assert_eq!(id.at(i), i);
    }
    // Every later arrangement is a permutation of the same positions.
    for arr in gperm.iter() {
        let mut seen = vec![false; 5];
        for i in 0..5 {
            seen[arr.at(i)] = true;
        }
        assert!(seen.iter().all(|&b| b));
    }
    // And the generator really rearranges: not every shuffle is the identity.
    let moved = gperm
        .iter()
        .skip(1)
        .any(|arr| (0..5).any(|i| arr.at(i) != i));
    assert!(moved);
}

#[test]
fn prerank_rejects_bad_input() {
    let mut gsea = GSEAResult::new(5, 1, 0, 0);
    assert_eq!(
        gsea.prerank(&genes5(), &vec![1, 2], &set_a()),
        Err(GseaError::LengthMismatch)
    );
    assert_eq!(
        gsea.prerank(&Vec::new(), &Vec::new(), &set_a()),
        Err(GseaError::EmptyRanking)
    );
    let dup = vec!["g1".to_string(), "g1".to_string()];
    assert_eq!(
        gsea.prerank(&dup, &vec![1, 2], &set_a()),
        Err(GseaError::DuplicateGene)
    );
    let mut inverted = GSEAResult::new(1, 3, 0, 0);
    assert_eq!(
        inverted.prerank(&genes5(), &metric5(), &set_a()),
        Err(GseaError::BadSizeBounds)
    );
}

#[test]
fn size_filter_omits_sets_silently() {
    let mut gsea = GSEAResult::new(1, 1, 0, 0);
    let gmt = vec![
        ("big".to_string(), vec!["g1".to_string(), "g2".to_string()]),
        ("one".to_string(), vec!["g2".to_string()]),
    ];
    assert_eq!(gsea.prerank(&genes5(), &metric5(), &gmt), Ok(()));
    assert_eq!(gsea.summaries.len(), 1);
    assert_eq!(gsea.summaries[0].term, "one".to_string());
}

#[test]
fn sort_and_argsort() {
    assert_eq!(sort_keys(&vec![3, 1, 2]), vec![1, 2, 3]);
    let (idx, vals) = argsort(&vec![30u64, 10, 20]);
    assert_eq!(vals, vec![10, 20, 30]);
    assert_eq!(idx, vec![1, 2, 0]);
    let sorted = vec![1u64, 2, 2, 5];
    assert_eq!(partition_lt(&sorted, 2), 1);
    assert_eq!(partition_le(&sorted, 2), 3);
}

#[test]
fn fdr_exact_value_and_cap() {
    let gsea = GSEAResult::new(5, 1, 2, 0);
    // One observed positive score; two null scores at or above it.
    let nes = vec![ZERO_KEY + 1];
    let nulls = vec![ZERO_KEY + 1, ZERO_KEY + 3];
    let fdrs = gsea.fdr(&nes, &nulls);
    assert_eq!(fdrs.len(), 1);
    assert_eq!(fdrs[0], Frac { num: 2, den: 2 });

    // A tail ratio above one is capped at one.
    let nes2 = vec![ZERO_KEY + 5, ZERO_KEY + 1];
    let nulls2 = vec![ZERO_KEY + 6, ZERO_KEY + 7];
    let fdrs2 = gsea.fdr(&nes2, &nulls2);
    for f in fdrs2.iter() {
        assert!(f.num >= 0 && f.num <= f.den && f.den > 0);
    }
    assert_eq!(fdrs2[0], Frac { num: 2, den: 2 });
}

#[test]
fn fwer_counts_per_permutation_extremes() {
    let gsea = GSEAResult::new(5, 1, 2, 0);
    let nes = vec![ZERO_KEY + 1];
    // One gene set, two permutations: columns [Z+5] and [Z-3].
    let nulls = vec![ZERO_KEY + 5, ZERO_KEY - 3];
    let fwer = gsea.fwer_pval(&nes, &nulls);
    assert_eq!(fwer.len(), 1);
    // One of the two positive extremes (Z+5, Z) reaches Z+1.
    assert_eq!(fwer[0], Frac { num: 1, den: 2 });
}

#[test]
fn degenerate_hit_weight_omits_set() {
    // The only member of the set carries zero weight: H = 0 under every
    // arrangement, so the set is rejected rather than scored.
    let mut gsea = GSEAResult::new(5, 1, 0, 0);
    let gmt = vec![("zero".to_string(), vec!["g3".to_string()])];
    assert_eq!(gsea.prerank(&genes5(), &metric5(), &gmt), Ok(()));
    assert_eq!(gsea.summaries.len(), 0);
}

#[test]
fn fwer_no_negative_extremes_gives_one() {
    let gsea = GSEAResult::new(5, 1, 2, 0);
    // A negative observed score, but every pooled null is positive: the
    // negative-extreme denominator is empty and the estimate degrades to 1.
    let nes = vec![ZERO_KEY - 5];
    let nulls = vec![ZERO_KEY + 5, ZERO_KEY + 3];
    let fwer = gsea.fwer_pval(&nes, &nulls);
    assert_eq!(fwer[0], Frac { num: 1, den: 1 });
}

#[test]
fn fdr_negative_side_counts() {
    let gsea = GSEAResult::new(5, 1, 2, 0);
    let nes = vec![ZERO_KEY - 4, ZERO_KEY + 2];
    let nulls = vec![ZERO_KEY - 4, ZERO_KEY - 6, ZERO_KEY + 1, ZERO_KEY + 5];
    let fdrs = gsea.fdr(&nes, &nulls);
    // Negative side of the first score: two of two negative nulls at or
    // below it, one of one negative observed: tail ratio (2/2)/(1/1).
    assert_eq!(fdrs[0], Frac { num: 2, den: 2 });
}

#[test]
fn fdr_empty_null_side_gives_zero() {
    let gsea = GSEAResult::new(5, 1, 2, 0);
    // A positive observed score with no nonnegative nulls at all: the null
    // tail share is an empty proportion and the estimate is 0.
    let nes = vec![ZERO_KEY + 1];
    let nulls = vec![ZERO_KEY - 1, ZERO_KEY - 2];
    let fdrs = gsea.fdr(&nes, &nulls);
    assert_eq!(fdrs[0], Frac { num: 0, den: 1 });
}
