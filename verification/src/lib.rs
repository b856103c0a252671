//! Gene Set Enrichment Analysis (GSEA) "preranked" core.
//!
//! Given a ranked list of genes and a collection of gene sets, the library
//! computes the weighted running-sum enrichment statistic, a permutation
//! null distribution, and the nominal-p / FWER / FDR reduction.
//!
//! All scores are exact: the running-sum statistic is scale-invariant in the
//! weighted metric, so the engine takes the metric as nonnegative integers
//! and represents every score as an integer fraction over the denominator
//! `H * M` (hit weight times miss count).  The pooled FDR / FWER counting
//! works on order-preserving integer keys of the normalized scores.  The
//! caller owns the one lossy step, quantizing its weighted metric.

pub mod rng;
pub mod frac;
pub mod utils;
pub mod algorithm;
pub mod stats;
