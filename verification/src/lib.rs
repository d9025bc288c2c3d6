//! Verified classifiers over categorical tabular data: an entropy-driven
//! decision tree, a single-rule learner, and a Naive Bayes learner.
//!
//! All split and likelihood comparisons are carried out in exact integer
//! arithmetic: comparing sums of `k * log2(k)` terms is the same as comparing
//! products of `k^k` factors, and those products are held in
//! arbitrary-precision naturals.  Every tie-break is by first-seen order, so
//! training and prediction are deterministic functions of their inputs.

pub mod bignat;
pub mod decision_tree;
pub mod gain;
pub mod naive_bayes;
pub mod one_r;
pub mod tally;
