//! Single-rule classification.
//!
//! Training picks the one attribute whose value-to-majority-label rule table
//! misclassifies the fewest training rows; candidates are scanned in index
//! order and replaced only on strictly fewer errors, so the choice is
//! deterministic.  Prediction looks the row's value up in the rule table and
//! falls back to the global majority label on unseen values or short rows.

use vstd::prelude::*;

verus! {

use crate::tally::labels_of;
use crate::tally::col_of;
use crate::tally::count_eq;
use crate::tally::distinct_firsts;
use crate::tally::part_of;
use crate::tally::majority_of;
use crate::tally::views_of;
use crate::tally::majority_class;
use crate::tally::majority_class_count;
use crate::tally::partition_by;
use crate::tally::lemma_take_step;
use crate::tally::lemma_distinct_props;
use crate::tally::lemma_part_sub;
use crate::gain::lemma_part_nonempty;
use crate::decision_tree::seq_upto;
use crate::decision_tree::rows_uniform;
use crate::decision_tree::FitError;

/// First rule whose key equals `v`, or `-1` when no rule matches.
pub open spec fn rule_index(ps: Seq<(Seq<char>, Seq<char>)>, v: Seq<char>) -> int
    decreases ps.len(),
{
    if ps.len() == 0 {
        -1
    } else if ps[0].0 == v {
        0
    } else {
        let r = rule_index(ps.drop_first(), v);
        if r < 0 {
            -1
        } else {
            r + 1
        }
    }
}

pub proof fn lemma_rule_index_found(ps: Seq<(Seq<char>, Seq<char>)>, v: Seq<char>, j: int)
    requires
        0 <= j < ps.len(),
        ps[j].0 == v,
        forall|i: int| 0 <= i < j ==> ps[i].0 != v,
    ensures
        rule_index(ps, v) == j,
    decreases j,
{
    if j > 0 {
        assert(ps[0].0 != v);
        assert(ps.drop_first()[j - 1] == ps[j]);
        assert forall|i: int| 0 <= i < j - 1 implies ps.drop_first()[i].0 != v by {
            assert(ps.drop_first()[i] == ps[i + 1]);
        }
        lemma_rule_index_found(ps.drop_first(), v, j - 1);
    }
}

pub proof fn lemma_rule_index_none(ps: Seq<(Seq<char>, Seq<char>)>, v: Seq<char>)
    requires
        forall|i: int| 0 <= i < ps.len() ==> ps[i].0 != v,
    ensures
        rule_index(ps, v) == -1,
    decreases ps.len(),
{
    if ps.len() > 0 {
        assert forall|i: int| 0 <= i < ps.drop_first().len() implies ps.drop_first()[i].0
            != v by {
            assert(ps.drop_first()[i] == ps[i + 1]);
        }
        lemma_rule_index_none(ps.drop_first(), v);
    }
}

/// Misclassifications of the rule table of column `f`, summed over the
/// given observed values: each value contributes its rows minus those
/// carrying the value's majority label.
pub open spec fn errors_over(
    x: Seq<Seq<Seq<char>>>,
    y: Seq<Seq<char>>,
    idxs: Seq<usize>,
    f: usize,
    vals: Seq<Seq<char>>,
) -> nat
    decreases vals.len(),
{
    if vals.len() == 0 {
        0
    } else {
        errors_over(x, y, idxs, f, vals.drop_last()) + ({
            let p = part_of(x, idxs, f, vals.last());
            let pls = labels_of(y, p);
            (p.len() - count_eq(pls, majority_of(pls))) as nat
        })
    }
}

/// Total misclassifications of column `f`'s rule table on the subset.
pub open spec fn feature_errors(
    x: Seq<Seq<Seq<char>>>,
    y: Seq<Seq<char>>,
    idxs: Seq<usize>,
    f: usize,
) -> nat {
    errors_over(x, y, idxs, f, distinct_firsts(col_of(x, idxs, f)))
}

/// The attribute with the fewest rule errors, scanning columns `k..w` with
/// current best `bi` at `be` errors; ties keep the earlier attribute.
pub open spec fn best_rule_from(
    x: Seq<Seq<Seq<char>>>,
    y: Seq<Seq<char>>,
    idxs: Seq<usize>,
    w: nat,
    k: int,
    bi: usize,
    be: nat,
) -> usize
    decreases w - k,
{
    if k < 0 || k >= w {
        bi
    } else {
        let e = feature_errors(x, y, idxs, k as usize);
        if e < be {
            best_rule_from(x, y, idxs, w, k + 1, k as usize, e)
        } else {
            best_rule_from(x, y, idxs, w, k + 1, bi, be)
        }
    }
}

/// The attribute the single-rule learner selects over `w` columns.
pub open spec fn spec_best_rule_feature(
    x: Seq<Seq<Seq<char>>>,
    y: Seq<Seq<char>>,
    idxs: Seq<usize>,
    w: nat,
) -> usize {
    best_rule_from(x, y, idxs, w, 0, 0, u128::MAX as nat)
}

/// The rule table of column `f`: each observed value paired with the
/// majority label of the rows carrying it, in first-seen value order.
pub open spec fn rule_pairs_over(
    x: Seq<Seq<Seq<char>>>,
    y: Seq<Seq<char>>,
    idxs: Seq<usize>,
    f: usize,
    vals: Seq<Seq<char>>,
) -> Seq<(Seq<char>, Seq<char>)>
    decreases vals.len(),
{
    if vals.len() == 0 {
        Seq::empty()
    } else {
        rule_pairs_over(x, y, idxs, f, vals.drop_last()).push(
            (vals.last(), majority_of(labels_of(y, part_of(x, idxs, f, vals.last())))),
        )
    }
}

pub open spec fn rule_pairs(
    x: Seq<Seq<Seq<char>>>,
    y: Seq<Seq<char>>,
    idxs: Seq<usize>,
    f: usize,
) -> Seq<(Seq<char>, Seq<char>)> {
    rule_pairs_over(x, y, idxs, f, distinct_firsts(col_of(x, idxs, f)))
}

/// The mathematical content of a trained single-rule model.
pub struct OneRModelView {
    pub best_feature: usize,
    pub rules: Seq<(Seq<char>, Seq<char>)>,
    pub default_class: Seq<char>,
}

/// The state `fit` leaves the model in, as a function of the training data.
pub open spec fn one_r_fitted(x: Seq<Seq<Seq<char>>>, y: Seq<Seq<char>>) -> OneRModelView {
    let idxs = seq_upto(y.len());
    let bf = spec_best_rule_feature(x, y, idxs, x[0].len());
    OneRModelView {
        best_feature: bf,
        rules: if x[0].len() == 0 {
            Seq::empty()
        } else {
            rule_pairs(x, y, idxs, bf)
        },
        default_class: majority_of(y),
    }
}

/// The label predicted for one row: the matched rule's label, or the
/// default class on a short row or an unseen value.
pub open spec fn one_r_prediction(m: OneRModelView, row: Seq<Seq<char>>) -> Seq<char> {
    if (m.best_feature as int) < row.len() {
        let j = rule_index(m.rules, row[m.best_feature as int]);
        if j < 0 {
            m.default_class
        } else {
            m.rules[j].1
        }
    } else {
        m.default_class
    }
}

/// The views of a rule list held as strings.
pub open spec fn pairs_view(ps: Seq<(String, String)>) -> Seq<(Seq<char>, Seq<char>)> {
    ps.map_values(|p: (String, String)| (p.0@, p.1@))
}

/// A single-rule classifier: one chosen attribute, its value-to-label rule
/// table, and the global majority label as fallback.
pub struct OneRClassifier {
    best_feature: usize,
    rules: Vec<(String, String)>,
    default_class: String,
}

impl View for OneRClassifier {
    type V = OneRModelView;

    closed spec fn view(&self) -> OneRModelView {
        OneRModelView {
            best_feature: self.best_feature,
            rules: pairs_view(self.rules@),
            default_class: self.default_class@,
        }
    }
}

/// The exact number of training rows column `f`'s rule table misclassifies.
fn feature_error_count(x: &Vec<Vec<String>>, y: &Vec<String>, idxs: &Vec<usize>, f: usize) -> (r:
    u128)
    requires
        forall|k: int|
            0 <= k < idxs@.len() ==> (idxs@[k] as int) < x@.len() && (f as int)
                < x@[idxs@[k] as int]@.len() && (idxs@[k] as int) < y@.len(),
    ensures
        (r as nat) == feature_errors(x.deep_view(), y.deep_view(), idxs@, f),
        r < u128::MAX,
{
    let ghost xv = x.deep_view();
    let ghost yv = y.deep_view();
    let ghost col = col_of(xv, idxs@, f);
    let ghost dvals = distinct_firsts(col);
    let n = idxs.len();
    let (vkeys, parts) = partition_by(x, idxs, f);
    proof {
        lemma_distinct_props(col);
        assert(vkeys@.len() == views_of(vkeys@).len());
        assert forall|j: int| 0 <= j < vkeys@.len() implies vkeys@[j]@ == dvals[j] by {
            assert(views_of(vkeys@)[j] == vkeys@[j]@);
        }
        assert(dvals.take(0) =~= Seq::<Seq<char>>::empty());
        assert(col.len() == idxs@.len());
        assert(dvals.len() <= idxs@.len());
    }
    let mut acc: u128 = 0;
    let mut g: usize = 0;
    while g < vkeys.len()
        invariant
            forall|k: int|
                0 <= k < idxs@.len() ==> (idxs@[k] as int) < x@.len() && (f as int)
                    < x@[idxs@[k] as int]@.len() && (idxs@[k] as int) < y@.len(),
            xv == x.deep_view(),
            yv == y.deep_view(),
            col == col_of(xv, idxs@, f),
            dvals == distinct_firsts(col),
            n == idxs@.len(),
            n <= 0xffff_ffff_ffff_ffffu128,
            dvals.len() <= n,
            vkeys@.len() == dvals.len(),
            parts@.len() == vkeys@.len(),
            forall|j: int| 0 <= j < vkeys@.len() ==> vkeys@[j]@ == dvals[j],
            forall|j: int| 0 <= j < vkeys@.len() ==> parts@[j]@ == part_of(xv, idxs@, f, dvals[j]),
            forall|j: int| 0 <= j < dvals.len() ==> col.contains(dvals[j]),
            g <= vkeys@.len(),
            (acc as nat) == errors_over(xv, yv, idxs@, f, dvals.take(g as int)),
            (acc as nat) <= (g as nat) * (n as nat),
        decreases vkeys@.len() - g,
    {
        let ghost pv = part_of(xv, idxs@, f, dvals[g as int]);
        proof {
            lemma_part_nonempty(xv, idxs@, f, dvals[g as int]);
            lemma_part_sub(xv, idxs@, f, dvals[g as int]);
            assert forall|k: int| 0 <= k < pv.len() implies (pv[k] as int) < y@.len() by {
                assert(idxs@.contains(pv[k]));
                let w2 = choose|w2: int| 0 <= w2 < idxs@.len() && idxs@[w2] == pv[k];
                assert((idxs@[w2] as int) < y@.len());
            }
        }
        let sub = &parts[g];
        let (_lab, cnt) = majority_class_count(y, sub);
        proof {
            let pls = labels_of(yv, pv);
            crate::tally::lemma_count_le_len(pls, majority_of(pls));
            assert(pls.len() == pv.len());
        }
        let diff = sub.len() - cnt;
        proof {
            lemma_take_step(dvals, g as int);
            assert(errors_over(xv, yv, idxs@, f, dvals.take(g as int + 1)) == errors_over(
                xv,
                yv,
                idxs@,
                f,
                dvals.take(g as int),
            ) + ({
                let p = part_of(xv, idxs@, f, dvals[g as int]);
                let pls = labels_of(yv, p);
                (p.len() - count_eq(pls, majority_of(pls))) as nat
            }));
            assert((diff as nat) <= (n as nat));
            assert((acc as nat) + (diff as nat) <= (g as nat) * (n as nat) + (n as nat));
            assert((g as nat) * (n as nat) + (n as nat) == ((g as nat) + 1) * (n as nat))
                by (nonlinear_arith);
            assert(((g as nat) + 1) * (n as nat) <= (n as nat) * (n as nat)) by (nonlinear_arith)
                requires
                    (g as nat) + 1 <= dvals.len(),
                    dvals.len() <= (n as nat),
            ;
            assert((n as nat) * (n as nat) < u128::MAX) by (nonlinear_arith)
                requires
                    (n as nat) <= 0xffff_ffff_ffff_ffffnat,
            ;
        }
        acc = acc + (diff as u128);
        g += 1;
    }
    proof {
        assert(dvals.take(dvals.len() as int) =~= dvals);
        assert((dvals.len() as nat) * (n as nat) <= (n as nat) * (n as nat)) by (nonlinear_arith)
            requires
                dvals.len() <= (n as nat),
        ;
        assert((n as nat) * (n as nat) < u128::MAX) by (nonlinear_arith)
            requires
                (n as nat) <= 0xffff_ffff_ffff_ffffnat,
        ;
        assert((acc as nat) <= (vkeys@.len() as nat) * (n as nat));
    }
    acc
}

impl OneRClassifier {
    /// A fresh, untrained model: attribute zero, no rules, empty default.
    pub fn new() -> (r: OneRClassifier)
        ensures
            r@.best_feature == 0,
            r@.rules == Seq::<(Seq<char>, Seq<char>)>::empty(),
            r@.default_class == Seq::<char>::empty(),
    {
        let r = OneRClassifier { best_feature: 0, rules: Vec::new(), default_class: String::new() };
        proof {
            assert(pairs_view(r.rules@) =~= Seq::<(Seq<char>, Seq<char>)>::empty());
        }
        r
    }

    /// Validate the training data, then choose the attribute with the
    /// fewest rule errors and store its rule table and the majority label;
    /// earlier state is replaced on success and untouched on rejection.
    pub fn fit(&mut self, x: &Vec<Vec<String>>, y: &Vec<String>) -> (r: Result<(), FitError>)
        ensures
            x@.len() == 0 ==> r == Result::<(), FitError>::Err(FitError::EmptyTrainingSet),
            x@.len() > 0 && x@.len() != y@.len() ==> r == Result::<(), FitError>::Err(
                FitError::LengthMismatch,
            ),
            x@.len() > 0 && x@.len() == y@.len() && !rows_uniform(x.deep_view()) ==> r
                == Result::<(), FitError>::Err(FitError::RaggedRows),
            x@.len() > 0 && x@.len() == y@.len() && rows_uniform(x.deep_view()) ==> r
                == Result::<(), FitError>::Ok(()) && final(self)@ == one_r_fitted(
                x.deep_view(),
                y.deep_view(),
            ),
            r matches Result::Err(_) ==> *final(self) == *old(self),
    {
        let ghost xv = x.deep_view();
        let ghost yv = y.deep_view();
        if x.len() == 0 {
            return Err(FitError::EmptyTrainingSet);
        }
        if x.len() != y.len() {
            return Err(FitError::LengthMismatch);
        }
        let w = x[0].len();
        proof {
            assert(xv[0] =~= x@[0].deep_view());
            assert(xv[0].len() == x@[0]@.len());
        }
        let mut i: usize = 0;
        while i < x.len()
            invariant
                x@.len() > 0,
                x@.len() == y@.len(),
                xv == x.deep_view(),
                (w as nat) == xv[0].len(),
                i <= x@.len(),
                forall|q: int| 0 <= q < i ==> #[trigger] xv[q].len() == xv[0].len(),
            decreases x@.len() - i,
        {
            proof {
                assert(xv[i as int] =~= x@[i as int].deep_view());
                assert(xv[i as int].len() == x@[i as int]@.len());
            }
            if x[i].len() != w {
                proof {
                    assert(xv[i as int].len() != xv[0].len());
                    assert(!rows_uniform(xv));
                }
                return Err(FitError::RaggedRows);
            }
            i += 1;
        }
        proof {
            assert(rows_uniform(xv));
        }
        let mut all_indices: Vec<usize> = Vec::new();
        let mut j: usize = 0;
        while j < y.len()
            invariant
                x@.len() > 0,
                x@.len() == y@.len(),
                xv == x.deep_view(),
                yv == y.deep_view(),
                rows_uniform(xv),
                (w as nat) == xv[0].len(),
                j <= y@.len(),
                all_indices@.len() == j,
                forall|q: int| 0 <= q < j ==> all_indices@[q] == q,
            decreases y@.len() - j,
        {
            all_indices.push(j);
            j += 1;
        }
        let ghost idseq = all_indices@;
        proof {
            assert(idseq =~= seq_upto(y@.len()));
            assert(labels_of(yv, idseq) =~= yv);
            assert(yv.len() == y@.len());
            assert(xv.len() == x@.len());
            assert forall|k: int|
                0 <= k < idseq.len() implies (idseq[k] as int) < x@.len() && (idseq[k] as int)
                < y@.len() by {
                assert(idseq[k] == k);
            }
            assert forall|k: int, f2: int|
                #![trigger idseq[k], xv[f2]]
                0 <= k < idseq.len() && 0 <= f2 < 1 implies (w as int)
                <= x@[idseq[k] as int]@.len() by {
                assert(idseq[k] == k);
                assert(xv[k].len() == xv[0].len());
                assert(xv[k] =~= x@[k].deep_view());
                assert(xv[k].len() == x@[k]@.len());
            }
        }
        let mut best_fi: usize = 0;
        let mut best_err: u128 = u128::MAX;
        let mut fi: usize = 0;
        while fi < w
            invariant
                x@.len() > 0,
                x@.len() == y@.len(),
                xv == x.deep_view(),
                yv == y.deep_view(),
                rows_uniform(xv),
                (w as nat) == xv[0].len(),
                idseq == all_indices@,
                idseq.len() == y@.len(),
                forall|q: int| 0 <= q < idseq.len() ==> idseq[q] == q,
                forall|k: int|
                    0 <= k < idseq.len() ==> (idseq[k] as int) < x@.len() && (idseq[k] as int)
                        < y@.len(),
                forall|k: int| 0 <= k < idseq.len() ==> (w as int) <= x@[idseq[k] as int]@.len(),
                fi <= w,
                best_fi < w || (best_fi == 0 && fi == 0),
                best_rule_from(xv, yv, idseq, w as nat, fi as int, best_fi, best_err as nat)
                    == spec_best_rule_feature(xv, yv, idseq, w as nat),
            decreases w - fi,
        {
            proof {
                assert forall|k: int|
                    0 <= k < idseq.len() implies (idseq[k] as int) < x@.len() && (fi as int)
                    < x@[idseq[k] as int]@.len() && (idseq[k] as int) < y@.len() by {
                    assert((w as int) <= x@[idseq[k] as int]@.len());
                }
            }
            let err = feature_error_count(x, y, &all_indices, fi);
            let ghost b0 = best_fi;
            let ghost e0 = best_err as nat;
            if err < best_err {
                best_err = err;
                best_fi = fi;
            }
            proof {
                assert(best_rule_from(xv, yv, idseq, w as nat, fi as int, b0, e0) == ({
                    let e = feature_errors(xv, yv, idseq, fi);
                    if e < e0 {
                        best_rule_from(xv, yv, idseq, w as nat, fi as int + 1, fi, e)
                    } else {
                        best_rule_from(xv, yv, idseq, w as nat, fi as int + 1, b0, e0)
                    }
                }));
            }
            fi += 1;
        }
        let ghost bf = spec_best_rule_feature(xv, yv, idseq, w as nat);
        proof {
            assert(best_rule_from(xv, yv, idseq, w as nat, fi as int, best_fi, best_err as nat)
                == best_fi);
            assert(best_fi == bf);
        }
        let mut rules: Vec<(String, String)> = Vec::new();
        if w == 0 {
            proof {
                assert(pairs_view(rules@) =~= Seq::<(Seq<char>, Seq<char>)>::empty());
            }
            self.default_class = majority_class(y, &all_indices);
            self.best_feature = best_fi;
            self.rules = rules;
            return Ok(());
        }
        proof {
            assert(best_fi < w);
        }
        let ghost col = col_of(xv, idseq, best_fi);
        let ghost dvals = distinct_firsts(col);
        proof {
            assert forall|k: int|
                0 <= k < idseq.len() implies (idseq[k] as int) < x@.len() && (best_fi as int)
                < x@[idseq[k] as int]@.len() && (idseq[k] as int) < y@.len() by {
                assert((w as int) <= x@[idseq[k] as int]@.len());
            }
        }
        let (vkeys, parts) = partition_by(x, &all_indices, best_fi);
        proof {
            lemma_distinct_props(col);
            assert(vkeys@.len() == views_of(vkeys@).len());
            assert forall|q: int| 0 <= q < vkeys@.len() implies vkeys@[q]@ == dvals[q] by {
                assert(views_of(vkeys@)[q] == vkeys@[q]@);
            }
            assert(dvals.take(0) =~= Seq::<Seq<char>>::empty());
            assert(pairs_view(rules@) =~= rule_pairs_over(xv, yv, idseq, best_fi, dvals.take(0)));
        }
        let mut g: usize = 0;
        while g < vkeys.len()
            invariant
                xv == x.deep_view(),
                yv == y.deep_view(),
                idseq == all_indices@,
                forall|k: int|
                    0 <= k < idseq.len() ==> (idseq[k] as int) < x@.len() && (idseq[k] as int)
                        < y@.len(),
                col == col_of(xv, idseq, best_fi),
                dvals == distinct_firsts(col),
                vkeys@.len() == dvals.len(),
                parts@.len() == vkeys@.len(),
                forall|q: int| 0 <= q < vkeys@.len() ==> vkeys@[q]@ == dvals[q],
                forall|q: int|
                    0 <= q < vkeys@.len() ==> parts@[q]@ == part_of(xv, idseq, best_fi, dvals[q]),
                forall|q: int| 0 <= q < dvals.len() ==> col.contains(dvals[q]),
                g <= vkeys@.len(),
                rules@.len() == g,
                pairs_view(rules@) == rule_pairs_over(xv, yv, idseq, best_fi, dvals.take(g as int)),
            decreases vkeys@.len() - g,
        {
            let ghost pv = part_of(xv, idseq, best_fi, dvals[g as int]);
            proof {
                lemma_part_nonempty(xv, idseq, best_fi, dvals[g as int]);
                lemma_part_sub(xv, idseq, best_fi, dvals[g as int]);
                assert forall|k: int| 0 <= k < pv.len() implies (pv[k] as int) < y@.len() by {
                    assert(idseq.contains(pv[k]));
                    let w2 = choose|w2: int| 0 <= w2 < idseq.len() && idseq[w2] == pv[k];
                    assert((idseq[w2] as int) < y@.len());
                }
            }
            let lab = majority_class(y, &parts[g]);
            let key = vkeys[g].clone();
            let ghost r0 = rules@;
            rules.push((key, lab));
            proof {
                lemma_take_step(dvals, g as int);
                assert(pairs_view(rules@) =~= pairs_view(r0).push(
                    (rules@.last().0@, rules@.last().1@),
                ));
                assert(rules@.last().0@ == dvals[g as int]);
                assert(rules@.last().1@ == majority_of(labels_of(yv, pv)));
                assert(rule_pairs_over(xv, yv, idseq, best_fi, dvals.take(g as int + 1))
                    == rule_pairs_over(xv, yv, idseq, best_fi, dvals.take(g as int)).push(
                    (dvals[g as int], majority_of(labels_of(yv, pv))),
                ));
            }
            g += 1;
        }
        proof {
            assert(dvals.take(dvals.len() as int) =~= dvals);
        }
        self.default_class = majority_class(y, &all_indices);
        self.best_feature = best_fi;
        self.rules = rules;
        Ok(())
    }

    /// One predicted label per input row, in order: the matched rule's
    /// label, or the default class on short rows and unseen values.
    pub fn predict(&self, data: &Vec<Vec<String>>) -> (r: Vec<String>)
        ensures
            r@.len() == data@.len(),
            forall|i: int|
                0 <= i < data@.len() ==> r@[i]@ == one_r_prediction(self@, data.deep_view()[i]),
    {
        let ghost dv = data.deep_view();
        let mut out: Vec<String> = Vec::new();
        let mut i: usize = 0;
        while i < data.len()
            invariant
                dv == data.deep_view(),
                dv.len() == data@.len(),
                i <= data@.len(),
                out@.len() == i,
                forall|q: int| 0 <= q < i ==> out@[q]@ == one_r_prediction(self@, dv[q]),
            decreases data@.len() - i,
        {
            let row = &data[i];
            proof {
                assert(dv[i as int] =~= data@[i as int].deep_view());
                assert(dv[i as int].len() == row@.len());
            }
            let lab = self.predict_row(row);
            proof {
                assert(lab@ == one_r_prediction(self@, dv[i as int]));
            }
            out.push(lab);
            i += 1;
        }
        out
    }

    /// The prediction for a single row.
    fn predict_row(&self, row: &Vec<String>) -> (r: String)
        ensures
            r@ == one_r_prediction(self@, row.deep_view()),
    {
        let ghost rv = row.deep_view();
        let ghost ps = pairs_view(self.rules@);
        proof {
            assert(rv.len() == row@.len());
        }
        if self.best_feature < row.len() {
            proof {
                assert(rv[self.best_feature as int] == row@[self.best_feature as int]@);
            }
            let v = &row[self.best_feature];
            let mut j: usize = 0;
            while j < self.rules.len()
                invariant
                    ps == pairs_view(self.rules@),
                    ps.len() == self.rules@.len(),
                    rv == row.deep_view(),
                    rv.len() == row@.len(),
                    (self.best_feature as int) < rv.len(),
                    v@ == rv[self.best_feature as int],
                    j <= self.rules@.len(),
                    forall|q: int| 0 <= q < j ==> #[trigger] ps[q].0 != v@,
                    forall|q: int| 0 <= q < ps.len() ==> #[trigger] ps[q] == (
                        self.rules@[q].0@,
                        self.rules@[q].1@,
                    ),
                decreases self.rules@.len() - j,
            {
                if self.rules[j].0 == *v {
                    proof {
                        lemma_rule_index_found(ps, v@, j as int);
                    }
                    return self.rules[j].1.clone();
                }
                j += 1;
            }
            proof {
                lemma_rule_index_none(ps, v@);
            }
            self.default_class.clone()
        } else {
            self.default_class.clone()
        }
    }

    /// The attribute index the learner selected.
    pub fn get_best_feature_index(&self) -> (r: usize)
        ensures
            r == self@.best_feature,
    {
        self.best_feature
    }
}

} // verus!
