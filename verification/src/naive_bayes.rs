//! Naive Bayes classification over categorical features.
//!
//! Training stores, for every class, its row count, and for every attribute
//! and class the count of each observed value.  Prediction ranks classes by
//! the Laplace-smoothed likelihood
//! `(count(class)/total) * prod (count(value|class)+1)/(count(class)+distinct(attribute))`.
//! Instead of summing floating-point logarithms, likelihoods are compared
//! exactly: the ratio comparison is cross-multiplied into two products of
//! machine words, evaluated in arbitrary-precision naturals.  Ties keep the
//! first-seen class, so prediction is deterministic.
//!
//! To keep every cross-multiplied factor inside one machine word, `fit`
//! rejects training sets of more than `2^62 - 1` rows.

use vstd::prelude::*;

verus! {

use crate::bignat::seq_prod;
use crate::bignat::prod_lt;
use crate::bignat::lemma_seq_prod_push;
use crate::tally::labels_of;
use crate::tally::col_of;
use crate::tally::count_eq;
use crate::tally::distinct_firsts;
use crate::tally::part_of;
use crate::tally::lab_part_of;
use crate::tally::views_of;
use crate::tally::group_counts;
use crate::tally::partition_by;
use crate::tally::partition_labels;
use crate::tally::find_key;
use crate::tally::lemma_distinct_props;
use crate::tally::lemma_count_pos_iff;
use crate::tally::lemma_count_le_len;
use crate::tally::lemma_part_count;
use crate::tally::lemma_lab_part_sub;
use crate::decision_tree::seq_upto;
use crate::decision_tree::rows_uniform;
use crate::decision_tree::FitError;

/// The largest training-set size accepted: every smoothed count then fits
/// one 64-bit word in the exact likelihood comparison.
pub open spec fn max_training_rows() -> nat {
    0x3fff_ffff_ffff_ffff
}

/// The mathematical content of a trained Naive Bayes model.
pub struct NBModelView {
    pub classes: Seq<Seq<char>>,
    pub class_counts: Seq<nat>,
    pub value_keys: Seq<Seq<Seq<Seq<char>>>>,
    pub value_counts: Seq<Seq<Seq<nat>>>,
    pub feature_values: Seq<Seq<Seq<char>>>,
    pub total: nat,
}

/// First entry equal to `v`, or `-1`.
pub open spec fn seq_index_of(s: Seq<Seq<char>>, v: Seq<char>) -> int
    decreases s.len(),
{
    if s.len() == 0 {
        -1
    } else if s[0] == v {
        0
    } else {
        let r = seq_index_of(s.drop_first(), v);
        if r < 0 {
            -1
        } else {
            r + 1
        }
    }
}

pub proof fn lemma_seq_index_found(s: Seq<Seq<char>>, v: Seq<char>, j: int)
    requires
        0 <= j < s.len(),
        s[j] == v,
        forall|i: int| 0 <= i < j ==> s[i] != v,
    ensures
        seq_index_of(s, v) == j,
    decreases j,
{
    if j > 0 {
        assert(s[0] != v);
        assert(s.drop_first()[j - 1] == s[j]);
        assert forall|i: int| 0 <= i < j - 1 implies s.drop_first()[i] != v by {
            assert(s.drop_first()[i] == s[i + 1]);
        }
        lemma_seq_index_found(s.drop_first(), v, j - 1);
    }
}

pub proof fn lemma_seq_index_none(s: Seq<Seq<char>>, v: Seq<char>)
    requires
        forall|i: int| 0 <= i < s.len() ==> s[i] != v,
    ensures
        seq_index_of(s, v) == -1,
    decreases s.len(),
{
    if s.len() > 0 {
        assert forall|i: int| 0 <= i < s.drop_first().len() implies s.drop_first()[i] != v by {
            assert(s.drop_first()[i] == s[i + 1]);
        }
        lemma_seq_index_none(s.drop_first(), v);
    }
}

/// The stored count of value `v` for attribute `i` under class `c`; zero
/// when the value was never seen with that class.
pub open spec fn nb_value_count(m: NBModelView, i: int, c: int, v: Seq<char>) -> nat {
    let j = seq_index_of(m.value_keys[i][c], v);
    if j < 0 {
        0
    } else {
        m.value_counts[i][c][j]
    }
}

/// Numerator of class `c`'s likelihood over the first `upto` attributes:
/// the class count times each smoothed value count.
pub open spec fn nb_num(m: NBModelView, row: Seq<Seq<char>>, c: int, upto: int) -> nat
    decreases upto,
{
    if upto <= 0 {
        m.class_counts[c]
    } else {
        nb_num(m, row, c, upto - 1) * (nb_value_count(m, upto - 1, c, row[upto - 1]) + 1)
    }
}

/// Denominator of class `c`'s likelihood over the first `upto` attributes:
/// the total count times each smoothing divisor.
pub open spec fn nb_den(m: NBModelView, c: int, upto: int) -> nat
    decreases upto,
{
    if upto <= 0 {
        m.total
    } else {
        nb_den(m, c, upto - 1) * (m.class_counts[c] + m.feature_values[upto - 1].len())
    }
}

/// How many attributes of a row take part in scoring: attributes beyond
/// the trained width, and trained attributes beyond the row's end, are
/// ignored.
pub open spec fn nb_span(m: NBModelView, row: Seq<Seq<char>>) -> int {
    if row.len() < m.value_keys.len() {
        row.len() as int
    } else {
        m.value_keys.len() as int
    }
}

/// Class `ci` scores a strictly higher likelihood than class `cj`.
pub open spec fn nb_better(m: NBModelView, row: Seq<Seq<char>>, ci: int, cj: int) -> bool {
    let u = nb_span(m, row);
    nb_num(m, row, ci, u) * nb_den(m, cj, u) > nb_num(m, row, cj, u) * nb_den(m, ci, u)
}

/// The first class with the strictly highest likelihood, scanning from
/// position `k` with current best `bi`.
pub open spec fn nb_best_from(m: NBModelView, row: Seq<Seq<char>>, k: int, bi: int) -> int
    decreases m.classes.len() - k,
{
    if k < 0 || k >= m.classes.len() {
        bi
    } else if nb_better(m, row, k, bi) {
        nb_best_from(m, row, k + 1, k)
    } else {
        nb_best_from(m, row, k + 1, bi)
    }
}

/// The label predicted for one row: the first-seen class among those of
/// maximal likelihood, or the empty string for an untrained model.
pub open spec fn nb_prediction(m: NBModelView, row: Seq<Seq<char>>) -> Seq<char> {
    if m.classes.len() == 0 {
        Seq::empty()
    } else {
        m.classes[nb_best_from(m, row, 1, 0)]
    }
}

/// The state `fit` leaves the model in, as a function of the training data.
pub open spec fn nb_fitted(x: Seq<Seq<Seq<char>>>, y: Seq<Seq<char>>) -> NBModelView {
    let idxs = seq_upto(y.len());
    let cls = distinct_firsts(y);
    NBModelView {
        classes: cls,
        class_counts: cls.map_values(|c: Seq<char>| count_eq(y, c)),
        value_keys: Seq::new(
            x[0].len(),
            |i: int|
                Seq::new(
                    cls.len(),
                    |c: int| distinct_firsts(col_of(x, lab_part_of(y, idxs, cls[c]), i as usize)),
                ),
        ),
        value_counts: Seq::new(
            x[0].len(),
            |i: int|
                Seq::new(
                    cls.len(),
                    |c: int|
                        ({
                            let col = col_of(x, lab_part_of(y, idxs, cls[c]), i as usize);
                            distinct_firsts(col).map_values(|v: Seq<char>| count_eq(col, v))
                        }),
                ),
        ),
        feature_values: Seq::new(
            x[0].len(),
            |i: int| distinct_firsts(col_of(x, idxs, i as usize)),
        ),
        total: y.len(),
    }
}

/// A Naive Bayes classifier: per-class row counts and, per attribute and
/// class, the observed values of that attribute with their counts.
pub struct NaiveBayesClassifier {
    class_counts: Vec<usize>,
    feature_value_counts: Vec<Vec<(Vec<String>, Vec<usize>)>>,
    feature_values: Vec<Vec<String>>,
    classes: Vec<String>,
    total_samples: usize,
}

impl View for NaiveBayesClassifier {
    type V = NBModelView;

    closed spec fn view(&self) -> NBModelView {
        NBModelView {
            classes: views_of(self.classes@),
            class_counts: self.class_counts@.map_values(|c: usize| c as nat),
            value_keys: self.feature_value_counts@.map_values(
                |pf: Vec<(Vec<String>, Vec<usize>)>|
                    pf@.map_values(|p: (Vec<String>, Vec<usize>)| views_of(p.0@)),
            ),
            value_counts: self.feature_value_counts@.map_values(
                |pf: Vec<(Vec<String>, Vec<usize>)>|
                    pf@.map_values(
                        |p: (Vec<String>, Vec<usize>)| p.1@.map_values(|c: usize| c as nat),
                    ),
            ),
            feature_values: self.feature_values@.map_values(|v: Vec<String>| views_of(v@)),
            total: self.total_samples as nat,
        }
    }
}

impl NaiveBayesClassifier {
    /// The structural facts every reachable model satisfies; they bound all
    /// smoothed counts so that the exact comparison stays in machine words.
    #[verifier::type_invariant]
    closed spec fn nb_wf(self) -> bool {
        &&& self.classes@.len() == self.class_counts@.len()
        &&& forall|c: int|
            0 <= c < self.class_counts@.len() ==> 1 <= #[trigger] self.class_counts@[c]
                && self.class_counts@[c] <= self.total_samples
        &&& (self.total_samples as nat) <= max_training_rows()
        &&& self.feature_value_counts@.len() == self.feature_values@.len()
        &&& forall|i: int|
            0 <= i < self.feature_value_counts@.len()
                ==> #[trigger] self.feature_value_counts@[i]@.len() == self.classes@.len()
        &&& forall|i: int, c: int|
            0 <= i < self.feature_value_counts@.len() && 0 <= c
                < self.feature_value_counts@[i]@.len()
                ==> #[trigger] self.feature_value_counts@[i]@[c].0@.len()
                == self.feature_value_counts@[i]@[c].1@.len()
        &&& forall|i: int, c: int, j: int|
            0 <= i < self.feature_value_counts@.len() && 0 <= c
                < self.feature_value_counts@[i]@.len() && 0 <= j
                < self.feature_value_counts@[i]@[c].1@.len()
                ==> #[trigger] self.feature_value_counts@[i]@[c].1@[j] <= self.total_samples
        &&& forall|i: int|
            0 <= i < self.feature_values@.len() ==> #[trigger] self.feature_values@[i]@.len()
                <= self.total_samples
    }

    /// A fresh, untrained model: no classes, no counts.
    pub fn new() -> (r: NaiveBayesClassifier)
        ensures
            r@.classes == Seq::<Seq<char>>::empty(),
            r@.total == 0,
    {
        let r = NaiveBayesClassifier {
            class_counts: Vec::new(),
            feature_value_counts: Vec::new(),
            feature_values: Vec::new(),
            classes: Vec::new(),
            total_samples: 0,
        };
        proof {
            assert(views_of(r.classes@) =~= Seq::<Seq<char>>::empty());
        }
        r
    }

    /// Validate the training data, then count classes and, per attribute
    /// and class, the observed values; earlier state is fully replaced on
    /// success and untouched on rejection.
    pub fn fit(&mut self, x: &Vec<Vec<String>>, y: &Vec<String>) -> (r: Result<(), FitError>)
        ensures
            x@.len() == 0 ==> r == Result::<(), FitError>::Err(FitError::EmptyTrainingSet),
            x@.len() > 0 && x@.len() != y@.len() ==> r == Result::<(), FitError>::Err(
                FitError::LengthMismatch,
            ),
            x@.len() > 0 && x@.len() == y@.len() && !rows_uniform(x.deep_view()) ==> r
                == Result::<(), FitError>::Err(FitError::RaggedRows),
            x@.len() > 0 && x@.len() == y@.len() && rows_uniform(x.deep_view()) && y@.len()
                > max_training_rows() ==> r == Result::<(), FitError>::Err(
                FitError::TrainingSetTooLarge,
            ),
            x@.len() > 0 && x@.len() == y@.len() && rows_uniform(x.deep_view()) && y@.len()
                <= max_training_rows() ==> r == Result::<(), FitError>::Ok(()) && final(self)@
                == nb_fitted(x.deep_view(), y.deep_view()),
            r matches Result::Err(_) ==> *final(self) == *old(self),
    {
        let ghost xv = x.deep_view();
        let ghost yv = y.deep_view();
        if x.len() == 0 {
            return Err(FitError::EmptyTrainingSet);
        }
        if x.len() != y.len() {
            return Err(FitError::LengthMismatch);
        }
        let w = x[0].len();
        proof {
            assert(xv[0] =~= x@[0].deep_view());
            assert(xv[0].len() == x@[0]@.len());
        }
        let mut i: usize = 0;
        while i < x.len()
            invariant
                x@.len() > 0,
                x@.len() == y@.len(),
                xv == x.deep_view(),
                (w as nat) == xv[0].len(),
                i <= x@.len(),
                forall|q: int| 0 <= q < i ==> #[trigger] xv[q].len() == xv[0].len(),
            decreases x@.len() - i,
        {
            proof {
                assert(xv[i as int] =~= x@[i as int].deep_view());
                assert(xv[i as int].len() == x@[i as int]@.len());
            }
            if x[i].len() != w {
                proof {
                    assert(xv[i as int].len() != xv[0].len());
                    assert(!rows_uniform(xv));
                }
                return Err(FitError::RaggedRows);
            }
            i += 1;
        }
        proof {
            assert(rows_uniform(xv));
        }
        if (y.len() as u64) > 0x3fff_ffff_ffff_ffffu64 {
            return Err(FitError::TrainingSetTooLarge);
        }
        let n = y.len();
        let mut all_indices: Vec<usize> = Vec::new();
        let mut j: usize = 0;
        while j < n
            invariant
                x@.len() > 0,
                x@.len() == y@.len(),
                n == y@.len(),
                xv == x.deep_view(),
                yv == y.deep_view(),
                rows_uniform(xv),
                (w as nat) == xv[0].len(),
                (n as nat) <= max_training_rows(),
                j <= n,
                all_indices@.len() == j,
                forall|q: int| 0 <= q < j ==> all_indices@[q] == q,
            decreases n - j,
        {
            all_indices.push(j);
            j += 1;
        }
        let ghost idseq = all_indices@;
        proof {
            assert(idseq =~= seq_upto(y@.len()));
            assert(labels_of(yv, idseq) =~= yv);
            assert(yv.len() == y@.len());
            assert(xv.len() == x@.len());
            assert forall|k: int|
                0 <= k < idseq.len() implies (idseq[k] as int) < x@.len() && (idseq[k] as int)
                < y@.len() by {
                assert(idseq[k] == k);
            }
            assert forall|k: int| 0 <= k < idseq.len() implies (w as int)
                <= x@[idseq[k] as int]@.len() by {
                assert(idseq[k] == k);
                assert(xv[k].len() == xv[0].len());
                assert(xv[k] =~= x@[k].deep_view());
                assert(xv[k].len() == x@[k]@.len());
            }
        }
        let ghost cls = distinct_firsts(yv);
        let (classes, class_counts) = group_counts(y, &all_indices);
        let (lkeys, lparts) = partition_labels(y, &all_indices);
        proof {
            lemma_distinct_props(yv);
            assert(views_of(classes@).len() == classes@.len());
            assert(views_of(lkeys@).len() == lkeys@.len());
            assert forall|c: int| 0 <= c < classes@.len() implies classes@[c]@ == cls[c] by {
                assert(views_of(classes@)[c] == classes@[c]@);
            }
            assert forall|c: int| 0 <= c < lkeys@.len() implies lkeys@[c]@ == cls[c] by {
                assert(views_of(lkeys@)[c] == lkeys@[c]@);
            }
            assert forall|c: int| 0 <= c < classes@.len() implies 1 <= #[trigger] (
            class_counts@[c] as nat) && (class_counts@[c] as nat) <= (n as nat) by {
                assert((class_counts@[c] as nat) == count_eq(yv, classes@[c]@));
                assert(cls.contains(cls[c]));
                lemma_count_pos_iff(yv, cls[c]);
                lemma_count_le_len(yv, cls[c]);
            }
        }
        let mut feature_values: Vec<Vec<String>> = Vec::new();
        let mut fi: usize = 0;
        while fi < w
            invariant
                xv == x.deep_view(),
                yv == y.deep_view(),
                idseq == all_indices@,
                n == y@.len(),
                (n as nat) <= max_training_rows(),
                (w as nat) == xv[0].len(),
                forall|k: int|
                    0 <= k < idseq.len() ==> (idseq[k] as int) < x@.len() && (idseq[k] as int)
                        < y@.len(),
                forall|k: int| 0 <= k < idseq.len() ==> (w as int) <= x@[idseq[k] as int]@.len(),
                idseq.len() == n,
                fi <= w,
                feature_values@.len() == fi,
                forall|q: int|
                    0 <= q < fi ==> views_of(#[trigger] feature_values@[q]@) == distinct_firsts(
                        col_of(xv, idseq, q as usize),
                    ) && feature_values@[q]@.len() <= n,
            decreases w - fi,
        {
            proof {
                assert forall|k: int|
                    0 <= k < idseq.len() implies (idseq[k] as int) < x@.len() && (fi as int)
                    < x@[idseq[k] as int]@.len() && (idseq[k] as int) < y@.len() by {
                    assert((w as int) <= x@[idseq[k] as int]@.len());
                }
            }
            let (vk, _vparts) = partition_by(x, &all_indices, fi);
            proof {
                let col = col_of(xv, idseq, fi);
                lemma_distinct_props(col);
                assert(col.len() == idseq.len());
                assert(views_of(vk@).len() == vk@.len());
            }
            feature_values.push(vk);
            fi += 1;
        }
        let mut fvc: Vec<Vec<(Vec<String>, Vec<usize>)>> = Vec::new();
        let mut fi2: usize = 0;
        while fi2 < w
            invariant
                xv == x.deep_view(),
                yv == y.deep_view(),
                idseq == all_indices@,
                n == y@.len(),
                (n as nat) <= max_training_rows(),
                (w as nat) == xv[0].len(),
                forall|k: int|
                    0 <= k < idseq.len() ==> (idseq[k] as int) < x@.len() && (idseq[k] as int)
                        < y@.len(),
                forall|k: int| 0 <= k < idseq.len() ==> (w as int) <= x@[idseq[k] as int]@.len(),
                idseq.len() == n,
                cls == distinct_firsts(yv),
                lkeys@.len() == cls.len(),
                lparts@.len() == lkeys@.len(),
                forall|c: int| 0 <= c < lkeys@.len() ==> #[trigger] lkeys@[c]@ == cls[c],
                forall|c: int|
                    0 <= c < lkeys@.len() ==> #[trigger] lparts@[c]@ == lab_part_of(
                        yv,
                        idseq,
                        cls[c],
                    ),
                fi2 <= w,
                fvc@.len() == fi2,
                forall|q: int| 0 <= q < fi2 ==> #[trigger] fvc@[q]@.len() == cls.len(),
                forall|q: int, c: int|
                    #![trigger fvc@[q]@[c]]
                    0 <= q < fi2 && 0 <= c < cls.len() ==> ({
                        let col = col_of(xv, lab_part_of(yv, idseq, cls[c]), q as usize);
                        &&& views_of(fvc@[q]@[c].0@) == distinct_firsts(col)
                        &&& fvc@[q]@[c].1@.len() == fvc@[q]@[c].0@.len()
                        &&& forall|v: int|
                            0 <= v < fvc@[q]@[c].1@.len() ==> (#[trigger] fvc@[q]@[c].1@[v] as nat)
                                == count_eq(col, distinct_firsts(col)[v]) && fvc@[q]@[c].1@[v] <= n
                    }),
            decreases w - fi2,
        {
            let mut per_f: Vec<(Vec<String>, Vec<usize>)> = Vec::new();
            let mut c: usize = 0;
            while c < lparts.len()
                invariant
                    xv == x.deep_view(),
                    yv == y.deep_view(),
                    idseq == all_indices@,
                    n == y@.len(),
                    (w as nat) == xv[0].len(),
                    fi2 < w,
                    forall|k: int|
                        0 <= k < idseq.len() ==> (idseq[k] as int) < x@.len() && (idseq[k] as int)
                            < y@.len(),
                    forall|k: int|
                        0 <= k < idseq.len() ==> (w as int) <= x@[idseq[k] as int]@.len(),
                    idseq.len() == n,
                    cls == distinct_firsts(yv),
                    lkeys@.len() == cls.len(),
                    lparts@.len() == lkeys@.len(),
                    forall|c2: int| 0 <= c2 < lkeys@.len() ==> #[trigger] lkeys@[c2]@ == cls[c2],
                    forall|c2: int|
                        0 <= c2 < lkeys@.len() ==> #[trigger] lparts@[c2]@ == lab_part_of(
                            yv,
                            idseq,
                            cls[c2],
                        ),
                    c <= lparts@.len(),
                    per_f@.len() == c,
                    forall|c2: int|
                        #![trigger per_f@[c2]]
                        0 <= c2 < c ==> ({
                            let col = col_of(xv, lab_part_of(yv, idseq, cls[c2]), fi2 as usize);
                            &&& views_of(per_f@[c2].0@) == distinct_firsts(col)
                            &&& per_f@[c2].1@.len() == per_f@[c2].0@.len()
                            &&& forall|v: int|
                                0 <= v < per_f@[c2].1@.len() ==> (#[trigger] per_f@[c2].1@[v]
                                    as nat) == count_eq(col, distinct_firsts(col)[v])
                                    && per_f@[c2].1@[v] <= n
                        }),
                decreases lparts@.len() - c,
            {
                let ghost pc = lab_part_of(yv, idseq, cls[c as int]);
                proof {
                    lemma_lab_part_sub(yv, idseq, cls[c as int]);
                    assert(lparts@[c as int]@ == pc);
                    assert forall|k: int|
                        0 <= k < pc.len() implies (pc[k] as int) < x@.len() && (fi2 as int)
                        < x@[pc[k] as int]@.len() && (pc[k] as int) < y@.len() by {
                        assert(idseq.contains(pc[k]));
                        let w2 = choose|w2: int| 0 <= w2 < idseq.len() && idseq[w2] == pc[k];
                        assert((w as int) <= x@[idseq[w2] as int]@.len());
                    }
                }
                let (vk, vparts) = partition_by(x, &lparts[c], fi2);
                let ghost colc = col_of(xv, pc, fi2);
                let ghost dvals = distinct_firsts(colc);
                proof {
                    lemma_distinct_props(colc);
                    assert(colc.len() == pc.len());
                    assert(pc.len() <= idseq.len());
                    assert(views_of(vk@).len() == vk@.len());
                    assert forall|q: int| 0 <= q < vk@.len() implies vk@[q]@ == dvals[q] by {
                        assert(views_of(vk@)[q] == vk@[q]@);
                    }
                }
                let mut counts: Vec<usize> = Vec::new();
                let mut v: usize = 0;
                while v < vparts.len()
                    invariant
                        colc == col_of(xv, pc, fi2),
                        dvals == distinct_firsts(colc),
                        colc.len() <= n,
                        vk@.len() == dvals.len(),
                        vparts@.len() == vk@.len(),
                        forall|q: int|
                            0 <= q < vparts@.len() ==> #[trigger] vparts@[q]@ == part_of(
                                xv,
                                pc,
                                fi2,
                                dvals[q],
                            ),
                        v <= vparts@.len(),
                        counts@.len() == v,
                        forall|q: int|
                            0 <= q < v ==> (#[trigger] counts@[q] as nat) == count_eq(
                                colc,
                                dvals[q],
                            ) && counts@[q] <= n,
                    decreases vparts@.len() - v,
                {
                    proof {
                        lemma_part_count(xv, pc, fi2, dvals[v as int]);
                        lemma_count_le_len(colc, dvals[v as int]);
                    }
                    counts.push(vparts[v].len());
                    v += 1;
                }
                per_f.push((vk, counts));
                c += 1;
            }
            fvc.push(per_f);
            fi2 += 1;
        }
        let total = n;
        let new_model = NaiveBayesClassifier {
            class_counts,
            feature_value_counts: fvc,
            feature_values,
            classes,
            total_samples: total,
        };
        proof {
            let m = new_model@;
            let s = nb_fitted(xv, yv);
            assert(m.classes =~= s.classes);
            assert(m.class_counts =~= s.class_counts);
            assert(m.feature_values =~~= s.feature_values);
            assert(m.value_keys =~~= s.value_keys);
            assert(m.value_counts =~~= s.value_counts);
            assert(m.total == s.total);
        }
        *self = new_model;
        Ok(())
    }

    /// One predicted label per input row, in order: the first-seen class of
    /// maximal Laplace-smoothed likelihood, or the empty string when the
    /// model is untrained.
    pub fn predict(&self, data: &Vec<Vec<String>>) -> (r: Vec<String>)
        ensures
            r@.len() == data@.len(),
            forall|i: int|
                0 <= i < data@.len() ==> r@[i]@ == nb_prediction(self@, data.deep_view()[i]),
    {
        let ghost dv = data.deep_view();
        let mut out: Vec<String> = Vec::new();
        let mut i: usize = 0;
        while i < data.len()
            invariant
                dv == data.deep_view(),
                dv.len() == data@.len(),
                i <= data@.len(),
                out@.len() == i,
                forall|q: int| 0 <= q < i ==> out@[q]@ == nb_prediction(self@, dv[q]),
            decreases data@.len() - i,
        {
            proof {
                assert(dv[i as int] =~= data@[i as int].deep_view());
            }
            let lab = self.predict_row(&data[i]);
            out.push(lab);
            i += 1;
        }
        out
    }

    /// Likelihood factor lists for one class: the product of the first list
    /// is the class's numerator, of the second its denominator.
    fn class_factors(&self, row: &Vec<String>, ci: usize, span: usize) -> (r: (Vec<u64>, Vec<u64>))
        requires
            self.nb_wf(),
            (ci as int) < self@.classes.len(),
            (span as int) == nb_span(self@, row.deep_view()),
            span <= row@.len(),
        ensures
            seq_prod(r.0@) == nb_num(self@, row.deep_view(), ci as int, span as int),
            seq_prod(r.1@) == nb_den(self@, ci as int, span as int),
            forall|q: int| 0 <= q < r.0@.len() ==> r.0@[q] >= 1,
            forall|q: int| 0 <= q < r.1@.len() ==> r.1@[q] >= 1,
    {
        let ghost m = self@;
        let ghost rv = row.deep_view();
        let mut num: Vec<u64> = Vec::new();
        let mut den: Vec<u64> = Vec::new();
        proof {
            assert(m.class_counts[ci as int] == (self.class_counts@[ci as int] as nat));
            assert(rv.len() == row@.len());
        }
        num.push(self.class_counts[ci] as u64);
        den.push(self.total_samples as u64);
        proof {
            assert(num@.drop_last() =~= Seq::<u64>::empty());
            assert(seq_prod(Seq::<u64>::empty()) == 1nat);
            assert(seq_prod(num@) == seq_prod(num@.drop_last()) * (num@.last() as nat));
            assert(den@.drop_last() =~= Seq::<u64>::empty());
            assert(seq_prod(den@) == seq_prod(den@.drop_last()) * (den@.last() as nat));
            assert(seq_prod(num@) == nb_num(m, rv, ci as int, 0));
            assert(seq_prod(den@) == nb_den(m, ci as int, 0));
        }
        let mut i: usize = 0;
        while i < span
            invariant
                self.nb_wf(),
                m == self@,
                rv == row.deep_view(),
                rv.len() == row@.len(),
                (ci as int) < m.classes.len(),
                (span as int) == nb_span(m, rv),
                span <= row@.len(),
                i <= span,
                seq_prod(num@) == nb_num(m, rv, ci as int, i as int),
                seq_prod(den@) == nb_den(m, ci as int, i as int),
                forall|q: int| 0 <= q < num@.len() ==> num@[q] >= 1,
                forall|q: int| 0 <= q < den@.len() ==> den@[q] >= 1,
            decreases span - i,
        {
            proof {
                assert((span as int) <= m.value_keys.len());
                assert(m.value_keys.len() == self.feature_value_counts@.len());
                assert(m.value_keys[i as int] == self.feature_value_counts@[i as int]@.map_values(
                    |p: (Vec<String>, Vec<usize>)| views_of(p.0@),
                ));
                assert(m.classes.len() == views_of(self.classes@).len());
                assert(rv[i as int] == row@[i as int]@);
            }
            let pair = &self.feature_value_counts[i];
            let entry = &pair[ci];
            let ghost keys_ic = m.value_keys[i as int][ci as int];
            proof {
                assert(keys_ic == views_of(entry.0@));
                assert(keys_ic.len() == entry.0@.len());
            }
            let vval = &row[i];
            let cnt: usize = match find_key(&entry.0, vval) {
                Some(j) => {
                    proof {
                        assert forall|q: int| 0 <= q < j implies keys_ic[q] != vval@ by {
                            assert(keys_ic[q] == views_of(entry.0@)[q]);
                            assert(views_of(entry.0@)[q] == entry.0@[q]@);
                        }
                        assert(keys_ic[j as int] == entry.0@[j as int]@);
                        lemma_seq_index_found(keys_ic, vval@, j as int);
                        assert(m.value_counts[i as int][ci as int][j as int] == (
                        entry.1@[j as int] as nat));
                    }
                    entry.1[j]
                },
                None => {
                    proof {
                        assert forall|q: int| 0 <= q < keys_ic.len() implies keys_ic[q]
                            != vval@ by {
                            assert(keys_ic[q] == views_of(entry.0@)[q]);
                            assert(views_of(entry.0@)[q] == entry.0@[q]@);
                        }
                        lemma_seq_index_none(keys_ic, vval@);
                    }
                    0
                },
            };
            proof {
                assert((cnt as nat) == nb_value_count(m, i as int, ci as int, rv[i as int]));
                assert(cnt <= self.total_samples);
            }
            let nf: u64 = (cnt as u64) + 1;
            let df: u64 = (self.class_counts[ci] as u64) + (self.feature_values[i].len() as u64);
            proof {
                assert(m.feature_values[i as int] == views_of(self.feature_values@[i as int]@));
                assert(m.feature_values[i as int].len() == self.feature_values@[i as int]@.len());
                lemma_seq_prod_push(num@, nf);
                lemma_seq_prod_push(den@, df);
                assert(nb_num(m, rv, ci as int, i as int + 1) == nb_num(m, rv, ci as int, i as int)
                    * (nb_value_count(m, i as int, ci as int, rv[i as int]) + 1));
                assert(nb_den(m, ci as int, i as int + 1) == nb_den(m, ci as int, i as int) * (
                m.class_counts[ci as int] + m.feature_values[i as int].len()));
            }
            num.push(nf);
            den.push(df);
            i += 1;
        }
        (num, den)
    }

    /// The prediction for a single row.
    fn predict_row(&self, row: &Vec<String>) -> (r: String)
        ensures
            r@ == nb_prediction(self@, row.deep_view()),
    {
        proof {
            use_type_invariant(self);
        }
        let ghost m = self@;
        let ghost rv = row.deep_view();
        if self.classes.len() == 0 {
            proof {
                assert(m.classes.len() == views_of(self.classes@).len());
            }
            return String::new();
        }
        proof {
            assert(m.classes.len() == views_of(self.classes@).len());
            assert(rv.len() == row@.len());
        }
        let span: usize = if row.len() < self.feature_value_counts.len() {
            row.len()
        } else {
            self.feature_value_counts.len()
        };
        proof {
            assert(m.value_keys.len() == self.feature_value_counts@.len());
            assert((span as int) == nb_span(m, rv));
        }
        let mut best: usize = 0;
        let (mut bnum, mut bden) = self.class_factors(row, 0, span);
        let mut c: usize = 1;
        while c < self.classes.len()
            invariant
                self.nb_wf(),
                m == self@,
                rv == row.deep_view(),
                rv.len() == row@.len(),
                m.classes.len() == self.classes@.len(),
                m.classes.len() >= 1,
                (span as int) == nb_span(m, rv),
                span <= row@.len(),
                1 <= c <= m.classes.len(),
                (best as int) < c,
                seq_prod(bnum@) == nb_num(m, rv, best as int, span as int),
                seq_prod(bden@) == nb_den(m, best as int, span as int),
                forall|q: int| 0 <= q < bnum@.len() ==> bnum@[q] >= 1,
                forall|q: int| 0 <= q < bden@.len() ==> bden@[q] >= 1,
                nb_best_from(m, rv, c as int, best as int) == nb_best_from(m, rv, 1, 0),
            decreases m.classes.len() - c,
        {
            let (cnum, cden) = self.class_factors(row, c, span);
            let mut left: Vec<u64> = Vec::new();
            proof {
                assert(left@ =~= Seq::<u64>::empty());
                assert(seq_prod(left@) == 1nat);
            }
            crate::gain::append_factors(&mut left, &bnum);
            crate::gain::append_factors(&mut left, &cden);
            let mut right: Vec<u64> = Vec::new();
            proof {
                assert(right@ =~= Seq::<u64>::empty());
                assert(seq_prod(right@) == 1nat);
            }
            crate::gain::append_factors(&mut right, &cnum);
            crate::gain::append_factors(&mut right, &bden);
            let better = prod_lt(&left, &right);
            let ghost b0 = best as int;
            proof {
                assert(seq_prod(left@) == nb_num(m, rv, b0, span as int) * nb_den(
                    m,
                    c as int,
                    span as int,
                ));
                assert(seq_prod(right@) == nb_num(m, rv, c as int, span as int) * nb_den(
                    m,
                    b0,
                    span as int,
                ));
                assert(better == nb_better(m, rv, c as int, b0));
                assert(nb_best_from(m, rv, c as int, b0) == if nb_better(m, rv, c as int, b0) {
                    nb_best_from(m, rv, c as int + 1, c as int)
                } else {
                    nb_best_from(m, rv, c as int + 1, b0)
                });
            }
            if better {
                best = c;
                bnum = cnum;
                bden = cden;
            }
            c += 1;
        }
        proof {
            assert(nb_best_from(m, rv, c as int, best as int) == best as int);
            assert(views_of(self.classes@)[best as int] == self.classes@[best as int]@);
        }
        self.classes[best].clone()
    }
}

} // verus!
