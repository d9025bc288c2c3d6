//! Exact information-gain comparisons.
//!
//! The Shannon entropy of a label multiset `{c_1, .., c_m}` over `n` rows is
//! `log2(n) - (1/n) * sum c_i * log2(c_i)`.  Every comparison the tree
//! builder needs — "is the gain of this split positive" and "is this split
//! better than that one" — therefore reduces to comparing products of the
//! form `prod k^k` built from subset sizes and label counts.  Those products
//! are computed exactly with the big naturals of `bignat`, so the choice of
//! split is fully deterministic.

use vstd::prelude::*;

verus! {

use vstd::arithmetic::power::pow;
use vstd::arithmetic::power::lemma_pow_adds;
use vstd::arithmetic::power::lemma_pow1;
use vstd::arithmetic::power::lemma_pow_positive;
use vstd::arithmetic::mul::lemma_mul_is_associative;
use crate::bignat::seq_prod;
use crate::bignat::prod_lt;
use crate::bignat::lemma_seq_prod_push;
use crate::tally::labels_of;
use crate::tally::col_of;
use crate::tally::count_eq;
use crate::tally::distinct_firsts;
use crate::tally::part_of;
use crate::tally::views_of;
use crate::tally::group_counts;
use crate::tally::partition_by;
use crate::tally::lemma_take_step;
use crate::tally::lemma_distinct_props;
use crate::tally::lemma_count_pos_iff;
use crate::tally::lemma_count_le_len;
use crate::tally::lemma_part_sub;
use crate::tally::lemma_contains_step;

/// `k^k`, the exact weight a group of size `k` contributes to a score.
pub open spec fn pow_self(k: nat) -> nat {
    pow(k as int, k) as nat
}

/// Product of `count^count` over the given label keys.
pub open spec fn score_over(ls: Seq<Seq<char>>, keys: Seq<Seq<char>>) -> nat
    decreases keys.len(),
{
    if keys.len() == 0 {
        1
    } else {
        score_over(ls, keys.drop_last()) * pow_self(count_eq(ls, keys.last()))
    }
}

/// Product of `count^count` over the distinct labels of `ls`.
/// `log2` of this is `sum c * log2(c)`, the unnormalized self-information.
pub open spec fn labels_score(ls: Seq<Seq<char>>) -> nat {
    score_over(ls, distinct_firsts(ls))
}

/// Product of `size^size` over the parts splitting on column `f` induces.
pub open spec fn sizes_score_over(
    x: Seq<Seq<Seq<char>>>,
    idxs: Seq<usize>,
    f: usize,
    vals: Seq<Seq<char>>,
) -> nat
    decreases vals.len(),
{
    if vals.len() == 0 {
        1
    } else {
        sizes_score_over(x, idxs, f, vals.drop_last()) * pow_self(
            part_of(x, idxs, f, vals.last()).len(),
        )
    }
}

pub open spec fn sizes_score(x: Seq<Seq<Seq<char>>>, idxs: Seq<usize>, f: usize) -> nat {
    sizes_score_over(x, idxs, f, distinct_firsts(col_of(x, idxs, f)))
}

/// Product of the label scores of every part of the split on column `f`.
pub open spec fn parts_score_over(
    x: Seq<Seq<Seq<char>>>,
    y: Seq<Seq<char>>,
    idxs: Seq<usize>,
    f: usize,
    vals: Seq<Seq<char>>,
) -> nat
    decreases vals.len(),
{
    if vals.len() == 0 {
        1
    } else {
        parts_score_over(x, y, idxs, f, vals.drop_last()) * labels_score(
            labels_of(y, part_of(x, idxs, f, vals.last())),
        )
    }
}

pub open spec fn parts_score(
    x: Seq<Seq<Seq<char>>>,
    y: Seq<Seq<char>>,
    idxs: Seq<usize>,
    f: usize,
) -> nat {
    parts_score_over(x, y, idxs, f, distinct_firsts(col_of(x, idxs, f)))
}

/// Splitting the subset on column `f` strictly lowers the expected entropy,
/// i.e. the information gain of the split is positive.  Multiplying the
/// defining inequality of the gain by `n` and exponentiating turns it into
/// this exact comparison of integer products.
pub open spec fn gain_pos(
    x: Seq<Seq<Seq<char>>>,
    y: Seq<Seq<char>>,
    idxs: Seq<usize>,
    f: usize,
) -> bool {
    labels_score(labels_of(y, idxs)) * sizes_score(x, idxs, f) < pow_self(idxs.len()) * parts_score(
        x,
        y,
        idxs,
        f,
    )
}

/// Splitting on column `f` yields strictly more information gain than
/// splitting on column `g`, by the same exponentiation argument.
pub open spec fn gain_gt(
    x: Seq<Seq<Seq<char>>>,
    y: Seq<Seq<char>>,
    idxs: Seq<usize>,
    f: usize,
    g: usize,
) -> bool {
    sizes_score(x, idxs, f) * parts_score(x, y, idxs, g) < sizes_score(x, idxs, g) * parts_score(
        x,
        y,
        idxs,
        f,
    )
}

/// The candidate with the strictly highest positive gain, scanning from
/// position `k` with current best `best`; ties keep the earlier candidate.
pub open spec fn best_feature_from(
    x: Seq<Seq<Seq<char>>>,
    y: Seq<Seq<char>>,
    idxs: Seq<usize>,
    feats: Seq<usize>,
    k: int,
    best: Option<usize>,
) -> Option<usize>
    decreases feats.len() - k,
{
    if k < 0 || k >= feats.len() {
        best
    } else {
        let f = feats[k];
        let better = match best {
            Option::None => gain_pos(x, y, idxs, f),
            Option::Some(b) => gain_gt(x, y, idxs, f, b),
        };
        best_feature_from(
            x,
            y,
            idxs,
            feats,
            k + 1,
            if better {
                Option::Some(f)
            } else {
                best
            },
        )
    }
}

/// The attribute chosen for a split: the first candidate whose gain is
/// positive and strictly above every earlier candidate's gain.
pub open spec fn best_feature(
    x: Seq<Seq<Seq<char>>>,
    y: Seq<Seq<char>>,
    idxs: Seq<usize>,
    feats: Seq<usize>,
) -> Option<usize> {
    best_feature_from(x, y, idxs, feats, 0, Option::None)
}

/// A chosen attribute always comes from the candidate list.
pub proof fn lemma_best_feature_in(
    x: Seq<Seq<Seq<char>>>,
    y: Seq<Seq<char>>,
    idxs: Seq<usize>,
    feats: Seq<usize>,
    k: int,
    best: Option<usize>,
)
    requires
        best matches Option::Some(b) ==> feats.contains(b),
    ensures
        best_feature_from(x, y, idxs, feats, k, best) matches Option::Some(r) ==> feats.contains(
            r,
        ),
    decreases feats.len() - k,
{
    if 0 <= k < feats.len() {
        let f = feats[k];
        assert(feats.contains(f));
        let better = match best {
            Option::None => gain_pos(x, y, idxs, f),
            Option::Some(b) => gain_gt(x, y, idxs, f, b),
        };
        lemma_best_feature_in(
            x,
            y,
            idxs,
            feats,
            k + 1,
            if better {
                Option::Some(f)
            } else {
                best
            },
        );
    }
}

/// Append `k` copies of the factor `k`, multiplying the product by `k^k`.
fn push_copies(fs: &mut Vec<u64>, k: u64)
    requires
        k >= 1,
        forall|i: int| 0 <= i < old(fs)@.len() ==> old(fs)@[i] >= 1,
    ensures
        seq_prod(final(fs)@) == seq_prod(old(fs)@) * pow_self(k as nat),
        forall|i: int| 0 <= i < final(fs)@.len() ==> final(fs)@[i] >= 1,
{
    let ghost f0 = fs@;
    let mut j: u64 = 0;
    proof {
        vstd::arithmetic::power::lemma_pow0(k as int);
        assert(pow(k as int, 0) == 1);
        assert((j as nat) == 0);
        assert(pow(k as int, j as nat) == 1);
        assert(fs@ == f0);
        assert((pow(k as int, j as nat) as nat) == 1nat);
        assert(seq_prod(f0) * 1nat == seq_prod(f0));
        assert(seq_prod(fs@) == seq_prod(f0) * (pow(k as int, j as nat) as nat));
    }
    while j < k
        invariant
            k >= 1,
            j <= k,
            forall|i: int| 0 <= i < fs@.len() ==> fs@[i] >= 1,
            seq_prod(fs@) == seq_prod(f0) * (pow(k as int, j as nat) as nat),
        decreases k - j,
    {
        proof {
            lemma_pow_positive(k as int, j as nat);
            lemma_seq_prod_push(fs@, k);
            lemma_pow1(k as int);
            lemma_pow_adds(k as int, j as nat, 1);
            lemma_mul_is_associative(seq_prod(f0) as int, pow(k as int, j as nat), k as int);
        }
        fs.push(k);
        j = j + 1;
    }
}

/// Append every factor of `src`, multiplying the product accordingly.
pub(crate) fn append_factors(dst: &mut Vec<u64>, src: &Vec<u64>)
    requires
        forall|i: int| 0 <= i < old(dst)@.len() ==> old(dst)@[i] >= 1,
        forall|i: int| 0 <= i < src@.len() ==> src@[i] >= 1,
    ensures
        seq_prod(final(dst)@) == seq_prod(old(dst)@) * seq_prod(src@),
        forall|i: int| 0 <= i < final(dst)@.len() ==> final(dst)@[i] >= 1,
{
    let ghost d0 = dst@;
    let mut i: usize = 0;
    proof {
        assert(src@.take(0) =~= Seq::<u64>::empty());
        assert(seq_prod(src@.take(0)) == 1nat);
        assert(seq_prod(d0) * 1nat == seq_prod(d0));
        assert(dst@ == d0);
    }
    while i < src.len()
        invariant
            i <= src@.len(),
            forall|q: int| 0 <= q < dst@.len() ==> dst@[q] >= 1,
            forall|q: int| 0 <= q < src@.len() ==> src@[q] >= 1,
            seq_prod(dst@) == seq_prod(d0) * seq_prod(src@.take(i as int)),
        decreases src@.len() - i,
    {
        proof {
            lemma_take_step(src@, i as int);
            lemma_seq_prod_push(dst@, src@[i as int]);
            assert(seq_prod(src@.take(i as int + 1)) == seq_prod(src@.take(i as int)) * (
            src@[i as int] as nat));
            lemma_mul_is_associative(
                seq_prod(d0) as int,
                seq_prod(src@.take(i as int)) as int,
                src@[i as int] as int,
            );
        }
        dst.push(src[i]);
        i += 1;
    }
    proof {
        assert(src@.take(src@.len() as int) =~= src@);
    }
}

/// Append the label factors of the selected rows: `count` copies of `count`
/// for each distinct label, multiplying the product by the label score.
fn label_factors(y: &Vec<String>, idxs: &Vec<usize>, fs: &mut Vec<u64>)
    requires
        forall|k: int| 0 <= k < idxs@.len() ==> (idxs@[k] as int) < y@.len(),
        forall|i: int| 0 <= i < old(fs)@.len() ==> old(fs)@[i] >= 1,
    ensures
        seq_prod(final(fs)@) == seq_prod(old(fs)@) * labels_score(labels_of(y.deep_view(), idxs@)),
        forall|i: int| 0 <= i < final(fs)@.len() ==> final(fs)@[i] >= 1,
{
    let ghost f0 = fs@;
    let ghost ls = labels_of(y.deep_view(), idxs@);
    let ghost dkeys = distinct_firsts(ls);
    let (keys, counts) = group_counts(y, idxs);
    proof {
        assert(keys@.len() == views_of(keys@).len());
        lemma_distinct_props(ls);
        assert(dkeys.take(0) =~= Seq::<Seq<char>>::empty());
        assert(score_over(ls, dkeys.take(0)) == 1nat);
        assert(seq_prod(f0) * 1nat == seq_prod(f0));
        assert(fs@ == f0);
        assert forall|j: int| 0 <= j < dkeys.len() implies count_eq(ls, dkeys[j]) >= 1 by {
            assert(dkeys.contains(dkeys[j]));
            lemma_count_pos_iff(ls, dkeys[j]);
        }
        assert forall|j: int| 0 <= j < keys@.len() implies keys@[j]@ == dkeys[j] by {
            assert(views_of(keys@)[j] == keys@[j]@);
        }
    }
    let mut g: usize = 0;
    while g < keys.len()
        invariant
            keys@.len() == dkeys.len(),
            counts@.len() == keys@.len(),
            forall|j: int| 0 <= j < keys@.len() ==> keys@[j]@ == dkeys[j],
            forall|j: int| 0 <= j < keys@.len() ==> (counts@[j] as nat) == count_eq(ls, dkeys[j]),
            forall|j: int| 0 <= j < keys@.len() ==> count_eq(ls, dkeys[j]) >= 1,
            g <= keys@.len(),
            forall|i: int| 0 <= i < fs@.len() ==> fs@[i] >= 1,
            seq_prod(fs@) == seq_prod(f0) * score_over(ls, dkeys.take(g as int)),
        decreases keys@.len() - g,
    {
        proof {
            lemma_count_le_len(ls, dkeys[g as int]);
        }
        let c: u64 = counts[g] as u64;
        let ghost fs_before = fs@;
        push_copies(fs, c);
        proof {
            lemma_take_step(dkeys, g as int);
            assert(score_over(ls, dkeys.take(g as int + 1)) == score_over(
                ls,
                dkeys.take(g as int),
            ) * pow_self(count_eq(ls, dkeys[g as int])));
            lemma_mul_is_associative(
                seq_prod(f0) as int,
                score_over(ls, dkeys.take(g as int)) as int,
                pow_self(count_eq(ls, dkeys[g as int])) as int,
            );
        }
        g += 1;
    }
    proof {
        assert(dkeys.take(dkeys.len() as int) =~= dkeys);
    }
}

/// A value that occurs in the column selects a non-empty part.
pub proof fn lemma_part_nonempty(
    x: Seq<Seq<Seq<char>>>,
    idxs: Seq<usize>,
    f: usize,
    v: Seq<char>,
)
    requires
        col_of(x, idxs, f).contains(v),
    ensures
        part_of(x, idxs, f, v).len() >= 1,
    decreases idxs.len(),
{
    let col = col_of(x, idxs, f);
    if idxs.len() > 0 {
        assert(col.len() == idxs.len());
        if x[idxs.last() as int][f as int] == v {
        } else {
            assert(col.last() == x[idxs.last() as int][f as int]);
            lemma_contains_step(col, v);
            assert(col.drop_last() =~= col_of(x, idxs.drop_last(), f));
            lemma_part_nonempty(x, idxs.drop_last(), f, v);
        }
    } else {
        assert(col.len() == 0);
        assert(!col.contains(v));
    }
}

/// The size and label factor lists for a split on column `f`: the products
/// of the two lists are exactly the split's size score and part score.
fn split_factors(x: &Vec<Vec<String>>, y: &Vec<String>, idxs: &Vec<usize>, f: usize) -> (r: (
    Vec<u64>,
    Vec<u64>,
))
    requires
        forall|k: int|
            0 <= k < idxs@.len() ==> (idxs@[k] as int) < x@.len() && (f as int)
                < x@[idxs@[k] as int]@.len() && (idxs@[k] as int) < y@.len(),
    ensures
        seq_prod(r.0@) == sizes_score(x.deep_view(), idxs@, f),
        seq_prod(r.1@) == parts_score(x.deep_view(), y.deep_view(), idxs@, f),
        forall|i: int| 0 <= i < r.0@.len() ==> r.0@[i] >= 1,
        forall|i: int| 0 <= i < r.1@.len() ==> r.1@[i] >= 1,
{
    let ghost xv = x.deep_view();
    let ghost yv = y.deep_view();
    let ghost col = col_of(xv, idxs@, f);
    let ghost dvals = distinct_firsts(col);
    let (vkeys, parts) = partition_by(x, idxs, f);
    let mut sizes_fs: Vec<u64> = Vec::new();
    let mut parts_fs: Vec<u64> = Vec::new();
    proof {
        assert(vkeys@.len() == views_of(vkeys@).len());
        lemma_distinct_props(col);
        assert(dvals.take(0) =~= Seq::<Seq<char>>::empty());
    }
    let mut g: usize = 0;
    while g < vkeys.len()
        invariant
            forall|k: int|
                0 <= k < idxs@.len() ==> (idxs@[k] as int) < x@.len() && (f as int)
                    < x@[idxs@[k] as int]@.len() && (idxs@[k] as int) < y@.len(),
            xv == x.deep_view(),
            yv == y.deep_view(),
            col == col_of(xv, idxs@, f),
            dvals == distinct_firsts(col),
            vkeys@.len() == dvals.len(),
            parts@.len() == vkeys@.len(),
            forall|j: int| 0 <= j < vkeys@.len() ==> vkeys@[j]@ == dvals[j],
            forall|j: int| 0 <= j < vkeys@.len() ==> parts@[j]@ == part_of(xv, idxs@, f, dvals[j]),
            forall|j: int| 0 <= j < dvals.len() ==> col.contains(dvals[j]),
            g <= vkeys@.len(),
            forall|i: int| 0 <= i < sizes_fs@.len() ==> sizes_fs@[i] >= 1,
            forall|i: int| 0 <= i < parts_fs@.len() ==> parts_fs@[i] >= 1,
            seq_prod(sizes_fs@) == sizes_score_over(xv, idxs@, f, dvals.take(g as int)),
            seq_prod(parts_fs@) == parts_score_over(xv, yv, idxs@, f, dvals.take(g as int)),
        decreases vkeys@.len() - g,
    {
        let ghost pv = part_of(xv, idxs@, f, dvals[g as int]);
        proof {
            lemma_part_nonempty(xv, idxs@, f, dvals[g as int]);
            lemma_part_sub(xv, idxs@, f, dvals[g as int]);
            assert forall|j: int| 0 <= j < pv.len() implies (pv[j] as int) < y@.len() && (
            pv[j] as int) < x@.len() by {
                assert(idxs@.contains(pv[j]));
                let w = choose|w: int| 0 <= w < idxs@.len() && idxs@[w] == pv[j];
                assert((idxs@[w] as int) < y@.len());
            }
        }
        let sub = &parts[g];
        let sublen: u64 = sub.len() as u64;
        proof {
            assert(sub@ == pv);
            assert(sublen as nat == pv.len());
        }
        push_copies(&mut sizes_fs, sublen);
        label_factors(y, sub, &mut parts_fs);
        proof {
            lemma_take_step(dvals, g as int);
            assert(sizes_score_over(xv, idxs@, f, dvals.take(g as int + 1)) == sizes_score_over(
                xv,
                idxs@,
                f,
                dvals.take(g as int),
            ) * pow_self(pv.len()));
            assert(parts_score_over(xv, yv, idxs@, f, dvals.take(g as int + 1))
                == parts_score_over(xv, yv, idxs@, f, dvals.take(g as int)) * labels_score(
                labels_of(yv, pv),
            ));
        }
        g += 1;
    }
    proof {
        assert(dvals.take(dvals.len() as int) =~= dvals);
    }
    (sizes_fs, parts_fs)
}

/// Choose the split attribute among `feats` exactly as `best_feature` does:
/// first candidate with positive gain, replaced only by strictly higher gain.
pub fn select_best_feature(
    x: &Vec<Vec<String>>,
    y: &Vec<String>,
    idxs: &Vec<usize>,
    feats: &Vec<usize>,
) -> (r: Option<usize>)
    requires
        idxs@.len() >= 1,
        forall|k: int|
            0 <= k < idxs@.len() ==> (idxs@[k] as int) < x@.len() && (idxs@[k] as int) < y@.len(),
        forall|k: int, j: int|
            #![trigger idxs@[k], feats@[j]]
            0 <= k < idxs@.len() && 0 <= j < feats@.len() ==> (feats@[j] as int)
                < x@[idxs@[k] as int]@.len(),
    ensures
        r == best_feature(x.deep_view(), y.deep_view(), idxs@, feats@),
        r matches Option::Some(b) ==> feats@.contains(b),
{
    let ghost xv = x.deep_view();
    let ghost yv = y.deep_view();
    let n: u64 = idxs.len() as u64;
    let mut base: Vec<u64> = Vec::new();
    label_factors(y, idxs, &mut base);
    let mut n_fs: Vec<u64> = Vec::new();
    push_copies(&mut n_fs, n);
    proof {
        assert(seq_prod(base@) == 1 * labels_score(labels_of(yv, idxs@)));
        assert(seq_prod(n_fs@) == 1 * pow_self(idxs@.len()));
    }
    let mut best: Option<usize> = None;
    let mut best_sz: Vec<u64> = Vec::new();
    let mut best_pt: Vec<u64> = Vec::new();
    let mut k: usize = 0;
    while k < feats.len()
        invariant
            idxs@.len() >= 1,
            forall|k2: int|
                0 <= k2 < idxs@.len() ==> (idxs@[k2] as int) < x@.len() && (idxs@[k2] as int)
                    < y@.len(),
            forall|k2: int, j: int|
                #![trigger idxs@[k2], feats@[j]]
                0 <= k2 < idxs@.len() && 0 <= j < feats@.len() ==> (feats@[j] as int)
                    < x@[idxs@[k2] as int]@.len(),
            xv == x.deep_view(),
            yv == y.deep_view(),
            k <= feats@.len(),
            seq_prod(base@) == labels_score(labels_of(yv, idxs@)),
            seq_prod(n_fs@) == pow_self(idxs@.len()),
            forall|i: int| 0 <= i < base@.len() ==> base@[i] >= 1,
            forall|i: int| 0 <= i < n_fs@.len() ==> n_fs@[i] >= 1,
            forall|i: int| 0 <= i < best_sz@.len() ==> best_sz@[i] >= 1,
            forall|i: int| 0 <= i < best_pt@.len() ==> best_pt@[i] >= 1,
            match best {
                Option::Some(b) => seq_prod(best_sz@) == sizes_score(xv, idxs@, b) && seq_prod(
                    best_pt@,
                ) == parts_score(xv, yv, idxs@, b) && feats@.contains(b),
                Option::None => true,
            },
            best_feature_from(xv, yv, idxs@, feats@, k as int, best) == best_feature(
                xv,
                yv,
                idxs@,
                feats@,
            ),
        decreases feats@.len() - k,
    {
        let f = feats[k];
        let (sz, pt) = split_factors(x, y, idxs, f);
        let ghost bspec = best;
        let better: bool = match &best {
            Option::None => {
                let mut left: Vec<u64> = Vec::new();
                proof {
                    assert(left@ =~= Seq::<u64>::empty());
                    assert(seq_prod(left@) == 1);
                }
                append_factors(&mut left, &base);
                append_factors(&mut left, &sz);
                let mut right: Vec<u64> = Vec::new();
                proof {
                    assert(right@ =~= Seq::<u64>::empty());
                    assert(seq_prod(right@) == 1);
                }
                append_factors(&mut right, &n_fs);
                append_factors(&mut right, &pt);
                let lt = prod_lt(&left, &right);
                proof {
                    assert(seq_prod(left@) == labels_score(labels_of(yv, idxs@)) * sizes_score(
                        xv,
                        idxs@,
                        f,
                    ));
                    assert(seq_prod(right@) == pow_self(idxs@.len()) * parts_score(
                        xv,
                        yv,
                        idxs@,
                        f,
                    ));
                    assert(lt == gain_pos(xv, yv, idxs@, f));
                }
                lt
            },
            Option::Some(_b) => {
                let mut left: Vec<u64> = Vec::new();
                proof {
                    assert(left@ =~= Seq::<u64>::empty());
                    assert(seq_prod(left@) == 1);
                }
                append_factors(&mut left, &sz);
                append_factors(&mut left, &best_pt);
                let mut right: Vec<u64> = Vec::new();
                proof {
                    assert(right@ =~= Seq::<u64>::empty());
                    assert(seq_prod(right@) == 1);
                }
                append_factors(&mut right, &best_sz);
                append_factors(&mut right, &pt);
                let lt = prod_lt(&left, &right);
                proof {
                    let b = bspec->Some_0;
                    assert(seq_prod(left@) == sizes_score(xv, idxs@, f) * parts_score(
                        xv,
                        yv,
                        idxs@,
                        b,
                    ));
                    assert(seq_prod(right@) == sizes_score(xv, idxs@, b) * parts_score(
                        xv,
                        yv,
                        idxs@,
                        f,
                    ));
                    assert(lt == gain_gt(xv, yv, idxs@, f, b));
                }
                lt
            },
        };
        proof {
            assert(better == match bspec {
                Option::None => gain_pos(xv, yv, idxs@, f),
                Option::Some(b) => gain_gt(xv, yv, idxs@, f, b),
            });
            assert(best_feature_from(xv, yv, idxs@, feats@, k as int, bspec)
                == best_feature_from(
                xv,
                yv,
                idxs@,
                feats@,
                k as int + 1,
                if better {
                    Option::Some(f)
                } else {
                    bspec
                },
            ));
            assert(feats@.contains(f));
        }
        if better {
            best = Some(f);
            best_sz = sz;
            best_pt = pt;
        }
        k += 1;
    }
    best
}

/// Sum of the counts of the given keys.
pub open spec fn counts_sum(ls: Seq<Seq<char>>, keys: Seq<Seq<char>>) -> nat
    decreases keys.len(),
{
    if keys.len() == 0 {
        0
    } else {
        counts_sum(ls, keys.drop_last()) + count_eq(ls, keys.last())
    }
}

proof fn lemma_pow_nonneg(a: nat, e: nat)
    ensures
        0 <= pow(a as int, e),
    decreases e,
{
    vstd::arithmetic::power::lemma_pow0(a as int);
    if e > 0 {
        lemma_pow_nonneg(a, (e - 1) as nat);
        reveal(pow);
        vstd::arithmetic::mul::lemma_mul_nonnegative(a as int, pow(a as int, (e - 1) as nat));
    }
}

proof fn lemma_pow_base_le(a: nat, b: nat, e: nat)
    requires
        a <= b,
    ensures
        pow(a as int, e) <= pow(b as int, e),
    decreases e,
{
    if e == 0 {
        vstd::arithmetic::power::lemma_pow0(a as int);
        vstd::arithmetic::power::lemma_pow0(b as int);
    } else {
        lemma_pow_base_le(a, b, (e - 1) as nat);
        lemma_pow_nonneg(a, (e - 1) as nat);
        reveal(pow);
        vstd::arithmetic::mul::lemma_mul_upper_bound(
            a as int,
            b as int,
            pow(a as int, (e - 1) as nat),
            pow(b as int, (e - 1) as nat),
        );
    }
}

/// Dropping the last entry lowers the key sums by the occurrences of that
/// entry among the keys.
proof fn lemma_counts_sum_drop(ls: Seq<Seq<char>>, keys: Seq<Seq<char>>)
    requires
        ls.len() > 0,
    ensures
        counts_sum(ls, keys) == counts_sum(ls.drop_last(), keys) + count_eq(keys, ls.last()),
    decreases keys.len(),
{
    if keys.len() > 0 {
        lemma_counts_sum_drop(ls, keys.drop_last());
    }
}

/// In a duplicate-free sequence every entry occurs at most once.
proof fn lemma_distinct_count_le_one(s: Seq<Seq<char>>, x: Seq<char>)
    requires
        forall|i: int, j: int| 0 <= i < j < s.len() ==> s[i] != s[j],
    ensures
        count_eq(s, x) <= 1,
    decreases s.len(),
{
    if s.len() > 0 {
        assert forall|i: int, j: int| 0 <= i < j < s.drop_last().len() implies s.drop_last()[i]
            != s.drop_last()[j] by {
            assert(s.drop_last()[i] == s[i]);
            assert(s.drop_last()[j] == s[j]);
        }
        lemma_distinct_count_le_one(s.drop_last(), x);
        if s.last() == x {
            lemma_count_pos_iff(s.drop_last(), x);
            if s.drop_last().contains(x) {
                let i = choose|i: int| 0 <= i < s.drop_last().len() && s.drop_last()[i] == x;
                assert(s[i] == x);
                assert(s[s.len() - 1] == x);
            }
            assert(count_eq(s.drop_last(), x) == 0);
        }
    }
}

/// The counts of the distinct entries sum to the sequence's length.
proof fn lemma_counts_sum_of_distinct(ls: Seq<Seq<char>>)
    ensures
        counts_sum(ls, distinct_firsts(ls)) == ls.len(),
    decreases ls.len(),
{
    if ls.len() > 0 {
        let s2 = ls.drop_last();
        let d2 = distinct_firsts(s2);
        lemma_counts_sum_of_distinct(s2);
        lemma_distinct_props(s2);
        lemma_counts_sum_drop(ls, d2);
        lemma_count_pos_iff(d2, ls.last());
        if d2.contains(ls.last()) {
            lemma_distinct_count_le_one(d2, ls.last());
            assert(count_eq(d2, ls.last()) == 1);
            assert(distinct_firsts(ls) == d2);
        } else {
            assert(count_eq(d2, ls.last()) == 0);
            assert(distinct_firsts(ls) == d2.push(ls.last()));
            assert(distinct_firsts(ls).drop_last() =~= d2);
            assert(counts_sum(ls, distinct_firsts(ls)) == counts_sum(ls, d2) + count_eq(
                ls,
                ls.last(),
            ));
            assert(!s2.contains(ls.last()));
            lemma_count_pos_iff(s2, ls.last());
            assert(count_eq(ls, ls.last()) == count_eq(s2, ls.last()) + 1);
        }
    } else {
        assert(distinct_firsts(ls) =~= Seq::<Seq<char>>::empty());
    }
}

/// Each score factor `c^c` is at most `n^c`, so the whole score is at most
/// `n` to the summed counts.
proof fn lemma_score_le_pow(ls: Seq<Seq<char>>, keys: Seq<Seq<char>>)
    ensures
        score_over(ls, keys) <= pow(ls.len() as int, counts_sum(ls, keys)),
    decreases keys.len(),
{
    let n = ls.len();
    if keys.len() == 0 {
        vstd::arithmetic::power::lemma_pow0(n as int);
    } else {
        lemma_score_le_pow(ls, keys.drop_last());
        let c = count_eq(ls, keys.last());
        lemma_count_le_len(ls, keys.last());
        lemma_pow_base_le(c, n, c);
        lemma_pow_nonneg(c, c);
        let s2 = counts_sum(ls, keys.drop_last());
        vstd::arithmetic::mul::lemma_mul_upper_bound(
            score_over(ls, keys.drop_last()) as int,
            pow(n as int, s2),
            pow_self(c) as int,
            pow(n as int, c),
        );
        lemma_pow_adds(n as int, s2, c);
    }
}

/// Entropy bounds, lower half, in exact product form: `-sum p*log2(p) >= 0`
/// exponentiates to `prod c^c <= n^n` over the distinct label counts.
pub proof fn theorem_entropy_nonneg(ls: Seq<Seq<char>>)
    ensures
        labels_score(ls) <= pow_self(ls.len()),
{
    lemma_score_le_pow(ls, distinct_firsts(ls));
    lemma_counts_sum_of_distinct(ls);
}

/// Entropy of a pure subset is exactly zero: with one label of count `n`,
/// the score reaches `n^n`.
pub proof fn theorem_entropy_zero_when_pure(ls: Seq<Seq<char>>)
    requires
        ls.len() > 0,
        crate::tally::all_same(ls),
    ensures
        labels_score(ls) == pow_self(ls.len()),
    decreases ls.len(),
{
    if ls.len() == 1 {
        assert(distinct_firsts(ls.drop_last()) =~= Seq::<Seq<char>>::empty());
        assert(distinct_firsts(ls) =~= Seq::<Seq<char>>::empty().push(ls[0]));
        assert(distinct_firsts(ls).drop_last() =~= Seq::<Seq<char>>::empty());
        assert(count_eq(ls.drop_last(), ls[0]) == 0);
        assert(count_eq(ls, ls[0]) == 1);
        let d = distinct_firsts(ls);
        assert(d.last() == ls[0]);
        assert(d.drop_last() =~= Seq::<Seq<char>>::empty());
        assert(score_over(ls, Seq::<Seq<char>>::empty()) == 1nat);
        assert(score_over(ls, d) == score_over(ls, d.drop_last()) * pow_self(
            count_eq(ls, d.last()),
        ));
        assert(labels_score(ls) == 1 * pow_self(1));
    } else {
        let s2 = ls.drop_last();
        assert forall|i: int| 0 <= i < s2.len() implies #[trigger] s2[i] == s2[0] by {
            assert(s2[i] == ls[i]);
            assert(s2[0] == ls[0]);
        }
        theorem_entropy_zero_when_pure(s2);
        lemma_distinct_pure(s2);
        lemma_distinct_pure(ls);
        assert(ls.last() == ls[ls.len() - 1]);
        assert(ls.last() == ls[0]);
        assert(s2[0] == ls[0]);
        lemma_count_pure(s2);
        lemma_count_pure(ls);
        // score_over over a single key unfolds once on each side.
        let d = distinct_firsts(ls);
        let d2 = distinct_firsts(s2);
        assert(d =~= Seq::<Seq<char>>::empty().push(ls[0]));
        assert(d.last() == ls[0]);
        assert(d.drop_last() =~= Seq::<Seq<char>>::empty());
        assert(score_over(ls, Seq::<Seq<char>>::empty()) == 1nat);
        assert(score_over(ls, d) == score_over(ls, d.drop_last()) * pow_self(
            count_eq(ls, d.last()),
        ));
        assert(labels_score(ls) == 1 * pow_self(count_eq(ls, ls[0])));
        assert(count_eq(ls, ls[0]) == ls.len());
    }
}

/// A constant sequence has exactly one distinct entry.
proof fn lemma_distinct_pure(ls: Seq<Seq<char>>)
    requires
        ls.len() > 0,
        crate::tally::all_same(ls),
    ensures
        distinct_firsts(ls) =~= Seq::<Seq<char>>::empty().push(ls[0]),
    decreases ls.len(),
{
    if ls.len() == 1 {
        assert(distinct_firsts(ls.drop_last()) =~= Seq::<Seq<char>>::empty());
    } else {
        let s2 = ls.drop_last();
        assert forall|i: int| 0 <= i < s2.len() implies #[trigger] s2[i] == s2[0] by {
            assert(s2[i] == ls[i]);
            assert(s2[0] == ls[0]);
        }
        lemma_distinct_pure(s2);
        assert(ls.last() == ls[ls.len() - 1]);
        assert(ls.last() == ls[0]);
        assert(distinct_firsts(s2)[0] == ls[0]);
        assert(distinct_firsts(s2).contains(ls.last()));
    }
}

/// Every entry of a constant sequence counts its full length.
proof fn lemma_count_pure(ls: Seq<Seq<char>>)
    requires
        ls.len() > 0,
        crate::tally::all_same(ls),
    ensures
        count_eq(ls, ls[0]) == ls.len(),
    decreases ls.len(),
{
    if ls.len() == 1 {
        assert(count_eq(ls.drop_last(), ls[0]) == 0);
    } else {
        let s2 = ls.drop_last();
        assert forall|i: int| 0 <= i < s2.len() implies #[trigger] s2[i] == s2[0] by {
            assert(s2[i] == ls[i]);
            assert(s2[0] == ls[0]);
        }
        lemma_count_pure(s2);
        assert(s2[0] == ls[0]);
        assert(ls.last() == ls[ls.len() - 1]);
        assert(ls.last() == ls[0]);
    }
}


proof fn lemma_pow_base_lt(a: nat, b: nat, e: nat)
    requires
        1 <= a < b,
        e >= 1,
    ensures
        pow(a as int, e) < pow(b as int, e),
    decreases e,
{
    if e == 1 {
        lemma_pow1(a as int);
        lemma_pow1(b as int);
    } else {
        lemma_pow_base_lt(a, b, (e - 1) as nat);
        lemma_pow_positive(a as int, (e - 1) as nat);
        lemma_pow_positive(b as int, (e - 1) as nat);
        let pa = pow(a as int, (e - 1) as nat);
        let pb = pow(b as int, (e - 1) as nat);
        assert(pow(a as int, e) == (a as int) * pa) by {
            reveal(pow);
        }
        assert(pow(b as int, e) == (b as int) * pb) by {
            reveal(pow);
        }
        assert((a as int) * pa < (b as int) * pb) by (nonlinear_arith)
            requires
                pa < pb,
                0 < pa,
                1 <= (a as int) < (b as int),
        ;
    }
}

proof fn lemma_score_pos(ls: Seq<Seq<char>>, keys: Seq<Seq<char>>)
    ensures
        score_over(ls, keys) >= 1,
    decreases keys.len(),
{
    if keys.len() > 0 {
        lemma_score_pos(ls, keys.drop_last());
        let c = count_eq(ls, keys.last());
        if c == 0 {
            vstd::arithmetic::power::lemma_pow0(0);
        } else {
            lemma_pow_positive(c as int, c);
        }
        assert(score_over(ls, keys) == score_over(ls, keys.drop_last()) * pow_self(c));
        assert(score_over(ls, keys.drop_last()) * pow_self(c) >= 1) by (nonlinear_arith)
            requires
                score_over(ls, keys.drop_last()) >= 1,
                pow_self(c) >= 1,
        ;
    }
}

proof fn lemma_counts_sum_lower(ls: Seq<Seq<char>>, keys: Seq<Seq<char>>, j: int)
    requires
        0 <= j < keys.len(),
    ensures
        counts_sum(ls, keys) >= count_eq(ls, keys[j]),
    decreases keys.len(),
{
    if j < keys.len() - 1 {
        assert(keys.drop_last()[j] == keys[j]);
        lemma_counts_sum_lower(ls, keys.drop_last(), j);
    } else {
        assert(keys[j] == keys.last());
    }
}

/// Entropy of a mixed subset is strictly positive: with two or more labels
/// the score stays strictly under `n^n`.
pub proof fn theorem_entropy_pos_when_mixed(ls: Seq<Seq<char>>)
    requires
        ls.len() > 0,
        !crate::tally::all_same(ls),
    ensures
        labels_score(ls) < pow_self(ls.len()),
{
    let n = ls.len();
    let d = distinct_firsts(ls);
    lemma_distinct_props(ls);
    lemma_counts_sum_of_distinct(ls);
    let i0 = choose|i: int| 0 <= i < ls.len() && #[trigger] ls[i] != ls[0];
    assert(ls[0] == ls[0]);
    assert(ls.contains(ls[0]));
    assert(ls.contains(ls[i0]));
    assert(d.contains(ls[0]));
    assert(d.contains(ls[i0]));
    let j1 = choose|j: int| 0 <= j < d.len() && d[j] == ls[0];
    let j2 = choose|j: int| 0 <= j < d.len() && d[j] == ls[i0];
    assert(j1 != j2);
    assert(d.len() >= 2);
    let s2 = counts_sum(ls, d.drop_last());
    let c = count_eq(ls, d.last());
    assert(s2 + c == n);
    let jo: int = if j1 < d.len() - 1 {
        j1
    } else {
        j2
    };
    assert(0 <= jo < d.len() - 1);
    assert(d.drop_last()[jo] == d[jo]);
    lemma_counts_sum_lower(ls, d.drop_last(), jo);
    assert(d[jo] == ls[0] || d[jo] == ls[i0]);
    lemma_count_pos_iff(ls, d[jo]);
    assert(count_eq(ls, d[jo]) >= 1);
    assert(s2 >= 1);
    assert(c < n);
    lemma_count_pos_iff(ls, d.last());
    assert(d[d.len() - 1] == d.last());
    assert(ls.contains(d.last()));
    assert(c >= 1);
    lemma_score_le_pow(ls, d.drop_last());
    lemma_pow_base_lt(c, n, c);
    lemma_score_pos(ls, d.drop_last());
    lemma_pow_nonneg(c, c);
    lemma_pow_positive(n as int, s2);
    assert(score_over(ls, d) == score_over(ls, d.drop_last()) * pow_self(c));
    assert(score_over(ls, d.drop_last()) * pow_self(c) < pow(n as int, s2) * pow(n as int, c))
        by (nonlinear_arith)
        requires
            score_over(ls, d.drop_last()) <= pow(n as int, s2),
            (pow_self(c) as int) < pow(n as int, c),
            score_over(ls, d.drop_last()) >= 1,
            pow(n as int, s2) >= 1,
            pow_self(c) >= 0,
    ;
    lemma_pow_adds(n as int, s2, c);
    assert(counts_sum(ls, d) == s2 + c);
}

} // verus!
