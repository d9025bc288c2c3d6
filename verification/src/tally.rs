//! Counting and grouping over categorical values.
//!
//! All classifiers in this crate reduce to the same bookkeeping: count how
//! often each distinct value occurs in a sequence, group row indices by the
//! value found at some column, and pick the value with the highest count.
//! Iteration is always in first-seen order, which makes every tie-break
//! deterministic.

use vstd::prelude::*;

verus! {

/// The labels selected by a sequence of row indices, in index order.
pub open spec fn labels_of(y: Seq<Seq<char>>, idxs: Seq<usize>) -> Seq<Seq<char>> {
    idxs.map_values(|ix: usize| y[ix as int])
}

/// The values found at column `f` of the selected rows, in index order.
pub open spec fn col_of(x: Seq<Seq<Seq<char>>>, idxs: Seq<usize>, f: usize) -> Seq<Seq<char>> {
    idxs.map_values(|ix: usize| x[ix as int][f as int])
}

/// How many entries of `s` equal `x`.
pub open spec fn count_eq<A>(s: Seq<A>, x: A) -> nat
    decreases s.len(),
{
    if s.len() == 0 {
        0
    } else {
        count_eq(s.drop_last(), x) + if s.last() == x {
            1nat
        } else {
            0nat
        }
    }
}

/// The distinct entries of `s`, each at its first occurrence, in order.
pub open spec fn distinct_firsts<A>(s: Seq<A>) -> Seq<A>
    decreases s.len(),
{
    if s.len() == 0 {
        Seq::empty()
    } else {
        let p = distinct_firsts(s.drop_last());
        if p.contains(s.last()) {
            p
        } else {
            p.push(s.last())
        }
    }
}

/// Every entry equals the first one.
pub open spec fn all_same<A>(s: Seq<A>) -> bool {
    forall|i: int| 0 <= i < s.len() ==> #[trigger] s[i] == s[0]
}

/// Index of the first maximal count, scanning from position `k` with current
/// best index `bi`.
pub open spec fn arg_max_from(counts: Seq<nat>, k: int, bi: int) -> int
    decreases counts.len() - k,
{
    if k < 0 || k >= counts.len() {
        bi
    } else if counts[k] > counts[bi] {
        arg_max_from(counts, k + 1, k)
    } else {
        arg_max_from(counts, k + 1, bi)
    }
}

/// The counts of the distinct entries of `s`, aligned with `distinct_firsts`.
pub open spec fn counts_of<A>(s: Seq<A>, keys: Seq<A>) -> Seq<nat> {
    keys.map_values(|k: A| count_eq(s, k))
}

/// The entry of `s` with the highest count; ties keep the first-seen entry.
pub open spec fn majority_of<A>(s: Seq<A>) -> A {
    let keys = distinct_firsts(s);
    keys[arg_max_from(counts_of(s, keys), 1, 0)]
}

/// The views of a sequence of strings.
pub open spec fn views_of(ss: Seq<String>) -> Seq<Seq<char>> {
    ss.map_values(|s: String| s@)
}

pub proof fn lemma_take_step<A>(s: Seq<A>, i: int)
    requires
        0 <= i < s.len(),
    ensures
        s.take(i + 1).drop_last() =~= s.take(i),
        s.take(i + 1).last() == s[i],
{
}

pub proof fn lemma_contains_step<A>(s: Seq<A>, x: A)
    requires
        s.len() > 0,
    ensures
        s.contains(x) <==> (s.drop_last().contains(x) || s.last() == x),
{
    if s.contains(x) {
        let i = choose|i: int| 0 <= i < s.len() && s[i] == x;
        if i < s.len() - 1 {
            assert(s.drop_last()[i] == x);
            assert(s.drop_last().contains(x));
        }
    }
    if s.drop_last().contains(x) {
        let i = choose|i: int| 0 <= i < s.drop_last().len() && s.drop_last()[i] == x;
        assert(s[i] == x);
    }
    if s.last() == x {
        assert(s[s.len() - 1] == x);
    }
}

pub proof fn lemma_count_le_len<A>(s: Seq<A>, x: A)
    ensures
        count_eq(s, x) <= s.len(),
    decreases s.len(),
{
    if s.len() > 0 {
        lemma_count_le_len(s.drop_last(), x);
    }
}

pub proof fn lemma_count_pos_iff<A>(s: Seq<A>, x: A)
    ensures
        count_eq(s, x) >= 1 <==> s.contains(x),
    decreases s.len(),
{
    if s.len() > 0 {
        lemma_count_pos_iff(s.drop_last(), x);
        lemma_contains_step(s, x);
    } else {
        assert(!s.contains(x));
    }
}

/// `distinct_firsts` has no duplicates, keeps exactly the entries of `s`, and
/// is never longer than `s`.
pub proof fn lemma_distinct_props<A>(s: Seq<A>)
    ensures
        forall|i: int, j: int|
            0 <= i < j < distinct_firsts(s).len() ==> distinct_firsts(s)[i] != distinct_firsts(
                s,
            )[j],
        forall|x: A| distinct_firsts(s).contains(x) <==> s.contains(x),
        distinct_firsts(s).len() <= s.len(),
    decreases s.len(),
{
    if s.len() == 0 {
        assert forall|x: A| distinct_firsts(s).contains(x) <==> s.contains(x) by {
            assert(!s.contains(x));
            assert(!distinct_firsts(s).contains(x));
        }
    } else {
        lemma_distinct_props(s.drop_last());
        let p = distinct_firsts(s.drop_last());
        let d = distinct_firsts(s);
        assert forall|x: A| d.contains(x) <==> s.contains(x) by {
            lemma_contains_step(s, x);
            if p.contains(s.last()) {
            } else {
                lemma_contains_step(p.push(s.last()), x);
                assert(p.push(s.last()).drop_last() =~= p);
            }
        }
        if !p.contains(s.last()) {
            assert forall|i: int, j: int| 0 <= i < j < d.len() implies d[i] != d[j] by {
                if j == d.len() - 1 {
                    assert(d[j] == s.last());
                    assert(p.contains(d[i]));
                }
            }
        }
    }
}

/// Find the position of a string among a list of keys, comparing by contents.
pub fn find_key(keys: &Vec<String>, lab: &String) -> (r: Option<usize>)
    ensures
        match r {
            Some(f) => f < keys@.len() && keys@[f as int]@ == lab@ && forall|j: int|
                0 <= j < f ==> keys@[j]@ != lab@,
            None => forall|j: int| 0 <= j < keys@.len() ==> keys@[j]@ != lab@,
        },
{
    let mut j: usize = 0;
    while j < keys.len()
        invariant
            j <= keys@.len(),
            forall|i: int| 0 <= i < j ==> keys@[i]@ != lab@,
        decreases keys@.len() - j,
    {
        if keys[j] == *lab {
            return Some(j);
        }
        j += 1;
    }
    None
}

/// Count how often each distinct label occurs among the selected rows.
/// Returns the distinct labels in first-seen order with their counts.
pub fn group_counts(y: &Vec<String>, idxs: &Vec<usize>) -> (r: (Vec<String>, Vec<usize>))
    requires
        forall|k: int| 0 <= k < idxs@.len() ==> (idxs@[k] as int) < y@.len(),
    ensures
        views_of(r.0@) == distinct_firsts(labels_of(y.deep_view(), idxs@)),
        r.1@.len() == r.0@.len(),
        forall|k: int|
            0 <= k < r.0@.len() ==> (r.1@[k] as nat) == count_eq(
                labels_of(y.deep_view(), idxs@),
                r.0@[k]@,
            ),
{
    let ghost yv = y.deep_view();
    let ghost ls = labels_of(yv, idxs@);
    let mut keys: Vec<String> = Vec::new();
    let mut counts: Vec<usize> = Vec::new();
    proof {
        assert(ls.take(0) =~= Seq::<Seq<char>>::empty());
        assert(views_of(keys@) =~= Seq::<Seq<char>>::empty());
    }
    let mut k: usize = 0;
    while k < idxs.len()
        invariant
            forall|k2: int| 0 <= k2 < idxs@.len() ==> (idxs@[k2] as int) < y@.len(),
            yv == y.deep_view(),
            ls == labels_of(yv, idxs@),
            ls.len() == idxs@.len(),
            k <= idxs@.len(),
            counts@.len() == keys@.len(),
            views_of(keys@) == distinct_firsts(ls.take(k as int)),
            forall|j: int|
                0 <= j < keys@.len() ==> (counts@[j] as nat) == count_eq(
                    ls.take(k as int),
                    keys@[j]@,
                ),
            forall|i: int, j: int| 0 <= i < j < keys@.len() ==> keys@[i]@ != keys@[j]@,
        decreases idxs@.len() - k,
    {
        let lab: &String = &y[idxs[k]];
        proof {
            assert(ls[k as int] == yv[idxs@[k as int] as int]);
            assert(yv[idxs@[k as int] as int] == y@[idxs@[k as int] as int]@);
            lemma_take_step(ls, k as int);
        }
        let ghost tk = ls.take(k as int);
        let ghost tk1 = ls.take(k as int + 1);
        match find_key(&keys, lab) {
            Some(fi) => {
                proof {
                    assert(views_of(keys@)[fi as int] == keys@[fi as int]@);
                    assert(distinct_firsts(tk).contains(lab@));
                    assert(distinct_firsts(tk1) == distinct_firsts(tk));
                    lemma_count_le_len(tk, keys@[fi as int]@);
                }
                let c = counts[fi];
                proof {
                    lemma_count_le_len(tk, keys@[fi as int]@);
                    assert(tk.len() <= idxs@.len());
                }
                counts.set(fi, c + 1);
                proof {
                    assert forall|j: int|
                        0 <= j < keys@.len() implies (counts@[j] as nat) == count_eq(
                        tk1,
                        keys@[j]@,
                    ) by {
                        assert(count_eq(tk1, keys@[j]@) == count_eq(tk, keys@[j]@) + if ls[k as int]
                            == keys@[j]@ {
                            1nat
                        } else {
                            0nat
                        });
                        if j != fi {
                            assert(keys@[j]@ != keys@[fi as int]@);
                        }
                    }
                }
            },
            None => {
                proof {
                    assert forall|j: int|
                        0 <= j < views_of(keys@).len() implies views_of(keys@)[j] != lab@ by {
                        assert(views_of(keys@)[j] == keys@[j]@);
                    }
                    assert(!distinct_firsts(tk).contains(lab@));
                    assert(distinct_firsts(tk1) == distinct_firsts(tk).push(lab@));
                    lemma_distinct_props(tk);
                    lemma_count_pos_iff(tk, lab@);
                    assert(count_eq(tk, lab@) == 0);
                }
                let ghost k0 = keys@;
                keys.push(lab.clone());
                counts.push(1);
                proof {
                    assert(keys@.last()@ == lab@);
                    assert(views_of(keys@) =~= views_of(k0).push(lab@));
                    assert forall|j: int|
                        0 <= j < keys@.len() implies (counts@[j] as nat) == count_eq(
                        tk1,
                        keys@[j]@,
                    ) by {
                        assert(count_eq(tk1, keys@[j]@) == count_eq(tk, keys@[j]@) + if ls[k as int]
                            == keys@[j]@ {
                            1nat
                        } else {
                            0nat
                        });
                    }
                }
            },
        }
        k += 1;
    }
    proof {
        assert(ls.take(idxs@.len() as int) =~= ls);
    }
    (keys, counts)
}

/// The label with the highest count among the selected rows; ties keep the
/// label seen first.
pub fn majority_class(y: &Vec<String>, idxs: &Vec<usize>) -> (r: String)
    requires
        idxs@.len() > 0,
        forall|k: int| 0 <= k < idxs@.len() ==> (idxs@[k] as int) < y@.len(),
    ensures
        r@ == majority_of(labels_of(y.deep_view(), idxs@)),
{
    let ghost ls = labels_of(y.deep_view(), idxs@);
    let ghost dkeys = distinct_firsts(ls);
    let ghost cs = counts_of(ls, dkeys);
    let (keys, counts) = group_counts(y, idxs);
    proof {
        assert(ls[0] == ls[0]);
        assert(ls.contains(ls[0]));
        lemma_distinct_props(ls);
        assert(dkeys.contains(ls[0]));
        assert(dkeys.len() > 0);
        assert(views_of(keys@).len() == keys@.len());
        assert forall|j: int| 0 <= j < keys@.len() implies (counts@[j] as nat) == cs[j] by {
            assert(views_of(keys@)[j] == keys@[j]@);
            assert(dkeys[j] == keys@[j]@);
        }
    }
    let mut best: usize = 0;
    let mut j: usize = 1;
    while j < keys.len()
        invariant
            keys@.len() == dkeys.len(),
            counts@.len() == keys@.len(),
            forall|i: int| 0 <= i < keys@.len() ==> (counts@[i] as nat) == cs[i],
            cs.len() == dkeys.len(),
            1 <= j && j <= keys@.len(),
            (best as int) < j,
            arg_max_from(cs, j as int, best as int) == arg_max_from(cs, 1, 0),
        decreases keys@.len() - j,
    {
        let ghost best0 = best as int;
        if counts[j] > counts[best] {
            best = j;
        }
        proof {
            assert(arg_max_from(cs, j as int, best0) == if cs[j as int] > cs[best0] {
                arg_max_from(cs, j as int + 1, j as int)
            } else {
                arg_max_from(cs, j as int + 1, best0)
            });
        }
        j += 1;
    }
    proof {
        assert(arg_max_from(cs, j as int, best as int) == best as int);
        assert(views_of(keys@)[best as int] == keys@[best as int]@);
    }
    keys[best].clone()
}

/// The majority label among the selected rows together with its count;
/// ties keep the label seen first.
pub fn majority_class_count(y: &Vec<String>, idxs: &Vec<usize>) -> (r: (String, usize))
    requires
        idxs@.len() > 0,
        forall|k: int| 0 <= k < idxs@.len() ==> (idxs@[k] as int) < y@.len(),
    ensures
        r.0@ == majority_of(labels_of(y.deep_view(), idxs@)),
        (r.1 as nat) == count_eq(
            labels_of(y.deep_view(), idxs@),
            majority_of(labels_of(y.deep_view(), idxs@)),
        ),
{
    let ghost ls = labels_of(y.deep_view(), idxs@);
    let ghost dkeys = distinct_firsts(ls);
    let ghost cs = counts_of(ls, dkeys);
    let (keys, counts) = group_counts(y, idxs);
    proof {
        assert(ls[0] == ls[0]);
        assert(ls.contains(ls[0]));
        lemma_distinct_props(ls);
        assert(dkeys.contains(ls[0]));
        assert(dkeys.len() > 0);
        assert(views_of(keys@).len() == keys@.len());
        assert forall|j: int| 0 <= j < keys@.len() implies (counts@[j] as nat) == cs[j] by {
            assert(views_of(keys@)[j] == keys@[j]@);
            assert(dkeys[j] == keys@[j]@);
        }
    }
    let mut best: usize = 0;
    let mut j: usize = 1;
    while j < keys.len()
        invariant
            keys@.len() == dkeys.len(),
            counts@.len() == keys@.len(),
            forall|i: int| 0 <= i < keys@.len() ==> (counts@[i] as nat) == cs[i],
            cs.len() == dkeys.len(),
            1 <= j && j <= keys@.len(),
            (best as int) < j,
            arg_max_from(cs, j as int, best as int) == arg_max_from(cs, 1, 0),
        decreases keys@.len() - j,
    {
        let ghost best0 = best as int;
        if counts[j] > counts[best] {
            best = j;
        }
        proof {
            assert(arg_max_from(cs, j as int, best0) == if cs[j as int] > cs[best0] {
                arg_max_from(cs, j as int + 1, j as int)
            } else {
                arg_max_from(cs, j as int + 1, best0)
            });
        }
        j += 1;
    }
    proof {
        assert(arg_max_from(cs, j as int, best as int) == best as int);
        assert(views_of(keys@)[best as int] == keys@[best as int]@);
        assert(cs[best as int] == count_eq(ls, dkeys[best as int]));
    }
    let lab = keys[best].clone();
    let cnt = counts[best];
    (lab, cnt)
}

/// Row indices among `idxs` whose value at column `f` equals `v`, in order.
pub open spec fn part_of(x: Seq<Seq<Seq<char>>>, idxs: Seq<usize>, f: usize, v: Seq<char>) -> Seq<
    usize,
>
    decreases idxs.len(),
{
    if idxs.len() == 0 {
        Seq::empty()
    } else {
        let p = part_of(x, idxs.drop_last(), f, v);
        if x[idxs.last() as int][f as int] == v {
            p.push(idxs.last())
        } else {
            p
        }
    }
}

/// Each index of a part comes from `idxs`.
pub proof fn lemma_part_sub(x: Seq<Seq<Seq<char>>>, idxs: Seq<usize>, f: usize, v: Seq<char>)
    ensures
        forall|j: int|
            0 <= j < part_of(x, idxs, f, v).len() ==> idxs.contains(part_of(x, idxs, f, v)[j]),
        part_of(x, idxs, f, v).len() <= idxs.len(),
    decreases idxs.len(),
{
    if idxs.len() > 0 {
        lemma_part_sub(x, idxs.drop_last(), f, v);
        let p = part_of(x, idxs.drop_last(), f, v);
        assert forall|j: int|
            0 <= j < part_of(x, idxs, f, v).len() implies idxs.contains(
            part_of(x, idxs, f, v)[j],
        ) by {
            if j < p.len() {
                assert(idxs.drop_last().contains(p[j]));
                lemma_contains_step(idxs, p[j]);
            } else {
                assert(part_of(x, idxs, f, v)[j] == idxs.last());
                lemma_contains_step(idxs, idxs.last());
            }
        }
    }
}

/// Group the selected rows by the value at column `f`: the distinct values in
/// first-seen order, each with the indices carrying it, in index order.
pub fn partition_by(x: &Vec<Vec<String>>, idxs: &Vec<usize>, f: usize) -> (r: (
    Vec<String>,
    Vec<Vec<usize>>,
))
    requires
        forall|k: int|
            0 <= k < idxs@.len() ==> (idxs@[k] as int) < x@.len() && (f as int)
                < x@[idxs@[k] as int]@.len(),
    ensures
        views_of(r.0@) == distinct_firsts(col_of(x.deep_view(), idxs@, f)),
        r.1@.len() == r.0@.len(),
        forall|k: int|
            0 <= k < r.0@.len() ==> r.1@[k]@ == part_of(x.deep_view(), idxs@, f, r.0@[k]@),
{
    let ghost xv = x.deep_view();
    let ghost col = col_of(xv, idxs@, f);
    let mut keys: Vec<String> = Vec::new();
    let mut parts: Vec<Vec<usize>> = Vec::new();
    proof {
        assert(col.take(0) =~= Seq::<Seq<char>>::empty());
        assert(idxs@.take(0) =~= Seq::<usize>::empty());
        assert(views_of(keys@) =~= Seq::<Seq<char>>::empty());
    }
    let mut k: usize = 0;
    while k < idxs.len()
        invariant
            forall|k2: int|
                0 <= k2 < idxs@.len() ==> (idxs@[k2] as int) < x@.len() && (f as int)
                    < x@[idxs@[k2] as int]@.len(),
            xv == x.deep_view(),
            col == col_of(xv, idxs@, f),
            col.len() == idxs@.len(),
            k <= idxs@.len(),
            parts@.len() == keys@.len(),
            views_of(keys@) == distinct_firsts(col.take(k as int)),
            forall|j: int|
                0 <= j < keys@.len() ==> parts@[j]@ == part_of(
                    xv,
                    idxs@.take(k as int),
                    f,
                    keys@[j]@,
                ),
            forall|i: int, j: int| 0 <= i < j < keys@.len() ==> keys@[i]@ != keys@[j]@,
        decreases idxs@.len() - k,
    {
        let row = idxs[k];
        let val: &String = &x[row][f];
        proof {
            assert(col[k as int] == xv[idxs@[k as int] as int][f as int]);
            assert(xv[idxs@[k as int] as int] =~= x@[idxs@[k as int] as int].deep_view());
            assert(xv[idxs@[k as int] as int][f as int] == x@[idxs@[k as int] as int]@[f as int]@);
            lemma_take_step(col, k as int);
            lemma_take_step(idxs@, k as int);
        }
        let ghost tk = col.take(k as int);
        let ghost tk1 = col.take(k as int + 1);
        let ghost ik = idxs@.take(k as int);
        let ghost ik1 = idxs@.take(k as int + 1);
        match find_key(&keys, val) {
            Some(fi) => {
                proof {
                    assert(views_of(keys@)[fi as int] == keys@[fi as int]@);
                    assert(distinct_firsts(tk).contains(val@));
                    assert(distinct_firsts(tk1) == distinct_firsts(tk));
                }
                let ghost p0 = parts@;
                let mut sub = parts.remove(fi);
                sub.push(row);
                parts.insert(fi, sub);
                proof {
                    assert(parts@.len() == p0.len());
                    assert(parts@[fi as int]@ =~= p0[fi as int]@.push(idxs@[k as int]));
                    assert forall|j: int| 0 <= j < parts@.len() && j != fi implies parts@[j]
                        == p0[j] by {
                        if j < fi {
                            assert(parts@[j] == p0.remove(fi as int)[j]);
                        } else {
                            assert(parts@[j] == p0.remove(fi as int)[j - 1]);
                        }
                    }
                    assert forall|j: int|
                        0 <= j < keys@.len() implies parts@[j]@ == part_of(
                        xv,
                        ik1,
                        f,
                        keys@[j]@,
                    ) by {
                        assert(part_of(xv, ik1, f, keys@[j]@) == if xv[idxs@[k as int] as int][
                            f as int] == keys@[j]@ {
                            part_of(xv, ik, f, keys@[j]@).push(idxs@[k as int])
                        } else {
                            part_of(xv, ik, f, keys@[j]@)
                        });
                        if j != fi {
                            assert(keys@[j]@ != keys@[fi as int]@);
                        }
                    }
                }
            },
            None => {
                proof {
                    assert forall|j: int|
                        0 <= j < views_of(keys@).len() implies views_of(keys@)[j] != val@ by {
                        assert(views_of(keys@)[j] == keys@[j]@);
                    }
                    assert(!distinct_firsts(tk).contains(val@));
                    assert(distinct_firsts(tk1) == distinct_firsts(tk).push(val@));
                }
                let ghost k0 = keys@;
                keys.push(val.clone());
                let mut sub: Vec<usize> = Vec::new();
                sub.push(row);
                parts.push(sub);
                proof {
                    assert(keys@.last()@ == val@);
                    assert(views_of(keys@) =~= views_of(k0).push(val@));
                    assert(col_of(xv, ik, f) =~= tk);
                    lemma_distinct_props(tk);
                    assert(!tk.contains(val@));
                    assert(part_of(xv, ik, f, val@) =~= Seq::<usize>::empty()) by {
                        lemma_no_match_empty(xv, ik, f, val@, col_of(xv, ik, f));
                    }
                    assert forall|j: int|
                        0 <= j < keys@.len() implies parts@[j]@ == part_of(
                        xv,
                        ik1,
                        f,
                        keys@[j]@,
                    ) by {
                        assert(part_of(xv, ik1, f, keys@[j]@) == if xv[idxs@[k as int] as int][
                            f as int] == keys@[j]@ {
                            part_of(xv, ik, f, keys@[j]@).push(idxs@[k as int])
                        } else {
                            part_of(xv, ik, f, keys@[j]@)
                        });
                        if j < keys@.len() - 1 {
                            assert(parts@[j]@ == part_of(xv, ik, f, keys@[j]@));
                        } else {
                            assert(keys@[j]@ == val@);
                            assert(parts@[j]@ =~= Seq::<usize>::empty().push(idxs@[k as int]));
                        }
                    }
                }
            },
        }
        k += 1;
    }
    proof {
        assert(col.take(idxs@.len() as int) =~= col);
        assert(idxs@.take(idxs@.len() as int) =~= idxs@);
    }
    (keys, parts)
}

/// Row indices among `idxs` whose label equals `lab`, in order.
pub open spec fn lab_part_of(y: Seq<Seq<char>>, idxs: Seq<usize>, lab: Seq<char>) -> Seq<usize>
    decreases idxs.len(),
{
    if idxs.len() == 0 {
        Seq::empty()
    } else {
        let p = lab_part_of(y, idxs.drop_last(), lab);
        if y[idxs.last() as int] == lab {
            p.push(idxs.last())
        } else {
            p
        }
    }
}

/// Each index of a label part comes from `idxs`.
pub proof fn lemma_lab_part_sub(y: Seq<Seq<char>>, idxs: Seq<usize>, lab: Seq<char>)
    ensures
        forall|j: int|
            0 <= j < lab_part_of(y, idxs, lab).len() ==> idxs.contains(lab_part_of(y, idxs, lab)[j]),
        lab_part_of(y, idxs, lab).len() <= idxs.len(),
    decreases idxs.len(),
{
    if idxs.len() > 0 {
        lemma_lab_part_sub(y, idxs.drop_last(), lab);
        let p = lab_part_of(y, idxs.drop_last(), lab);
        assert forall|j: int|
            0 <= j < lab_part_of(y, idxs, lab).len() implies idxs.contains(
            lab_part_of(y, idxs, lab)[j],
        ) by {
            if j < p.len() {
                assert(idxs.drop_last().contains(p[j]));
                lemma_contains_step(idxs, p[j]);
            } else {
                assert(lab_part_of(y, idxs, lab)[j] == idxs.last());
                lemma_contains_step(idxs, idxs.last());
            }
        }
    }
}

/// A part's size is the count of its value in the column.
pub proof fn lemma_part_count(x: Seq<Seq<Seq<char>>>, idxs: Seq<usize>, f: usize, v: Seq<char>)
    ensures
        part_of(x, idxs, f, v).len() == count_eq(col_of(x, idxs, f), v),
    decreases idxs.len(),
{
    if idxs.len() > 0 {
        lemma_part_count(x, idxs.drop_last(), f, v);
        let col = col_of(x, idxs, f);
        assert(col.drop_last() =~= col_of(x, idxs.drop_last(), f));
        assert(col.last() == x[idxs.last() as int][f as int]);
    }
}

/// Group the selected rows by label: the distinct labels in first-seen
/// order, each with the indices carrying it, in index order.
pub fn partition_labels(y: &Vec<String>, idxs: &Vec<usize>) -> (r: (Vec<String>, Vec<Vec<usize>>))
    requires
        forall|k: int| 0 <= k < idxs@.len() ==> (idxs@[k] as int) < y@.len(),
    ensures
        views_of(r.0@) == distinct_firsts(labels_of(y.deep_view(), idxs@)),
        r.1@.len() == r.0@.len(),
        forall|k: int|
            0 <= k < r.0@.len() ==> r.1@[k]@ == lab_part_of(y.deep_view(), idxs@, r.0@[k]@),
{
    let ghost yv = y.deep_view();
    let ghost ls = labels_of(yv, idxs@);
    let mut keys: Vec<String> = Vec::new();
    let mut parts: Vec<Vec<usize>> = Vec::new();
    proof {
        assert(ls.take(0) =~= Seq::<Seq<char>>::empty());
        assert(idxs@.take(0) =~= Seq::<usize>::empty());
        assert(views_of(keys@) =~= Seq::<Seq<char>>::empty());
    }
    let mut k: usize = 0;
    while k < idxs.len()
        invariant
            forall|k2: int| 0 <= k2 < idxs@.len() ==> (idxs@[k2] as int) < y@.len(),
            yv == y.deep_view(),
            ls == labels_of(yv, idxs@),
            ls.len() == idxs@.len(),
            k <= idxs@.len(),
            parts@.len() == keys@.len(),
            views_of(keys@) == distinct_firsts(ls.take(k as int)),
            forall|j: int|
                0 <= j < keys@.len() ==> parts@[j]@ == lab_part_of(
                    yv,
                    idxs@.take(k as int),
                    keys@[j]@,
                ),
            forall|i: int, j: int| 0 <= i < j < keys@.len() ==> keys@[i]@ != keys@[j]@,
        decreases idxs@.len() - k,
    {
        let row = idxs[k];
        let lab: &String = &y[row];
        proof {
            assert(ls[k as int] == yv[idxs@[k as int] as int]);
            assert(yv[idxs@[k as int] as int] == y@[idxs@[k as int] as int]@);
            lemma_take_step(ls, k as int);
            lemma_take_step(idxs@, k as int);
        }
        let ghost tk = ls.take(k as int);
        let ghost tk1 = ls.take(k as int + 1);
        let ghost ik = idxs@.take(k as int);
        let ghost ik1 = idxs@.take(k as int + 1);
        match find_key(&keys, lab) {
            Some(fi) => {
                proof {
                    assert(views_of(keys@)[fi as int] == keys@[fi as int]@);
                    assert(distinct_firsts(tk).contains(lab@));
                    assert(distinct_firsts(tk1) == distinct_firsts(tk));
                }
                let ghost p0 = parts@;
                let mut sub = parts.remove(fi);
                sub.push(row);
                parts.insert(fi, sub);
                proof {
                    assert(parts@.len() == p0.len());
                    assert(parts@[fi as int]@ =~= p0[fi as int]@.push(idxs@[k as int]));
                    assert forall|j: int| 0 <= j < parts@.len() && j != fi implies parts@[j]
                        == p0[j] by {
                        if j < fi {
                            assert(parts@[j] == p0.remove(fi as int)[j]);
                        } else {
                            assert(parts@[j] == p0.remove(fi as int)[j - 1]);
                        }
                    }
                    assert forall|j: int|
                        0 <= j < keys@.len() implies parts@[j]@ == lab_part_of(
                        yv,
                        ik1,
                        keys@[j]@,
                    ) by {
                        assert(lab_part_of(yv, ik1, keys@[j]@) == if yv[idxs@[k as int] as int]
                            == keys@[j]@ {
                            lab_part_of(yv, ik, keys@[j]@).push(idxs@[k as int])
                        } else {
                            lab_part_of(yv, ik, keys@[j]@)
                        });
                        if j != fi {
                            assert(keys@[j]@ != keys@[fi as int]@);
                        }
                    }
                }
            },
            None => {
                proof {
                    assert forall|j: int|
                        0 <= j < views_of(keys@).len() implies views_of(keys@)[j] != lab@ by {
                        assert(views_of(keys@)[j] == keys@[j]@);
                    }
                    assert(!distinct_firsts(tk).contains(lab@));
                    assert(distinct_firsts(tk1) == distinct_firsts(tk).push(lab@));
                    lemma_distinct_props(tk);
                    assert(!tk.contains(lab@));
                    assert(labels_of(yv, ik) =~= tk);
                    lemma_lab_part_empty(yv, ik, lab@, labels_of(yv, ik));
                }
                let ghost k0 = keys@;
                keys.push(lab.clone());
                let mut sub: Vec<usize> = Vec::new();
                sub.push(row);
                parts.push(sub);
                proof {
                    assert(keys@.last()@ == lab@);
                    assert(views_of(keys@) =~= views_of(k0).push(lab@));
                    assert forall|j: int|
                        0 <= j < keys@.len() implies parts@[j]@ == lab_part_of(
                        yv,
                        ik1,
                        keys@[j]@,
                    ) by {
                        assert(lab_part_of(yv, ik1, keys@[j]@) == if yv[idxs@[k as int] as int]
                            == keys@[j]@ {
                            lab_part_of(yv, ik, keys@[j]@).push(idxs@[k as int])
                        } else {
                            lab_part_of(yv, ik, keys@[j]@)
                        });
                        if j < keys@.len() - 1 {
                            assert(parts@[j]@ == lab_part_of(yv, ik, keys@[j]@));
                        } else {
                            assert(keys@[j]@ == lab@);
                            assert(parts@[j]@ =~= Seq::<usize>::empty().push(idxs@[k as int]));
                        }
                    }
                }
            },
        }
        k += 1;
    }
    proof {
        assert(ls.take(idxs@.len() as int) =~= ls);
        assert(idxs@.take(idxs@.len() as int) =~= idxs@);
    }
    (keys, parts)
}

/// A label absent from the selection selects an empty part.
pub proof fn lemma_lab_part_empty(
    y: Seq<Seq<char>>,
    idxs: Seq<usize>,
    lab: Seq<char>,
    ls: Seq<Seq<char>>,
)
    requires
        ls == labels_of(y, idxs),
        !ls.contains(lab),
    ensures
        lab_part_of(y, idxs, lab).len() == 0,
    decreases idxs.len(),
{
    if idxs.len() > 0 {
        assert(ls.last() == y[idxs.last() as int]);
        assert(ls[ls.len() - 1] == ls.last());
        assert(y[idxs.last() as int] != lab);
        assert(ls.drop_last() =~= labels_of(y, idxs.drop_last()));
        assert forall|xx: Seq<char>| ls.drop_last().contains(xx) implies ls.contains(xx) by {
            lemma_contains_step(ls, xx);
        }
        lemma_lab_part_empty(y, idxs.drop_last(), lab, ls.drop_last());
    }
}

/// A value absent from a column selects an empty part.
pub proof fn lemma_no_match_empty(
    x: Seq<Seq<Seq<char>>>,
    idxs: Seq<usize>,
    f: usize,
    v: Seq<char>,
    col: Seq<Seq<char>>,
)
    requires
        col == col_of(x, idxs, f),
        !col.contains(v),
    ensures
        part_of(x, idxs, f, v).len() == 0,
    decreases idxs.len(),
{
    if idxs.len() > 0 {
        assert(col.last() == x[idxs.last() as int][f as int]);
        assert(col[col.len() - 1] == col.last());
        assert(x[idxs.last() as int][f as int] != v);
        assert(col.drop_last() =~= col_of(x, idxs.drop_last(), f));
        assert forall|xx: Seq<char>| col.drop_last().contains(xx) implies col.contains(xx) by {
            lemma_contains_step(col, xx);
        }
        lemma_no_match_empty(x, idxs.drop_last(), f, v, col.drop_last());
    }
}

} // verus!
