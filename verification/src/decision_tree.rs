//! Decision-tree induction and inference.
//!
//! `fit` validates the training data, computes the global majority label and
//! recursively builds a multi-branch tree: a subset with one label becomes a
//! leaf; with no candidate attributes left, a majority leaf; otherwise the
//! attribute with the strictly highest information gain splits the subset by
//! its observed values, and is withdrawn from the candidates of every child.
//! `predict` walks the tree per row and falls back to the majority label on
//! any value never seen in training, so inference is total.
//!
//! Every tie-break is deterministic: candidate attributes are scanned in
//! order and kept only on strictly higher gain, and majority labels keep the
//! first-seen label among equals.

use vstd::prelude::*;

verus! {

use crate::tally::labels_of;
use crate::tally::col_of;
use crate::tally::distinct_firsts;
use crate::tally::part_of;
use crate::tally::all_same;
use crate::tally::majority_of;
use crate::tally::views_of;
use crate::tally::majority_class;
use crate::tally::partition_by;
use crate::tally::lemma_take_step;
use crate::tally::lemma_distinct_props;
use crate::tally::lemma_part_sub;
use crate::tally::lemma_contains_step;
use crate::gain::best_feature;
use crate::gain::select_best_feature;
use crate::gain::lemma_best_feature_in;
use crate::gain::lemma_part_nonempty;

/// A trained tree node: a terminal class, or a split on one attribute with
/// one child per attribute value observed during training.
pub enum Node {
    Leaf(String),
    Decision { feature_index: usize, branches: Vec<(String, Node)> },
}

/// The mathematical shape of a trained node, over plain sequences.
pub enum NodeModel {
    Leaf(Seq<char>),
    Decision { feature: usize, branches: Seq<(Seq<char>, NodeModel)> },
}

/// The mathematical content of a node's branch list.
pub closed spec fn branches_view(bs: Seq<(String, Node)>) -> Seq<(Seq<char>, NodeModel)>
    decreases bs,
{
    if bs.len() == 0 {
        Seq::empty()
    } else {
        branches_view(bs.drop_last()).push((bs.last().0@, bs.last().1@))
    }
}

impl View for Node {
    type V = NodeModel;

    closed spec fn view(&self) -> NodeModel
        decreases self,
    {
        match self {
            Node::Leaf(c) => NodeModel::Leaf(c@),
            Node::Decision { feature_index, branches } => NodeModel::Decision {
                feature: *feature_index,
                branches: branches_view(branches@),
            },
        }
    }
}

pub proof fn lemma_branches_view_index(bs: Seq<(String, Node)>)
    ensures
        branches_view(bs).len() == bs.len(),
        forall|i: int|
            0 <= i < bs.len() ==> #[trigger] branches_view(bs)[i] == (bs[i].0@, bs[i].1@),
    decreases bs.len(),
{
    if bs.len() > 0 {
        lemma_branches_view_index(bs.drop_last());
        assert(branches_view(bs) == branches_view(bs.drop_last()).push(
            (bs.last().0@, bs.last().1@),
        ));
        assert forall|i: int| 0 <= i < bs.len() implies #[trigger] branches_view(bs)[i] == (
        bs[i].0@,
        bs[i].1@,
        ) by {
            if i < bs.len() - 1 {
                assert(branches_view(bs)[i] == branches_view(bs.drop_last())[i]);
                assert(bs.drop_last()[i] == bs[i]);
            } else {
                assert(bs[i] == bs.last());
            }
        }
    }
}

/// First branch whose key equals `v`, or `-1` when no branch matches.
pub open spec fn branch_index(bs: Seq<(Seq<char>, NodeModel)>, v: Seq<char>) -> int
    decreases bs.len(),
{
    if bs.len() == 0 {
        -1
    } else if bs[0].0 == v {
        0
    } else {
        let r = branch_index(bs.drop_first(), v);
        if r < 0 {
            -1
        } else {
            r + 1
        }
    }
}

pub proof fn lemma_branch_index_found(bs: Seq<(Seq<char>, NodeModel)>, v: Seq<char>, j: int)
    requires
        0 <= j < bs.len(),
        bs[j].0 == v,
        forall|i: int| 0 <= i < j ==> bs[i].0 != v,
    ensures
        branch_index(bs, v) == j,
    decreases j,
{
    if j == 0 {
    } else {
        assert(bs[0].0 != v);
        assert(bs.drop_first()[j - 1] == bs[j]);
        assert forall|i: int| 0 <= i < j - 1 implies bs.drop_first()[i].0 != v by {
            assert(bs.drop_first()[i] == bs[i + 1]);
        }
        lemma_branch_index_found(bs.drop_first(), v, j - 1);
    }
}

pub proof fn lemma_branch_index_none(bs: Seq<(Seq<char>, NodeModel)>, v: Seq<char>)
    requires
        forall|i: int| 0 <= i < bs.len() ==> bs[i].0 != v,
    ensures
        branch_index(bs, v) == -1,
    decreases bs.len(),
{
    if bs.len() > 0 {
        assert forall|i: int| 0 <= i < bs.drop_first().len() implies bs.drop_first()[i].0
            != v by {
            assert(bs.drop_first()[i] == bs[i + 1]);
        }
        lemma_branch_index_none(bs.drop_first(), v);
    }
}

/// The label `predict` derives for one row: walk decisions by the row's
/// value at the split attribute; a missing position or an unseen value
/// falls back to the default class.
pub open spec fn walk(t: NodeModel, row: Seq<Seq<char>>, default: Seq<char>) -> Seq<char>
    decreases t,
{
    match t {
        NodeModel::Leaf(c) => c,
        NodeModel::Decision { feature, branches } => {
            if feature >= row.len() {
                default
            } else {
                let j = branch_index(branches, row[feature as int]);
                if j < 0 || j >= branches.len() {
                    default
                } else {
                    walk(branches[j].1, row, default)
                }
            }
        },
    }
}

/// The candidate attributes with `f` withdrawn, order kept.
pub open spec fn remove_feat(feats: Seq<usize>, f: usize) -> Seq<usize>
    decreases feats.len(),
{
    if feats.len() == 0 {
        Seq::empty()
    } else {
        let p = remove_feat(feats.drop_last(), f);
        if feats.last() == f {
            p
        } else {
            p.push(feats.last())
        }
    }
}

pub proof fn lemma_remove_feat(feats: Seq<usize>, f: usize)
    ensures
        forall|e: usize| remove_feat(feats, f).contains(e) <==> (feats.contains(e) && e != f),
        remove_feat(feats, f).len() <= feats.len(),
        feats.contains(f) ==> remove_feat(feats, f).len() < feats.len(),
    decreases feats.len(),
{
    if feats.len() == 0 {
        assert forall|e: usize|
            remove_feat(feats, f).contains(e) <==> (feats.contains(e) && e != f) by {
            assert(!feats.contains(e));
            assert(!remove_feat(feats, f).contains(e));
        }
    } else {
        lemma_remove_feat(feats.drop_last(), f);
        let p = remove_feat(feats.drop_last(), f);
        let r = remove_feat(feats, f);
        assert forall|e: usize| r.contains(e) <==> (feats.contains(e) && e != f) by {
            lemma_contains_step(feats, e);
            if feats.last() != f {
                lemma_contains_step(p.push(feats.last()), e);
                assert(p.push(feats.last()).drop_last() =~= p);
            }
        }
        if feats.contains(f) {
            if feats.last() == f {
            } else {
                lemma_contains_step(feats, f);
                assert(feats.drop_last().contains(f));
            }
        }
    }
}

/// The tree the builder produces for a subset of rows and a candidate
/// attribute list, mirroring the three leaf rules and the recursive split.
pub open spec fn spec_build(
    x: Seq<Seq<Seq<char>>>,
    y: Seq<Seq<char>>,
    idxs: Seq<usize>,
    feats: Seq<usize>,
) -> NodeModel
    decreases feats.len(), 0int, 0int,
{
    let ls = labels_of(y, idxs);
    if all_same(ls) {
        NodeModel::Leaf(ls[0])
    } else if feats.len() == 0 {
        NodeModel::Leaf(majority_of(ls))
    } else {
        match best_feature(x, y, idxs, feats) {
            Option::None => NodeModel::Leaf(majority_of(ls)),
            Option::Some(bf) => {
                let feats2 = remove_feat(feats, bf);
                if feats2.len() < feats.len() {
                    NodeModel::Decision {
                        feature: bf,
                        branches: spec_children(
                            x,
                            y,
                            idxs,
                            bf,
                            distinct_firsts(col_of(x, idxs, bf)),
                            feats2,
                        ),
                    }
                } else {
                    NodeModel::Leaf(majority_of(ls))
                }
            },
        }
    }
}

/// The children of a split on column `f`: one per observed value, each built
/// from the rows carrying that value, with the remaining candidates.
pub open spec fn spec_children(
    x: Seq<Seq<Seq<char>>>,
    y: Seq<Seq<char>>,
    idxs: Seq<usize>,
    f: usize,
    vals: Seq<Seq<char>>,
    feats2: Seq<usize>,
) -> Seq<(Seq<char>, NodeModel)>
    decreases feats2.len(), 1int, vals.len(),
{
    if vals.len() == 0 {
        Seq::empty()
    } else {
        spec_children(x, y, idxs, f, vals.drop_last(), feats2).push(
            (vals.last(), spec_build(x, y, part_of(x, idxs, f, vals.last()), feats2)),
        )
    }
}

/// The identity index list `0, 1, .., n-1`.
pub open spec fn seq_upto(n: nat) -> Seq<usize> {
    Seq::new(n, |i: int| i as usize)
}

/// The state `fit` leaves a model in, as a function of the training data.
pub open spec fn fitted_view(x: Seq<Seq<Seq<char>>>, y: Seq<Seq<char>>) -> TreeModelView {
    TreeModelView {
        root: spec_build(x, y, seq_upto(y.len()), seq_upto(x[0].len())),
        default_class: majority_of(y),
    }
}

/// All rows have the width of the first row.
pub open spec fn rows_uniform(x: Seq<Seq<Seq<char>>>) -> bool {
    forall|i: int| 0 <= i < x.len() ==> #[trigger] x[i].len() == x[0].len()
}

/// The mathematical content of a trained model.
pub struct TreeModelView {
    pub root: NodeModel,
    pub default_class: Seq<char>,
}

/// Why `fit` rejected its training data.
#[derive(Clone, Copy, Debug, PartialEq, Eq, Structural)]
pub enum FitError {
    EmptyTrainingSet,
    LengthMismatch,
    RaggedRows,
    TrainingSetTooLarge,
}

/// A decision-tree classifier over categorical rows: a root node and the
/// global majority label used as fallback at inference time.
pub struct DecisionTreeClassifier {
    root: Node,
    default_class: String,
}

impl View for DecisionTreeClassifier {
    type V = TreeModelView;

    closed spec fn view(&self) -> TreeModelView {
        TreeModelView { root: self.root@, default_class: self.default_class@ }
    }
}

/// Whether every selected label equals the first selected label.
fn all_same_class(y: &Vec<String>, idxs: &Vec<usize>) -> (r: bool)
    requires
        idxs@.len() >= 1,
        forall|k: int| 0 <= k < idxs@.len() ==> (idxs@[k] as int) < y@.len(),
    ensures
        r == all_same(labels_of(y.deep_view(), idxs@)),
{
    let ghost ls = labels_of(y.deep_view(), idxs@);
    proof {
        assert(ls[0] == y@[idxs@[0] as int]@);
    }
    let first: &String = &y[idxs[0]];
    let mut j: usize = 1;
    while j < idxs.len()
        invariant
            idxs@.len() >= 1,
            forall|k: int| 0 <= k < idxs@.len() ==> (idxs@[k] as int) < y@.len(),
            ls == labels_of(y.deep_view(), idxs@),
            ls.len() == idxs@.len(),
            first@ == ls[0],
            1 <= j <= idxs@.len(),
            forall|i: int| 0 <= i < j ==> #[trigger] ls[i] == ls[0],
        decreases idxs@.len() - j,
    {
        proof {
            assert(ls[j as int] == y@[idxs@[j as int] as int]@);
        }
        if !(y[idxs[j]] == *first) {
            proof {
                assert(ls[j as int] != ls[0]);
            }
            return false;
        }
        j += 1;
    }
    true
}

/// The candidate list with one attribute withdrawn, order kept.
fn remove_feature(feats: &Vec<usize>, f: usize) -> (r: Vec<usize>)
    ensures
        r@ == remove_feat(feats@, f),
{
    let mut r: Vec<usize> = Vec::new();
    proof {
        assert(feats@.take(0) =~= Seq::<usize>::empty());
        assert(r@ =~= remove_feat(feats@.take(0), f));
    }
    let mut i: usize = 0;
    while i < feats.len()
        invariant
            i <= feats@.len(),
            r@ == remove_feat(feats@.take(i as int), f),
        decreases feats@.len() - i,
    {
        proof {
            lemma_take_step(feats@, i as int);
        }
        if feats[i] != f {
            r.push(feats[i]);
        }
        i += 1;
    }
    proof {
        assert(feats@.take(feats@.len() as int) =~= feats@);
    }
    r
}

/// First branch whose key reads as `v`, scanning in branch order.
fn find_branch<'a>(branches: &'a Vec<(String, Node)>, v: &String) -> (r: Option<&'a Node>)
    ensures
        ({
            let bv = branches_view(branches@);
            match r {
                Option::Some(n) => branch_index(bv, v@) >= 0 && branch_index(bv, v@) < bv.len()
                    && *n == branches@[branch_index(bv, v@)].1 && n@ == bv[branch_index(bv, v@)].1,
                Option::None => branch_index(bv, v@) == -1,
            }
        }),
{
    let ghost bv = branches_view(branches@);
    proof {
        lemma_branches_view_index(branches@);
    }
    let mut j: usize = 0;
    while j < branches.len()
        invariant
            bv == branches_view(branches@),
            bv.len() == branches@.len(),
            forall|i: int| 0 <= i < bv.len() ==> #[trigger] bv[i] == (branches@[i].0@, branches@[i].1@),
            j <= branches@.len(),
            forall|i: int| 0 <= i < j ==> #[trigger] bv[i].0 != v@,
        decreases branches@.len() - j,
    {
        if branches[j].0 == *v {
            proof {
                lemma_branch_index_found(bv, v@, j as int);
            }
            return Some(&branches[j].1);
        }
        j += 1;
    }
    proof {
        lemma_branch_index_none(bv, v@);
    }
    None
}

impl DecisionTreeClassifier {
    /// A fresh, untrained model: a trivial empty leaf and an empty default.
    pub fn new() -> (r: DecisionTreeClassifier)
        ensures
            r@.root == NodeModel::Leaf(Seq::<char>::empty()),
            r@.default_class == Seq::<char>::empty(),
    {
        DecisionTreeClassifier { root: Node::Leaf(String::new()), default_class: String::new() }
    }

    /// Validate the training data, then rebuild the tree and the default
    /// class from scratch; earlier state is fully replaced on success and
    /// untouched on rejection.
    pub fn fit(&mut self, x: &Vec<Vec<String>>, y: &Vec<String>) -> (r: Result<(), FitError>)
        ensures
            x@.len() == 0 ==> r == Result::<(), FitError>::Err(FitError::EmptyTrainingSet),
            x@.len() > 0 && x@.len() != y@.len() ==> r == Result::<(), FitError>::Err(
                FitError::LengthMismatch,
            ),
            x@.len() > 0 && x@.len() == y@.len() && !rows_uniform(x.deep_view()) ==> r
                == Result::<(), FitError>::Err(FitError::RaggedRows),
            x@.len() > 0 && x@.len() == y@.len() && rows_uniform(x.deep_view()) ==> r
                == Result::<(), FitError>::Ok(()) && final(self)@ == fitted_view(
                x.deep_view(),
                y.deep_view(),
            ),
            r matches Result::Err(_) ==> *final(self) == *old(self),
    {
        let ghost xv = x.deep_view();
        let ghost yv = y.deep_view();
        if x.len() == 0 {
            return Err(FitError::EmptyTrainingSet);
        }
        if x.len() != y.len() {
            return Err(FitError::LengthMismatch);
        }
        let w = x[0].len();
        proof {
            assert(xv[0] =~= x@[0].deep_view());
            assert(xv[0].len() == x@[0]@.len());
        }
        let mut i: usize = 0;
        while i < x.len()
            invariant
                x@.len() > 0,
                x@.len() == y@.len(),
                xv == x.deep_view(),
                (w as nat) == xv[0].len(),
                i <= x@.len(),
                forall|q: int| 0 <= q < i ==> #[trigger] xv[q].len() == xv[0].len(),
            decreases x@.len() - i,
        {
            proof {
                assert(xv[i as int] =~= x@[i as int].deep_view());
                assert(xv[i as int].len() == x@[i as int]@.len());
            }
            if x[i].len() != w {
                proof {
                    assert(xv[i as int].len() != xv[0].len());
                    assert(!rows_uniform(xv));
                }
                return Err(FitError::RaggedRows);
            }
            i += 1;
        }
        proof {
            assert(rows_uniform(xv));
        }
        let mut all_indices: Vec<usize> = Vec::new();
        let mut j: usize = 0;
        while j < y.len()
            invariant
                x@.len() > 0,
                x@.len() == y@.len(),
                xv == x.deep_view(),
                yv == y.deep_view(),
                rows_uniform(xv),
                (w as nat) == xv[0].len(),
                j <= y@.len(),
                all_indices@.len() == j,
                forall|q: int| 0 <= q < j ==> all_indices@[q] == q,
            decreases y@.len() - j,
        {
            all_indices.push(j);
            j += 1;
        }
        let mut feature_indices: Vec<usize> = Vec::new();
        let mut g: usize = 0;
        while g < w
            invariant
                x@.len() > 0,
                x@.len() == y@.len(),
                xv == x.deep_view(),
                yv == y.deep_view(),
                rows_uniform(xv),
                (w as nat) == xv[0].len(),
                all_indices@.len() == y@.len(),
                forall|q: int| 0 <= q < y@.len() ==> all_indices@[q] == q,
                g <= w,
                feature_indices@.len() == g,
                forall|q: int| 0 <= q < g ==> feature_indices@[q] == q,
            decreases w - g,
        {
            feature_indices.push(g);
            g += 1;
        }
        proof {
            assert(all_indices@ =~= seq_upto(y@.len()));
            assert(feature_indices@ =~= seq_upto(xv[0].len()));
            assert(labels_of(yv, all_indices@) =~= yv);
            assert(yv.len() == y@.len());
            assert(xv.len() == x@.len());
            assert forall|k: int|
                0 <= k < all_indices@.len() implies (all_indices@[k] as int) < x@.len() && (
            all_indices@[k] as int) < y@.len() by {
                assert(all_indices@[k] == k);
            }
            assert forall|k: int, j2: int|
                #![trigger all_indices@[k], feature_indices@[j2]]
                0 <= k < all_indices@.len() && 0 <= j2 < feature_indices@.len() implies (
            feature_indices@[j2] as int) < x@[all_indices@[k] as int]@.len() by {
                assert(all_indices@[k] == k);
                assert(feature_indices@[j2] == j2);
                assert(xv[k].len() == xv[0].len());
                assert(xv[k] =~= x@[k].deep_view());
                assert(xv[k].len() == x@[k]@.len());
            }
        }
        self.default_class = majority_class(y, &all_indices);
        let root = self.build_tree(x, y, &all_indices, &feature_indices);
        self.root = root;
        Ok(())
    }

    /// Build the subtree for the given row subset and candidate attributes,
    /// exactly as `spec_build` describes.
    pub fn build_tree(
        &self,
        x: &Vec<Vec<String>>,
        y: &Vec<String>,
        indices: &Vec<usize>,
        feature_indices: &Vec<usize>,
    ) -> (node: Node)
        requires
            indices@.len() >= 1,
            forall|k: int|
                0 <= k < indices@.len() ==> (indices@[k] as int) < x@.len() && (
                indices@[k] as int) < y@.len(),
            forall|k: int, j: int|
                #![trigger indices@[k], feature_indices@[j]]
                0 <= k < indices@.len() && 0 <= j < feature_indices@.len() ==> (
                feature_indices@[j] as int) < x@[indices@[k] as int]@.len(),
        ensures
            node@ == spec_build(x.deep_view(), y.deep_view(), indices@, feature_indices@),
        decreases feature_indices@.len(),
    {
        let ghost xv = x.deep_view();
        let ghost yv = y.deep_view();
        let ghost ls = labels_of(yv, indices@);
        if all_same_class(y, indices) {
            let first = &y[indices[0]];
            proof {
                assert(ls[0] == yv[indices@[0] as int]);
                assert(yv[indices@[0] as int] == y@[indices@[0] as int]@);
            }
            return Node::Leaf(first.clone());
        }
        if feature_indices.len() == 0 {
            return Node::Leaf(majority_class(y, indices));
        }
        match select_best_feature(x, y, indices, feature_indices) {
            None => Node::Leaf(majority_class(y, indices)),
            Some(bf) => {
                proof {
                    lemma_remove_feat(feature_indices@, bf);
                }
                let remaining = remove_feature(feature_indices, bf);
                let ghost feats2 = remove_feat(feature_indices@, bf);
                let ghost col = col_of(xv, indices@, bf);
                let ghost dvals = distinct_firsts(col);
                let (vkeys, parts) = partition_by(x, indices, bf);
                proof {
                    lemma_distinct_props(col);
                    assert(vkeys@.len() == views_of(vkeys@).len());
                    assert forall|j: int| 0 <= j < vkeys@.len() implies vkeys@[j]@ == dvals[j] by {
                        assert(views_of(vkeys@)[j] == vkeys@[j]@);
                    }
                    assert(dvals.take(0) =~= Seq::<Seq<char>>::empty());
                }
                let mut branches: Vec<(String, Node)> = Vec::new();
                let mut g: usize = 0;
                while g < vkeys.len()
                    invariant
                        indices@.len() >= 1,
                        forall|k: int|
                            0 <= k < indices@.len() ==> (indices@[k] as int) < x@.len() && (
                            indices@[k] as int) < y@.len(),
                        forall|k: int, j: int|
                            #![trigger indices@[k], feature_indices@[j]]
                            0 <= k < indices@.len() && 0 <= j < feature_indices@.len() ==> (
                            feature_indices@[j] as int) < x@[indices@[k] as int]@.len(),
                        xv == x.deep_view(),
                        yv == y.deep_view(),
                        col == col_of(xv, indices@, bf),
                        dvals == distinct_firsts(col),
                        feats2 == remove_feat(feature_indices@, bf),
                        feats2.len() < feature_indices@.len(),
                        remaining@ == feats2,
                        vkeys@.len() == dvals.len(),
                        parts@.len() == vkeys@.len(),
                        forall|j: int| 0 <= j < vkeys@.len() ==> vkeys@[j]@ == dvals[j],
                        forall|j: int|
                            0 <= j < vkeys@.len() ==> parts@[j]@ == part_of(
                                xv,
                                indices@,
                                bf,
                                dvals[j],
                            ),
                        forall|j: int| 0 <= j < dvals.len() ==> col.contains(dvals[j]),
                        g <= vkeys@.len(),
                        branches@.len() == g,
                        branches_view(branches@) == spec_children(
                            xv,
                            yv,
                            indices@,
                            bf,
                            dvals.take(g as int),
                            feats2,
                        ),
                    decreases vkeys@.len() - g,
                {
                    let ghost pv = part_of(xv, indices@, bf, dvals[g as int]);
                    proof {
                        lemma_part_nonempty(xv, indices@, bf, dvals[g as int]);
                        lemma_part_sub(xv, indices@, bf, dvals[g as int]);
                        assert forall|k: int| 0 <= k < pv.len() implies (pv[k] as int) < x@.len()
                            && (pv[k] as int) < y@.len() by {
                            assert(indices@.contains(pv[k]));
                            let w2 = choose|w2: int|
                                0 <= w2 < indices@.len() && indices@[w2] == pv[k];
                            assert((indices@[w2] as int) < x@.len());
                        }
                        lemma_remove_feat(feature_indices@, bf);
                        assert forall|k: int, j: int|
                            #![trigger pv[k], remaining@[j]]
                            0 <= k < pv.len() && 0 <= j < remaining@.len() implies (
                        remaining@[j] as int) < x@[pv[k] as int]@.len() by {
                            assert(indices@.contains(pv[k]));
                            let w2 = choose|w2: int|
                                0 <= w2 < indices@.len() && indices@[w2] == pv[k];
                            assert(feats2[j] == remaining@[j]);
                            assert(feats2.contains(feats2[j]));
                            assert(feature_indices@.contains(remaining@[j]));
                            let w3 = choose|w3: int|
                                0 <= w3 < feature_indices@.len() && feature_indices@[w3]
                                    == remaining@[j];
                            assert((feature_indices@[w3] as int) < x@[indices@[w2] as int]@.len());
                        }
                    }
                    let child = self.build_tree(x, y, &parts[g], &remaining);
                    let key = vkeys[g].clone();
                    let ghost b0 = branches@;
                    branches.push((key, child));
                    proof {
                        lemma_take_step(dvals, g as int);
                        assert(branches@.drop_last() =~= b0);
                        assert(branches_view(branches@) == branches_view(b0).push(
                            (branches@.last().0@, branches@.last().1@),
                        ));
                        assert(branches@.last().0@ == dvals[g as int]);
                        assert(branches@.last().1@ == spec_build(xv, yv, pv, feats2));
                        assert(spec_children(xv, yv, indices@, bf, dvals.take(g as int + 1), feats2)
                            == spec_children(xv, yv, indices@, bf, dvals.take(g as int), feats2).push(
                            (dvals[g as int], spec_build(xv, yv, pv, feats2)),
                        ));
                    }
                    g += 1;
                }
                proof {
                    assert(dvals.take(dvals.len() as int) =~= dvals);
                }
                Node::Decision { feature_index: bf, branches }
            },
        }
    }

    /// One predicted label per input row, in order: the walk of the trained
    /// tree, falling back to the default class on short rows and on values
    /// never seen in training.
    pub fn predict(&self, data: &Vec<Vec<String>>) -> (r: Vec<String>)
        ensures
            r@.len() == data@.len(),
            forall|i: int|
                0 <= i < data@.len() ==> r@[i]@ == walk(
                    self@.root,
                    data.deep_view()[i],
                    self@.default_class,
                ),
    {
        let ghost dv = data.deep_view();
        let mut out: Vec<String> = Vec::new();
        let mut i: usize = 0;
        while i < data.len()
            invariant
                dv == data.deep_view(),
                dv.len() == data@.len(),
                i <= data@.len(),
                out@.len() == i,
                forall|q: int|
                    0 <= q < i ==> out@[q]@ == walk(self@.root, dv[q], self@.default_class),
            decreases data@.len() - i,
        {
            proof {
                assert(dv[i as int] =~= data@[i as int].deep_view());
            }
            let lab = classify(&self.root, &data[i], &self.default_class);
            out.push(lab);
            i += 1;
        }
        out
    }
}

/// No decision node reuses an attribute listed in `banned`, nor one used by
/// any of its ancestors.
pub open spec fn no_repeated_attributes(t: NodeModel, banned: Seq<usize>) -> bool
    decreases t,
{
    match t {
        NodeModel::Leaf(_) => true,
        NodeModel::Decision { feature, branches } => !banned.contains(feature)
            && branches_no_repeat(branches, banned.push(feature)),
    }
}

/// `no_repeated_attributes` for every subtree in a branch list.
pub open spec fn branches_no_repeat(bs: Seq<(Seq<char>, NodeModel)>, banned: Seq<usize>) -> bool
    decreases bs,
{
    if bs.len() == 0 {
        true
    } else {
        branches_no_repeat(bs.drop_last(), banned) && no_repeated_attributes(bs.last().1, banned)
    }
}

proof fn lemma_build_fresh(
    x: Seq<Seq<Seq<char>>>,
    y: Seq<Seq<char>>,
    idxs: Seq<usize>,
    feats: Seq<usize>,
    banned: Seq<usize>,
)
    requires
        forall|b: usize| banned.contains(b) ==> !feats.contains(b),
    ensures
        no_repeated_attributes(spec_build(x, y, idxs, feats), banned),
    decreases feats.len(), 0int, 0int,
{
    let ls = labels_of(y, idxs);
    if all_same(ls) {
    } else if feats.len() == 0 {
    } else {
        match best_feature(x, y, idxs, feats) {
            Option::None => {},
            Option::Some(bf) => {
                lemma_best_feature_in(x, y, idxs, feats, 0, Option::None);
                assert(feats.contains(bf));
                let feats2 = remove_feat(feats, bf);
                lemma_remove_feat(feats, bf);
                if feats2.len() < feats.len() {
                    let banned2 = banned.push(bf);
                    assert(!banned.contains(bf));
                    assert forall|b: usize| banned2.contains(b) implies !feats2.contains(b) by {
                        lemma_contains_step(banned2, b);
                        assert(banned2.drop_last() =~= banned);
                    }
                    lemma_children_fresh(
                        x,
                        y,
                        idxs,
                        bf,
                        distinct_firsts(col_of(x, idxs, bf)),
                        feats2,
                        banned2,
                    );
                    let t = spec_build(x, y, idxs, feats);
                    let bs = spec_children(
                        x,
                        y,
                        idxs,
                        bf,
                        distinct_firsts(col_of(x, idxs, bf)),
                        feats2,
                    );
                    assert(t == NodeModel::Decision { feature: bf, branches: bs });
                    assert(branches_no_repeat(bs, banned.push(bf)));
                    assert(no_repeated_attributes(t, banned));
                }
            },
        }
    }
}

proof fn lemma_children_fresh(
    x: Seq<Seq<Seq<char>>>,
    y: Seq<Seq<char>>,
    idxs: Seq<usize>,
    f: usize,
    vals: Seq<Seq<char>>,
    feats2: Seq<usize>,
    banned2: Seq<usize>,
)
    requires
        forall|b: usize| banned2.contains(b) ==> !feats2.contains(b),
    ensures
        branches_no_repeat(spec_children(x, y, idxs, f, vals, feats2), banned2),
    decreases feats2.len(), 1int, vals.len(),
{
    if vals.len() > 0 {
        lemma_children_fresh(x, y, idxs, f, vals.drop_last(), feats2, banned2);
        lemma_build_fresh(x, y, part_of(x, idxs, f, vals.last()), feats2, banned2);
        let c = spec_children(x, y, idxs, f, vals, feats2);
        let p = spec_children(x, y, idxs, f, vals.drop_last(), feats2);
        assert(c.drop_last() =~= p);
        assert(c.last() == (
            vals.last(),
            spec_build(x, y, part_of(x, idxs, f, vals.last()), feats2),
        ));
    }
}

/// Monotonic attribute consumption: along any root-to-leaf path of a built
/// tree, no attribute index appears on two decision nodes.
pub proof fn theorem_no_attribute_reuse(
    x: Seq<Seq<Seq<char>>>,
    y: Seq<Seq<char>>,
    idxs: Seq<usize>,
    feats: Seq<usize>,
)
    ensures
        no_repeated_attributes(spec_build(x, y, idxs, feats), Seq::empty()),
{
    assert forall|b: usize| Seq::<usize>::empty().contains(b) implies !feats.contains(b) by {
        assert(!Seq::<usize>::empty().contains(b));
    }
    lemma_build_fresh(x, y, idxs, feats, Seq::empty());
}

/// Purity: a non-empty subset whose rows all share one label builds exactly
/// the leaf carrying that label, whatever candidate attributes remain.
pub proof fn theorem_leaf_purity(
    x: Seq<Seq<Seq<char>>>,
    y: Seq<Seq<char>>,
    idxs: Seq<usize>,
    feats: Seq<usize>,
)
    requires
        idxs.len() > 0,
        all_same(labels_of(y, idxs)),
    ensures
        spec_build(x, y, idxs, feats) == NodeModel::Leaf(y[idxs[0] as int]),
{
    assert(labels_of(y, idxs)[0] == y[idxs[0] as int]);
}

/// Determinism: two models fitted on the same training data predict the
/// same label for every row.
pub proof fn theorem_fit_deterministic(
    m1: TreeModelView,
    m2: TreeModelView,
    x: Seq<Seq<Seq<char>>>,
    y: Seq<Seq<char>>,
)
    requires
        m1 == fitted_view(x, y),
        m2 == fitted_view(x, y),
    ensures
        forall|row: Seq<Seq<char>>| #[trigger] walk(m1.root, row, m1.default_class) == walk(
            m2.root,
            row,
            m2.default_class,
        ),
{
}

/// Walk one row down the tree, as `walk` describes.
fn classify(node: &Node, row: &Vec<String>, default: &String) -> (r: String)
    ensures
        r@ == walk(node@, row.deep_view(), default@),
    decreases node,
{
    let ghost rv = row.deep_view();
    match node {
        Node::Leaf(c) => c.clone(),
        Node::Decision { feature_index, branches } => {
            if *feature_index >= row.len() {
                default.clone()
            } else {
                proof {
                    assert(rv.len() == row@.len());
                    assert(rv[*feature_index as int] == row@[*feature_index as int]@);
                    lemma_branches_view_index(branches@);
                }
                let v = &row[*feature_index];
                match find_branch(branches, v) {
                    Some(child) => classify(child, row, default),
                    None => default.clone(),
                }
            }
        },
    }
}

} // verus!
