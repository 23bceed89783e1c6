//! Bounding volume hierarchy: a binary tree of boxes whose leaves hold the
//! scene's primitives, built by halving boxes along their longest side.
//!
//! The tree is generic in the box type `B`; leaves refer to primitives by
//! their position in the hierarchy's primitive list. The geometry (halving a
//! box, deciding on which side of the cut a primitive lies) is supplied by the
//! caller; this module owns the shape of the tree and the bookkeeping of the
//! primitives.
use vstd::prelude::*;
use vstd::seq_lib::lemma_multiset_commutative;
use crate::selection::{all_below, index_range, lemma_permutation_of_range, lemma_select_contained, lemma_select_partition, select};

verus! {

/// Largest number of primitives a leaf keeps without being split.
pub const LEAF_THRESHOLD: usize = 5;

/// A bounding volume: a box and, at a leaf, the primitives inside it.
pub struct BV<B> {
    pub box3d: B,
    pub primitives: Option<Vec<usize>>,
}

impl<B> BV<B> {
    /// An empty volume around `box3d`.
    pub fn new(box3d: B) -> (bv: BV<B>)
        ensures
            bv.box3d == box3d,
            bv.primitives is None,
    {
        BV { box3d, primitives: None }
    }

    /// The primitives held directly by this volume.
    pub open spec fn held(self) -> Seq<usize> {
        match self.primitives {
            Some(v) => v@,
            None => Seq::empty(),
        }
    }
}

/// A node of the hierarchy: its volume and its two subtrees.
#[verifier::reject_recursive_types(B)]
pub struct TreeBranch<B> {
    pub left: Option<Box<TreeBranch<B>>>,
    pub right: Option<Box<TreeBranch<B>>>,
    pub parent: Option<Box<TreeBranch<B>>>,
    pub data: BV<B>,
}

/// A node just made: no subtrees and no parent link.
pub open spec fn fresh_leaf<B>(t: TreeBranch<B>) -> bool {
    &&& t.left is None
    &&& t.right is None
    &&& t.parent is None
}

/// The primitives of an optional subtree.
pub open spec fn subtree_contents<B>(t: Option<Box<TreeBranch<B>>>) -> Seq<usize>
    decreases t,
{
    match t {
        Some(b) => b.contents(),
        None => Seq::empty(),
    }
}

impl<B> TreeBranch<B> {
    /// A childless node holding `data`.
    pub fn new(data: BV<B>) -> (t: TreeBranch<B>)
        ensures
            t.data == data,
            t.left is None,
            t.right is None,
            t.parent is None,
    {
        TreeBranch { data, parent: None, left: None, right: None }
    }

    /// Every primitive reachable from this node: its own, then those of the
    /// left subtree, then those of the right one.
    pub open spec fn contents(self) -> Seq<usize>
        decreases self,
    {
        self.data.held() + subtree_contents(self.left) + subtree_contents(self.right)
    }

    /// Shape of a built hierarchy: a node is a leaf or has both subtrees; an
    /// inner node holds no primitive itself, has more than `threshold`
    /// primitives below it, and each of its subtrees holds some of them.
    pub open spec fn wf(self, threshold: nat) -> bool
        decreases self,
    {
        match (self.left, self.right) {
            (None, None) => true,
            (Some(l), Some(r)) => {
                &&& self.data.primitives is None
                &&& l.contents().len() > 0
                &&& r.contents().len() > 0
                &&& l.contents().len() + r.contents().len() > threshold
                &&& l.wf(threshold)
                &&& r.wf(threshold)
            },
            _ => false,
        }
    }
}

/// The hierarchy over a list of primitives.
#[verifier::reject_recursive_types(B)]
pub struct BVH<B, P> {
    pub tree: TreeBranch<B>,
    pub primitives: Vec<P>,
}

impl<B, P> BVH<B, P> {
    /// A hierarchy made of `tree` over `primitives`.
    pub fn new(tree: TreeBranch<B>, primitives: Vec<P>) -> (bvh: BVH<B, P>)
        ensures
            bvh.tree == tree,
            bvh.primitives == primitives,
    {
        BVH { tree, primitives }
    }

    /// The two halves of `section`: `halve` cuts its box in two, and each of
    /// its primitives goes to the first half when `upper` says it lies on the
    /// upper side of the cut, to the second otherwise, keeping their order.
    /// A volume without primitives gives two volumes without primitives.
    pub fn build_section<H, U>(section: &BV<B>, primitives: &Vec<P>, halve: &H, upper: &U) -> (r: (BV<B>, BV<B>))
        where
            H: Fn(&B) -> (B, B),
            U: Fn(&B, &P) -> bool,
        requires
            forall|b: &B| #[trigger] halve.requires((b,)),
            forall|b: &B, p: &P| #[trigger] upper.requires((b, p)),
            all_below(section.held(), primitives.len() as nat),
        ensures
            halve.ensures((&section.box3d,), (r.0.box3d, r.1.box3d)),
            section.primitives is None ==> r.0.primitives is None && r.1.primitives is None,
            section.primitives is Some ==> {
                &&& r.0.primitives is Some
                &&& r.1.primitives is Some
                &&& exists|flags: Seq<bool>| #[trigger] classified(upper, &section.box3d, primitives@, section.held(), flags)
                    && r.0.held() == select(section.held(), flags, true)
                    && r.1.held() == select(section.held(), flags, false)
            },
    {
        let (box1, box2) = halve(&section.box3d);
        let mut bv1 = BV::new(box1);
        let mut bv2 = BV::new(box2);
        match &section.primitives {
            None => {},
            Some(list) => {
                let mut list1: Vec<usize> = Vec::new();
                let mut list2: Vec<usize> = Vec::new();
                let ghost mut flags: Seq<bool> = Seq::empty();
                let mut i: usize = 0;
                while i < list.len()
                    invariant
                        forall|b: &B, p: &P| #[trigger] upper.requires((b, p)),
                        section.primitives == Some(*list),
                        all_below(list@, primitives.len() as nat),
                        0 <= i <= list.len(),
                        flags.len() == i,
                        classified(upper, &section.box3d, primitives@, list@.take(i as int), flags),
                        list1@ == select(list@.take(i as int), flags, true),
                        list2@ == select(list@.take(i as int), flags, false),
                    decreases list.len() - i,
                {
                    let idx = list[i];
                    let up = upper(&section.box3d, &primitives[idx]);
                    proof {
                        let s = list@.take(i + 1);
                        assert(s.drop_last() =~= list@.take(i as int));
                        assert(flags.push(up).take(i as int) =~= flags);
                        flags = flags.push(up);
                        assert(classified(upper, &section.box3d, primitives@, s, flags));
                    }
                    if up {
                        list1.push(idx);
                    } else {
                        list2.push(idx);
                    }
                    i = i + 1;
                }
                proof {
                    assert(list@.take(list.len() as int) =~= list@);
                }
                bv1.primitives = Some(list1);
                bv2.primitives = Some(list2);
            },
        }
        (bv1, bv2)
    }

    /// Builds the hierarchy over `self.primitives` inside `scene_box`: the
    /// root holds every primitive and is split by `build_node` with a leaf
    /// threshold of `LEAF_THRESHOLD`.
    pub fn build<H, U>(&mut self, scene_box: B, halve: &H, upper: &U)
        where
            H: Fn(&B) -> (B, B),
            U: Fn(&B, &P) -> bool,
        requires
            forall|b: &B| #[trigger] halve.requires((b,)),
            forall|b: &B, p: &P| #[trigger] upper.requires((b, p)),
        ensures
            final(self).primitives@ == old(self).primitives@,
            final(self).tree.data.box3d == scene_box,
            final(self).tree.parent is None,
            final(self).tree.wf(LEAF_THRESHOLD as nat),
            settled(final(self).tree, LEAF_THRESHOLD as nat, upper, final(self).primitives@),
            cut_by(final(self).tree, halve),
            split_by(final(self).tree, upper, final(self).primitives@),
            final(self).tree.contents().to_multiset() == index_range(old(self).primitives.len() as nat).to_multiset(),
            built_from(final(self).tree, index_range(old(self).primitives.len() as nat), upper, final(self).primitives@),
            no_parents(final(self).tree),
    {
        let n = self.primitives.len();
        let mut all: Vec<usize> = Vec::new();
        let mut i: usize = 0;
        while i < n
            invariant
                i <= n,
                all@ == index_range(i as nat),
            decreases n - i,
        {
            all.push(i);
            i = i + 1;
            assert(all@ =~= index_range(i as nat));
        }
        let mut root = TreeBranch::new(BV::new(scene_box));
        root.data.primitives = Some(all);
        let threshold = LEAF_THRESHOLD;
        Self::build_node(&mut root, threshold, &self.primitives, halve, upper);
        self.tree = root;
    }

    /// Splits a leaf holding more than `threshold` primitives into two
    /// subtrees by `build_section`, and those in turn, until every leaf holds
    /// at most `threshold` primitives or a cut leaves one side empty; a leaf
    /// whose cut leaves one side empty is kept whole. The left subtree gets
    /// the second half of the cut, the right one the first. A node with at
    /// most `threshold` primitives of its own (none when it has no list) is
    /// left as it is.
    fn build_node<H, U>(node: &mut TreeBranch<B>, threshold: usize, primitives: &Vec<P>, halve: &H, upper: &U)
        where
            H: Fn(&B) -> (B, B),
            U: Fn(&B, &P) -> bool,
        requires
            forall|b: &B| #[trigger] halve.requires((b,)),
            forall|b: &B, p: &P| #[trigger] upper.requires((b, p)),
            old(node).data.held().len() > threshold ==> fresh_leaf(*old(node)),
            all_below(old(node).data.held(), primitives.len() as nat),
        ensures
            old(node).data.held().len() <= threshold ==> *final(node) == *old(node),
            final(node).data.box3d == old(node).data.box3d,
            final(node).parent == old(node).parent,
            final(node).left is None ==> final(node).data == old(node).data,
            fresh_leaf(*old(node)) ==> {
                &&& final(node).wf(threshold as nat)
                &&& final(node).contents().to_multiset() == old(node).data.held().to_multiset()
                &&& settled(*final(node), threshold as nat, upper, primitives@)
                &&& cut_by(*final(node), halve)
                &&& split_by(*final(node), upper, primitives@)
                &&& no_parents(*final(node))
            },
            fresh_leaf(*old(node)) && old(node).data.primitives is Some
                ==> built_from(*final(node), old(node).data.held(), upper, primitives@),
        decreases old(node).data.held().len(),
    {
        let primitives_len = match &node.data.primitives {
            Some(prims) => prims.len(),
            None => 0,
        };
        if primitives_len <= threshold {
            proof {
                if fresh_leaf(*node) {
                    assert(subtree_contents(node.left) =~= Seq::empty());
                    assert(subtree_contents(node.right) =~= Seq::empty());
                    assert(node.contents() =~= node.data.held());
                }
            }
            return;
        }
        proof {
            assert(subtree_contents(node.left) =~= Seq::empty());
            assert(subtree_contents(node.right) =~= Seq::empty());
            assert(node.contents() =~= node.data.held());
        }
        let (bv1, bv2) = Self::build_section(&node.data, primitives, halve, upper);
        let ghost held = node.data.held();
        let ghost flags = choose|flags: Seq<bool>| #[trigger] classified(upper, &node.data.box3d, primitives@, held, flags)
            && bv1.held() == select(held, flags, true)
            && bv2.held() == select(held, flags, false);
        proof {
            lemma_select_partition(held, flags);
            assert forall|k: int| 0 <= k < bv1.held().len() implies #[trigger] bv1.held()[k] < primitives.len() by {
                assert(held.to_multiset().count(bv1.held()[k]) > 0) by {
                    broadcast use vstd::seq_lib::group_to_multiset_ensures;
                    broadcast use vstd::multiset::group_multiset_axioms;
                    assert(bv1.held().contains(bv1.held()[k]));
                }
                broadcast use vstd::seq_lib::group_to_multiset_ensures;
                let j = choose|j: int| 0 <= j < held.len() && held[j] == bv1.held()[k];
            }
            assert forall|k: int| 0 <= k < bv2.held().len() implies #[trigger] bv2.held()[k] < primitives.len() by {
                assert(held.to_multiset().count(bv2.held()[k]) > 0) by {
                    broadcast use vstd::seq_lib::group_to_multiset_ensures;
                    broadcast use vstd::multiset::group_multiset_axioms;
                    assert(bv2.held().contains(bv2.held()[k]));
                }
                broadcast use vstd::seq_lib::group_to_multiset_ensures;
                let j = choose|j: int| 0 <= j < held.len() && held[j] == bv2.held()[k];
            }
        }
        let ghost lower = bv2.held();
        let ghost higher = bv1.held();
        assert(bv1.primitives is Some && bv2.primitives is Some);
        let mut left_branch = TreeBranch::new(bv2);
        let mut right_branch = TreeBranch::new(bv1);

        let left_len = match &left_branch.data.primitives {
            Some(p) => p.len(),
            None => 0,
        };
        let right_len = match &right_branch.data.primitives {
            Some(p) => p.len(),
            None => 0,
        };
        if left_len == primitives_len || right_len == primitives_len {
            return;
        }

        Self::build_node(&mut left_branch, threshold, primitives, halve, upper);
        Self::build_node(&mut right_branch, threshold, primitives, halve, upper);

        node.left = Some(Box::new(left_branch));
        node.right = Some(Box::new(right_branch));
        node.data.primitives = None;
        proof {
            assert(built_from(left_branch, lower, upper, primitives@));
            assert(built_from(right_branch, higher, upper, primitives@));
            assert(classified(upper, &node.data.box3d, primitives@, held, flags));
            lemma_multiset_commutative(left_branch.contents(), right_branch.contents());
            assert(node.contents() =~= left_branch.contents() + right_branch.contents());
            assert(left_branch.contents().len() == lower.len()) by {
                broadcast use vstd::seq_lib::group_to_multiset_ensures;
                assert(left_branch.contents().to_multiset().len() == lower.to_multiset().len());
            }
            assert(right_branch.contents().len() == higher.len()) by {
                broadcast use vstd::seq_lib::group_to_multiset_ensures;
                assert(right_branch.contents().to_multiset().len() == higher.to_multiset().len());
            }
            lemma_select_contained(held, flags, true);
            lemma_select_contained(held, flags, false);
            let rc = right_branch.contents();
            let lc = left_branch.contents();
            assert forall|k: int| 0 <= k < rc.len() implies
                #[trigger] upper.ensures((&node.data.box3d, &primitives@[rc[k] as int]), true) by {
                broadcast use vstd::seq_lib::group_to_multiset_ensures;
                assert(rc.contains(rc[k]));
                assert(rc.to_multiset().count(rc[k]) > 0);
                assert(higher.to_multiset().count(rc[k]) > 0);
                let m = choose|m: int| 0 <= m < higher.len() && higher[m] == rc[k];
                let j = choose|j: int| 0 <= j < held.len() && held[j] == #[trigger] higher[m] && flags[j] == true;
            }
            assert forall|k: int| 0 <= k < lc.len() implies
                #[trigger] upper.ensures((&node.data.box3d, &primitives@[lc[k] as int]), false) by {
                broadcast use vstd::seq_lib::group_to_multiset_ensures;
                assert(lc.contains(lc[k]));
                assert(lc.to_multiset().count(lc[k]) > 0);
                assert(lower.to_multiset().count(lc[k]) > 0);
                let m = choose|m: int| 0 <= m < lower.len() && lower[m] == lc[k];
                let j = choose|j: int| 0 <= j < held.len() && held[j] == #[trigger] lower[m] && flags[j] == false;
            }
        }
    }
}

/// Every inner node below `t` has the boxes of one cut of its own box by
/// `halve`: the first half on its right subtree, the second on its left one.
pub open spec fn cut_by<B, H: Fn(&B) -> (B, B)>(t: TreeBranch<B>, halve: &H) -> bool
    decreases t,
{
    match (t.left, t.right) {
        (Some(l), Some(r)) => {
            &&& halve.ensures((&t.data.box3d,), (r.data.box3d, l.data.box3d))
            &&& cut_by(*l, halve)
            &&& cut_by(*r, halve)
        },
        _ => true,
    }
}

/// Every inner node below `t` sends to its right subtree only primitives
/// that `upper` may place on the upper side of the node's cut, and to its
/// left subtree only ones it may place on the lower side.
pub open spec fn split_by<B, P, U: Fn(&B, &P) -> bool>(t: TreeBranch<B>, upper: &U, primitives: Seq<P>) -> bool
    decreases t,
{
    match (t.left, t.right) {
        (Some(l), Some(r)) => {
            &&& forall|k: int| 0 <= k < r.contents().len() ==>
                #[trigger] upper.ensures((&t.data.box3d, &primitives[r.contents()[k] as int]), true)
            &&& forall|k: int| 0 <= k < l.contents().len() ==>
                #[trigger] upper.ensures((&t.data.box3d, &primitives[l.contents()[k] as int]), false)
            &&& split_by(*l, upper, primitives)
            &&& split_by(*r, upper, primitives)
        },
        _ => true,
    }
}

/// The tree below `t` was built from the primitive list `list`: a leaf holds
/// exactly `list`, in order; an inner node holds no list itself, and some
/// answers of `upper` for `list` within its box send to its right subtree
/// the order-keeping selection of the primitives on the upper side and to
/// its left subtree the selection of the rest, each built in turn.
pub open spec fn built_from<B, P, U: Fn(&B, &P) -> bool>(
    t: TreeBranch<B>,
    list: Seq<usize>,
    upper: &U,
    primitives: Seq<P>,
) -> bool
    decreases t,
{
    match (t.left, t.right) {
        (Some(l), Some(r)) => {
            &&& t.data.primitives is None
            &&& exists|flags: Seq<bool>|
                #[trigger] classified(upper, &t.data.box3d, primitives, list, flags)
                && built_from(*l, select(list, flags, false), upper, primitives)
                && built_from(*r, select(list, flags, true), upper, primitives)
        },
        (None, None) => t.data.primitives matches Some(v) && v@ == list,
        _ => false,
    }
}

/// No node below `t` has a parent link.
pub open spec fn no_parents<B>(t: TreeBranch<B>) -> bool
    decreases t,
{
    &&& t.parent is None
    &&& match t.left {
        Some(l) => no_parents(*l),
        None => true,
    }
    &&& match t.right {
        Some(r) => no_parents(*r),
        None => true,
    }
}

/// `halve` gives one answer for each box.
pub open spec fn halves_deterministically<B, H: Fn(&B) -> (B, B)>(halve: &H) -> bool {
    forall|b: &B, r1: (B, B), r2: (B, B)|
        #[trigger] halve.ensures((b,), r1) && #[trigger] halve.ensures((b,), r2) ==> r1 == r2
}

/// `upper` gives one answer for each box and primitive.
pub open spec fn sides_deterministically<B, P, U: Fn(&B, &P) -> bool>(upper: &U) -> bool {
    forall|b: &B, p: &P, r1: bool, r2: bool|
        #[trigger] upper.ensures((b, p), r1) && #[trigger] upper.ensures((b, p), r2) ==> r1 == r2
}

/// `t1` and `t2` have the same shape, the same boxes and the same lists of
/// primitives, node for node.
pub open spec fn same_tree<B>(t1: TreeBranch<B>, t2: TreeBranch<B>) -> bool
    decreases t1,
{
    &&& t1.data.box3d == t2.data.box3d
    &&& t1.data.held() == t2.data.held()
    &&& (t1.data.primitives is Some <==> t2.data.primitives is Some)
    &&& match (t1.left, t1.right, t2.left, t2.right) {
        (Some(l1), Some(r1), Some(l2), Some(r2)) => same_tree(*l1, *l2) && same_tree(*r1, *r2),
        (None, None, None, None) => true,
        _ => false,
    }
}

/// A tree built from `list` holds exactly the primitives of `list`.
pub proof fn lemma_built_contents<B, P, U: Fn(&B, &P) -> bool>(
    t: TreeBranch<B>,
    list: Seq<usize>,
    upper: &U,
    primitives: Seq<P>,
)
    requires
        built_from(t, list, upper, primitives),
    ensures
        t.contents().to_multiset() == list.to_multiset(),
        t.contents().len() == list.len(),
    decreases t,
{
    broadcast use vstd::seq_lib::group_to_multiset_ensures;

    match (t.left, t.right) {
        (Some(l), Some(r)) => {
            let flags = choose|flags: Seq<bool>|
                #[trigger] classified(upper, &t.data.box3d, primitives, list, flags)
                && built_from(*l, select(list, flags, false), upper, primitives)
                && built_from(*r, select(list, flags, true), upper, primitives);
            lemma_built_contents(*l, select(list, flags, false), upper, primitives);
            lemma_built_contents(*r, select(list, flags, true), upper, primitives);
            lemma_select_partition(list, flags);
            assert(t.contents() =~= l.contents() + r.contents());
            lemma_multiset_commutative(l.contents(), r.contents());
            assert(t.contents().to_multiset() =~= list.to_multiset());
            assert(t.contents().to_multiset().len() == list.to_multiset().len());
        },
        _ => {
            assert(subtree_contents(t.left) =~= Seq::empty());
            assert(subtree_contents(t.right) =~= Seq::empty());
            assert(t.contents() =~= t.data.held());
        },
    }
}

/// Two answers of a deterministic `upper` for the same list agree.
proof fn lemma_flags_unique<B, P, U: Fn(&B, &P) -> bool>(
    upper: &U,
    bounds: &B,
    primitives: Seq<P>,
    list: Seq<usize>,
    f1: Seq<bool>,
    f2: Seq<bool>,
)
    requires
        sides_deterministically(upper),
        classified(upper, bounds, primitives, list, f1),
        classified(upper, bounds, primitives, list, f2),
    ensures
        f1 == f2,
{
    assert forall|k: int| 0 <= k < f1.len() implies f1[k] == f2[k] by {
        assert(upper.ensures((bounds, &primitives[list[k] as int]), f1[k]));
        assert(upper.ensures((bounds, &primitives[list[k] as int]), f2[k]));
    }
    assert(f1 =~= f2);
}

/// A leaf kept by `settled` and an inner node built from the same list in
/// the same box: the inner node is not a well-formed split.
proof fn lemma_leaf_not_inner<B, P, U: Fn(&B, &P) -> bool>(
    leaf: TreeBranch<B>,
    inner: TreeBranch<B>,
    list: Seq<usize>,
    threshold: nat,
    upper: &U,
    primitives: Seq<P>,
)
    requires
        sides_deterministically(upper),
        leaf.data.box3d == inner.data.box3d,
        leaf.left is None || leaf.right is None,
        inner.left is Some,
        inner.right is Some,
        settled(leaf, threshold, upper, primitives),
        built_from(leaf, list, upper, primitives),
        built_from(inner, list, upper, primitives),
    ensures
        !inner.wf(threshold),
{
    if inner.wf(threshold) {
    let l = *inner.left->Some_0;
    let r = *inner.right->Some_0;
    let f1 = choose|flags: Seq<bool>|
        #[trigger] classified(upper, &inner.data.box3d, primitives, list, flags)
        && built_from(l, select(list, flags, false), upper, primitives)
        && built_from(r, select(list, flags, true), upper, primitives);
    lemma_built_contents(l, select(list, f1, false), upper, primitives);
    lemma_built_contents(r, select(list, f1, true), upper, primitives);
    lemma_select_partition(list, f1);
    assert(leaf.data.held() == list);
    let f2 = choose|flags: Seq<bool>|
        #[trigger] classified(upper, &leaf.data.box3d, primitives, leaf.data.held(), flags)
        && (select(leaf.data.held(), flags, true).len() == leaf.data.held().len()
            || select(leaf.data.held(), flags, false).len() == leaf.data.held().len());
    lemma_flags_unique(upper, &leaf.data.box3d, primitives, list, f1, f2);
    }
}

/// Building is a function of the primitives and the scene box: when `halve`
/// and `upper` answer the same for the same arguments, two trees built from
/// the same list inside the same box are the same tree, with the same
/// shape, the same boxes and the same lists in the same order.
pub proof fn lemma_build_deterministic<B, P, H: Fn(&B) -> (B, B), U: Fn(&B, &P) -> bool>(
    t1: TreeBranch<B>,
    t2: TreeBranch<B>,
    list: Seq<usize>,
    threshold: nat,
    halve: &H,
    upper: &U,
    primitives: Seq<P>,
)
    requires
        halves_deterministically(halve),
        sides_deterministically(upper),
        t1.data.box3d == t2.data.box3d,
        t1.wf(threshold),
        t2.wf(threshold),
        settled(t1, threshold, upper, primitives),
        settled(t2, threshold, upper, primitives),
        cut_by(t1, halve),
        cut_by(t2, halve),
        built_from(t1, list, upper, primitives),
        built_from(t2, list, upper, primitives),
    ensures
        same_tree(t1, t2),
    decreases t1,
{
    match (t1.left, t1.right) {
        (Some(l1), Some(r1)) => {
            match (t2.left, t2.right) {
                (Some(l2), Some(r2)) => {
                    let f1 = choose|flags: Seq<bool>|
                        #[trigger] classified(upper, &t1.data.box3d, primitives, list, flags)
                        && built_from(*l1, select(list, flags, false), upper, primitives)
                        && built_from(*r1, select(list, flags, true), upper, primitives);
                    let f2 = choose|flags: Seq<bool>|
                        #[trigger] classified(upper, &t2.data.box3d, primitives, list, flags)
                        && built_from(*l2, select(list, flags, false), upper, primitives)
                        && built_from(*r2, select(list, flags, true), upper, primitives);
                    lemma_flags_unique(upper, &t1.data.box3d, primitives, list, f1, f2);
                    assert(halve.ensures((&t1.data.box3d,), (r1.data.box3d, l1.data.box3d)));
                    assert(halve.ensures((&t1.data.box3d,), (r2.data.box3d, l2.data.box3d)));
                    lemma_build_deterministic(*l1, *l2, select(list, f1, false), threshold, halve, upper, primitives);
                    lemma_build_deterministic(*r1, *r2, select(list, f1, true), threshold, halve, upper, primitives);
                },
                _ => {
                    lemma_leaf_not_inner(t2, t1, list, threshold, upper, primitives);
                },
            }
        },
        _ => {
            match (t2.left, t2.right) {
                (Some(l2), Some(r2)) => {
                    lemma_leaf_not_inner(t1, t2, list, threshold, upper, primitives);
                },
                _ => {},
            }
        },
    }
}

/// A scene of at most `threshold` primitives is built into a single leaf
/// that holds all of them in their order, `0, 1, ..., n - 1` (an empty
/// list for an empty scene).
pub proof fn lemma_small_scene_single_leaf<B, P, U: Fn(&B, &P) -> bool>(
    t: TreeBranch<B>,
    n: nat,
    threshold: nat,
    upper: &U,
    primitives: Seq<P>,
)
    requires
        n <= threshold,
        t.wf(threshold),
        built_from(t, index_range(n), upper, primitives),
    ensures
        t.left is None,
        t.right is None,
        t.data.primitives matches Some(v) && v@ == index_range(n),
{
    lemma_built_contents(t, index_range(n), upper, primitives);
    match (t.left, t.right) {
        (Some(l), Some(r)) => {
            assert(t.contents() =~= l.contents() + r.contents());
        },
        _ => {},
    }
}

/// Every leaf below `t` that holds more than `threshold` primitives is one
/// that cannot be split: each answer `upper` may give puts all of them on
/// the same side of the cut of the leaf's box.
pub open spec fn settled<B, P, U: Fn(&B, &P) -> bool>(
    t: TreeBranch<B>,
    threshold: nat,
    upper: &U,
    primitives: Seq<P>,
) -> bool
    decreases t,
{
    match (t.left, t.right) {
        (Some(l), Some(r)) => settled(*l, threshold, upper, primitives) && settled(*r, threshold, upper, primitives),
        _ => t.data.held().len() <= threshold || exists|flags: Seq<bool>|
            #[trigger] classified(upper, &t.data.box3d, primitives, t.data.held(), flags)
            && (select(t.data.held(), flags, true).len() == t.data.held().len()
                || select(t.data.held(), flags, false).len() == t.data.held().len()),
    }
}

/// A hierarchy whose tree holds each of `n` primitives exactly once: it has
/// `n` entries, every entry is a position below `n`, no entry repeats, and
/// every position below `n` occurs once.
pub proof fn lemma_each_primitive_once(contents: Seq<usize>, n: nat)
    requires
        n <= usize::MAX,
        contents.to_multiset() == index_range(n).to_multiset(),
    ensures
        contents.len() == n,
        all_below(contents, n),
        contents.no_duplicates(),
        forall|i: int| 0 <= i < n ==> #[trigger] contents.to_multiset().count(i as usize) == 1,
{
    lemma_permutation_of_range(contents, n);
}

/// `flags[k]` is an answer that `upper` may give for the `k`-th primitive of
/// `held` inside `bounds`.
pub open spec fn classified<B, P, U: Fn(&B, &P) -> bool>(
    upper: &U,
    bounds: &B,
    primitives: Seq<P>,
    held: Seq<usize>,
    flags: Seq<bool>,
) -> bool {
    &&& flags.len() == held.len()
    &&& forall|k: int| 0 <= k < held.len() ==> #[trigger] upper.ensures((bounds, &primitives[held[k] as int]), flags[k])
}

} // verus!
