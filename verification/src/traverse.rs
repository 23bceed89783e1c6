//! Closest-hit search through a bounding volume hierarchy.
//!
//! The search walks the tree with a stack, skipping every volume whose box
//! is missed or lies no nearer than the best hit found so far. Geometry comes
//! from the caller: `probe_box` tells whether a ray meets a box and how far
//! away, `probe_primitive` whether it meets a primitive, where and how far.
//! Distances are keys whose order is the order of the distances.
use vstd::prelude::*;
use crate::bvh::{BVH, TreeBranch, subtree_contents};
use crate::selection::all_below;

verus! {

/// An entry of the search stack.
#[verifier::reject_recursive_types(B)]
pub enum Resolvable<'a, B> {
    /// A primitive, by its position in the hierarchy's primitive list.
    Primitive(usize),
    /// A node of the tree.
    Branch(&'a TreeBranch<B>),
}

/// The primitives an entry stands for.
pub open spec fn item_contents<'a, B>(item: Resolvable<'a, B>) -> Seq<usize> {
    match item {
        Resolvable::Primitive(j) => seq![j],
        Resolvable::Branch(n) => n.contents(),
    }
}

/// Number of entries and primitives in the tree below `t`, itself included.
pub open spec fn node_size<B>(t: TreeBranch<B>) -> nat
    decreases t,
{
    1 + t.data.held().len() + subtree_size(t.left) + subtree_size(t.right)
}

pub open spec fn subtree_size<B>(t: Option<Box<TreeBranch<B>>>) -> nat
    decreases t,
{
    match t {
        Some(b) => node_size(*b),
        None => 0,
    }
}

pub open spec fn item_size<'a, B>(item: Resolvable<'a, B>) -> nat {
    match item {
        Resolvable::Primitive(_) => 1,
        Resolvable::Branch(n) => node_size(*n),
    }
}

/// Work left on a stack of entries.
pub open spec fn stack_size<'a, B>(s: Seq<Resolvable<'a, B>>) -> nat
    decreases s.len(),
{
    if s.len() == 0 {
        0
    } else {
        stack_size(s.drop_last()) + item_size(s.last())
    }
}

/// Entries for a list of primitives.
pub open spec fn prim_items<'a, B>(s: Seq<usize>) -> Seq<Resolvable<'a, B>> {
    s.map_values(|j: usize| Resolvable::Primitive(j))
}

/// Entries for an optional subtree.
pub open spec fn branch_item<'a, B>(t: &'a Option<Box<TreeBranch<B>>>) -> Seq<Resolvable<'a, B>> {
    match t {
        Some(b) => seq![Resolvable::Branch(&**b)],
        None => Seq::empty(),
    }
}

/// What the search pushes for a node it enters: its own primitives, its
/// right subtree, its left subtree.
pub open spec fn expand<'a, B>(node: &'a TreeBranch<B>) -> Seq<Resolvable<'a, B>> {
    prim_items(node.data.held()) + branch_item(&node.right) + branch_item(&node.left)
}

/// `probe` gives a single answer for each primitive.
pub open spec fn deterministic<P, Pt, FP: Fn(&P) -> Option<(Pt, u32)>>(probe: &FP) -> bool {
    forall|p: &P, a: Option<(Pt, u32)>, b: Option<(Pt, u32)>|
        #[trigger] probe.ensures((p,), a) && #[trigger] probe.ensures((p,), b) ==> a == b
}

/// Distance key of a hit.
pub open spec fn hit_key<Pt>(a: Option<(Pt, u32)>) -> u32 {
    match a {
        Some((_, k)) => k,
        None => 0,
    }
}

/// `a` is a hit further away than `epsilon`.
pub open spec fn beyond<Pt>(a: Option<(Pt, u32)>, epsilon: u32) -> bool {
    a is Some && hit_key(a) > epsilon
}

/// The box of `t` is met no further away than any primitive below `t` that
/// is hit beyond `epsilon`.
pub open spec fn bounds_node<B, P, Pt, FB: Fn(&B) -> Option<u32>, FP: Fn(&P) -> Option<(Pt, u32)>>(
    t: TreeBranch<B>,
    probe_box: &FB,
    probe_primitive: &FP,
    primitives: Seq<P>,
    epsilon: u32,
) -> bool {
    forall|k: int, a: Option<(Pt, u32)>, an: Option<u32>|
        0 <= k < t.contents().len()
        && #[trigger] probe_primitive.ensures((&primitives[t.contents()[k] as int],), a)
        && beyond(a, epsilon)
        && #[trigger] probe_box.ensures((&t.data.box3d,), an)
        ==> an is Some && an->0 <= hit_key(a)
}

/// Every box of the tree below `t` bounds its primitives' hits.
pub open spec fn conservative<B, P, Pt, FB: Fn(&B) -> Option<u32>, FP: Fn(&P) -> Option<(Pt, u32)>>(
    t: TreeBranch<B>,
    probe_box: &FB,
    probe_primitive: &FP,
    primitives: Seq<P>,
    epsilon: u32,
) -> bool
    decreases t,
{
    &&& bounds_node(t, probe_box, probe_primitive, primitives, epsilon)
    &&& match t.left {
        Some(l) => conservative(*l, probe_box, probe_primitive, primitives, epsilon),
        None => true,
    }
    &&& match t.right {
        Some(r) => conservative(*r, probe_box, probe_primitive, primitives, epsilon),
        None => true,
    }
}

/// Primitive `i` of the tree may be hit `a`, beyond `epsilon`.
pub open spec fn candidate<B, P, Pt, FP: Fn(&P) -> Option<(Pt, u32)>>(
    tree: TreeBranch<B>,
    probe_primitive: &FP,
    primitives: Seq<P>,
    epsilon: u32,
    i: int,
    a: Option<(Pt, u32)>,
) -> bool {
    &&& 0 <= i < primitives.len()
    &&& tree.contents().contains(i as usize)
    &&& probe_primitive.ensures((&primitives[i],), a)
    &&& beyond(a, epsilon)
}

/// Some entry of the stack stands for primitive `i`.
pub open spec fn covered<'a, B>(stack: Seq<Resolvable<'a, B>>, i: int) -> bool {
    exists|s: int| 0 <= s < stack.len() && #[trigger] item_contents(stack[s]).contains(i as usize)
}

/// Every primitive an entry stands for is one of the tree's and a valid
/// position in the primitive list.
pub open spec fn item_in_tree<'a, B>(item: Resolvable<'a, B>, tree: TreeBranch<B>, n: nat) -> bool {
    forall|m: int| 0 <= m < item_contents(item).len() ==>
        tree.contents().contains(#[trigger] item_contents(item)[m]) && item_contents(item)[m] < n
}

/// A node entry's subtree has bounding boxes.
pub open spec fn item_conservative<'a, B, P, Pt, FB: Fn(&B) -> Option<u32>, FP: Fn(&P) -> Option<(Pt, u32)>>(
    item: Resolvable<'a, B>,
    probe_box: &FB,
    probe_primitive: &FP,
    primitives: Seq<P>,
    epsilon: u32,
) -> bool {
    match item {
        Resolvable::Branch(node) => conservative(*node, probe_box, probe_primitive, primitives, epsilon),
        Resolvable::Primitive(_) => true,
    }
}

/// Both subtrees of `t` have bounding boxes (its own box may not).
pub open spec fn subtrees_conservative<B, P, Pt, FB: Fn(&B) -> Option<u32>, FP: Fn(&P) -> Option<(Pt, u32)>>(
    t: TreeBranch<B>,
    probe_box: &FB,
    probe_primitive: &FP,
    primitives: Seq<P>,
    epsilon: u32,
) -> bool {
    &&& match t.left {
        Some(l) => conservative(*l, probe_box, probe_primitive, primitives, epsilon),
        None => true,
    }
    &&& match t.right {
        Some(r) => conservative(*r, probe_box, probe_primitive, primitives, epsilon),
        None => true,
    }
}

/// The box of `t` is met, nearer than `horizon`.
pub open spec fn entered<B, FB: Fn(&B) -> Option<u32>>(t: TreeBranch<B>, probe_box: &FB, horizon: u32) -> bool {
    forall|an: Option<u32>| #[trigger] probe_box.ensures((&t.data.box3d,), an) ==> an is Some && an->0 < horizon
}

/// The conditions under which the search finds the nearest hit: the
/// primitive probe answers the same for the same primitive, every box below
/// the root is met no further away than the primitives inside it, and the
/// root's box either bounds its primitives too or is met nearer than
/// `horizon` (so that the search always enters it).
pub open spec fn searchable<B, P, Pt, FB: Fn(&B) -> Option<u32>, FP: Fn(&P) -> Option<(Pt, u32)>>(
    tree: TreeBranch<B>,
    probe_box: &FB,
    probe_primitive: &FP,
    primitives: Seq<P>,
    epsilon: u32,
    horizon: u32,
) -> bool {
    &&& deterministic(probe_primitive)
    &&& subtrees_conservative(tree, probe_box, probe_primitive, primitives, epsilon)
    &&& (bounds_node(tree, probe_box, probe_primitive, primitives, epsilon) || entered(tree, probe_box, horizon))
}

/// An entry of a stack of `len` entries may be searched safely while the
/// best hit is `min_t`: its subtree has bounding boxes, or it is the root,
/// alone on the stack before any hit, met nearer than `horizon` and with
/// bounding boxes below it.
pub open spec fn item_safe<'a, B, P, Pt, FB: Fn(&B) -> Option<u32>, FP: Fn(&P) -> Option<(Pt, u32)>>(
    item: Resolvable<'a, B>,
    probe_box: &FB,
    probe_primitive: &FP,
    primitives: Seq<P>,
    epsilon: u32,
    horizon: u32,
    min_t: u32,
    len: int,
) -> bool {
    ||| item_conservative(item, probe_box, probe_primitive, primitives, epsilon)
    ||| {
        &&& len == 1
        &&& min_t == horizon
        &&& match item {
            Resolvable::Branch(node) => entered(*node, probe_box, horizon)
                && subtrees_conservative(*node, probe_box, probe_primitive, primitives, epsilon),
            Resolvable::Primitive(_) => false,
        }
    }
}

/// A tree that is a single leaf is searchable as soon as the primitive probe
/// answers the same for the same primitive and the leaf's box is met nearer
/// than `horizon`, however far away the box is met.
pub proof fn lemma_single_leaf_searchable<B, P, Pt, FB: Fn(&B) -> Option<u32>, FP: Fn(&P) -> Option<(Pt, u32)>>(
    tree: TreeBranch<B>,
    probe_box: &FB,
    probe_primitive: &FP,
    primitives: Seq<P>,
    epsilon: u32,
    horizon: u32,
)
    requires
        tree.left is None,
        tree.right is None,
        deterministic(probe_primitive),
        entered(tree, probe_box, horizon),
    ensures
        searchable(tree, probe_box, probe_primitive, primitives, epsilon, horizon),
{
}

/// The order in which the search meets the primitives below `t` when it
/// prunes nothing: those of the left subtree, those of the right subtree,
/// then the node's own primitives from the last to the first.
pub open spec fn visit_order<B>(t: TreeBranch<B>) -> Seq<usize>
    decreases t,
{
    subtree_visit(t.left) + subtree_visit(t.right) + t.data.held().reverse()
}

pub open spec fn subtree_visit<B>(t: Option<Box<TreeBranch<B>>>) -> Seq<usize>
    decreases t,
{
    match t {
        Some(b) => visit_order(*b),
        None => Seq::empty(),
    }
}

/// The primitives an entry leads to, in visiting order.
pub open spec fn item_visit<'a, B>(item: Resolvable<'a, B>) -> Seq<usize> {
    match item {
        Resolvable::Primitive(j) => seq![j],
        Resolvable::Branch(n) => visit_order(*n),
    }
}

/// The primitives a stack leads to, in visiting order: the top entry first.
pub open spec fn stack_visit<'a, B>(s: Seq<Resolvable<'a, B>>) -> Seq<usize>
    decreases s.len(),
{
    if s.len() == 0 {
        Seq::empty()
    } else {
        item_visit(s.last()) + stack_visit(s.drop_last())
    }
}

/// The primitive at position `q` of `order` may be hit `a`, beyond `epsilon`.
pub open spec fn hit_at<P, Pt, FP: Fn(&P) -> Option<(Pt, u32)>>(
    order: Seq<usize>,
    probe_primitive: &FP,
    primitives: Seq<P>,
    epsilon: u32,
    q: int,
    a: Option<(Pt, u32)>,
) -> bool {
    &&& 0 <= q < order.len()
    &&& probe_primitive.ensures((&primitives[order[q] as int],), a)
    &&& beyond(a, epsilon)
}

/// No primitive before position `q` of `order` may be hit beyond `epsilon`
/// as near as `k`.
pub open spec fn first_at<P, Pt, FP: Fn(&P) -> Option<(Pt, u32)>>(
    order: Seq<usize>,
    probe_primitive: &FP,
    primitives: Seq<P>,
    epsilon: u32,
    q: int,
    k: u32,
) -> bool {
    forall|q2: int, a: Option<(Pt, u32)>|
        #[trigger] hit_at(order, probe_primitive, primitives, epsilon, q2, a) && q2 < q ==> hit_key(a) > k
}

proof fn lemma_skip_concat(v: Seq<usize>, p: int, a: Seq<usize>, rest: Seq<usize>)
    requires
        0 <= p <= v.len(),
        v.skip(p) == a + rest,
    ensures
        p + a.len() <= v.len(),
        v.skip(p + a.len()) == rest,
        forall|m: int| 0 <= m < a.len() ==> v[p + m] == #[trigger] a[m],
{
    broadcast use vstd::seq_lib::group_seq_properties;

    assert(v.skip(p).len() == v.len() - p);
    assert forall|m: int| 0 <= m < a.len() implies v[p + m] == #[trigger] a[m] by {
        assert(v.skip(p)[m] == (a + rest)[m]);
    }
    assert(v.skip(p + a.len()) =~= rest) by {
        assert forall|m: int| 0 <= m < rest.len() implies v.skip(p + a.len())[m] == rest[m] by {
            assert(v.skip(p)[a.len() + m] == (a + rest)[a.len() + m]);
        }
    }
}

proof fn lemma_stack_visit_append<'a, B>(a: Seq<Resolvable<'a, B>>, b: Seq<Resolvable<'a, B>>)
    ensures
        stack_visit(a + b) == stack_visit(b) + stack_visit(a),
    decreases b.len(),
{
    if b.len() == 0 {
        assert(a + b =~= a);
        assert(stack_visit(b) + stack_visit(a) =~= stack_visit(a));
    } else {
        lemma_stack_visit_append(a, b.drop_last());
        assert((a + b).drop_last() =~= a + b.drop_last());
        assert((a + b).last() == b.last());
        assert(stack_visit(a + b) =~= stack_visit(b) + stack_visit(a));
    }
}

proof fn lemma_prim_items_visit<'a, B>(h: Seq<usize>, items: Seq<Resolvable<'a, B>>)
    requires
        items == prim_items::<'a, B>(h),
    ensures
        stack_visit(items) == h.reverse(),
    decreases h.len(),
{
    if h.len() == 0 {
        assert(h.reverse() =~= Seq::<usize>::empty());
    } else {
        let rest: Seq<Resolvable<'a, B>> = prim_items(h.drop_last());
        lemma_prim_items_visit(h.drop_last(), rest);
        assert(items.drop_last() =~= rest);
        assert(h.reverse() =~= seq![h.last()] + h.drop_last().reverse());
    }
}

/// What the search pushes for a node leads to the node's primitives in
/// visiting order.
proof fn lemma_expand_visit<'a, B>(node: &'a TreeBranch<B>)
    ensures
        stack_visit(expand(node)) == visit_order(*node),
{
    let pr = prim_items::<'a, B>(node.data.held());
    let br = branch_item(&node.right);
    let bl = branch_item(&node.left);
    lemma_stack_visit_append(pr + br, bl);
    lemma_stack_visit_append(pr, br);
    lemma_prim_items_visit(node.data.held(), pr);
    assert(stack_visit(Seq::<Resolvable<'a, B>>::empty()) == Seq::<usize>::empty());
    match node.right {
        Some(r) => {
            assert(br.drop_last() =~= Seq::<Resolvable<'a, B>>::empty());
            assert(stack_visit(br) =~= subtree_visit(node.right));
        },
        None => {
            assert(br =~= Seq::<Resolvable<'a, B>>::empty());
        },
    }
    match node.left {
        Some(l) => {
            assert(bl.drop_last() =~= Seq::<Resolvable<'a, B>>::empty());
            assert(stack_visit(bl) =~= subtree_visit(node.left));
        },
        None => {
            assert(bl =~= Seq::<Resolvable<'a, B>>::empty());
        },
    }
    assert(expand(node) == pr + br + bl);
    assert(stack_visit(expand(node)) =~= visit_order(*node));
}

/// Every primitive met below `t` is one of `t`'s.
proof fn lemma_visit_in_contents<B>(t: TreeBranch<B>)
    ensures
        forall|m: int| 0 <= m < visit_order(t).len() ==> t.contents().contains(#[trigger] visit_order(t)[m]),
    decreases t,
{
    let h = t.data.held();
    let lv = subtree_visit(t.left);
    let rv = subtree_visit(t.right);
    let lc = subtree_contents(t.left);
    let rc = subtree_contents(t.right);
    let c = t.contents();
    assert(c == h + lc + rc);
    match t.left {
        Some(l) => { lemma_visit_in_contents(*l); },
        None => {},
    }
    match t.right {
        Some(r) => { lemma_visit_in_contents(*r); },
        None => {},
    }
    assert forall|m: int| 0 <= m < visit_order(t).len() implies c.contains(#[trigger] visit_order(t)[m]) by {
        let v = visit_order(t);
        assert(v == lv + rv + h.reverse());
        if m < lv.len() {
            assert(v[m] == lv[m]);
            let l = *t.left->Some_0;
            assert(lv == visit_order(l));
            assert(lc == l.contents());
            assert(l.contents().contains(visit_order(l)[m]));
            assert(lc.contains(lv[m]));
            let j = choose|j: int| 0 <= j < lc.len() && lc[j] == lv[m];
            assert(c[h.len() + j] == lc[j]);
        } else if m < lv.len() + rv.len() {
            assert(v[m] == rv[m - lv.len()]);
            let r = *t.right->Some_0;
            assert(rv == visit_order(r));
            assert(rc == r.contents());
            assert(r.contents().contains(visit_order(r)[m - lv.len()]));
            assert(rc.contains(rv[m - lv.len()]));
            let j = choose|j: int| 0 <= j < rc.len() && rc[j] == rv[m - lv.len()];
            assert(c[h.len() + lc.len() + j] == rc[j]);
        } else {
            let q = m - lv.len() - rv.len();
            assert(v[m] == h.reverse()[q]);
            assert(h.reverse()[q] == h[h.len() - 1 - q]);
            assert(c[h.len() - 1 - q] == h[h.len() - 1 - q]);
        }
    }
}

proof fn lemma_stack_size_append<'a, B>(a: Seq<Resolvable<'a, B>>, b: Seq<Resolvable<'a, B>>)
    ensures
        stack_size(a + b) == stack_size(a) + stack_size(b),
    decreases b.len(),
{
    if b.len() > 0 {
        lemma_stack_size_append(a, b.drop_last());
        assert((a + b).drop_last() =~= a + b.drop_last());
    } else {
        assert(a + b =~= a);
    }
}

proof fn lemma_prim_items_size<'a, B>(s: Seq<usize>, items: Seq<Resolvable<'a, B>>)
    requires
        items == prim_items::<'a, B>(s),
    ensures
        stack_size(items) == s.len(),
    decreases s.len(),
{
    if s.len() > 0 {
        let rest: Seq<Resolvable<'a, B>> = prim_items(s.drop_last());
        lemma_prim_items_size(s.drop_last(), rest);
        assert(items.drop_last() =~= rest);
    }
}

proof fn lemma_covered_append<'a, B>(a: Seq<Resolvable<'a, B>>, b: Seq<Resolvable<'a, B>>, i: int)
    requires
        covered(a, i) || covered(b, i),
    ensures
        covered(a + b, i),
{
    if covered(a, i) {
        let s = choose|s: int| 0 <= s < a.len() && #[trigger] item_contents(a[s]).contains(i as usize);
        assert((a + b)[s] == a[s]);
    } else {
        let s = choose|s: int| 0 <= s < b.len() && #[trigger] item_contents(b[s]).contains(i as usize);
        assert((a + b)[a.len() + s] == b[s]);
    }
}

/// The entries pushed for a node stand for the node's primitives, come from
/// its subtree, and are one unit of work fewer than the node.
proof fn lemma_expand<'a, B, P, Pt, FB: Fn(&B) -> Option<u32>, FP: Fn(&P) -> Option<(Pt, u32)>>(
    node: &'a TreeBranch<B>,
    tree: TreeBranch<B>,
    n: nat,
    probe_box: &FB,
    probe_primitive: &FP,
    primitives: Seq<P>,
    epsilon: u32,
)
    requires
        item_in_tree(Resolvable::Branch(node), tree, n),
    ensures
        forall|s: int| 0 <= s < expand(node).len() ==> #[trigger] item_in_tree(expand(node)[s], tree, n),
        subtrees_conservative(*node, probe_box, probe_primitive, primitives, epsilon) ==> forall|s: int|
            0 <= s < expand(node).len() ==> #[trigger] item_conservative(expand(node)[s], probe_box, probe_primitive, primitives, epsilon),
        forall|i: int| node.contents().contains(i as usize) ==> covered(expand(node), i),
        stack_size(expand(node)) + 1 == node_size(*node),
{
    let held = node.data.held();
    let pr = prim_items::<'a, B>(held);
    let br = branch_item(&node.right);
    let bl = branch_item(&node.left);
    let lc = subtree_contents(node.left);
    let rc = subtree_contents(node.right);
    let e = expand(node);
    assert(e == pr + br + bl);
    assert(node.contents() == held + lc + rc);
    let c = node.contents();
    assert(item_contents(Resolvable::<'a, B>::Branch(node)) == c);
    assert forall|m: int| 0 <= m < c.len() implies tree.contents().contains(#[trigger] c[m]) && c[m] < n by {
        assert(item_contents(Resolvable::<'a, B>::Branch(node))[m] == c[m]);
    }
    // sizes
    lemma_prim_items_size(held, pr);
    lemma_stack_size_append(pr, br);
    lemma_stack_size_append(pr + br, bl);
    assert(stack_size(Seq::<Resolvable<'a, B>>::empty()) == 0);
    match node.right {
        Some(r) => {
            assert(br.drop_last() =~= Seq::<Resolvable<'a, B>>::empty());
            assert(stack_size(br) == subtree_size(node.right));
        },
        None => {
            assert(br =~= Seq::<Resolvable<'a, B>>::empty());
        },
    }
    match node.left {
        Some(l) => {
            assert(bl.drop_last() =~= Seq::<Resolvable<'a, B>>::empty());
            assert(stack_size(bl) == subtree_size(node.left));
        },
        None => {
            assert(bl =~= Seq::<Resolvable<'a, B>>::empty());
        },
    }
    assert(node_size(*node) == 1 + held.len() + subtree_size(node.left) + subtree_size(node.right));
    // items come from the tree
    assert forall|s: int| 0 <= s < e.len() implies #[trigger] item_in_tree(e[s], tree, n) by {
        if s < pr.len() {
            assert(e[s] == pr[s]);
            assert(item_contents(e[s]) == seq![held[s]]);
            assert(c[s] == held[s]);
            assert forall|m: int| 0 <= m < item_contents(e[s]).len() implies
                tree.contents().contains(#[trigger] item_contents(e[s])[m]) && item_contents(e[s])[m] < n by {
                assert(item_contents(e[s])[m] == c[s]);
            }
        } else if s < pr.len() + br.len() {
            assert(e[s] == br[s - pr.len()]);
            let r = node.right->Some_0;
            assert(item_contents(e[s]) == rc);
            assert forall|m: int| 0 <= m < item_contents(e[s]).len() implies
                tree.contents().contains(#[trigger] item_contents(e[s])[m]) && item_contents(e[s])[m] < n by {
                assert(c[held.len() + lc.len() + m] == rc[m]);
            }
        } else {
            assert(e[s] == bl[s - pr.len() - br.len()]);
            assert(item_contents(e[s]) == lc);
            assert forall|m: int| 0 <= m < item_contents(e[s]).len() implies
                tree.contents().contains(#[trigger] item_contents(e[s])[m]) && item_contents(e[s])[m] < n by {
                assert(c[held.len() + m] == lc[m]);
            }
        }
    }
    if subtrees_conservative(*node, probe_box, probe_primitive, primitives, epsilon) {
        assert forall|s: int| 0 <= s < e.len() implies
            #[trigger] item_conservative(e[s], probe_box, probe_primitive, primitives, epsilon) by {
            if s < pr.len() {
                assert(e[s] == pr[s]);
            } else if s < pr.len() + br.len() {
                assert(e[s] == br[s - pr.len()]);
            } else {
                assert(e[s] == bl[s - pr.len() - br.len()]);
            }
        }
    }
    // the node's primitives are covered
    assert forall|i: int| c.contains(i as usize) implies covered(e, i) by {
        let q = choose|q: int| 0 <= q < c.len() && c[q] == i as usize;
        if q < held.len() {
            assert(c[q] == held[q]);
            assert(e[q] == pr[q]);
            assert(item_contents(e[q]) == seq![held[q]]);
            assert(item_contents(e[q])[0] == i as usize);
            assert(item_contents(e[q]).contains(i as usize));
        } else if q < held.len() + lc.len() {
            assert(c[q] == lc[q - held.len()]);
            let s = (pr.len() + br.len()) as int;
            assert(e[s] == bl[0]);
            assert(item_contents(e[s]) == lc);
            assert(item_contents(e[s])[q - held.len()] == i as usize);
            assert(item_contents(e[s]).contains(i as usize));
        } else {
            assert(c[q] == rc[q - held.len() - lc.len()]);
            let s = pr.len() as int;
            assert(e[s] == br[0]);
            assert(item_contents(e[s]) == rc);
            assert(item_contents(e[s])[q - held.len() - lc.len()] == i as usize);
            assert(item_contents(e[s]).contains(i as usize));
        }
    }
}

proof fn lemma_pop_cover<'a, B>(before: Seq<Resolvable<'a, B>>)
    requires
        before.len() > 0,
    ensures
        forall|i: int| covered(before, i) ==> covered(before.drop_last(), i)
            || item_contents(before.last()).contains(i as usize),
{
    assert forall|i: int| covered(before, i) implies covered(before.drop_last(), i)
        || item_contents(before.last()).contains(i as usize) by {
        let s = choose|s: int| 0 <= s < before.len() && #[trigger] item_contents(before[s]).contains(i as usize);
        if s < before.len() - 1 {
            assert(before.drop_last()[s] == before[s]);
        }
    }
}

/// The primitive of the tree that the ray meets first beyond `epsilon` and
/// nearer than `horizon`, with the point where it meets it, or `None`.
///
/// Whatever the probes answer, a returned primitive is one of the tree's,
/// hit at the returned point beyond `epsilon` and nearer than `horizon`.
/// Under `searchable` (the primitive probe answers the same for the same
/// primitive, every box below the root is met no further away than the
/// primitives inside it, and the root's box does too or is met nearer than
/// `horizon`), no primitive of the tree is hit nearer than the returned one,
/// and `None` means no primitive is hit beyond `epsilon` nearer than
/// `horizon`. Among equally near primitives it returns the first one in
/// `visit_order`. On a tree that is a single leaf whose box is met nearer
/// than `horizon`, the first condition alone thus gives the nearest hit.
#[verifier::rlimit(60)]
pub fn resolve<'a, B, P, Pt, FB, FP>(
    bvh: &'a BVH<B, P>,
    probe_box: &FB,
    probe_primitive: &FP,
    epsilon: u32,
    horizon: u32,
) -> (r: Option<(Pt, usize)>)
    where
        FB: Fn(&B) -> Option<u32>,
        FP: Fn(&P) -> Option<(Pt, u32)>,
    requires
        forall|b: &B| #[trigger] probe_box.requires((b,)),
        forall|p: &P| #[trigger] probe_primitive.requires((p,)),
        all_below(bvh.tree.contents(), bvh.primitives.len() as nat),
    ensures
        match r {
            Some((pt, j)) => {
                &&& j < bvh.primitives.len()
                &&& bvh.tree.contents().contains(j)
                &&& exists|k: u32| #[trigger] probe_primitive.ensures((&bvh.primitives[j as int],), Some((pt, k)))
                    && epsilon < k < horizon
                    && (searchable(bvh.tree, probe_box, probe_primitive, bvh.primitives@, epsilon, horizon)
                        ==> (forall|i: int, a: Option<(Pt, u32)>|
                            #[trigger] candidate(bvh.tree, probe_primitive, bvh.primitives@, epsilon, i, a)
                            ==> hit_key(a) >= k)
                        && exists|q: int| 0 <= q < visit_order(bvh.tree).len() && visit_order(bvh.tree)[q] == j
                            && #[trigger] first_at(visit_order(bvh.tree), probe_primitive, bvh.primitives@, epsilon, q, k))
            },
            None => searchable(bvh.tree, probe_box, probe_primitive, bvh.primitives@, epsilon, horizon)
                ==> forall|i: int, a: Option<(Pt, u32)>|
                    #[trigger] candidate(bvh.tree, probe_primitive, bvh.primitives@, epsilon, i, a)
                    ==> hit_key(a) >= horizon,
        },
{
    let ghost tree = bvh.tree;
    let ghost prims = bvh.primitives@;
    let ghost n = bvh.primitives.len() as nat;
    let ghost hyp = searchable(tree, probe_box, probe_primitive, prims, epsilon, horizon);
    let ghost vis = visit_order(tree);
    let ghost mut pos: int = 0;
    let ghost mut best: int = -1;
    let mut stack: Vec<Resolvable<'a, B>> = Vec::new();
    stack.push(Resolvable::Branch(&bvh.tree));
    let mut closest: Option<(Pt, usize)> = None;
    let mut min_t: u32 = horizon;
    proof {
        assert forall|i: int, a: Option<(Pt, u32)>|
            #[trigger] candidate(tree, probe_primitive, prims, epsilon, i, a)
            implies hit_key(a) >= min_t || covered(stack@, i) by {
            assert(item_contents(stack@[0]).contains(i as usize));
        }
        assert forall|s: int| 0 <= s < stack.len() implies #[trigger] item_in_tree(stack@[s], tree, n) by {
            assert(item_contents(stack@[s]) == tree.contents());
            assert forall|m: int| 0 <= m < item_contents(stack@[s]).len() implies
                tree.contents().contains(#[trigger] item_contents(stack@[s])[m]) && item_contents(stack@[s])[m] < n by {
                assert(tree.contents()[m] == item_contents(stack@[s])[m]);
            }
        }
        if hyp {
            assert(item_safe(stack@[0], probe_box, probe_primitive, prims, epsilon, horizon, min_t, 1));
        }
        assert(stack@.drop_last() =~= Seq::<Resolvable<'a, B>>::empty());
        assert(stack_visit(Seq::<Resolvable<'a, B>>::empty()) == Seq::<usize>::empty());
        assert(item_visit(stack@.last()) == vis);
        assert(stack_visit(stack@) =~= vis.skip(0));
    }
    while stack.len() > 0
        invariant
            forall|b: &B| #[trigger] probe_box.requires((b,)),
            forall|p: &P| #[trigger] probe_primitive.requires((p,)),
            tree == bvh.tree,
            prims == bvh.primitives@,
            n == bvh.primitives.len(),
            hyp == searchable(tree, probe_box, probe_primitive, prims, epsilon, horizon),
            forall|s: int| 0 <= s < stack.len() ==> #[trigger] item_in_tree(stack@[s], tree, n),
            hyp ==> forall|s: int| 0 <= s < stack.len()
                ==> #[trigger] item_safe(stack@[s], probe_box, probe_primitive, prims, epsilon, horizon, min_t, stack.len() as int),
            match closest {
                Some((pt, j)) => {
                    &&& j < n
                    &&& tree.contents().contains(j)
                    &&& probe_primitive.ensures((&prims[j as int],), Some((pt, min_t)))
                    &&& epsilon < min_t < horizon
                },
                None => min_t == horizon,
            },
            hyp ==> forall|i: int, a: Option<(Pt, u32)>|
                #[trigger] candidate(tree, probe_primitive, prims, epsilon, i, a)
                ==> hit_key(a) >= min_t || covered(stack@, i),
            vis == visit_order(tree),
            0 <= pos <= vis.len(),
            stack_visit(stack@) == vis.skip(pos),
            match closest {
                Some((pt, j)) => 0 <= best < pos && vis[best] == j,
                None => best == -1,
            },
            hyp ==> forall|q: int, a: Option<(Pt, u32)>|
                #[trigger] hit_at(vis, probe_primitive, prims, epsilon, q, a) && q < pos
                ==> hit_key(a) >= min_t && (q < best ==> hit_key(a) > min_t),
        decreases stack_size(stack@),
    {
        let ghost before = stack@;
        let popped = stack.pop();
        let item = match popped {
            Some(it) => it,
            None => {
                return closest;
            },
        };
        let ghost s1 = stack@;
        let ghost old_min = min_t;
        let ghost old_pos = pos;
        let ghost old_best = best;
        proof {
            assert(stack_visit(before) == item_visit(item) + stack_visit(s1));
            assert(vis.skip(pos) == item_visit(item) + stack_visit(s1));
            assert(s1 =~= before.drop_last());
            assert(item == before.last());
            assert(stack_size(before) == stack_size(s1) + item_size(item));
            assert(item_in_tree(before[before.len() - 1], tree, n));
            if hyp {
                assert(item_safe(before[before.len() - 1], probe_box, probe_primitive, prims, epsilon, horizon, min_t, before.len() as int));
                assert forall|s: int| 0 <= s < s1.len() implies
                    #[trigger] item_conservative(s1[s], probe_box, probe_primitive, prims, epsilon) by {
                    assert(s1[s] == before[s]);
                    assert(item_safe(before[s], probe_box, probe_primitive, prims, epsilon, horizon, min_t, before.len() as int));
                }
            }
            lemma_pop_cover(before);
        }
        match item {
            Resolvable::Branch(node) => {
                let answer = probe_box(&node.data.box3d);
                let mut went_in = false;
                match answer {
                    None => {},
                    Some(t) => {
                        if t < min_t {
                            went_in = true;
                            match &node.data.primitives {
                                Some(list) => {
                                    let mut i: usize = 0;
                                    #[verifier::loop_isolation(false)]
                                    while i < list.len()
                                        invariant
                                            i <= list.len(),
                                            stack@ == s1 + prim_items(list@.take(i as int)),
                                        decreases list.len() - i,
                                    {
                                        proof {
                                            assert(list@.take(i + 1) =~= list@.take(i as int).push(list[i as int]));
                                            assert(prim_items::<'a, B>(list@.take(i + 1))
                                                =~= prim_items::<'a, B>(list@.take(i as int)).push(Resolvable::Primitive(list[i as int])));
                                        }
                                        stack.push(Resolvable::Primitive(list[i]));
                                        i = i + 1;
                                    }
                                    proof {
                                        assert(list@.take(list.len() as int) =~= node.data.held());
                                    }
                                },
                                None => {
                                    proof {
                                        assert(stack@ =~= s1 + prim_items(node.data.held()));
                                    }
                                },
                            }
                            match &node.right {
                                Some(b) => {
                                    stack.push(Resolvable::Branch(&**b));
                                },
                                None => {},
                            }
                            proof {
                                assert(stack@ =~= s1 + (prim_items(node.data.held()) + branch_item(&node.right)));
                            }
                            match &node.left {
                                Some(b) => {
                                    stack.push(Resolvable::Branch(&**b));
                                },
                                None => {},
                            }
                            proof {
                                assert(stack@ =~= s1 + expand(node));
                            }
                        }
                    },
                }
                proof {
                    if went_in {
                        lemma_expand_visit(node);
                        lemma_stack_visit_append(s1, expand(node));
                        assert(stack_visit(stack@) == vis.skip(pos));
                        lemma_expand(node, tree, n, probe_box, probe_primitive, prims, epsilon);
                        lemma_stack_size_append(s1, expand(node));
                        let e = expand(node);
                        assert forall|s: int| 0 <= s < stack.len() implies #[trigger] item_in_tree(stack@[s], tree, n) by {
                            if s < s1.len() {
                                assert(stack@[s] == s1[s]);
                                assert(s1[s] == before[s]);
                            } else {
                                assert(stack@[s] == e[s - s1.len()]);
                            }
                        }
                        if hyp {
                            assert(subtrees_conservative(*node, probe_box, probe_primitive, prims, epsilon));
                            assert forall|s: int| 0 <= s < stack.len() implies
                                #[trigger] item_safe(stack@[s], probe_box, probe_primitive, prims, epsilon, horizon, min_t, stack.len() as int) by {
                                if s < s1.len() {
                                    assert(stack@[s] == s1[s]);
                                    assert(item_conservative(s1[s], probe_box, probe_primitive, prims, epsilon));
                                } else {
                                    assert(stack@[s] == e[s - s1.len()]);
                                    assert(item_conservative(e[s - s1.len()], probe_box, probe_primitive, prims, epsilon));
                                }
                            }
                            assert forall|i: int, a: Option<(Pt, u32)>|
                                #[trigger] candidate(tree, probe_primitive, prims, epsilon, i, a)
                                implies hit_key(a) >= min_t || covered(stack@, i) by {
                                if hit_key(a) < min_t {
                                    if covered(s1, i) {
                                        lemma_covered_append(s1, e, i);
                                    } else {
                                        assert(node.contents().contains(i as usize));
                                        lemma_covered_append(s1, e, i);
                                    }
                                }
                            }
                        }
                    } else {
                        assert(stack@ == s1);
                        let len = visit_order(*node).len() as int;
                        pos = pos + len;
                        assert(vis.skip(old_pos) == visit_order(*node) + stack_visit(s1));
                        lemma_skip_concat(vis, old_pos, visit_order(*node), stack_visit(s1));
                        assert forall|s: int| 0 <= s < stack.len() implies #[trigger] item_in_tree(stack@[s], tree, n) by {
                            assert(s1[s] == before[s]);
                        }
                        if hyp {
                            assert forall|s: int| 0 <= s < stack.len() implies
                                #[trigger] item_safe(stack@[s], probe_box, probe_primitive, prims, epsilon, horizon, min_t, stack.len() as int) by {
                                assert(item_conservative(s1[s], probe_box, probe_primitive, prims, epsilon));
                            }
                            if !item_conservative(item, probe_box, probe_primitive, prims, epsilon) {
                                assert(entered(*node, probe_box, horizon));
                                assert(probe_box.ensures((&node.data.box3d,), answer));
                            }
                            assert(conservative(*node, probe_box, probe_primitive, prims, epsilon));
                            assert(bounds_node(*node, probe_box, probe_primitive, prims, epsilon));
                            assert forall|i: int, a: Option<(Pt, u32)>|
                                #[trigger] candidate(tree, probe_primitive, prims, epsilon, i, a)
                                implies hit_key(a) >= min_t || covered(stack@, i) by {
                                if hit_key(a) < min_t && !covered(s1, i) {
                                    assert(item_contents(item).contains(i as usize));
                                    let c = node.contents();
                                    let q = choose|q: int| 0 <= q < c.len() && c[q] == i as usize;
                                    assert(probe_primitive.ensures((&prims[c[q] as int],), a));
                                    assert(probe_box.ensures((&node.data.box3d,), answer));
                                }
                            }
                            lemma_visit_in_contents(*node);
                            assert forall|q: int, a: Option<(Pt, u32)>|
                                #[trigger] hit_at(vis, probe_primitive, prims, epsilon, q, a) && q < pos
                                implies hit_key(a) >= min_t && (q < best ==> hit_key(a) > min_t) by {
                                if q >= old_pos {
                                    let m = q - old_pos;
                                    assert(vis[old_pos + m] == visit_order(*node)[m]);
                                    let c = node.contents();
                                    assert(c.contains(visit_order(*node)[m]));
                                    let k = choose|k: int| 0 <= k < c.len() && c[k] == vis[q];
                                    assert(probe_primitive.ensures((&prims[c[k] as int],), a));
                                    assert(probe_box.ensures((&node.data.box3d,), answer));
                                }
                            }
                        }
                    }
                }
            },
            Resolvable::Primitive(j) => {
                proof {
                    assert(item_contents(item)[0] == j);
                }
                let answer = probe_primitive(&bvh.primitives[j]);
                let ghost ans = answer;
                match answer {
                    None => {},
                    Some((pt, t)) => {
                        if t < min_t && t > epsilon {
                            min_t = t;
                            closest = Some((pt, j));
                            proof {
                                best = old_pos;
                            }
                        }
                    },
                }
                proof {
                    assert(stack@ == s1);
                    pos = pos + 1;
                    assert(vis.skip(old_pos) == seq![j] + stack_visit(s1));
                    lemma_skip_concat(vis, old_pos, seq![j], stack_visit(s1));
                    assert(vis[old_pos] == seq![j][0]);
                    assert forall|s: int| 0 <= s < stack.len() implies #[trigger] item_in_tree(stack@[s], tree, n) by {
                        assert(s1[s] == before[s]);
                    }
                    if hyp {
                        assert forall|q: int, a: Option<(Pt, u32)>|
                            #[trigger] hit_at(vis, probe_primitive, prims, epsilon, q, a) && q < pos
                            implies hit_key(a) >= min_t && (q < best ==> hit_key(a) > min_t) by {
                            if q == old_pos {
                                assert(probe_primitive.ensures((&prims[j as int],), ans));
                                assert(a == ans);
                            } else {
                                assert(hit_key(a) >= old_min && (q < old_best ==> hit_key(a) > old_min));
                            }
                        }
                        assert forall|s: int| 0 <= s < stack.len() implies
                            #[trigger] item_safe(stack@[s], probe_box, probe_primitive, prims, epsilon, horizon, min_t, stack.len() as int) by {
                            assert(item_conservative(s1[s], probe_box, probe_primitive, prims, epsilon));
                        }
                        assert forall|i: int, a: Option<(Pt, u32)>|
                            #[trigger] candidate(tree, probe_primitive, prims, epsilon, i, a)
                            implies hit_key(a) >= min_t || covered(stack@, i) by {
                            if hit_key(a) < min_t && !covered(s1, i) {
                                assert(hit_key(a) < old_min);
                                assert(item_contents(item).contains(i as usize));
                                assert(i == j);
                                assert(probe_primitive.ensures((&prims[j as int],), ans));
                                assert(a == ans);
                            }
                        }
                    }
                }
            },
        }
    }
    proof {
        assert(stack_visit(stack@) == Seq::<usize>::empty());
        assert(vis.skip(pos).len() == vis.len() - pos);
        if hyp && closest is Some {
            assert(first_at(vis, probe_primitive, prims, epsilon, best, min_t));
        }
    }
    closest
}

} // verus!
