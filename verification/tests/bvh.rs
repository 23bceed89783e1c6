use raytrace::bvh::{TreeBranch, BV, BVH, LEAF_THRESHOLD};

type Span = (f32, f32);

fn halve(b: &Span) -> (Span, Span) {
    let c = (b.0 + b.1) / 2.0;
    ((c, b.1), (b.0, c))
}

fn upper(b: &Span, p: &f32) -> bool {
    *p >= (b.0 + b.1) / 2.0
}

fn leaves(t: &TreeBranch<Span>, out: &mut Vec<Vec<usize>>) {
    match (&t.left, &t.right) {
        (Some(l), Some(r)) => {
            assert!(t.data.primitives.is_none());
            leaves(l, out);
            leaves(r, out);
        }
        (None, None) => out.push(t.data.primitives.clone().unwrap_or_default()),
        _ => panic!("node with a single subtree"),
    }
}

fn depth(t: &TreeBranch<Span>) -> usize {
    match (&t.left, &t.right) {
        (Some(l), Some(r)) => 1 + depth(l).max(depth(r)),
        _ => 0,
    }
}

#[test]
fn bv_new_is_empty() {
    let bv = BV::new((0.0f32, 1.0f32));
    assert_eq!(bv.box3d, (0.0, 1.0));
    assert!(bv.primitives.is_none());
}

#[test]
fn build_section_splits_at_the_middle_keeping_order() {
    let prims = vec![0.1f32, 0.9, 0.4, 0.6, 0.5];
    let section = BV { box3d: (0.0f32, 1.0f32), primitives: Some(vec![4, 0, 1, 2, 3]) };
    let (bv1, bv2) = BVH::<Span, f32>::build_section(&section, &prims, &halve, &upper);
    assert_eq!(bv1.box3d, (0.5, 1.0));
    assert_eq!(bv2.box3d, (0.0, 0.5));
    assert_eq!(bv1.primitives, Some(vec![4, 1, 3]));
    assert_eq!(bv2.primitives, Some(vec![0, 2]));
}

#[test]
fn build_section_without_primitives() {
    let prims: Vec<f32> = vec![];
    let section = BV { box3d: (2.0f32, 4.0f32), primitives: None };
    let (bv1, bv2) = BVH::<Span, f32>::build_section(&section, &prims, &halve, &upper);
    assert_eq!(bv1.box3d, (3.0, 4.0));
    assert_eq!(bv2.box3d, (2.0, 3.0));
    assert!(bv1.primitives.is_none() && bv2.primitives.is_none());
}

#[test]
fn small_scene_stays_a_single_leaf() {
    let prims = vec![0.1f32, 0.2, 0.3, 0.8, 0.9];
    let mut bvh = BVH::new(TreeBranch::new(BV::new((0.0f32, 1.0f32))), prims);
    bvh.build((0.0, 1.0), &halve, &upper);
    assert!(bvh.tree.left.is_none() && bvh.tree.right.is_none());
    assert_eq!(bvh.tree.data.primitives, Some(vec![0, 1, 2, 3, 4]));
    assert_eq!(LEAF_THRESHOLD, 5);
}

#[test]
fn build_puts_every_primitive_in_exactly_one_leaf() {
    let prims: Vec<f32> = (0..40).map(|i| (i as f32 * 0.37) % 10.0).collect();
    let mut bvh = BVH::new(TreeBranch::new(BV::new((0.0f32, 1.0f32))), prims.clone());
    bvh.build((0.0, 10.0), &halve, &upper);
    let mut ls = Vec::new();
    leaves(&bvh.tree, &mut ls);
    let mut all: Vec<usize> = ls.iter().flatten().copied().collect();
    all.sort();
    assert_eq!(all, (0..40).collect::<Vec<usize>>());
    for leaf in &ls {
        assert!(leaf.len() <= LEAF_THRESHOLD);
    }
    assert!(depth(&bvh.tree) >= 3);
    assert_eq!(bvh.tree.data.box3d, (0.0, 10.0));
    assert_eq!(bvh.primitives, prims);
}

#[test]
fn unsplittable_leaf_is_kept_whole() {
    // seven primitives at the same spot: every cut puts them on one side
    let prims = vec![0.7f32; 7];
    let mut bvh = BVH::new(TreeBranch::new(BV::new((0.0f32, 1.0f32))), prims);
    bvh.build((0.0, 1.0), &halve, &upper);
    assert!(bvh.tree.left.is_none() && bvh.tree.right.is_none());
    assert_eq!(bvh.tree.data.primitives, Some(vec![0, 1, 2, 3, 4, 5, 6]));
}

#[test]
fn left_subtree_gets_the_lower_half() {
    let prims = vec![0.1f32, 0.2, 0.3, 0.6, 0.7, 0.8, 0.9];
    let mut bvh = BVH::new(TreeBranch::new(BV::new((0.0f32, 1.0f32))), prims);
    bvh.build((0.0, 1.0), &halve, &upper);
    let l = bvh.tree.left.as_ref().unwrap();
    let r = bvh.tree.right.as_ref().unwrap();
    assert_eq!(l.data.box3d, (0.0, 0.5));
    assert_eq!(r.data.box3d, (0.5, 1.0));
    assert_eq!(l.data.primitives, Some(vec![0, 1, 2]));
    assert_eq!(r.data.primitives, Some(vec![3, 4, 5, 6]));
    assert!(bvh.tree.data.primitives.is_none());
}

#[test]
fn empty_scene_is_a_leaf_with_an_empty_list() {
    let prims: Vec<f32> = vec![];
    let mut bvh = BVH::new(TreeBranch::new(BV::new((5.0f32, 6.0f32))), prims);
    bvh.build((0.0, 1.0), &halve, &upper);
    assert_eq!(bvh.tree.data.box3d, (0.0, 1.0));
    assert_eq!(bvh.tree.data.primitives, Some(vec![]));
    assert!(bvh.tree.left.is_none() && bvh.tree.right.is_none());
    assert!(bvh.primitives.is_empty());
}

fn same(t1: &TreeBranch<Span>, t2: &TreeBranch<Span>) -> bool {
    t1.data.box3d == t2.data.box3d
        && t1.data.primitives == t2.data.primitives
        && match ((&t1.left, &t1.right), (&t2.left, &t2.right)) {
            ((Some(l1), Some(r1)), (Some(l2), Some(r2))) => same(l1, l2) && same(r1, r2),
            ((None, None), (None, None)) => true,
            _ => false,
        }
}

#[test]
fn building_twice_gives_the_same_tree() {
    let prims: Vec<f32> = (0..25).map(|i| (i as f32 * 0.61) % 7.0).collect();
    let mut bvh = BVH::new(TreeBranch::new(BV::new((0.0f32, 1.0f32))), prims.clone());
    bvh.build((0.0, 7.0), &halve, &upper);
    let mut again = BVH::new(TreeBranch::new(BV::new((9.0f32, 9.0f32))), prims.clone());
    again.build((0.0, 7.0), &halve, &upper);
    assert!(same(&bvh.tree, &again.tree));
    bvh.build((0.0, 7.0), &halve, &upper);
    assert!(same(&bvh.tree, &again.tree));
    assert_eq!(bvh.primitives, prims);
}

#[test]
fn leaves_keep_the_order_of_the_primitive_list() {
    let prims = vec![0.9f32, 0.1, 0.8, 0.2, 0.7, 0.3, 0.6, 0.4];
    let mut bvh = BVH::new(TreeBranch::new(BV::new((0.0f32, 1.0f32))), prims);
    bvh.build((0.0, 1.0), &halve, &upper);
    let l = bvh.tree.left.as_ref().unwrap();
    let r = bvh.tree.right.as_ref().unwrap();
    assert_eq!(l.data.primitives, Some(vec![1, 3, 5, 7]));
    assert_eq!(r.data.primitives, Some(vec![0, 2, 4, 6]));
}
