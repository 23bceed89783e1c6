use raytrace::bvh::{TreeBranch, BV, BVH};
use raytrace::traverse::resolve;

type Span = (f32, f32);

fn halve(b: &Span) -> (Span, Span) {
    let c = (b.0 + b.1) / 2.0;
    ((c, b.1), (b.0, c))
}

// A primitive is a segment (lo, hi) on a line; the ray starts at `ORIGIN`
// and runs towards larger values.
const ORIGIN: f32 = 0.0;

fn key(t: f32) -> u32 {
    if t.is_nan() { 0 } else { t.to_bits() }
}

fn scene(segs: Vec<Span>) -> BVH<Span, Span> {
    let mut bvh = BVH::new(TreeBranch::new(BV::new((0.0f32, 100.0f32))), segs);
    bvh.build((0.0, 100.0), &halve, &|b: &Span, p: &Span| (p.0 + p.1) / 2.0 >= (b.0 + b.1) / 2.0);
    bvh
}

fn probe_box(b: &Span) -> Option<u32> {
    if b.1 < ORIGIN { None } else { Some(key((b.0 - ORIGIN).max(0.0))) }
}

fn probe_segment(p: &Span) -> Option<(f32, u32)> {
    if p.1 < ORIGIN { None } else {
        let hit = p.0.max(ORIGIN);
        Some((hit, key(hit - ORIGIN)))
    }
}

fn segments() -> Vec<Span> {
    (0..30).map(|i| {
        let lo = ((i * 37) % 97) as f32;
        (lo, lo + 0.5)
    }).collect()
}

#[test]
fn resolve_finds_the_nearest_primitive() {
    let segs = segments();
    let bvh = scene(segs.clone());
    let eps = key(0.001);
    let horizon = key(f32::INFINITY);
    let r = resolve(&bvh, &probe_box, &probe_segment, eps, horizon);
    // the segment starting at 0 is within epsilon; the next nearest starts at 1
    let expected = segs.iter().enumerate()
        .filter(|(_, s)| s.0 > 0.001)
        .min_by(|a, b| a.1.0.partial_cmp(&b.1.0).unwrap())
        .map(|(i, s)| (s.0, i))
        .unwrap();
    assert_eq!(r, Some(expected));
    assert_eq!(r.unwrap().0, 1.0);
}

#[test]
fn resolve_misses_when_nothing_is_hit() {
    let bvh = scene(segments());
    let r = resolve(&bvh, &|_b: &Span| None, &probe_segment, 0, u32::MAX);
    assert_eq!(r, None);
}

#[test]
fn resolve_ignores_hits_beyond_the_horizon() {
    let bvh = scene(segments());
    let r = resolve(&bvh, &probe_box, &probe_segment, key(0.001), key(0.9));
    assert_eq!(r, None);
}

#[test]
fn resolve_on_a_single_leaf() {
    let bvh = scene(vec![(5.0, 6.0), (2.0, 3.0), (9.0, 9.5)]);
    let r = resolve(&bvh, &probe_box, &probe_segment, key(0.001), key(f32::INFINITY));
    assert_eq!(r, Some((2.0, 1)));
}

#[test]
fn resolve_on_a_single_leaf_entered_from_inside() {
    // The ray starts inside the leaf's box, whose probe gives the far exit
    // distance; the nearest primitive is still found.
    let bvh = scene(vec![(5.0, 6.0), (2.0, 3.0), (9.0, 9.5)]);
    let r = resolve(&bvh, &|_b: &Span| Some(500), &|p: &Span| Some((p.0, p.0 as u32)), 1, 1000);
    assert_eq!(r, Some((2.0, 1)));
}

#[test]
fn resolve_breaks_ties_by_visiting_order() {
    // A single leaf is visited from its last primitive to its first: of two
    // equally near segments the later one in the list is returned.
    let bvh = scene(vec![(2.0, 3.0), (2.0, 2.5), (7.0, 8.0)]);
    let r = resolve(&bvh, &probe_box, &probe_segment, key(0.001), key(f32::INFINITY));
    assert_eq!(r, Some((2.0, 1)));
}
