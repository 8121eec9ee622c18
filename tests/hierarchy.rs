use rand::rngs::StdRng;
use rand::SeedableRng;
use raytracer::bvh::{BoxKeys, BvhChild, BvhNode};
use raytracer::hittable_list::HittableList;
use std::collections::BTreeSet;

/// A surface seen along one ray: it is crossed at `near` and `far`, like a
/// sphere's two roots.
#[derive(Clone, Copy, Debug)]
struct Span {
    near: f64,
    far: f64,
    id: usize,
}

/// Hit of a span within `[t_min, t_max]`: the near crossing, else the far one.
fn probe(s: &Span, t_min: f64, t_max: f64) -> Option<(f64, usize)> {
    if s.near >= t_min && s.near <= t_max {
        Some((s.near, s.id))
    } else if s.far >= t_min && s.far <= t_max {
        Some((s.far, s.id))
    } else {
        None
    }
}

fn bound(best: &Option<(f64, usize)>, t_max: f64) -> f64 {
    best.map_or(t_max, |b| b.0)
}

fn keys_of(spans: &[Span]) -> Vec<BoxKeys> {
    spans
        .iter()
        .map(|s| BoxKeys::from_corner(s.near.to_bits(), 0, 0).unwrap())
        .collect()
}

fn leaves(tree: &BvhNode, c: BvhChild, out: &mut BTreeSet<usize>) {
    match c {
        BvhChild::Surface(s) => {
            out.insert(s);
        }
        BvhChild::Branch(k) => {
            assert!(k < tree.branches.len());
            leaves(tree, tree.branches[k].left, out);
            leaves(tree, tree.branches[k].right, out);
        }
    }
}

fn scene() -> Vec<Span> {
    let raw = [
        (5.0, 6.0),
        (1.5, 9.0),
        (3.0, 3.5),
        (-2.0, 2.0),
        (7.25, 8.0),
        (0.75, 1.25),
        (4.0, 12.0),
        (10.0, 11.0),
        (-5.0, -4.0),
    ];
    raw.iter()
        .enumerate()
        .map(|(id, &(near, far))| Span { near, far, id })
        .collect()
}

fn list_hit(list: &HittableList<Span>, t_min: f64, t_max: f64) -> Option<(f64, usize)> {
    let p = |s: &Span, best: &Option<(f64, usize)>| probe(s, t_min, bound(best, t_max));
    list.hit(&p)
}

fn tree_hit(
    tree: &BvhNode,
    boxes: &[(f64, f64)],
    spans: &[Span],
    t_min: f64,
    t_max: f64,
) -> Option<(f64, usize)> {
    let box_hit = |j: usize, best: &Option<(f64, usize)>| {
        let (lo, hi) = boxes[j];
        lo.max(t_min) <= hi.min(bound(best, t_max))
    };
    let surface_hit =
        |s: usize, best: &Option<(f64, usize)>| probe(&spans[s], t_min, bound(best, t_max));
    tree.hit(&box_hit, &surface_hit)
}

fn span_boxes(tree: &BvhNode, spans: &[Span]) -> Vec<(f64, f64)> {
    let surface_box = |s: usize| Some((spans[s].near, spans[s].far));
    let merge = |a: &(f64, f64), b: &(f64, f64)| (a.0.min(b.0), a.1.max(b.1));
    tree.bounding_boxes(&surface_box, &merge, (0.0, 0.0))
}

#[test]
fn hierarchy_holds_every_surface_once() {
    let spans = scene();
    let keys = keys_of(&spans);
    for seed in 0..20u64 {
        let mut rng = StdRng::seed_from_u64(seed);
        let tree = BvhNode::from_list(&keys, &mut rng);
        let mut all = BTreeSet::new();
        let root = tree.branches.len() - 1;
        leaves(&tree, BvhChild::Branch(root), &mut all);
        assert_eq!(all, (0..spans.len()).collect::<BTreeSet<usize>>());
    }
}

#[test]
fn branches_are_split_in_key_order() {
    let spans = scene();
    let keys = keys_of(&spans);
    let mut rng = StdRng::seed_from_u64(7);
    let tree = BvhNode::from_list(&keys, &mut rng);
    for (j, b) in tree.branches.iter().enumerate() {
        assert!(b.axis < 3);
        let mut l = BTreeSet::new();
        let mut r = BTreeSet::new();
        leaves(&tree, b.left, &mut l);
        leaves(&tree, b.right, &mut r);
        for &x in &l {
            for &y in &r {
                assert!(keys[x].on(b.axis) <= keys[y].on(b.axis), "branch {j}");
            }
        }
        if let BvhChild::Branch(k) = b.left {
            assert!(k < j);
        }
        if let BvhChild::Branch(k) = b.right {
            assert!(k < j);
        }
    }
}

#[test]
fn single_surface_fills_both_sides() {
    let keys = vec![BoxKeys::unbounded()];
    let mut rng = StdRng::seed_from_u64(1);
    let tree = BvhNode::from_list(&keys, &mut rng);
    assert_eq!(tree.branches.len(), 1);
    assert_eq!(tree.branches[0].left, BvhChild::Surface(0));
    assert_eq!(tree.branches[0].right, BvhChild::Surface(0));
}

#[test]
fn two_surfaces_are_ordered_without_recursion() {
    // on every axis surface 1 has the smaller key
    let keys = vec![
        BoxKeys::from_corner(5.0f64.to_bits(), 5.0f64.to_bits(), 5.0f64.to_bits()).unwrap(),
        BoxKeys::from_corner((-1.0f64).to_bits(), 0, 2.0f64.to_bits()).unwrap(),
    ];
    let mut rng = StdRng::seed_from_u64(3);
    let tree = BvhNode::from_list(&keys, &mut rng);
    assert_eq!(tree.branches.len(), 1);
    assert_eq!(tree.branches[0].left, BvhChild::Surface(1));
    assert_eq!(tree.branches[0].right, BvhChild::Surface(0));
}

#[test]
fn equal_keys_keep_the_second_first_in_a_pair() {
    let keys = vec![BoxKeys::unbounded(), BoxKeys::unbounded()];
    let mut rng = StdRng::seed_from_u64(3);
    let tree = BvhNode::from_list(&keys, &mut rng);
    assert_eq!(tree.branches[0].left, BvhChild::Surface(1));
    assert_eq!(tree.branches[0].right, BvhChild::Surface(0));
}

#[test]
fn build_over_a_subrange() {
    let spans = scene();
    let keys = keys_of(&spans);
    let mut rng = StdRng::seed_from_u64(11);
    let tree = BvhNode::from(&keys, 2, 6, &mut rng);
    let mut all = BTreeSet::new();
    leaves(&tree, BvhChild::Branch(tree.branches.len() - 1), &mut all);
    assert_eq!(all, (2..6).collect::<BTreeSet<usize>>());
}

#[test]
fn same_seed_same_tree() {
    let spans = scene();
    let keys = keys_of(&spans);
    let a = BvhNode::from_list(&keys, &mut StdRng::seed_from_u64(42));
    let b = BvhNode::from_list(&keys, &mut StdRng::seed_from_u64(42));
    assert_eq!(format!("{:?}", a), format!("{:?}", b));
}

#[test]
fn branch_boxes_enclose_their_members() {
    let spans = scene();
    let keys = keys_of(&spans);
    let tree = BvhNode::from_list(&keys, &mut StdRng::seed_from_u64(5));
    let boxes = span_boxes(&tree, &spans);
    assert_eq!(boxes.len(), tree.branches.len());
    for j in 0..boxes.len() {
        let mut m = BTreeSet::new();
        leaves(&tree, BvhChild::Branch(j), &mut m);
        let lo = m.iter().map(|&s| spans[s].near).fold(f64::INFINITY, f64::min);
        let hi = m.iter().map(|&s| spans[s].far).fold(f64::NEG_INFINITY, f64::max);
        assert_eq!(boxes[j], (lo, hi));
    }
    // the root box spans everything
    assert_eq!(boxes[boxes.len() - 1], (-5.0, 12.0));
}

#[test]
fn missing_surface_box_counts_as_empty() {
    let keys = vec![BoxKeys::unbounded()];
    let tree = BvhNode::from_list(&keys, &mut StdRng::seed_from_u64(0));
    let surface_box = |_: usize| None::<(i32, i32)>;
    let merge = |a: &(i32, i32), b: &(i32, i32)| (a.0.min(b.0), a.1.max(b.1));
    assert_eq!(tree.bounding_boxes(&surface_box, &merge, (-9, 9)), vec![(-9, 9)]);
}

#[test]
fn hierarchy_finds_the_list_nearest_hit() {
    let spans = scene();
    let keys = keys_of(&spans);
    let mut list = HittableList::new();
    for s in &spans {
        list.push(*s);
    }
    let windows = [
        (0.001, f64::INFINITY),
        (-10.0, f64::INFINITY),
        (1.0, 20.0),
        (3.2, 20.0),
        (5.5, 9.5),
        (8.5, 10.5),
        (11.5, 100.0),
        (13.0, 100.0),
        (0.8, 0.9),
    ];
    for seed in 0..25u64 {
        let tree = BvhNode::from_list(&keys, &mut StdRng::seed_from_u64(seed));
        let boxes = span_boxes(&tree, &spans);
        for &(t_min, t_max) in &windows {
            let expected = list_hit(&list, t_min, t_max);
            let found = tree_hit(&tree, &boxes, &spans, t_min, t_max);
            assert_eq!(found, expected, "seed {seed}, window {t_min}..{t_max}");
        }
    }
}

#[test]
fn nearest_hit_values() {
    let spans = scene();
    let mut list = HittableList::new();
    for s in &spans {
        list.push(*s);
    }
    assert_eq!(list_hit(&list, 0.001, f64::INFINITY), Some((0.75, 5)));
    assert_eq!(list_hit(&list, 3.2, 20.0), Some((3.5, 2)));
    assert_eq!(list_hit(&list, 13.0, 100.0), None);
    assert_eq!(list_hit(&list, -10.0, f64::INFINITY), Some((-5.0, 8)));
}

#[test]
fn nan_corner_has_no_keys() {
    assert!(BoxKeys::from_corner(f64::NAN.to_bits(), 0, 0).is_none());
    assert!(BoxKeys::from_corner(0, 0, (-f64::NAN).to_bits()).is_none());
    assert!(BoxKeys::from_corner(0, f64::INFINITY.to_bits(), 0).is_some());
}

#[test]
fn unbounded_keys_sort_as_the_origin() {
    let zero = BoxKeys::from_corner(0.0f64.to_bits(), (-0.0f64).to_bits(), 0).unwrap();
    let u = BoxKeys::unbounded();
    assert_eq!((u.x, u.y, u.z), (zero.x, zero.y, zero.z));
}

#[test]
fn branches_split_at_the_middle() {
    let spans = scene();
    let keys = keys_of(&spans);
    let tree = BvhNode::from_list(&keys, &mut StdRng::seed_from_u64(9));
    for j in 0..tree.branches.len() {
        let b = tree.branches[j];
        let mut all = BTreeSet::new();
        leaves(&tree, BvhChild::Branch(j), &mut all);
        let n = all.len();
        let mut l = BTreeSet::new();
        let mut r = BTreeSet::new();
        leaves(&tree, b.left, &mut l);
        leaves(&tree, b.right, &mut r);
        match n {
            1 => assert_eq!(b.left, b.right),
            2 => assert!(matches!((b.left, b.right), (BvhChild::Surface(x), BvhChild::Surface(y)) if x != y)),
            _ => {
                assert_eq!(l.len(), n / 2);
                assert_eq!(r.len(), n - n / 2);
                assert!(l.is_disjoint(&r));
            }
        }
    }
    // nine surfaces: 4 + 5 at the root
    let root = tree.branches[tree.branches.len() - 1];
    let mut l = BTreeSet::new();
    leaves(&tree, root.left, &mut l);
    assert_eq!(l.len(), 4);
}

#[test]
fn axes_are_drawn_from_all_three() {
    let spans = scene();
    let keys = keys_of(&spans);
    let mut seen = BTreeSet::new();
    for seed in 0..40u64 {
        let tree = BvhNode::from_list(&keys, &mut StdRng::seed_from_u64(seed));
        for b in &tree.branches {
            assert!(b.axis < 3);
            seen.insert(b.axis);
        }
    }
    assert_eq!(seen, [0usize, 1, 2].into_iter().collect::<BTreeSet<usize>>());
}
