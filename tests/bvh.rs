use raytracer::bvh::{closest_hit, scene_bounds, Node, BVH};

// A one-dimensional scene: primitive `i` is struck at distance `dist[i]` and
// spans `[lo[i], hi[i]]` along the ray. A ray from 0 toward +x strikes the
// nearest primitive whose distance is no farther than the closest hit so far.
struct Line {
    dist: Vec<i64>,
    lo: Vec<i64>,
    hi: Vec<i64>,
}

impl Line {
    fn new(dist: &[i64]) -> Line {
        Line {
            dist: dist.to_vec(),
            lo: dist.to_vec(),
            hi: dist.iter().map(|d| d + 1).collect(),
        }
    }

    fn limit(&self, best: Option<usize>) -> i64 {
        match best {
            Some(b) => self.dist[b],
            None => i64::MAX,
        }
    }

    // The interval searched is closed: a hit at the limit itself counts.
    fn object_hit(&self, o: usize, best: Option<usize>) -> bool {
        self.dist[o] <= self.limit(best)
    }

    // Box of a node: the span of the primitives under it.
    fn span(&self, bvh: &BVH, node: usize) -> (i64, i64) {
        match bvh.nodes[node] {
            Node::Leaf(o) => (self.lo[o], self.hi[o]),
            Node::Branch(l, r) => {
                let (a, b) = self.span(bvh, l);
                let (c, d) = self.span(bvh, r);
                (a.min(c), b.max(d))
            }
        }
    }

    fn bounds_hit(&self, bvh: &BVH, node: usize, best: Option<usize>) -> bool {
        let (lo, _) = self.span(bvh, node);
        lo <= self.limit(best)
    }
}

fn leaves(bvh: &BVH, node: usize, out: &mut Vec<usize>) {
    match bvh.nodes[node] {
        Node::Leaf(o) => out.push(o),
        Node::Branch(l, r) => {
            leaves(bvh, l, out);
            leaves(bvh, r, out);
        }
    }
}

#[test]
fn empty_hierarchy_has_no_nodes() {
    let bvh = BVH::new(0);
    assert_eq!(bvh.count, 0);
    assert!(bvh.nodes.is_empty());
    assert_eq!(bvh.hit(&|_, _| true, &|_, _| true), None);
}

#[test]
fn single_primitive_is_one_leaf() {
    let bvh = BVH::new(1);
    assert_eq!(bvh.nodes, vec![Node::Leaf(0)]);
    assert_eq!(bvh.hit(&|_, _| true, &|_, _| true), Some(0));
    assert_eq!(bvh.hit(&|_, _| true, &|_, _| false), None);
}

#[test]
fn hierarchy_lists_every_primitive_once_in_order() {
    for count in 1..40usize {
        let bvh = BVH::new(count);
        assert_eq!(bvh.nodes.len(), 2 * count - 1);
        let mut out = Vec::new();
        leaves(&bvh, bvh.nodes.len() - 1, &mut out);
        assert_eq!(out, (0..count).collect::<Vec<usize>>());
        for (i, n) in bvh.nodes.iter().enumerate() {
            if let Node::Branch(l, r) = *n {
                assert!(l < i && r < i);
            }
        }
    }
}

#[test]
fn three_primitives_split_in_halves() {
    let bvh = BVH::new(3);
    assert_eq!(
        bvh.nodes,
        vec![
            Node::Leaf(0),
            Node::Leaf(1),
            Node::Leaf(2),
            Node::Branch(1, 2),
            Node::Branch(0, 3),
        ]
    );
}

#[test]
fn linear_scan_finds_nearest() {
    let line = Line::new(&[5, 3, 7, 1, 9]);
    let r = closest_hit(5, &|o, best| line.object_hit(o, best));
    assert_eq!(r, Some(3));
}

#[test]
fn linear_scan_misses_when_nothing_struck() {
    let r = closest_hit(4, &|_, _| false);
    assert_eq!(r, None);
    assert_eq!(closest_hit(0, &|_, _| true), None);
}

#[test]
fn linear_scan_keeps_last_accepted() {
    // Every primitive accepts: the last one tested is the answer.
    assert_eq!(closest_hit(6, &|_, _| true), Some(5));
}

#[test]
fn hierarchy_matches_linear_scan() {
    let scenes: Vec<Vec<i64>> = vec![
        vec![5, 3, 7, 1, 9],
        vec![4],
        vec![2, 2, 2],
        vec![10, 20, 30, 40, 50, 60, 70],
        vec![70, 60, 50, 40, 30, 20, 10],
        vec![8, 1, 6, 3, 5, 7, 4, 2, 9, 0, 11],
    ];
    for dist in scenes {
        let line = Line::new(&dist);
        let bvh = BVH::new(dist.len());
        let object_hit = |o: usize, best: Option<usize>| line.object_hit(o, best);
        let bounds_hit = |n: usize, best: Option<usize>| line.bounds_hit(&bvh, n, best);
        let linear = closest_hit(dist.len(), &object_hit);
        let tree = bvh.hit(&bounds_hit, &object_hit);
        assert_eq!(tree, linear);
        let nearest = (0..dist.len()).min_by_key(|&i| dist[i]);
        assert_eq!(tree.map(|i| dist[i]), nearest.map(|i| dist[i]));
    }
}

#[test]
fn missed_box_skips_subtree() {
    let bvh = BVH::new(4);
    // The root's box is missed: nothing under it is tested.
    let root = bvh.nodes.len() - 1;
    let r = bvh.hit(&|n, _| n != root, &|_, _| true);
    assert_eq!(r, None);
}

#[test]
fn linear_scan_ties_take_last() {
    let line = Line::new(&[4, 2, 6, 2, 2, 9]);
    let r = closest_hit(6, &|o, best| line.object_hit(o, best));
    assert_eq!(r, Some(4));
}

#[test]
fn hierarchy_ties_agree_with_scan() {
    let dist = [3, 1, 1, 5, 1, 8, 1];
    let line = Line::new(&dist);
    let bvh = BVH::new(dist.len());
    let object_hit = |o: usize, best: Option<usize>| line.object_hit(o, best);
    let bounds_hit = |n: usize, best: Option<usize>| line.bounds_hit(&bvh, n, best);
    assert_eq!(bvh.hit(&bounds_hit, &object_hit), Some(6));
    assert_eq!(closest_hit(dist.len(), &object_hit), Some(6));
}

#[test]
fn node_bounds_unite_children() {
    let line = Line::new(&[5, 3, 7, 1, 9]);
    let bvh = BVH::new(5);
    let boxes = bvh.node_bounds(&|o: usize| Some((line.lo[o], line.hi[o])), &|a: (i64, i64), b: (i64, i64)| {
        (a.0.min(b.0), a.1.max(b.1))
    });
    assert_eq!(boxes.len(), bvh.nodes.len());
    for (i, n) in bvh.nodes.iter().enumerate() {
        assert_eq!(boxes[i], Some(line.span(&bvh, i)));
        if let Node::Leaf(o) = *n {
            assert_eq!(boxes[i], Some((line.dist[o], line.dist[o] + 1)));
        }
    }
    assert_eq!(boxes[bvh.nodes.len() - 1], Some((1, 10)));
}

#[test]
fn node_bounds_unbounded_leaf_leaves_ancestors_unbounded() {
    let bvh = BVH::new(3);
    let boxes = bvh.node_bounds(&|o: usize| if o == 2 { None } else { Some(o as i64) }, &|a: i64, b: i64| a + b);
    assert_eq!(boxes, vec![Some(0), Some(1), None, None, None]);
    let boxes = bvh.node_bounds(&|o: usize| Some(o as i64 + 1), &|a: i64, b: i64| a + b);
    assert_eq!(boxes, vec![Some(1), Some(2), Some(3), Some(5), Some(6)]);
}

#[test]
fn scene_bounds_unite_every_box() {
    let line = Line::new(&[5, 3, 7, 1, 9]);
    let r = scene_bounds(5, &|o: usize| Some((line.lo[o], line.hi[o])), &|a: (i64, i64), b: (i64, i64)| {
        (a.0.min(b.0), a.1.max(b.1))
    });
    assert_eq!(r, Some((1, 10)));
}

#[test]
fn scene_bounds_pass_over_unbounded() {
    let r = scene_bounds(5, &|o: usize| if o % 2 == 0 { None } else { Some(o as i64) }, &|a: i64, b: i64| a * 10 + b);
    assert_eq!(r, Some(13));
    let r = scene_bounds(3, &|_: usize| None::<i64>, &|a: i64, b: i64| a + b);
    assert_eq!(r, None);
    let r = scene_bounds(0, &|o: usize| Some(o as i64), &|a: i64, b: i64| a + b);
    assert_eq!(r, None);
}
