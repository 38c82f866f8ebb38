//! The bounding volume hierarchy over a scene's primitives, and the search for
//! the closest hit.
//!
//! Primitives are known here by their index in the scene's list. A search asks
//! two questions of the caller, who holds the geometry: whether the ray crosses
//! the bounding box of a branch, and whether it strikes a primitive; both are
//! asked over the interval that ends at the closest hit found so far (or at the
//! caller's far limit when there is none), so each question is a function of
//! the node or primitive and of that closest hit. Each hit accepted lies closer
//! than the one before it, so the answer is the last primitive accepted.
use vstd::prelude::*;

verus! {

/// A test that the caller answers: on a node or primitive index, and on the
/// closest primitive hit so far.
pub type Oracle = spec_fn(usize, Option<usize>) -> bool;

/// The answers that an executable test gives.
pub open spec fn oracle<F: Fn(usize, Option<usize>) -> bool>(f: F) -> Oracle {
    |a: usize, best: Option<usize>| f.ensures((a, best), true)
}

/// An executable test that can be asked anything and answers as a function of
/// its arguments.
pub open spec fn decides<F: Fn(usize, Option<usize>) -> bool>(f: F) -> bool {
    &&& forall|a: usize, best: Option<usize>| #[trigger] f.requires((a, best))
    &&& forall|a: usize, best: Option<usize>|
        #[trigger] f.ensures((a, best), true) ==> !f.ensures((a, best), false)
}

/// The indices `lo`, `lo + 1`, ..., `hi - 1`.
pub open spec fn ids(lo: int, hi: int) -> Seq<usize> {
    Seq::new((hi - lo) as nat, |k: int| (lo + k) as usize)
}

/// The closest hit after testing `objects` in order, starting from `start`:
/// each primitive is tested against the closest hit so far and, when it is
/// struck, takes its place.
pub open spec fn scan(objects: Seq<usize>, start: Option<usize>, object_hit: Oracle) -> Option<usize>
    decreases objects.len(),
{
    if objects.len() == 0 {
        start
    } else {
        let before = scan(objects.drop_last(), start, object_hit);
        if object_hit(objects.last(), before) {
            Some(objects.last())
        } else {
            before
        }
    }
}

/// A node of the hierarchy.
#[derive(Clone, Copy, Debug, PartialEq, Eq, Structural)]
pub enum Node {
    /// A primitive, by its index in the scene.
    Leaf(usize),
    /// Two subtrees, by their node indices, with a bounding box over both.
    Branch(usize, usize),
}

/// Children stand before their parents, so the hierarchy is a tree.
pub open spec fn ordered(nodes: Seq<Node>) -> bool {
    forall|i: int|
        0 <= i < nodes.len() ==> match #[trigger] nodes[i] {
            Node::Leaf(_) => true,
            Node::Branch(l, r) => l < i && r < i,
        }
}

/// The primitives under node `i`, left to right.
pub open spec fn leaves(nodes: Seq<Node>, i: int) -> Seq<usize>
    decreases i,
{
    if 0 <= i < nodes.len() {
        match nodes[i] {
            Node::Leaf(o) => seq![o],
            Node::Branch(l, r) => if l < i && r < i {
                leaves(nodes, l as int) + leaves(nodes, r as int)
            } else {
                Seq::empty()
            },
        }
    } else {
        Seq::empty()
    }
}

/// The closest hit after searching node `i`, starting from `best`: a branch
/// whose box the ray misses is skipped, else its left subtree is searched and
/// then its right one, against the closest hit found so far.
pub open spec fn visit(
    nodes: Seq<Node>,
    i: int,
    best: Option<usize>,
    bounds_hit: Oracle,
    object_hit: Oracle,
) -> Option<usize>
    decreases i,
{
    if 0 <= i < nodes.len() {
        match nodes[i] {
            Node::Leaf(o) => if object_hit(o, best) {
                Some(o)
            } else {
                best
            },
            Node::Branch(l, r) => if l < i && r < i && bounds_hit(i as usize, best) {
                let after_left = visit(nodes, l as int, best, bounds_hit, object_hit);
                visit(nodes, r as int, after_left, bounds_hit, object_hit)
            } else {
                best
            },
        }
    } else {
        best
    }
}

/// Every bounding box holds its primitives: where the ray misses the box of a
/// branch, none of the primitives under it would change the closest hit.
pub open spec fn bounds_sound(nodes: Seq<Node>, bounds_hit: Oracle, object_hit: Oracle) -> bool {
    forall|i: int, best: Option<usize>|
        0 <= i < nodes.len() && nodes[i] is Branch && !#[trigger] bounds_hit(i as usize, best)
            ==> scan(leaves(nodes, i), best, object_hit) == best
}

/// Searches primitives `0..count` one by one for the closest hit.
pub fn closest_hit<H: Fn(usize, Option<usize>) -> bool>(count: usize, object_hit: &H) -> (r: Option<usize>)
    requires
        decides(*object_hit),
    ensures
        r == scan(ids(0, count as int), None, oracle(*object_hit)),
{
    let mut best: Option<usize> = None;
    let mut i: usize = 0;
    while i < count
        invariant
            i <= count,
            decides(*object_hit),
            best == scan(ids(0, i as int), None, oracle(*object_hit)),
        decreases count - i,
    {
        let struck = object_hit(i, best);
        proof {
            let s = ids(0, i as int + 1);
            assert(s.drop_last() =~= ids(0, i as int));
            assert(s.last() == i);
            assert(object_hit.ensures((i, best), struck));
        }
        if struck {
            best = Some(i);
        }
        i = i + 1;
    }
    best
}

/// A closure that answers as a function of its argument.
pub open spec fn single_valued<A, R, F: Fn(A) -> R>(f: F) -> bool {
    forall|a: A, r1: R, r2: R| #[trigger] f.ensures((a,), r1) && #[trigger] f.ensures((a,), r2) ==> r1 == r2
}

/// A two-argument closure that answers as a function of its arguments.
pub open spec fn single_valued2<A, B, R, F: Fn(A, B) -> R>(f: F) -> bool {
    forall|a: A, b: B, r1: R, r2: R|
        #[trigger] f.ensures((a, b), r1) && #[trigger] f.ensures((a, b), r2) ==> r1 == r2
}

/// The box that primitive `o` reports.
pub open spec fn leaf_box<T, L: Fn(usize) -> Option<T>>(leaf_bounds: L, o: usize) -> Option<T> {
    choose|b: Option<T>| leaf_bounds.ensures((o,), b)
}

/// The union of two boxes.
pub open spec fn union_box<T, U: Fn(T, T) -> T>(union: U, a: T, b: T) -> T {
    choose|x: T| union.ensures((a, b), x)
}

/// The union of the boxes that primitives `0..n` report, taken in order;
/// primitives without a box are passed over, and there is none where no
/// primitive has one.
pub open spec fn gathered<T, L: Fn(usize) -> Option<T>, U: Fn(T, T) -> T>(
    leaf_bounds: L,
    union: U,
    n: nat,
) -> Option<T>
    decreases n,
{
    if n == 0 {
        None
    } else {
        let before = gathered(leaf_bounds, union, (n - 1) as nat);
        match (before, leaf_box(leaf_bounds, (n - 1) as usize)) {
            (_, None) => before,
            (None, Some(x)) => Some(x),
            (Some(a), Some(x)) => Some(union_box(union, a, x)),
        }
    }
}

/// The bounding box of a whole scene of `count` primitives: the union of the
/// boxes that they report.
pub fn scene_bounds<T: Copy, L, U>(count: usize, leaf_bounds: &L, union: &U) -> (r: Option<T>) where
    L: Fn(usize) -> Option<T>,
    U: Fn(T, T) -> T,

    requires
        forall|o: usize| #[trigger] leaf_bounds.requires((o,)),
        forall|a: T, b: T| #[trigger] union.requires((a, b)),
        single_valued(*leaf_bounds),
        single_valued2(*union),
    ensures
        r == gathered(*leaf_bounds, *union, count as nat),
{
    let mut acc: Option<T> = None;
    let mut i: usize = 0;
    while i < count
        invariant
            forall|o: usize| #[trigger] leaf_bounds.requires((o,)),
            forall|a: T, b: T| #[trigger] union.requires((a, b)),
            single_valued(*leaf_bounds),
            single_valued2(*union),
            i <= count,
            acc == gathered(*leaf_bounds, *union, i as nat),
        decreases count - i,
    {
        let b = leaf_bounds(i);
        assert(b == leaf_box(*leaf_bounds, i));
        acc = match (acc, b) {
            (_, None) => acc,
            (None, Some(x)) => Some(x),
            (Some(a), Some(x)) => {
                let u = union(a, x);
                assert(u == union_box(*union, a, x));
                Some(u)
            },
        };
        i = i + 1;
    }
    acc
}

/// The box recorded for node `i` is the one its primitive reports, for a
/// leaf, or the union of its children's, for a branch; a branch with a child
/// that has no box has none either, as it cannot be skipped.
pub open spec fn node_bounded<T, L: Fn(usize) -> Option<T>, U: Fn(T, T) -> T>(
    nodes: Seq<Node>,
    boxes: Seq<Option<T>>,
    i: int,
    leaf_bounds: L,
    union: U,
) -> bool {
    match nodes[i] {
        Node::Leaf(o) => leaf_bounds.ensures((o,), boxes[i]),
        Node::Branch(l, r) => match (boxes[l as int], boxes[r as int]) {
            (Some(a), Some(b)) => boxes[i] is Some && union.ensures((a, b), boxes[i].unwrap()),
            _ => boxes[i] is None,
        },
    }
}

/// A bounding volume hierarchy over the primitives `0..count` of a scene,
/// stored with each node after its children; the root is the last node.
pub struct BVH {
    pub nodes: Vec<Node>,
    pub count: usize,
}

impl BVH {
    /// The nodes form a tree over the primitives `0..count`, each under
    /// exactly one leaf, in order.
    pub open spec fn wf(&self) -> bool {
        &&& ordered(self.nodes@)
        &&& self.count == 0 <==> self.nodes@.len() == 0
        &&& self.count > 0 ==> leaves(self.nodes@, self.nodes@.len() - 1) == ids(0, self.count as int)
    }

    /// The closest hit that a search of the whole hierarchy finds.
    pub open spec fn closest(&self, bounds_hit: Oracle, object_hit: Oracle) -> Option<usize> {
        visit(self.nodes@, self.nodes@.len() - 1, None, bounds_hit, object_hit)
    }

    /// Builds a hierarchy over the primitives `0..count`, splitting each range
    /// in two halves. The caller chooses the order of its primitives, and so
    /// the partition.
    pub fn new(count: usize) -> (b: BVH)
        requires
            count <= usize::MAX / 2,
        ensures
            b.wf(),
            b.count == count,
            count > 0 ==> b.nodes@.len() == 2 * count - 1,
    {
        let mut nodes: Vec<Node> = Vec::new();
        if count > 0 {
            build(&mut nodes, 0, count);
        }
        BVH { nodes, count }
    }

    /// The bounding box of every node, computed once, children first: a
    /// leaf's from `leaf_bounds`, a branch's as the `union` of its children's.
    /// The root's box, the last, bounds the whole scene.
    pub fn node_bounds<T: Copy, L, U>(&self, leaf_bounds: &L, union: &U) -> (r: Vec<Option<T>>) where
        L: Fn(usize) -> Option<T>,
        U: Fn(T, T) -> T,

        requires
            ordered(self.nodes@),
            forall|o: usize| #[trigger] leaf_bounds.requires((o,)),
            forall|a: T, b: T| #[trigger] union.requires((a, b)),
        ensures
            r@.len() == self.nodes@.len(),
            forall|i: int|
                0 <= i < r@.len() ==> #[trigger] node_bounded(self.nodes@, r@, i, *leaf_bounds, *union),
    {
        let mut boxes: Vec<Option<T>> = Vec::new();
        let mut i: usize = 0;
        while i < self.nodes.len()
            invariant
                ordered(self.nodes@),
                forall|o: usize| #[trigger] leaf_bounds.requires((o,)),
                forall|a: T, b: T| #[trigger] union.requires((a, b)),
                i <= self.nodes@.len(),
                boxes@.len() == i,
                forall|j: int| 0 <= j < i ==> #[trigger] node_bounded(self.nodes@, boxes@, j, *leaf_bounds, *union),
            decreases self.nodes@.len() - i,
        {
            let b = match self.nodes[i] {
                Node::Leaf(o) => leaf_bounds(o),
                Node::Branch(l, r) => {
                    assert(l < i && r < i);
                    match (boxes[l], boxes[r]) {
                        (Some(x), Some(y)) => Some(union(x, y)),
                        _ => None,
                    }
                },
            };
            let ghost before = boxes@;
            boxes.push(b);
            proof {
                assert forall|j: int| 0 <= j <= i implies #[trigger] node_bounded(
                    self.nodes@,
                    boxes@,
                    j,
                    *leaf_bounds,
                    *union,
                ) by {
                    assert(node_bounded(self.nodes@, before, j, *leaf_bounds, *union) || j == i);
                    match self.nodes@[j] {
                        Node::Leaf(_) => {},
                        Node::Branch(l, r) => {
                            assert(boxes@[l as int] == before[l as int]);
                            assert(boxes@[r as int] == before[r as int]);
                        },
                    }
                }
            }
            i = i + 1;
        }
        boxes
    }

    /// Searches the hierarchy for the closest hit. `bounds_hit` answers
    /// whether the ray crosses a branch's box, `object_hit` whether it strikes
    /// a primitive, each against the closest hit so far.
    pub fn hit<B, H>(&self, bounds_hit: &B, object_hit: &H) -> (r: Option<usize>) where
        B: Fn(usize, Option<usize>) -> bool,
        H: Fn(usize, Option<usize>) -> bool,

        requires
            self.wf(),
            decides(*bounds_hit),
            decides(*object_hit),
        ensures
            r == self.closest(oracle(*bounds_hit), oracle(*object_hit)),
    {
        if self.nodes.len() == 0 {
            None
        } else {
            self.visit_node(self.nodes.len() - 1, None, bounds_hit, object_hit)
        }
    }

    fn visit_node<B, H>(&self, i: usize, best: Option<usize>, bounds_hit: &B, object_hit: &H) -> (r:
        Option<usize>) where
        B: Fn(usize, Option<usize>) -> bool,
        H: Fn(usize, Option<usize>) -> bool,

        requires
            ordered(self.nodes@),
            i < self.nodes@.len(),
            decides(*bounds_hit),
            decides(*object_hit),
        ensures
            r == visit(self.nodes@, i as int, best, oracle(*bounds_hit), oracle(*object_hit)),
        decreases i,
    {
        match self.nodes[i] {
            Node::Leaf(o) => {
                let struck = object_hit(o, best);
                if struck {
                    Some(o)
                } else {
                    best
                }
            },
            Node::Branch(l, r) => {
                assert(l < i && r < i);
                let crossed = bounds_hit(i, best);
                if crossed {
                    let after_left = self.visit_node(l, best, bounds_hit, object_hit);
                    self.visit_node(r, after_left, bounds_hit, object_hit)
                } else {
                    best
                }
            },
        }
    }
}

/// Appends a subtree over the primitives `lo..hi` and returns its root, the
/// last node.
fn build(nodes: &mut Vec<Node>, lo: usize, hi: usize) -> (root: usize)
    requires
        lo < hi,
        ordered(old(nodes)@),
        old(nodes)@.len() + 2 * (hi - lo) <= usize::MAX,
    ensures
        ordered(final(nodes)@),
        final(nodes)@.len() == old(nodes)@.len() + 2 * (hi - lo) - 1,
        old(nodes)@.len() <= root,
        root == final(nodes)@.len() - 1,
        final(nodes)@.subrange(0, old(nodes)@.len() as int) == old(nodes)@,
        leaves(final(nodes)@, root as int) == ids(lo as int, hi as int),
    decreases hi - lo,
{
    let ghost start = nodes@;
    if hi - lo == 1 {
        nodes.push(Node::Leaf(lo));
        proof {
            assert(nodes@.subrange(0, start.len() as int) =~= start);
            assert(ordered(nodes@)) by {
                assert forall|i: int| 0 <= i < nodes@.len() implies match #[trigger] nodes@[i] {
                    Node::Leaf(_) => true,
                    Node::Branch(l, r) => l < i && r < i,
                } by {
                    if i < start.len() {
                        assert(nodes@[i] == start[i]);
                    }
                }
            }
            assert(ids(lo as int, hi as int) =~= seq![lo]);
        }
        nodes.len() - 1
    } else {
        let mid = lo + (hi - lo) / 2;
        let l = build(nodes, lo, mid);
        let ghost after_left = nodes@;
        let r = build(nodes, mid, hi);
        let ghost after_right = nodes@;
        proof {
            lemma_leaves_prefix(after_left, after_right, l as int);
        }
        nodes.push(Node::Branch(l, r));
        let root = nodes.len() - 1;
        proof {
            assert(nodes@.subrange(0, after_right.len() as int) =~= after_right);
            assert(nodes@.subrange(0, after_left.len() as int) =~= after_left) by {
                assert forall|k: int| 0 <= k < after_left.len() implies nodes@[k] == after_left[k] by {
                    assert(after_right.subrange(0, after_left.len() as int)[k] == after_right[k]);
                }
            }
            lemma_leaves_prefix(after_left, nodes@, l as int);
            lemma_leaves_prefix(after_right, nodes@, l as int);
            lemma_leaves_prefix(after_right, nodes@, r as int);
            assert(nodes@.subrange(0, start.len() as int) =~= start) by {
                assert(after_left.subrange(0, start.len() as int) == start);
                assert(after_right.subrange(0, after_left.len() as int) == after_left);
            }
            assert(ordered(nodes@)) by {
                assert forall|i: int| 0 <= i < nodes@.len() implies match #[trigger] nodes@[i] {
                    Node::Leaf(_) => true,
                    Node::Branch(l, r) => l < i && r < i,
                } by {
                    if i < after_right.len() {
                        assert(nodes@[i] == after_right[i]);
                    }
                }
            }
            assert(nodes@[root as int] == Node::Branch(l, r));
            assert(ids(lo as int, mid as int) + ids(mid as int, hi as int) =~= ids(lo as int, hi as int));
        }
        root
    }
}

/// Appending nodes leaves the primitives under existing nodes as they were.
proof fn lemma_leaves_prefix(a: Seq<Node>, b: Seq<Node>, i: int)
    requires
        0 <= i < a.len() <= b.len(),
        b.subrange(0, a.len() as int) == a,
    ensures
        leaves(b, i) == leaves(a, i),
    decreases i,
{
    assert(b[i] == b.subrange(0, a.len() as int)[i]);
    match a[i] {
        Node::Leaf(_) => {},
        Node::Branch(l, r) => {
            if l < i && r < i {
                lemma_leaves_prefix(a, b, l as int);
                lemma_leaves_prefix(a, b, r as int);
            }
        },
    }
}

/// Testing one list of primitives and then another is testing them joined.
proof fn lemma_scan_append(a: Seq<usize>, b: Seq<usize>, start: Option<usize>, object_hit: Oracle)
    ensures
        scan(a + b, start, object_hit) == scan(b, scan(a, start, object_hit), object_hit),
    decreases b.len(),
{
    if b.len() == 0 {
        assert(a + b =~= a);
    } else {
        lemma_scan_append(a, b.drop_last(), start, object_hit);
        assert((a + b).drop_last() =~= a + b.drop_last());
        assert((a + b).last() == b.last());
    }
}

/// Where the boxes hold their primitives, searching a node finds what testing
/// its primitives one by one finds.
proof fn lemma_visit_is_scan(
    nodes: Seq<Node>,
    i: int,
    best: Option<usize>,
    bounds_hit: Oracle,
    object_hit: Oracle,
)
    requires
        ordered(nodes),
        0 <= i < nodes.len(),
        bounds_sound(nodes, bounds_hit, object_hit),
    ensures
        visit(nodes, i, best, bounds_hit, object_hit) == scan(leaves(nodes, i), best, object_hit),
    decreases i,
{
    match nodes[i] {
        Node::Leaf(o) => {
            assert(seq![o].drop_last() =~= Seq::<usize>::empty());
            assert(seq![o].last() == o);
            assert(scan(Seq::<usize>::empty(), best, object_hit) == best);
            assert(leaves(nodes, i) == seq![o]);
        },
        Node::Branch(l, r) => {
            assert(l < i && r < i);
            if bounds_hit(i as usize, best) {
                lemma_visit_is_scan(nodes, l as int, best, bounds_hit, object_hit);
                let after_left = visit(nodes, l as int, best, bounds_hit, object_hit);
                lemma_visit_is_scan(nodes, r as int, after_left, bounds_hit, object_hit);
                lemma_scan_append(leaves(nodes, l as int), leaves(nodes, r as int), best, object_hit);
            } else {
                assert(scan(leaves(nodes, i), best, object_hit) == best);
            }
        },
    }
}

/// A search of the hierarchy finds the same closest hit as testing every
/// primitive of the scene in turn, provided each bounding box holds the
/// primitives under it.
pub proof fn lemma_bvh_matches_linear_scan(bvh: &BVH, bounds_hit: Oracle, object_hit: Oracle)
    requires
        bvh.wf(),
        bounds_sound(bvh.nodes@, bounds_hit, object_hit),
    ensures
        bvh.closest(bounds_hit, object_hit) == scan(ids(0, bvh.count as int), None, object_hit),
{
    if bvh.count > 0 {
        lemma_visit_is_scan(bvh.nodes@, bvh.nodes@.len() - 1, None, bounds_hit, object_hit);
    } else {
        assert(ids(0, 0) =~= Seq::<usize>::empty());
    }
}

/// A test that strikes primitive `o` where the ray meets it at a distance
/// `reach(o)` no farther than the closest hit so far (ties included, as the
/// interval searched is closed).
pub open spec fn nearer(reach: spec_fn(usize) -> Option<int>, o: usize, best: Option<usize>) -> bool {
    match reach(o) {
        None => false,
        Some(d) => match best {
            None => true,
            Some(b) => reach(b) is Some && d <= reach(b).unwrap(),
        },
    }
}

/// Where each primitive is struck at one distance, testing the primitives in
/// turn finds one struck at the least distance, and none when none is struck.
pub proof fn lemma_scan_finds_nearest(
    objects: Seq<usize>,
    reach: spec_fn(usize) -> Option<int>,
    object_hit: Oracle,
)
    requires
        forall|o: usize, best: Option<usize>| #[trigger] object_hit(o, best) == nearer(reach, o, best),
    ensures
        ({
            let r = scan(objects, None, object_hit);
            match r {
                None => forall|i: int| 0 <= i < objects.len() ==> #[trigger] reach(objects[i]) is None,
                Some(o) => {
                    &&& objects.contains(o)
                    &&& reach(o) is Some
                    &&& forall|i: int|
                        0 <= i < objects.len() && #[trigger] reach(objects[i]) is Some ==> reach(o).unwrap()
                            <= reach(objects[i]).unwrap()
                },
            }
        }),
    decreases objects.len(),
{
    if objects.len() > 0 {
        let rest = objects.drop_last();
        let last = objects.last();
        lemma_scan_finds_nearest(rest, reach, object_hit);
        let before = scan(rest, None, object_hit);
        assert(object_hit(last, before) == nearer(reach, last, before));
        assert forall|i: int| 0 <= i < rest.len() implies #[trigger] rest[i] == objects[i] by {}
        match scan(objects, None, object_hit) {
            None => {
                assert forall|i: int| 0 <= i < objects.len() implies #[trigger] reach(objects[i]) is None by {
                    if i < rest.len() {
                        assert(reach(rest[i]) is None);
                    }
                }
            },
            Some(o) => {
                if object_hit(last, before) {
                    assert(objects[objects.len() - 1] == o);
                } else {
                    let k = choose|k: int| 0 <= k < rest.len() && rest[k] == o;
                    assert(objects[k] == o);
                }
                assert forall|i: int|
                    0 <= i < objects.len() && #[trigger] reach(objects[i]) is Some implies reach(o).unwrap()
                        <= reach(objects[i]).unwrap() by {
                    if i < rest.len() {
                        assert(reach(rest[i]) is Some);
                    }
                }
            },
        }
    }
}

} // verus!
