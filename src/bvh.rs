//! The bounding-volume hierarchy.
//!
//! The tree is built once over primitives `0..n`, given the box of each, and
//! is read-only afterwards. Coordinates are order keys, so the two pieces of
//! arithmetic that the build needs, the extent of a box along an axis and the
//! midpoint of an interval, are handed in as functions on keys. A query takes
//! the ray as two functions: the distance key at which it hits a primitive,
//! and whether it meets a box.
use vstd::prelude::*;
use crate::aabb::{
    callable2, computes2, empty_box, encloses, full_box, lemma_merge, longest_of, merged, size_by, AABB,
};
use crate::hit::{
    computes_hits, hits_callable, indices, is_nearest, lemma_nearest_unique, lemma_scan_is_nearest,
    member_of, nearest_among, scan, Hit,
};

verus! {

/// The number of primitives at or below which a node is left a leaf.
pub const LEAF_SIZE: usize = 100000;

/// The shape of a hierarchy: leaves hold primitive indices, branches hold the
/// box of their bounded primitives and two subtrees.
pub enum Tree {
    Leaf(Seq<usize>),
    Branch(AABB, Box<Tree>, Box<Tree>),
}

/// The nearer of two results; on a tie, or when only the second exists, the second.
pub open spec fn pick(l: Option<Hit>, r: Option<Hit>) -> Option<Hit> {
    match l {
        None => r,
        Some(a) => match r {
            None => l,
            Some(b) => if a.t < b.t {
                l
            } else {
                r
            },
        },
    }
}

/// `c` computes `crosses`: each result of a call is `crosses` of its argument.
pub open spec fn computes_crossing<C: Fn(AABB) -> bool>(c: C, crosses: spec_fn(AABB) -> bool) -> bool {
    forall|b: AABB, r: bool| #[trigger] c.ensures((b,), r) ==> r == crosses(b)
}

pub open spec fn crossing_callable<C: Fn(AABB) -> bool>(c: C) -> bool {
    forall|b: AABB| #[trigger] c.requires((b,))
}

impl Tree {
    /// Some leaf holds primitive `i`.
    pub open spec fn holds(self, i: usize) -> bool
        decreases self,
    {
        match self {
            Tree::Leaf(s) => s.contains(i),
            Tree::Branch(_, l, r) => l.holds(i) || r.holds(i),
        }
    }

    pub open spec fn member(self) -> spec_fn(usize) -> bool {
        |i: usize| self.holds(i)
    }

    /// The query's answer: a leaf scans its primitives; a branch whose box
    /// the ray misses answers none, else the nearer of its subtrees' answers.
    pub open spec fn nearest(self, hits: spec_fn(usize) -> Option<i32>, crosses: spec_fn(AABB) -> bool) -> Option<Hit>
        decreases self,
    {
        match self {
            Tree::Leaf(s) => scan(s, hits),
            Tree::Branch(b, l, r) => if !crosses(b) {
                None
            } else {
                pick(l.nearest(hits, crosses), r.nearest(hits, crosses))
            },
        }
    }

    /// Every branch that the ray misses holds no primitive that the ray hits.
    pub open spec fn prunes_safely(self, hits: spec_fn(usize) -> Option<i32>, crosses: spec_fn(AABB) -> bool) -> bool
        decreases self,
    {
        match self {
            Tree::Leaf(_) => true,
            Tree::Branch(b, l, r) => {
                &&& (!crosses(b) ==> forall|i: usize| #[trigger] self.holds(i) ==> hits(i).is_none())
                &&& l.prunes_safely(hits, crosses)
                &&& r.prunes_safely(hits, crosses)
            },
        }
    }
}

/// The box of the bounded primitives among `items`: the full box of an
/// unbounded primitive is left out.
pub open spec fn union_of(boxes: Seq<AABB>, items: Seq<usize>) -> AABB
    decreases items.len(),
{
    if items.len() == 0 {
        empty_box()
    } else {
        let u = union_of(boxes, items.drop_last());
        let b = boxes[items.last() as int];
        if b == full_box() {
            u
        } else {
            merged(u, b)
        }
    }
}

/// A primitive goes left when it is unbounded or its box starts at or before the split.
pub open spec fn goes_left(boxes: Seq<AABB>, axis: int, split: i32) -> spec_fn(usize) -> bool {
    |i: usize| boxes[i as int] == full_box() || boxes[i as int].min.at(axis) <= split
}

/// A primitive goes right when it is unbounded or its box starts after the split.
pub open spec fn goes_right(boxes: Seq<AABB>, axis: int, split: i32) -> spec_fn(usize) -> bool {
    |i: usize| boxes[i as int] == full_box() || !(boxes[i as int].min.at(axis) <= split)
}

/// The hierarchy built over `items` at `depth`: a leaf once the depth budget
/// is spent or few primitives are left; else a branch split at the midpoint of
/// the longest axis of the bounded primitives' box.
pub open spec fn built(
    boxes: Seq<AABB>,
    items: Seq<usize>,
    depth: int,
    max_depth: int,
    leaf_size: int,
    extent: spec_fn(i32, i32) -> i32,
    midpoint: spec_fn(i32, i32) -> i32,
) -> Tree
    decreases max_depth - depth,
{
    if depth >= max_depth || items.len() <= leaf_size {
        Tree::Leaf(items)
    } else {
        let u = union_of(boxes, items);
        let axis = longest_of(size_by(u, extent));
        let split = midpoint(u.min.at(axis), u.max.at(axis));
        Tree::Branch(
            u,
            Box::new(built(boxes, items.filter(goes_left(boxes, axis, split)), depth + 1, max_depth, leaf_size, extent, midpoint)),
            Box::new(built(boxes, items.filter(goes_right(boxes, axis, split)), depth + 1, max_depth, leaf_size, extent, midpoint)),
        )
    }
}

/// Relies on rayon::join: it runs both closures, possibly on two workers,
/// and returns their results in order.
#[verifier::external_body]
fn join<A, B, RA, RB>(oper_a: A, oper_b: B) -> (r: (RA, RB))
    where
        A: FnOnce() -> RA + Send,
        B: FnOnce() -> RB + Send,
        RA: Send,
        RB: Send,
    requires
        oper_a.requires(()),
        oper_b.requires(()),
    ensures
        oper_a.ensures((), r.0),
        oper_b.ensures((), r.1),
{
    rayon::join(oper_a, oper_b)
}

/// A node of the hierarchy.
pub enum Node {
    Leaf(Vec<usize>),
    Branch(AABB, Box<Node>, Box<Node>),
}

impl Node {
    pub open spec fn tree(&self) -> Tree
        decreases self,
    {
        match self {
            Node::Leaf(v) => Tree::Leaf(v@),
            Node::Branch(b, l, r) => Tree::Branch(*b, Box::new(l.tree()), Box::new(r.tree())),
        }
    }

    fn intersect<H: Fn(usize) -> Option<i32>, C: Fn(AABB) -> bool>(&self, hit: &H, crosses: &C) -> (r: Option<Hit>)
        requires
            hits_callable(*hit),
            crossing_callable(*crosses),
        ensures
            forall|hits: spec_fn(usize) -> Option<i32>, cr: spec_fn(AABB) -> bool|
                computes_hits(*hit, hits) && computes_crossing(*crosses, cr) ==> r == self.tree().nearest(hits, cr),
        decreases self,
    {
        match self {
            Node::Leaf(objects) => {
                let found = nearest_among(objects, hit);
                assert forall|hits: spec_fn(usize) -> Option<i32>, cr: spec_fn(AABB) -> bool|
                    computes_hits(*hit, hits) && computes_crossing(*crosses, cr) implies found
                    == self.tree().nearest(hits, cr) by {
                    assert(self.tree() == Tree::Leaf(objects@));
                }
                found
            },
            Node::Branch(b, left, right) => {
                let meets = crosses(*b);
                proof {
                    assert(self.tree() == Tree::Branch(*b, Box::new(left.tree()), Box::new(right.tree())));
                }
                if !meets {
                    None
                } else {
                    let near_l = left.intersect(hit, crosses);
                    let near_r = right.intersect(hit, crosses);
                    let found = match near_l {
                        None => near_r,
                        Some(a) => match near_r {
                            None => near_l,
                            Some(c) => if a.t < c.t {
                                near_l
                            } else {
                                near_r
                            },
                        },
                    };
                    assert forall|hits: spec_fn(usize) -> Option<i32>, cr: spec_fn(AABB) -> bool|
                        computes_hits(*hit, hits) && computes_crossing(*crosses, cr) implies found
                        == self.tree().nearest(hits, cr) by {
                        assert(meets == cr(*b));
                        assert(near_l == left.tree().nearest(hits, cr));
                        assert(near_r == right.tree().nearest(hits, cr));
                        assert(found == pick(near_l, near_r));
                    }
                    found
                }
            },
        }
    }
}

/// The box of the bounded primitives among `items`.
fn union_box(boxes: &Vec<AABB>, items: &Vec<usize>) -> (u: AABB)
    requires
        forall|k: int| 0 <= k < items.len() ==> (#[trigger] items[k] as int) < boxes.len(),
    ensures
        u == union_of(boxes@, items@),
{
    let mut u = AABB::empty();
    let mut k: usize = 0;
    while k < items.len()
        invariant
            k <= items.len(),
            forall|j: int| 0 <= j < items.len() ==> (#[trigger] items[j] as int) < boxes.len(),
            u == union_of(boxes@, items@.take(k as int)),
        decreases items.len() - k,
    {
        let b = boxes[items[k]];
        if !b.is_full() {
            u = u.merge(b);
        }
        assert(items@.take(k + 1).drop_last() =~= items@.take(k as int));
        k = k + 1;
    }
    assert(items@.take(k as int) =~= items@);
    u
}

/// Splits `items` at `split` on `axis`: unbounded primitives go to both sides.
fn partition(boxes: &Vec<AABB>, items: &Vec<usize>, axis: usize, split: i32) -> (sides: (Vec<usize>, Vec<usize>))
    requires
        axis < 3,
        forall|k: int| 0 <= k < items.len() ==> (#[trigger] items[k] as int) < boxes.len(),
    ensures
        sides.0@ == items@.filter(goes_left(boxes@, axis as int, split)),
        sides.1@ == items@.filter(goes_right(boxes@, axis as int, split)),
{
    let ghost to_left = goes_left(boxes@, axis as int, split);
    let ghost to_right = goes_right(boxes@, axis as int, split);
    let mut left: Vec<usize> = Vec::new();
    let mut right: Vec<usize> = Vec::new();
    let mut k: usize = 0;
    while k < items.len()
        invariant
            k <= items.len(),
            axis < 3,
            to_left == goes_left(boxes@, axis as int, split),
            to_right == goes_right(boxes@, axis as int, split),
            forall|j: int| 0 <= j < items.len() ==> (#[trigger] items[j] as int) < boxes.len(),
            left@ == items@.take(k as int).filter(to_left),
            right@ == items@.take(k as int).filter(to_right),
        decreases items.len() - k,
    {
        let i = items[k];
        let b = boxes[i];
        proof {
            assert(items@.take(k + 1) =~= items@.take(k as int).push(i));
            items@.take(k as int).lemma_filter_push(i, to_left);
            items@.take(k as int).lemma_filter_push(i, to_right);
        }
        if b.is_full() {
            left.push(i);
            right.push(i);
        } else if b.min.axis(axis) <= split {
            left.push(i);
        } else {
            right.push(i);
        }
        k = k + 1;
    }
    assert(items@.take(k as int) =~= items@);
    (left, right)
}

impl Node {
    fn build<E: Fn(i32, i32) -> i32 + Sync, M: Fn(i32, i32) -> i32 + Sync>(
        boxes: &Vec<AABB>,
        items: Vec<usize>,
        depth: u32,
        max_depth: u32,
        leaf_size: usize,
        extent: &E,
        midpoint: &M,
    ) -> (node: Node)
        requires
            callable2(*extent),
            callable2(*midpoint),
            forall|k: int| 0 <= k < items.len() ==> (#[trigger] items[k] as int) < boxes.len(),
        ensures
            forall|g: spec_fn(i32, i32) -> i32, m: spec_fn(i32, i32) -> i32|
                computes2(*extent, g) && computes2(*midpoint, m) ==> node.tree() == built(
                    boxes@,
                    items@,
                    depth as int,
                    max_depth as int,
                    leaf_size as int,
                    g,
                    m,
                ),
        decreases max_depth - depth,
    {
        if depth >= max_depth || items.len() <= leaf_size {
            let node = Node::Leaf(items);
            proof {
                assert(node.tree() == Tree::Leaf(items@));
            }
            node
        } else {
            let u = union_box(boxes, &items);
            let axis = u.longest_axis(extent);
            let split = midpoint(u.min.axis(axis), u.max.axis(axis));
            let (left, right) = partition(boxes, &items, axis, split);
            proof {
                assert forall|k: int| 0 <= k < left.len() implies (#[trigger] left[k] as int) < boxes.len() by {
                    items@.lemma_filter_contains_rev(goes_left(boxes@, axis as int, split), left[k]);
                    assert(left@.contains(left[k]));
                }
                assert forall|k: int| 0 <= k < right.len() implies (#[trigger] right[k] as int) < boxes.len() by {
                    items@.lemma_filter_contains_rev(goes_right(boxes@, axis as int, split), right[k]);
                    assert(right@.contains(right[k]));
                }
            }
            let ghost left_items = left@;
            let ghost right_items = right@;
            let ghost spec_boxes = boxes@;
            let (l, r) = join(
                (move || -> (n: Node)
                    requires
                        callable2(*extent),
                        callable2(*midpoint),
                        forall|k: int| 0 <= k < left.len() ==> (#[trigger] left[k] as int) < boxes.len(),
                    ensures
                        forall|g: spec_fn(i32, i32) -> i32, m: spec_fn(i32, i32) -> i32|
                            computes2(*extent, g) && computes2(*midpoint, m) ==> n.tree() == built(
                                spec_boxes,
                                left_items,
                                depth + 1,
                                max_depth as int,
                                leaf_size as int,
                                g,
                                m,
                            ),
                {
                    Node::build(boxes, left, depth + 1, max_depth, leaf_size, extent, midpoint)
                }),
                (move || -> (n: Node)
                    requires
                        callable2(*extent),
                        callable2(*midpoint),
                        forall|k: int| 0 <= k < right.len() ==> (#[trigger] right[k] as int) < boxes.len(),
                    ensures
                        forall|g: spec_fn(i32, i32) -> i32, m: spec_fn(i32, i32) -> i32|
                            computes2(*extent, g) && computes2(*midpoint, m) ==> n.tree() == built(
                                spec_boxes,
                                right_items,
                                depth + 1,
                                max_depth as int,
                                leaf_size as int,
                                g,
                                m,
                            ),
                {
                    Node::build(boxes, right, depth + 1, max_depth, leaf_size, extent, midpoint)
                }),
            );
            let node = Node::Branch(u, Box::new(l), Box::new(r));
            proof {
                assert(node.tree() == Tree::Branch(u, Box::new(l.tree()), Box::new(r.tree())));
                assert forall|g: spec_fn(i32, i32) -> i32, m: spec_fn(i32, i32) -> i32|
                    computes2(*extent, g) && computes2(*midpoint, m) implies node.tree() == built(
                        boxes@,
                        items@,
                        depth as int,
                        max_depth as int,
                        leaf_size as int,
                        g,
                        m,
                    ) by {
                    assert(axis == longest_of(size_by(u, g)));
                    assert(split == m(u.min.at(axis as int), u.max.at(axis as int)));
                    assert(l.tree() == built(boxes@, left_items, depth + 1, max_depth as int, leaf_size as int, g, m));
                    assert(r.tree() == built(boxes@, right_items, depth + 1, max_depth as int, leaf_size as int, g, m));
                }
            }
            node
        }
    }
}

/// A bounding-volume hierarchy over primitives `0..n`.
pub struct BVH {
    root: Box<Node>,
}

impl View for BVH {
    type V = Tree;

    closed spec fn view(&self) -> Tree {
        self.root.tree()
    }
}

impl BVH {
    /// Builds the hierarchy over primitives `0..boxes.len()`, primitive `i`
    /// having box `boxes[i]`, starting at `depth`, with leaves of at most
    /// `LEAF_SIZE` primitives unless the depth budget runs out first.
    pub fn new<E: Fn(i32, i32) -> i32 + Sync, M: Fn(i32, i32) -> i32 + Sync>(
        boxes: &Vec<AABB>,
        depth: u32,
        max_depth: u32,
        extent: &E,
        midpoint: &M,
    ) -> (bvh: BVH)
        requires
            callable2(*extent),
            callable2(*midpoint),
        ensures
            forall|g: spec_fn(i32, i32) -> i32, m: spec_fn(i32, i32) -> i32|
                computes2(*extent, g) && computes2(*midpoint, m) ==> bvh@ == built(
                    boxes@,
                    indices(boxes.len() as nat),
                    depth as int,
                    max_depth as int,
                    LEAF_SIZE as int,
                    g,
                    m,
                ),
    {
        BVH::with_leaf_size(boxes, depth, max_depth, LEAF_SIZE, extent, midpoint)
    }

    /// As `new`, with leaves of at most `leaf_size` primitives.
    pub fn with_leaf_size<E: Fn(i32, i32) -> i32 + Sync, M: Fn(i32, i32) -> i32 + Sync>(
        boxes: &Vec<AABB>,
        depth: u32,
        max_depth: u32,
        leaf_size: usize,
        extent: &E,
        midpoint: &M,
    ) -> (bvh: BVH)
        requires
            callable2(*extent),
            callable2(*midpoint),
        ensures
            forall|g: spec_fn(i32, i32) -> i32, m: spec_fn(i32, i32) -> i32|
                computes2(*extent, g) && computes2(*midpoint, m) ==> bvh@ == built(
                    boxes@,
                    indices(boxes.len() as nat),
                    depth as int,
                    max_depth as int,
                    leaf_size as int,
                    g,
                    m,
                ),
    {
        let mut items: Vec<usize> = Vec::new();
        let mut k: usize = 0;
        while k < boxes.len()
            invariant
                k <= boxes.len(),
                items@ == indices(boxes.len() as nat).take(k as int),
            decreases boxes.len() - k,
        {
            items.push(k);
            k = k + 1;
            assert(items@ =~= indices(boxes.len() as nat).take(k as int));
        }
        assert(items@ =~= indices(boxes.len() as nat));
        let root = Node::build(boxes, items, depth, max_depth, leaf_size, extent, midpoint);
        BVH { root: Box::new(root) }
    }

    /// The nearest hit of the ray among the primitives, found through the
    /// hierarchy: `hit(i)` is the distance key at which the ray hits primitive
    /// `i`, if it does, and `crosses(b)` tells whether it meets box `b`.
    pub fn intersect<H: Fn(usize) -> Option<i32>, C: Fn(AABB) -> bool>(&self, hit: &H, crosses: &C) -> (r: Option<Hit>)
        requires
            hits_callable(*hit),
            crossing_callable(*crosses),
        ensures
            forall|hits: spec_fn(usize) -> Option<i32>, cr: spec_fn(AABB) -> bool|
                computes_hits(*hit, hits) && computes_crossing(*crosses, cr) ==> r == self@.nearest(hits, cr),
    {
        self.root.intersect(hit, crosses)
    }
}

/// The hierarchy built over `items` holds exactly the primitives of `items`:
/// unbounded primitives are copied to both sides, and no primitive is lost.
pub proof fn lemma_built_holds(
    boxes: Seq<AABB>,
    items: Seq<usize>,
    depth: int,
    max_depth: int,
    leaf_size: int,
    extent: spec_fn(i32, i32) -> i32,
    midpoint: spec_fn(i32, i32) -> i32,
)
    ensures
        forall|i: usize|
            #[trigger] built(boxes, items, depth, max_depth, leaf_size, extent, midpoint).holds(i) <==> items.contains(i),
    decreases max_depth - depth,
{
    let t = built(boxes, items, depth, max_depth, leaf_size, extent, midpoint);
    if depth >= max_depth || items.len() <= leaf_size {
    } else {
        let u = union_of(boxes, items);
        let axis = longest_of(size_by(u, extent));
        let split = midpoint(u.min.at(axis), u.max.at(axis));
        let pl = goes_left(boxes, axis, split);
        let pr = goes_right(boxes, axis, split);
        let left = items.filter(pl);
        let right = items.filter(pr);
        lemma_built_holds(boxes, left, depth + 1, max_depth, leaf_size, extent, midpoint);
        lemma_built_holds(boxes, right, depth + 1, max_depth, leaf_size, extent, midpoint);
        let lt = built(boxes, left, depth + 1, max_depth, leaf_size, extent, midpoint);
        let rt = built(boxes, right, depth + 1, max_depth, leaf_size, extent, midpoint);
        assert(t == Tree::Branch(u, Box::new(lt), Box::new(rt)));
        assert forall|i: usize| #[trigger] t.holds(i) <==> items.contains(i) by {
            assert(t.holds(i) == (lt.holds(i) || rt.holds(i)));
            assert(pl(i) || pr(i));
            if items.contains(i) {
                let k = choose|k: int| 0 <= k < items.len() && items[k] == i;
                if pl(i) {
                    items.lemma_filter_contains(pl, k);
                } else {
                    items.lemma_filter_contains(pr, k);
                }
            }
            if left.contains(i) {
                items.lemma_filter_contains_rev(pl, i);
            }
            if right.contains(i) {
                items.lemma_filter_contains_rev(pr, i);
            }
        }
    }
}

/// Where pruning is safe, the query answers a nearest hit among the
/// primitives that the tree holds.
pub proof fn lemma_nearest_in_tree(t: Tree, hits: spec_fn(usize) -> Option<i32>, crosses: spec_fn(AABB) -> bool)
    requires
        t.prunes_safely(hits, crosses),
    ensures
        is_nearest(t.nearest(hits, crosses), t.member(), hits),
    decreases t,
{
    match t {
        Tree::Leaf(s) => {
            lemma_scan_is_nearest(s, hits);
            assert forall|i: usize| #[trigger] t.member()(i) == member_of(s)(i) by {}
        },
        Tree::Branch(b, l, r) => {
            lemma_nearest_in_tree(*l, hits, crosses);
            lemma_nearest_in_tree(*r, hits, crosses);
            assert forall|i: usize| #[trigger] t.member()(i) == (l.member()(i) || r.member()(i)) by {}
            if crosses(b) {
                let nl = l.nearest(hits, crosses);
                let nr = r.nearest(hits, crosses);
                match t.nearest(hits, crosses) {
                    None => {
                        assert forall|i: usize| #[trigger] t.member()(i) implies hits(i).is_none() by {
                            if l.member()(i) {
                            } else {
                                assert(r.member()(i));
                            }
                        }
                    },
                    Some(h) => {
                        assert forall|i: usize| #[trigger] t.member()(i) && hits(i).is_some() implies h.t
                            <= hits(i).unwrap() by {
                            if l.member()(i) {
                                assert(nl.is_some());
                            } else {
                                assert(r.member()(i));
                                assert(nr.is_some());
                            }
                        }
                        if nl == Some(h) {
                            assert(l.member()(h.object));
                        } else {
                            assert(r.member()(h.object));
                        }
                    },
                }
            } else {
                assert forall|i: usize| #[trigger] t.member()(i) implies hits(i).is_none() by {
                    assert(t.holds(i));
                }
            }
        },
    }
}

/// The box of the bounded primitives of `items` bounds the box of each of them.
pub proof fn lemma_union_encloses(boxes: Seq<AABB>, items: Seq<usize>, i: usize)
    requires
        items.contains(i),
        boxes[i as int] != full_box(),
    ensures
        encloses(union_of(boxes, items), boxes[i as int]),
    decreases items.len(),
{
    let rest = items.drop_last();
    let u = union_of(boxes, rest);
    let b = boxes[items.last() as int];
    lemma_merge(u, b, b);
    if i != items.last() {
        let k = choose|k: int| 0 <= k < items.len() && items[k] == i;
        assert(rest[k] == i);
        lemma_union_encloses(boxes, rest, i);
    }
}

/// A box test that is sound for the primitives (it meets the box of every
/// primitive that the ray hits, and that primitive is bounded) and monotone
/// (it meets every box that bounds a box it meets) makes pruning safe in any
/// hierarchy that `built` gives.
pub proof fn lemma_sound_test_prunes_safely(
    boxes: Seq<AABB>,
    items: Seq<usize>,
    depth: int,
    max_depth: int,
    leaf_size: int,
    extent: spec_fn(i32, i32) -> i32,
    midpoint: spec_fn(i32, i32) -> i32,
    hits: spec_fn(usize) -> Option<i32>,
    crosses: spec_fn(AABB) -> bool,
)
    requires
        forall|i: usize|
            items.contains(i) && #[trigger] hits(i).is_some() ==> boxes[i as int] != full_box() && crosses(boxes[i as int]),
        forall|a: AABB, b: AABB| #[trigger] encloses(b, a) && crosses(a) ==> #[trigger] crosses(b),
    ensures
        built(boxes, items, depth, max_depth, leaf_size, extent, midpoint).prunes_safely(hits, crosses),
    decreases max_depth - depth,
{
    let t = built(boxes, items, depth, max_depth, leaf_size, extent, midpoint);
    if depth >= max_depth || items.len() <= leaf_size {
    } else {
        let u = union_of(boxes, items);
        let axis = longest_of(size_by(u, extent));
        let split = midpoint(u.min.at(axis), u.max.at(axis));
        let pl = goes_left(boxes, axis, split);
        let pr = goes_right(boxes, axis, split);
        let left = items.filter(pl);
        let right = items.filter(pr);
        assert forall|i: usize| left.contains(i) implies items.contains(i) by {
            items.lemma_filter_contains_rev(pl, i);
        }
        assert forall|i: usize| right.contains(i) implies items.contains(i) by {
            items.lemma_filter_contains_rev(pr, i);
        }
        lemma_sound_test_prunes_safely(boxes, left, depth + 1, max_depth, leaf_size, extent, midpoint, hits, crosses);
        lemma_sound_test_prunes_safely(boxes, right, depth + 1, max_depth, leaf_size, extent, midpoint, hits, crosses);
        lemma_built_holds(boxes, items, depth, max_depth, leaf_size, extent, midpoint);
        if !crosses(u) {
            assert forall|i: usize| #[trigger] t.holds(i) implies hits(i).is_none() by {
                if hits(i).is_some() {
                    lemma_union_encloses(boxes, items, i);
                    assert(encloses(u, boxes[i as int]));
                }
            }
        }
    }
}

/// The hierarchy and the linear scan agree. Built over primitives `0..n`
/// and queried with a ray for which pruning is safe (no branch that the ray
/// misses holds a primitive that the ray hits), the hierarchy finds a hit
/// exactly when the scan of all primitives does, at the same distance, and the
/// same primitive wherever no two primitives are hit at one distance.
pub proof fn lemma_bvh_matches_scan(
    boxes: Seq<AABB>,
    depth: int,
    max_depth: int,
    leaf_size: int,
    extent: spec_fn(i32, i32) -> i32,
    midpoint: spec_fn(i32, i32) -> i32,
    hits: spec_fn(usize) -> Option<i32>,
    crosses: spec_fn(AABB) -> bool,
)
    requires
        built(boxes, indices(boxes.len()), depth, max_depth, leaf_size, extent, midpoint).prunes_safely(hits, crosses),
    ensures
        ({
            let tree = built(boxes, indices(boxes.len()), depth, max_depth, leaf_size, extent, midpoint);
            let a = tree.nearest(hits, crosses);
            let b = scan(indices(boxes.len()), hits);
            &&& a.is_none() <==> b.is_none()
            &&& a.is_some() && b.is_some() ==> a.unwrap().t == b.unwrap().t
            &&& (forall|i: usize, j: usize|
                i < boxes.len() && j < boxes.len() && i != j && #[trigger] hits(i).is_some() && #[trigger] hits(j).is_some()
                    ==> hits(i) != hits(j)) ==> a == b
        }),
{
    let all = indices(boxes.len());
    let tree = built(boxes, all, depth, max_depth, leaf_size, extent, midpoint);
    lemma_built_holds(boxes, all, depth, max_depth, leaf_size, extent, midpoint);
    lemma_nearest_in_tree(tree, hits, crosses);
    lemma_scan_is_nearest(all, hits);
    assert forall|i: usize| #[trigger] tree.member()(i) == member_of(all)(i) by {
        if i < boxes.len() {
            assert(all[i as int] == i);
        }
        if all.contains(i) {
            let k = choose|k: int| 0 <= k < all.len() && all[k] == i;
        }
    }
    assert(tree.member() =~= member_of(all));
    lemma_nearest_unique(tree.nearest(hits, crosses), scan(all, hits), member_of(all), hits);
}

/// The hierarchy and the linear scan agree for every ray whose box test is
/// sound and monotone (see `lemma_sound_test_prunes_safely`), as long as
/// the ray hits no unbounded primitive: a hit exactly when the scan finds
/// one, at the same distance, of the same primitive wherever no two
/// primitives are hit at one distance.
pub proof fn lemma_bvh_matches_scan_with_sound_test(
    boxes: Seq<AABB>,
    depth: int,
    max_depth: int,
    leaf_size: int,
    extent: spec_fn(i32, i32) -> i32,
    midpoint: spec_fn(i32, i32) -> i32,
    hits: spec_fn(usize) -> Option<i32>,
    crosses: spec_fn(AABB) -> bool,
)
    requires
        forall|i: usize|
            i < boxes.len() && #[trigger] hits(i).is_some() ==> boxes[i as int] != full_box() && crosses(boxes[i as int]),
        forall|a: AABB, b: AABB| #[trigger] encloses(b, a) && crosses(a) ==> #[trigger] crosses(b),
    ensures
        ({
            let tree = built(boxes, indices(boxes.len()), depth, max_depth, leaf_size, extent, midpoint);
            let a = tree.nearest(hits, crosses);
            let b = scan(indices(boxes.len()), hits);
            &&& a.is_none() <==> b.is_none()
            &&& a.is_some() && b.is_some() ==> a.unwrap().t == b.unwrap().t
            &&& (forall|i: usize, j: usize|
                i < boxes.len() && j < boxes.len() && i != j && #[trigger] hits(i).is_some() && #[trigger] hits(j).is_some()
                    ==> hits(i) != hits(j)) ==> a == b
        }),
{
    let all = indices(boxes.len());
    assert forall|i: usize| all.contains(i) && #[trigger] hits(i).is_some() implies boxes[i as int] != full_box()
        && crosses(boxes[i as int]) by {
        let k = choose|k: int| 0 <= k < all.len() && all[k] == i;
    }
    lemma_sound_test_prunes_safely(boxes, all, depth, max_depth, leaf_size, extent, midpoint, hits, crosses);
    lemma_bvh_matches_scan(boxes, depth, max_depth, leaf_size, extent, midpoint, hits, crosses);
}

} // verus!
