use vstd::prelude::*;
use vstd::seq_lib::lemma_multiset_commutative;
use vstd::multiset::Multiset;
use crate::quad_tree_bounds::QuadTreeBounds;
use crate::quad_tree_bounds::lemma_contains_transitive;
use crate::quad_tree_bounds::lemma_intersects_contained;
use crate::quad_tree_leaf::QuadTreeLeaf;

verus! {

/// Nodes narrower than this are never subdivided; leaves that cannot be
/// pushed into a quadrant of such a node stay in its `stuck` list.
pub const MIN_SUBDIVISION: i64 = 16;

/// The only failure the tree can report: growing the root to enclose an
/// insertion would push its coordinates past the representable range.
#[derive(Clone, Copy, PartialEq, Eq, Structural, Debug)]
pub enum QuadTreeError {
    CoordinateOverflow,
}

/// One node of the region quadtree.  The node created by [`QuadTree::new`]
/// has `root` set and is the handle for every public operation; descendant
/// nodes are created lazily as insertions are pushed into quadrants.
pub struct QuadTree {
    /// True only for the single root node; the root is exempt from pruning
    /// and is the only node that grows.
    pub root: bool,
    /// Current square extent of this node (`w == h` always).
    pub bounds: QuadTreeBounds,
    /// Identity source for leaves; meaningful on the root node only.
    pub sequence: u64,
    /// Buffer of leaves not yet pushed to a child (at most one at rest).
    pub items: Vec<QuadTreeLeaf>,
    /// Leaves that cannot go deeper: they fit no quadrant entirely, or this
    /// node is already at the minimum subdivision size.
    pub stuck: Vec<QuadTreeLeaf>,
    /// Quadrant 0: top-left child.
    pub top_left: Option<Box<QuadTree>>,
    /// Quadrant 1: top-right child.
    pub top_right: Option<Box<QuadTree>>,
    /// Quadrant 2: bottom-right child.
    pub bottom_right: Option<Box<QuadTree>>,
    /// Quadrant 3: bottom-left child.
    pub bottom_left: Option<Box<QuadTree>>,
}

/// Coordinates a node may carry: a square whose far corner is representable.
pub open spec fn bounds_ok(b: QuadTreeBounds) -> bool {
    &&& b.w == b.h
    &&& 1 <= b.w
    &&& b.x + b.w <= i64::MAX
    &&& b.y + b.h <= i64::MAX
}

/// The quadrant of `b` at index `q`, half the width and height, laid out as
/// 0 = top-left, 1 = top-right, 2 = bottom-right, 3 = bottom-left.
pub open spec fn spec_quadrant(b: QuadTreeBounds, q: int) -> QuadTreeBounds {
    let half = b.w / 2;
    if q == 0 {
        QuadTreeBounds { x: b.x, y: b.y, w: half as i64, h: half as i64 }
    } else if q == 1 {
        QuadTreeBounds { x: (b.x + half) as i64, y: b.y, w: half as i64, h: half as i64 }
    } else if q == 2 {
        QuadTreeBounds {
            x: (b.x + half) as i64,
            y: (b.y + half) as i64,
            w: half as i64,
            h: half as i64,
        }
    } else {
        QuadTreeBounds { x: b.x, y: (b.y + half) as i64, w: half as i64, h: half as i64 }
    }
}

/// The quadrant of `b` that `target` fits in entirely, or -1 if `target`
/// straddles a midline.  Quadrants are tried in the order top-left,
/// top-right, bottom-left, bottom-right.
pub open spec fn spec_index(b: QuadTreeBounds, target: QuadTreeBounds) -> int {
    if spec_quadrant(b, 0).spec_contains(target) {
        0
    } else if spec_quadrant(b, 1).spec_contains(target) {
        1
    } else if spec_quadrant(b, 3).spec_contains(target) {
        3
    } else if spec_quadrant(b, 2).spec_contains(target) {
        2
    } else {
        -1
    }
}

/// Whether one doubling step of the root's bounds stays representable.
pub open spec fn can_grow(b: QuadTreeBounds) -> bool {
    let half = b.w / 2;
    &&& i64::MIN <= b.x - half
    &&& i64::MIN <= b.y - half
    &&& 2 * b.w <= i64::MAX
    &&& b.x - half + 2 * b.w <= i64::MAX
    &&& b.y - half + 2 * b.h <= i64::MAX
}

/// One doubling step: origin moves back by half the width, extents double,
/// so the centre of the square is preserved.
pub open spec fn grown(b: QuadTreeBounds) -> QuadTreeBounds {
    let half = b.w / 2;
    QuadTreeBounds {
        x: (b.x - half) as i64,
        y: (b.y - half) as i64,
        w: (2 * b.w) as i64,
        h: (2 * b.h) as i64,
    }
}

/// Whether repeated doubling from `b` ever encloses `target` without leaving
/// the representable coordinate range.
pub open spec fn grow_reaches(b: QuadTreeBounds, target: QuadTreeBounds) -> bool
    decreases i64::MAX - b.w,
{
    if b.spec_contains(target) {
        true
    } else if b.w < 1 {
        false
    } else if can_grow(b) {
        grow_reaches(grown(b), target)
    } else {
        false
    }
}

/// The bounds at which the growth loop starting from `b` stops: the first
/// iterate that encloses `target`, or the last representable iterate.
pub open spec fn grow_stop(b: QuadTreeBounds, target: QuadTreeBounds) -> QuadTreeBounds
    decreases i64::MAX - b.w,
{
    if b.spec_contains(target) {
        b
    } else if b.w < 1 {
        b
    } else if can_grow(b) {
        grow_stop(grown(b), target)
    } else {
        b
    }
}

/// Growth is owed success on moderate coordinates: a root square of even
/// width whose centre lies within `2^59` of the origin reaches, by repeated
/// doubling and well before the coordinate range runs out, any target whose
/// corners lie within `2^59` of the origin.  Together with the growth
/// equivalence in `QuadTree::insert`'s contract this says exactly when an
/// insertion cannot be refused.
pub proof fn lemma_grow_reaches_in_range(b: QuadTreeBounds, target: QuadTreeBounds)
    requires
        b.w == b.h,
        b.w % 2 == 0,
        1 <= b.w <= 0x4000_0000_0000_0000,
        -0x0800_0000_0000_0000 <= b.x + b.w / 2 <= 0x0800_0000_0000_0000,
        -0x0800_0000_0000_0000 <= b.y + b.h / 2 <= 0x0800_0000_0000_0000,
        -0x0800_0000_0000_0000 <= target.x,
        target.x + target.w <= 0x0800_0000_0000_0000,
        -0x0800_0000_0000_0000 <= target.y,
        target.y + target.h <= 0x0800_0000_0000_0000,
    ensures
        grow_reaches(b, target),
    decreases i64::MAX - b.w,
{
    let cx = b.x + b.w / 2;
    let cy = b.y + b.h / 2;
    if !b.spec_contains(target) {
        assert(b.w < 0x2000_0000_0000_0000) by {
            if b.w >= 0x2000_0000_0000_0000 {
                assert(b.x <= target.x);
                assert(target.x + target.w <= b.x + b.w);
                assert(b.y <= target.y);
                assert(target.y + target.h <= b.y + b.h);
            }
        }
        assert(can_grow(b));
        let g = grown(b);
        assert(g.x + g.w / 2 == cx);
        assert(g.y + g.h / 2 == cy);
        lemma_grow_reaches_in_range(g, target);
    }
}

impl QuadTree {
    /// Every leaf stored in this subtree, in traversal order: this node's
    /// buffered items, then its stuck leaves, then the quadrants in index
    /// order.
    pub open spec fn leaves(self) -> Seq<QuadTreeLeaf>
        decreases self,
    {
        self.items@ + self.stuck@ + QuadTree::opt_leaves(self.top_left) + QuadTree::opt_leaves(
            self.top_right,
        ) + QuadTree::opt_leaves(self.bottom_right) + QuadTree::opt_leaves(self.bottom_left)
    }

    pub open spec fn opt_leaves(o: Option<Box<QuadTree>>) -> Seq<QuadTreeLeaf>
        decreases o,
    {
        match o {
            Option::None => Seq::empty(),
            Option::Some(b) => b.leaves(),
        }
    }

    /// Well-formedness of one child slot, relative to the parent's bounds.
    pub open spec fn branch_wf(pb: QuadTreeBounds, q: int, o: Option<Box<QuadTree>>) -> bool
        decreases o,
    {
        match o {
            Option::None => true,
            Option::Some(c) => {
                &&& c.node_wf()
                &&& !c.root
                &&& c.bounds == spec_quadrant(pb, q)
                &&& MIN_SUBDIVISION <= pb.w
                &&& 1 <= c.leaves().len()
            },
        }
    }

    /// Structural invariant of a node and everything below it:
    /// sane square bounds, the one-item buffer rule, every stored leaf
    /// within this node's bounds, stuck leaves genuinely unplaceable (for
    /// non-root nodes; the root's bounds may have grown since placement),
    /// and each child exactly one quadrant, non-root, well-formed, and
    /// holding at least one leaf in its subtree.
    pub open spec fn node_wf(self) -> bool
        decreases self,
    {
        &&& bounds_ok(self.bounds)
        &&& (self.root ==> self.bounds.w % 2 == 0)
        &&& self.items@.len() <= 1
        &&& (forall|i: int|
            0 <= i < self.items@.len() ==> self.bounds.spec_contains(
                (#[trigger] self.items@[i]).bounds,
            ))
        &&& (forall|i: int|
            0 <= i < self.stuck@.len() ==> self.bounds.spec_contains(
                (#[trigger] self.stuck@[i]).bounds,
            ))
        &&& (!self.root ==> forall|i: int|
            0 <= i < self.stuck@.len() ==> spec_index(
                self.bounds,
                (#[trigger] self.stuck@[i]).bounds,
            ) == -1 || self.bounds.w < MIN_SUBDIVISION)
        &&& QuadTree::branch_wf(self.bounds, 0, self.top_left)
        &&& QuadTree::branch_wf(self.bounds, 1, self.top_right)
        &&& QuadTree::branch_wf(self.bounds, 2, self.bottom_right)
        &&& QuadTree::branch_wf(self.bounds, 3, self.bottom_left)
    }

    /// The subtree holds this exact leaf value.
    pub open spec fn contains_leaf(self, lf: QuadTreeLeaf) -> bool {
        self.leaves().contains(lf)
    }

    /// The subtree holds a leaf with this identity.
    pub open spec fn has_id(self, id: u64) -> bool {
        exists|x: QuadTreeLeaf| self.leaves().to_multiset().count(x) > 0 && x.identity == id
    }

    /// Each stored leaf occurs once, and no two stored leaves share an
    /// identity.
    pub open spec fn ms_unique(m: Multiset<QuadTreeLeaf>) -> bool {
        &&& (forall|a: QuadTreeLeaf, b: QuadTreeLeaf|
            m.count(a) > 0 && m.count(b) > 0 && a.identity == b.identity ==> a == b)
        &&& (forall|a: QuadTreeLeaf| m.count(a) <= 1)
    }

    /// Invariant of the tree as seen through its root handle: the node is
    /// the root, the structure is well-formed, identities are unique and
    /// below the identity source.
    pub open spec fn tree_wf(self) -> bool {
        &&& self.root
        &&& self.node_wf()
        &&& QuadTree::ms_unique(self.leaves().to_multiset())
        &&& forall|a: QuadTreeLeaf|
            #[trigger] self.leaves().to_multiset().count(a) > 0 ==> a.identity < self.sequence
    }

    /// The stored leaves, as a multiset, decompose into this node's two
    /// lists and the four child subtrees.
    pub proof fn lemma_leaves_parts(self)
        ensures
            self.leaves().to_multiset() == self.items@.to_multiset().add(
                self.stuck@.to_multiset(),
            ).add(QuadTree::opt_leaves(self.top_left).to_multiset()).add(
                QuadTree::opt_leaves(self.top_right).to_multiset(),
            ).add(QuadTree::opt_leaves(self.bottom_right).to_multiset()).add(
                QuadTree::opt_leaves(self.bottom_left).to_multiset(),
            ),
    {
        broadcast use vstd::multiset::group_multiset_axioms;

        let a = self.items@;
        let b = self.stuck@;
        let c0 = QuadTree::opt_leaves(self.top_left);
        let c1 = QuadTree::opt_leaves(self.top_right);
        let c2 = QuadTree::opt_leaves(self.bottom_right);
        let c3 = QuadTree::opt_leaves(self.bottom_left);
        lemma_multiset_commutative(a, b);
        lemma_multiset_commutative(a + b, c0);
        lemma_multiset_commutative(a + b + c0, c1);
        lemma_multiset_commutative(a + b + c0 + c1, c2);
        lemma_multiset_commutative(a + b + c0 + c1 + c2, c3);
    }

    /// The predicate an area query matches leaves against.
    pub open spec fn match_pred(area: QuadTreeBounds) -> spec_fn(QuadTreeLeaf) -> bool {
        |l: QuadTreeLeaf| area.spec_intersects(l.bounds)
    }

    /// The leaves of this subtree whose rectangles intersect `area`, in
    /// traversal order.
    pub open spec fn matches(self, area: QuadTreeBounds) -> Seq<QuadTreeLeaf> {
        self.leaves().filter(QuadTree::match_pred(area))
    }

    pub open spec fn opt_matches(o: Option<Box<QuadTree>>, area: QuadTreeBounds) -> Seq<
        QuadTreeLeaf,
    > {
        QuadTree::opt_leaves(o).filter(QuadTree::match_pred(area))
    }

    /// Every branch's bounds in this subtree, depth first: this node's own
    /// square, then the quadrants in index order.
    pub open spec fn climb_seq(self) -> Seq<QuadTreeBounds>
        decreases self,
    {
        seq![self.bounds] + QuadTree::opt_climb(self.top_left) + QuadTree::opt_climb(
            self.top_right,
        ) + QuadTree::opt_climb(self.bottom_right) + QuadTree::opt_climb(self.bottom_left)
    }

    pub open spec fn opt_climb(o: Option<Box<QuadTree>>) -> Seq<QuadTreeBounds>
        decreases o,
    {
        match o {
            Option::None => Seq::empty(),
            Option::Some(b) => b.climb_seq(),
        }
    }

    /// The containment invariant: every leaf stored in a well-formed subtree
    /// lies within that subtree's bounds.  Since well-formedness holds
    /// recursively at every branch, each leaf in particular lies within the
    /// bounds of the branch that holds it.
    pub proof fn lemma_leaves_in_bounds(self)
        requires
            self.node_wf(),
        ensures
            forall|x: QuadTreeLeaf|
                #[trigger] self.leaves().contains(x) ==> self.bounds.spec_contains(x.bounds),
        decreases self,
    {
        if let Option::Some(c) = self.top_left {
            c.lemma_leaves_in_bounds();
        }
        if let Option::Some(c) = self.top_right {
            c.lemma_leaves_in_bounds();
        }
        if let Option::Some(c) = self.bottom_right {
            c.lemma_leaves_in_bounds();
        }
        if let Option::Some(c) = self.bottom_left {
            c.lemma_leaves_in_bounds();
        }
        let s = self.leaves();
        let a = self.items@;
        let b = self.stuck@;
        let c0 = QuadTree::opt_leaves(self.top_left);
        let c1 = QuadTree::opt_leaves(self.top_right);
        let c2 = QuadTree::opt_leaves(self.bottom_right);
        let c3 = QuadTree::opt_leaves(self.bottom_left);
        assert forall|x: QuadTreeLeaf| #[trigger]
            s.contains(x) implies self.bounds.spec_contains(x.bounds) by {
            let i = choose|i: int| 0 <= i < s.len() && s[i] == x;
            let n0 = a.len() as int;
            let n1 = n0 + b.len();
            let n2 = n1 + c0.len();
            let n3 = n2 + c1.len();
            let n4 = n3 + c2.len();
            if i < n0 {
                assert(a[i] == x);
            } else if i < n1 {
                assert(b[i - n0] == x);
            } else if i < n2 {
                assert(c0[i - n1] == x);
                assert(c0.contains(x));
                lemma_contains_transitive(
                    self.bounds,
                    spec_quadrant(self.bounds, 0),
                    x.bounds,
                );
            } else if i < n3 {
                assert(c1[i - n2] == x);
                assert(c1.contains(x));
                lemma_contains_transitive(
                    self.bounds,
                    spec_quadrant(self.bounds, 1),
                    x.bounds,
                );
            } else if i < n4 {
                assert(c2[i - n3] == x);
                assert(c2.contains(x));
                lemma_contains_transitive(
                    self.bounds,
                    spec_quadrant(self.bounds, 2),
                    x.bounds,
                );
            } else {
                assert(c3[i - n4] == x);
                assert(c3.contains(x));
                lemma_contains_transitive(
                    self.bounds,
                    spec_quadrant(self.bounds, 3),
                    x.bounds,
                );
            }
        }
    }

    /// A leaf is among a query's matches exactly when it is stored in the
    /// subtree and its rectangle intersects the queried area.
    pub proof fn lemma_matches_iff(self, area: QuadTreeBounds, lf: QuadTreeLeaf)
        ensures
            self.matches(area).contains(lf) <==> (self.contains_leaf(lf)
                && area.spec_intersects(lf.bounds)),
    {
        broadcast use vstd::seq_lib::group_filter_ensures;

        let s = self.leaves();
        let p = QuadTree::match_pred(area);
        if self.matches(area).contains(lf) {
            let i = choose|i: int| 0 <= i < s.filter(p).len() && s.filter(p)[i] == lf;
            assert(p(s.filter(p)[i]));
            s.lemma_filter_contains_rev(p, lf);
        }
        if s.contains(lf) && area.spec_intersects(lf.bounds) {
            let i = choose|i: int| 0 <= i < s.len() && s[i] == lf;
            assert(p(s[i]));
            assert(s.filter(p).contains(s[i]));
        }
    }

    /// The fan-out law behind the parallel query: a subtree's matches are
    /// exactly this node's own matching leaves followed by the independent
    /// matches of its four child subtrees.  An executor that runs each
    /// child's `task_query` concurrently and merges the deliveries therefore
    /// collects the same leaves as the sequential walk.
    pub proof fn lemma_query_fan_out(self, area: QuadTreeBounds)
        ensures
            self.matches(area) == self.items@.filter(QuadTree::match_pred(area)) + self.stuck@
                .filter(QuadTree::match_pred(area)) + QuadTree::opt_matches(self.top_left, area)
                + QuadTree::opt_matches(self.top_right, area) + QuadTree::opt_matches(
                self.bottom_right,
                area,
            ) + QuadTree::opt_matches(self.bottom_left, area),
    {
        broadcast use vstd::seq_lib::group_seq_lib_default;

        let p = QuadTree::match_pred(area);
        let a = self.items@;
        let b = self.stuck@;
        let c0 = QuadTree::opt_leaves(self.top_left);
        let c1 = QuadTree::opt_leaves(self.top_right);
        let c2 = QuadTree::opt_leaves(self.bottom_right);
        let c3 = QuadTree::opt_leaves(self.bottom_left);
        Seq::filter_distributes_over_add(a, b, p);
        Seq::filter_distributes_over_add(a + b, c0, p);
        Seq::filter_distributes_over_add(a + b + c0, c1, p);
        Seq::filter_distributes_over_add(a + b + c0 + c1, c2, p);
        Seq::filter_distributes_over_add(a + b + c0 + c1 + c2, c3, p);
    }

    /// Append every leaf of this subtree that intersects `area` to
    /// `results`: the unit of work a query task performs on one branch.  A
    /// fan-out executor runs one such walk per intersecting child and merges
    /// the results.
    #[verifier::rlimit(50)]
    pub fn task_query(&self, area: QuadTreeBounds, results: &mut Vec<QuadTreeLeaf>)
        requires
            self.node_wf(),
        ensures
            final(results)@ == old(results)@ + self.matches(area),
        decreases *self, 1int,
    {
        let ghost p = QuadTree::match_pred(area);
        if !area.intersects(self.bounds) {
            proof {
                QuadTree::lemma_skipped_branch_empty(*self, area);
                assert(results@ =~= results@ + self.matches(area));
            }
            return ;
        }
        let ghost r0 = results@;
        QuadTree::scan_list(&self.items, area, results);
        QuadTree::scan_list(&self.stuck, area, results);
        QuadTree::query_slot(&self.top_left, area, results);
        QuadTree::query_slot(&self.top_right, area, results);
        QuadTree::query_slot(&self.bottom_right, area, results);
        QuadTree::query_slot(&self.bottom_left, area, results);
        proof {
            self.lemma_query_fan_out(area);
            assert(results@ =~= r0 + self.matches(area));
        }
    }

    /// Descend into one child slot during a query; a child whose square
    /// does not intersect the area is skipped whole.
    fn query_slot(slot: &Option<Box<QuadTree>>, area: QuadTreeBounds, results: &mut Vec<
        QuadTreeLeaf,
    >)
        requires
            *slot is Some ==> slot->Some_0.node_wf(),
        ensures
            final(results)@ == old(results)@ + QuadTree::opt_matches(*slot, area),
        decreases *slot, 0int,
    {
        match slot {
            Option::None => {
                proof {
                    QuadTree::lemma_filter_none(
                        QuadTree::opt_leaves(*slot),
                        QuadTree::match_pred(area),
                    );
                    assert(results@ =~= results@ + QuadTree::opt_matches(*slot, area));
                }
            },
            Option::Some(c) => {
                if area.intersects(c.bounds) {
                    c.task_query(area, results);
                } else {
                    proof {
                        QuadTree::lemma_skipped_branch_empty(**c, area);
                        assert(results@ =~= results@ + QuadTree::opt_matches(*slot, area));
                    }
                }
            },
        }
    }

    /// Collect every stored leaf whose rectangle intersects `area` into
    /// `results`.  A leaf is delivered exactly when its rectangle intersects
    /// the area (see `lemma_matches_iff`); the order of delivery follows the
    /// tree walk and is not otherwise specified.  Disjoint or empty areas
    /// simply deliver nothing.
    pub fn query(&self, area: QuadTreeBounds, results: &mut Vec<QuadTreeLeaf>)
        requires
            self.node_wf(),
        ensures
            final(results)@ == old(results)@ + self.matches(area),
    {
        self.task_query(area, results)
    }

    /// Collect the bounds of every branch of this subtree, depth first: a
    /// diagnostic view of the tree's shape, with no query semantics.
    pub fn climb(&self, list: &mut Vec<QuadTreeBounds>)
        ensures
            final(list)@ == old(list)@ + self.climb_seq(),
        decreases *self, 1int,
    {
        list.push(self.bounds);
        QuadTree::climb_slot(&self.top_left, list);
        QuadTree::climb_slot(&self.top_right, list);
        QuadTree::climb_slot(&self.bottom_right, list);
        QuadTree::climb_slot(&self.bottom_left, list);
        proof {
            assert(list@ =~= old(list)@ + self.climb_seq());
        }
    }

    fn climb_slot(slot: &Option<Box<QuadTree>>, list: &mut Vec<QuadTreeBounds>)
        ensures
            final(list)@ == old(list)@ + QuadTree::opt_climb(*slot),
        decreases *slot, 0int,
    {
        match slot {
            Option::None => {
                proof {
                    assert(list@ =~= list@ + QuadTree::opt_climb(*slot));
                }
            },
            Option::Some(c) => {
                c.climb(list);
            },
        }
    }

    /// After every leaf has been removed, a well-formed tree is a bare
    /// root: both leaf lists empty, all four child slots pruned, and
    /// `climb` reports exactly the root's own square.
    pub proof fn lemma_empty_tree_is_bare_root(self)
        requires
            self.node_wf(),
            self.leaves().len() == 0,
        ensures
            self.items@.len() == 0,
            self.stuck@.len() == 0,
            self.top_left is None,
            self.top_right is None,
            self.bottom_right is None,
            self.bottom_left is None,
            self.climb_seq() == seq![self.bounds],
    {
        assert(self.climb_seq() =~= seq![self.bounds]);
    }

    /// Removing the same leaf handle twice succeeds exactly once: the first
    /// removal finds the handle's identity, and no leaf with that identity
    /// survives it to be found again.  The relation assumed about `mid` is
    /// what `remove` guarantees about the tree it leaves behind.
    pub proof fn lemma_double_remove(pre: QuadTree, mid: QuadTree, lf: QuadTreeLeaf)
        requires
            pre.contains_leaf(lf),
            forall|x: QuadTreeLeaf|
                #![auto]
                mid.contains_leaf(x) <==> (pre.contains_leaf(x) && x.identity != lf.identity),
        ensures
            pre.has_id(lf.identity),
            !mid.has_id(lf.identity),
    {
        broadcast use vstd::seq_lib::group_to_multiset_ensures;

        assert(pre.leaves().to_multiset().count(lf) > 0);
        if mid.has_id(lf.identity) {
            let x = choose|x: QuadTreeLeaf|
                mid.leaves().to_multiset().count(x) > 0 && x.identity == lf.identity;
            assert(mid.leaves().contains(x));
            assert(mid.contains_leaf(x));
            assert(pre.contains_leaf(x) && x.identity != lf.identity);
            assert(false);
        }
    }

    /// Filtering a sequence without duplicates yields a sequence without
    /// duplicates.
    proof fn lemma_filter_no_duplicates(s: Seq<QuadTreeLeaf>, p: spec_fn(QuadTreeLeaf) -> bool)
        requires
            s.no_duplicates(),
        ensures
            s.filter(p).no_duplicates(),
        decreases s.len(),
    {
        reveal(Seq::filter);
        if s.len() > 0 {
            let rest = s.drop_last();
            assert(rest.no_duplicates());
            QuadTree::lemma_filter_no_duplicates(rest, p);
            if p(s.last()) {
                if rest.filter(p).contains(s.last()) {
                    rest.lemma_filter_contains_rev(p, s.last());
                    let i = choose|i: int| 0 <= i < rest.len() && rest[i] == s.last();
                    assert(s[i] == s[s.len() - 1]);
                    assert(false);
                }
                assert(s.filter(p) == rest.filter(p).push(s.last()));
            }
        }
    }

    /// In a tree with unique identities, a query delivers each stored leaf
    /// at most once: no two entries of the result share an identity.
    pub proof fn lemma_matches_ids_unique(self, area: QuadTreeBounds)
        requires
            QuadTree::ms_unique(self.leaves().to_multiset()),
        ensures
            forall|i: int, j: int|
                0 <= i < j < self.matches(area).len() ==> self.matches(area)[i].identity
                    != self.matches(area)[j].identity,
    {
        broadcast use vstd::seq_lib::group_to_multiset_ensures;

        let s = self.leaves();
        let m = self.matches(area);
        let p = QuadTree::match_pred(area);
        assert forall|x: QuadTreeLeaf| s.to_multiset().contains(x) implies s.to_multiset().count(
            x,
        ) == 1 by {
            assert(s.to_multiset().count(x) <= 1);
        }
        s.lemma_multiset_has_no_duplicates_conv();
        QuadTree::lemma_filter_no_duplicates(s, p);
        assert forall|i: int, j: int|
            0 <= i < j < m.len() implies m[i].identity != m[j].identity by {
            if m[i].identity == m[j].identity {
                assert(m.contains(m[i]));
                assert(m.contains(m[j]));
                s.lemma_filter_contains_rev(p, m[i]);
                s.lemma_filter_contains_rev(p, m[j]);
                assert(s.to_multiset().count(m[i]) > 0);
                assert(s.to_multiset().count(m[j]) > 0);
                assert(m[i] == m[j]);
            }
        }
    }

    /// A stored leaf is delivered by a query for any area its rectangle
    /// intersects; in particular, a far-away insertion that forced the root
    /// to grow is still found by a query for its own rectangle.
    pub proof fn lemma_inserted_leaf_found(self, lf: QuadTreeLeaf, area: QuadTreeBounds)
        requires
            self.contains_leaf(lf),
            area.spec_intersects(lf.bounds),
        ensures
            self.matches(area).contains(lf),
    {
        self.lemma_matches_iff(area, lf);
    }

    /// Append every leaf of `list` that intersects `area` to `results`.
    fn scan_list(list: &Vec<QuadTreeLeaf>, area: QuadTreeBounds, results: &mut Vec<QuadTreeLeaf>)
        ensures
            final(results)@ == old(results)@ + list@.filter(QuadTree::match_pred(area)),
    {
        let ghost p = QuadTree::match_pred(area);
        let mut k: usize = 0;
        while k < list.len()
            invariant
                k <= list@.len(),
                results@ == old(results)@ + list@.subrange(0, k as int).filter(p),
                p == QuadTree::match_pred(area),
            decreases list@.len() - k,
        {
            if area.intersects(list[k].bounds) {
                results.push(list[k]);
            }
            proof {
                broadcast use Seq::lemma_filter_push;
                broadcast use vstd::seq_lib::group_seq_lib_default;

                assert(list@.subrange(0, k as int + 1) == list@.subrange(0, k as int).push(
                    list@[k as int],
                ));
                assert(results@ =~= old(results)@ + list@.subrange(0, k as int + 1).filter(p));
            }
            k = k + 1;
        }
        proof {
            assert(list@.subrange(0, list@.len() as int) == list@);
        }
    }

    /// A filter over a sequence none of whose elements satisfy the
    /// predicate is empty.
    proof fn lemma_filter_none(s: Seq<QuadTreeLeaf>, p: spec_fn(QuadTreeLeaf) -> bool)
        requires
            forall|i: int| 0 <= i < s.len() ==> !p(#[trigger] s[i]),
        ensures
            s.filter(p) == Seq::<QuadTreeLeaf>::empty(),
    {
        broadcast use vstd::seq_lib::group_filter_ensures;

        if s.filter(p).len() > 0 {
            let e = s.filter(p)[0];
            assert(p(e));
            assert(s.filter(p).contains(e));
            s.lemma_filter_contains_rev(p, e);
            let i = choose|i: int| 0 <= i < s.len() && s[i] == e;
            assert(false);
        }
        assert(s.filter(p) =~= Seq::<QuadTreeLeaf>::empty());
    }

    /// A well-formed branch whose square does not intersect the queried
    /// area contributes no matches.
    proof fn lemma_skipped_branch_empty(c: QuadTree, area: QuadTreeBounds)
        requires
            c.node_wf(),
            !area.spec_intersects(c.bounds),
        ensures
            c.matches(area) == Seq::<QuadTreeLeaf>::empty(),
    {
        c.lemma_leaves_in_bounds();
        let s = c.leaves();
        let p = QuadTree::match_pred(area);
        assert forall|i: int| 0 <= i < s.len() implies !p(#[trigger] s[i]) by {
            assert(s.contains(s[i]));
            if area.spec_intersects(s[i].bounds) {
                lemma_intersects_contained(area, c.bounds, s[i].bounds);
            }
        }
        QuadTree::lemma_filter_none(s, p);
    }

    /// A fresh, empty, non-root branch covering the square at `(x, y)` with
    /// extent `size`.
    fn new_branch(x: i64, y: i64, size: i64) -> (r: QuadTree)
        ensures
            r.root == false,
            r.bounds == (QuadTreeBounds { x, y, w: size, h: size }),
            r.sequence == 0,
            r.items@ == Seq::<QuadTreeLeaf>::empty(),
            r.stuck@ == Seq::<QuadTreeLeaf>::empty(),
            r.top_left is None,
            r.top_right is None,
            r.bottom_right is None,
            r.bottom_left is None,
            r.leaves() == Seq::<QuadTreeLeaf>::empty(),
    {
        let r = QuadTree {
            root: false,
            bounds: QuadTreeBounds::new(x, y, size, size),
            sequence: 0,
            items: Vec::new(),
            stuck: Vec::new(),
            top_left: Option::None,
            top_right: Option::None,
            bottom_right: Option::None,
            bottom_left: Option::None,
        };
        proof {
            assert(r.leaves() =~= Seq::<QuadTreeLeaf>::empty());
        }
        r
    }

    /// A new, empty tree: a root square of extent `2 * half_size` centred on
    /// `(x, y)`, so that it covers the requested region.
    pub fn new(x: i64, y: i64, half_size: i64) -> (r: QuadTree)
        requires
            1 <= half_size,
            2 * half_size <= i64::MAX,
            i64::MIN <= x - half_size,
            i64::MIN <= y - half_size,
            x + half_size <= i64::MAX,
            y + half_size <= i64::MAX,
        ensures
            r.tree_wf(),
            r.leaves() == Seq::<QuadTreeLeaf>::empty(),
            r.sequence == 0,
            r.bounds == (QuadTreeBounds {
                x: (x - half_size) as i64,
                y: (y - half_size) as i64,
                w: (2 * half_size) as i64,
                h: (2 * half_size) as i64,
            }),
    {
        let r = QuadTree {
            root: true,
            bounds: QuadTreeBounds::new(x - half_size, y - half_size, half_size + half_size,
                half_size + half_size),
            sequence: 0,
            items: Vec::new(),
            stuck: Vec::new(),
            top_left: Option::None,
            top_right: Option::None,
            bottom_right: Option::None,
            bottom_left: Option::None,
        };
        proof {
            broadcast use vstd::multiset::group_multiset_axioms;

            assert(r.leaves() =~= Seq::<QuadTreeLeaf>::empty());
            vstd::seq_lib::to_multiset_len::<QuadTreeLeaf>(r.leaves());
            vstd::multiset::lemma_multiset_empty_len::<QuadTreeLeaf>(r.leaves().to_multiset());
            assert(r.leaves().to_multiset() =~= Multiset::<QuadTreeLeaf>::empty());
        }
        r
    }

    /// The quadrant of this node's bounds at index `q`.
    fn quadrant(&self, q: usize) -> (r: QuadTreeBounds)
        requires
            q < 4,
            bounds_ok(self.bounds),
        ensures
            r == spec_quadrant(self.bounds, q as int),
    {
        let half = self.bounds.w / 2;
        if q == 0 {
            QuadTreeBounds::new(self.bounds.x, self.bounds.y, half, half)
        } else if q == 1 {
            QuadTreeBounds::new(self.bounds.x + half, self.bounds.y, half, half)
        } else if q == 2 {
            QuadTreeBounds::new(self.bounds.x + half, self.bounds.y + half, half, half)
        } else {
            QuadTreeBounds::new(self.bounds.x, self.bounds.y + half, half, half)
        }
    }

    /// The quadrant index `target` fits in entirely, or -1 if it straddles a
    /// midline of this node.
    fn index(&self, target: QuadTreeBounds) -> (q: isize)
        requires
            bounds_ok(self.bounds),
        ensures
            q == spec_index(self.bounds, target),
    {
        if self.quadrant(0).contains(target) {
            0
        } else if self.quadrant(1).contains(target) {
            1
        } else if self.quadrant(3).contains(target) {
            3
        } else if self.quadrant(2).contains(target) {
            2
        } else {
            -1
        }
    }

    /// Push `lf` into the child slot for quadrant `q`, creating the child
    /// branch on first use.
    fn insert_into_branch(
        slot: &mut Option<Box<QuadTree>>,
        pb: QuadTreeBounds,
        q: usize,
        lf: QuadTreeLeaf,
    )
        requires
            q < 4,
            bounds_ok(pb),
            MIN_SUBDIVISION <= pb.w,
            QuadTree::branch_wf(pb, q as int, *old(slot)),
            spec_quadrant(pb, q as int).spec_contains(lf.bounds),
        ensures
            QuadTree::branch_wf(pb, q as int, *final(slot)),
            QuadTree::opt_leaves(*final(slot)).to_multiset() == QuadTree::opt_leaves(
                *old(slot),
            ).to_multiset().insert(lf),
        decreases pb.w, 0int,
    {
        let taken = slot.take();
        let mut child: Box<QuadTree> = match taken {
            Option::Some(c) => c,
            Option::None => {
                let half = pb.w / 2;
                let qb = if q == 0 {
                    QuadTreeBounds::new(pb.x, pb.y, half, half)
                } else if q == 1 {
                    QuadTreeBounds::new(pb.x + half, pb.y, half, half)
                } else if q == 2 {
                    QuadTreeBounds::new(pb.x + half, pb.y + half, half, half)
                } else {
                    QuadTreeBounds::new(pb.x, pb.y + half, half, half)
                };
                proof {
                    assert(qb == spec_quadrant(pb, q as int));
                }
                Box::new(QuadTree::new_branch(qb.x, qb.y, qb.w))
            },
        };
        proof {
            broadcast use vstd::multiset::group_multiset_axioms;

            if *old(slot) is None {
                assert(child.leaves().to_multiset() =~= QuadTree::opt_leaves(
                    *old(slot),
                ).to_multiset());
            }
        }
        (&mut *child).insert_leaf(lf);
        *slot = Option::Some(child);
    }

    /// Route one pending leaf: move it to `stuck` if it fits no quadrant or
    /// this node is at the minimum subdivision size, otherwise push it into
    /// the child branch for its quadrant.
    fn place_leaf(&mut self, lf: QuadTreeLeaf)
        requires
            old(self).node_wf(),
            old(self).bounds.spec_contains(lf.bounds),
        ensures
            final(self).node_wf(),
            final(self).bounds == old(self).bounds,
            final(self).root == old(self).root,
            final(self).sequence == old(self).sequence,
            final(self).items@ == old(self).items@,
            final(self).leaves().to_multiset() == old(self).leaves().to_multiset().insert(lf),
        decreases old(self).bounds.w, 1int,
    {
        proof {
            broadcast use vstd::seq_lib::group_to_multiset_ensures;
            broadcast use vstd::multiset::group_multiset_axioms;

            old(self).lemma_leaves_parts();
        }
        let q = self.index(lf.bounds);
        if q < 0 || self.bounds.w < MIN_SUBDIVISION {
            self.stuck.push(lf);
            proof {
                self.lemma_leaves_parts();
                assert(self.stuck@ == old(self).stuck@.push(lf));
                assert(self.leaves().to_multiset() =~= old(self).leaves().to_multiset().insert(
                    lf,
                ));
            }
            return ;
        }
        let pb = self.bounds;
        if q == 0 {
            QuadTree::insert_into_branch(&mut self.top_left, pb, 0, lf);
        } else if q == 1 {
            QuadTree::insert_into_branch(&mut self.top_right, pb, 1, lf);
        } else if q == 2 {
            QuadTree::insert_into_branch(&mut self.bottom_right, pb, 2, lf);
        } else {
            QuadTree::insert_into_branch(&mut self.bottom_left, pb, 3, lf);
        }
        proof {
            broadcast use vstd::multiset::group_multiset_axioms;

            self.lemma_leaves_parts();
            assert(self.leaves().to_multiset() =~= old(self).leaves().to_multiset().insert(lf));
        }
    }

    /// Append `lf` to this node's buffer; when the buffer fills (two
    /// entries), drain it by routing each pending leaf to `stuck` or into a
    /// child quadrant.  Deferring the first classification keeps sparse
    /// subtrees shallow.
    fn insert_leaf(&mut self, lf: QuadTreeLeaf)
        requires
            old(self).node_wf(),
            old(self).bounds.spec_contains(lf.bounds),
        ensures
            final(self).node_wf(),
            final(self).bounds == old(self).bounds,
            final(self).root == old(self).root,
            final(self).sequence == old(self).sequence,
            final(self).leaves().to_multiset() == old(self).leaves().to_multiset().insert(lf),
            1 <= final(self).leaves().len(),
        decreases old(self).bounds.w, 2int,
    {
        proof {
            broadcast use vstd::seq_lib::group_to_multiset_ensures;
            broadcast use vstd::multiset::group_multiset_axioms;

            old(self).lemma_leaves_parts();
        }
        self.items.push(lf);
        let ghost pushed = *self;
        proof {
            pushed.lemma_leaves_parts();
            assert(pushed.items@ == old(self).items@.push(lf));
            assert(pushed.leaves().to_multiset() =~= old(self).leaves().to_multiset().insert(lf));
            vstd::seq_lib::to_multiset_len::<QuadTreeLeaf>(pushed.leaves());
        }
        if self.items.len() < 2 {
            return ;
        }
        let second = self.items.pop().unwrap();
        let first = self.items.pop().unwrap();
        let ghost drained = *self;
        proof {
            drained.lemma_leaves_parts();
            assert(drained.items@ =~= Seq::<QuadTreeLeaf>::empty());
            assert(pushed.items@ =~= drained.items@.push(first).push(second));
            assert(pushed.leaves().to_multiset() =~= drained.leaves().to_multiset().insert(
                first,
            ).insert(second));
        }
        self.place_leaf(first);
        self.place_leaf(second);
        proof {
            assert(self.leaves().to_multiset() =~= old(self).leaves().to_multiset().insert(lf));
            vstd::seq_lib::to_multiset_len::<QuadTreeLeaf>(self.leaves());
        }
    }

    /// Insert a rectangle and its payload; the returned leaf is the handle
    /// for a later [`QuadTree::remove`].  If the root does not yet enclose
    /// the rectangle it grows first, doubling until it does; when growth
    /// would leave the representable coordinate range the insertion is
    /// refused: the stored leaves are then unchanged, and the root keeps
    /// whatever growth was already applied.
    pub fn insert(&mut self, bounds: QuadTreeBounds, item: i64) -> (r: Result<
        QuadTreeLeaf,
        QuadTreeError,
    >)
        requires
            old(self).tree_wf(),
            old(self).sequence < u64::MAX,
        ensures
            final(self).tree_wf(),
            final(self).bounds == grow_stop(old(self).bounds, bounds),
            r is Ok <==> grow_reaches(old(self).bounds, bounds),
            r is Ok ==> {
                &&& r->Ok_0 == (QuadTreeLeaf { identity: old(self).sequence, bounds, item })
                &&& final(self).sequence == old(self).sequence + 1
                &&& final(self).bounds.spec_contains(bounds)
                &&& forall|x: QuadTreeLeaf|
                    #![auto]
                    final(self).contains_leaf(x) <==> (old(self).contains_leaf(x) || x
                        == r->Ok_0)
            },
            r is Err ==> {
                &&& final(self).sequence == old(self).sequence
                &&& final(self).leaves() == old(self).leaves()
            },
    {
        loop
            invariant
                old(self).tree_wf(),
                old(self).sequence < u64::MAX,
                self.node_wf(),
                self.root,
                self.sequence == old(self).sequence,
                self.leaves() == old(self).leaves(),
                grow_reaches(self.bounds, bounds) == grow_reaches(old(self).bounds, bounds),
                grow_stop(self.bounds, bounds) == grow_stop(old(self).bounds, bounds),
            ensures
                self.node_wf(),
                self.root,
                self.sequence == old(self).sequence,
                self.leaves() == old(self).leaves(),
                self.bounds.spec_contains(bounds),
                grow_reaches(old(self).bounds, bounds),
                self.bounds == grow_stop(old(self).bounds, bounds),
            decreases i64::MAX - self.bounds.w,
        {
            if self.bounds.contains(bounds) {
                break ;
            }
            let xi = self.bounds.x as i128;
            let yi = self.bounds.y as i128;
            let wi = self.bounds.w as i128;
            let half = wi / 2;
            let can = xi - half >= i64::MIN as i128 && yi - half >= i64::MIN as i128 && 2 * wi
                <= i64::MAX as i128 && xi - half + 2 * wi <= i64::MAX as i128 && yi - half + 2
                * wi <= i64::MAX as i128;
            if !can {
                proof {
                    assert(!can_grow(self.bounds));
                    assert(!grow_reaches(self.bounds, bounds));
                    assert(grow_stop(self.bounds, bounds) == self.bounds);
                }
                return Result::Err(QuadTreeError::CoordinateOverflow);
            }
            proof {
                assert(can_grow(self.bounds));
                assert(grow_reaches(self.bounds, bounds) == grow_reaches(
                    grown(self.bounds),
                    bounds,
                ));
                assert(grow_stop(self.bounds, bounds) == grow_stop(grown(self.bounds), bounds));
            }
            self.grow();
        }
        let lf = QuadTreeLeaf::new(self.sequence, bounds, item);
        self.sequence = self.sequence + 1;
        let ghost pre = *self;
        self.insert_leaf(lf);
        proof {
            broadcast use vstd::multiset::group_multiset_axioms;
            broadcast use vstd::seq_lib::group_to_multiset_ensures;

            assert(self.leaves().to_multiset() == pre.leaves().to_multiset().insert(lf));
            assert(QuadTree::ms_unique(self.leaves().to_multiset()));
            assert forall|x: QuadTreeLeaf|
                self.contains_leaf(x) <==> (old(self).contains_leaf(x) || x == lf) by {
                let sm = self.leaves().to_multiset();
                let om = old(self).leaves().to_multiset();
                assert(self.leaves().contains(x) <==> sm.count(x) > 0);
                assert(old(self).leaves().contains(x) <==> om.count(x) > 0);
                assert(sm.count(x) == om.count(x) + (if x == lf {
                    1int
                } else {
                    0
                }));
            }
        }
        Result::Ok(lf)
    }

    /// True when this branch holds no leaves of its own and has no children:
    /// the condition under which pruning removes it from its parent.
    fn is_prunable(&self) -> (r: bool)
        ensures
            r == (self.items@.len() == 0 && self.stuck@.len() == 0 && self.top_left is None
                && self.top_right is None && self.bottom_right is None && self.bottom_left
                is None),
    {
        self.items.len() == 0 && self.stuck.len() == 0 && self.top_left.is_none()
            && self.top_right.is_none() && self.bottom_right.is_none()
            && self.bottom_left.is_none()
    }

    /// A well-formed branch that still holds a leaf or a child holds at
    /// least one leaf somewhere in its subtree.
    proof fn lemma_occupied_nonempty(self)
        requires
            self.node_wf(),
        ensures
            !(self.items@.len() == 0 && self.stuck@.len() == 0 && self.top_left is None
                && self.top_right is None && self.bottom_right is None && self.bottom_left
                is None) ==> 1 <= self.leaves().len(),
    {
    }

    /// Remove the first leaf with this identity from `list`, if any is
    /// there.
    fn remove_from_list(list: &mut Vec<QuadTreeLeaf>, id: u64) -> (found: bool)
        ensures
            found ==> exists|x: QuadTreeLeaf|
                old(list)@.to_multiset().count(x) > 0 && x.identity == id
                    && final(list)@.to_multiset() == old(list)@.to_multiset().remove(x),
            found ==> final(list)@.len() == old(list)@.len() - 1,
            found ==> forall|j: int|
                0 <= j < final(list)@.len() ==> old(list)@.contains(#[trigger] final(list)@[j]),
            !found ==> final(list)@ == old(list)@,
            !found ==> forall|j: int|
                0 <= j < old(list)@.len() ==> (#[trigger] old(list)@[j]).identity != id,
    {
        let mut i: usize = 0;
        while i < list.len()
            invariant
                i <= list@.len(),
                list@ == old(list)@,
                forall|j: int| 0 <= j < i ==> (#[trigger] list@[j]).identity != id,
            decreases list@.len() - i,
        {
            if list[i].identity == id {
                let ghost w = list@[i as int];
                list.remove(i);
                proof {
                    broadcast use vstd::seq_lib::group_to_multiset_ensures;

                    assert(old(list)@.to_multiset().count(w) > 0) by {
                        assert(old(list)@.contains(w));
                    }
                    assert(list@.to_multiset() == old(list)@.to_multiset().remove(w));
                    assert forall|j: int| 0 <= j < list@.len() implies old(list)@.contains(
                        #[trigger] list@[j],
                    ) by {
                        if j < i {
                            assert(list@[j] == old(list)@[j]);
                        } else {
                            assert(list@[j] == old(list)@[j + 1]);
                        }
                    }
                }
                return true;
            }
            i = i + 1;
        }
        false
    }

    /// Search this subtree for the leaf with this identity, remove it, and
    /// prune every branch the removal left empty and childless, walking back
    /// up the recursion.
    fn remove_rec(&mut self, id: u64) -> (found: bool)
        requires
            old(self).node_wf(),
        ensures
            final(self).node_wf(),
            final(self).bounds == old(self).bounds,
            final(self).root == old(self).root,
            final(self).sequence == old(self).sequence,
            found == old(self).has_id(id),
            !found ==> final(self).leaves() == old(self).leaves(),
            found ==> exists|x: QuadTreeLeaf|
                old(self).leaves().to_multiset().count(x) > 0 && x.identity == id
                    && final(self).leaves().to_multiset() == old(
                    self,
                ).leaves().to_multiset().remove(x),
        decreases *old(self),
    {
        proof {
            broadcast use vstd::multiset::group_multiset_axioms;
            broadcast use vstd::seq_lib::group_to_multiset_ensures;

            old(self).lemma_leaves_parts();
        }
        let found_items = QuadTree::remove_from_list(&mut self.items, id);
        if found_items {
            proof {
                self.lemma_leaves_parts();
                let x = choose|x: QuadTreeLeaf|
                    old(self).items@.to_multiset().count(x) > 0 && x.identity == id
                        && self.items@.to_multiset() == old(self).items@.to_multiset().remove(x);
                assert(self.leaves().to_multiset() =~= old(self).leaves().to_multiset().remove(
                    x,
                ));
                assert(old(self).leaves().to_multiset().count(x) > 0);
            }
            return true;
        }
        let found_stuck = QuadTree::remove_from_list(&mut self.stuck, id);
        if found_stuck {
            proof {
                self.lemma_leaves_parts();
                let x = choose|x: QuadTreeLeaf|
                    old(self).stuck@.to_multiset().count(x) > 0 && x.identity == id
                        && self.stuck@.to_multiset() == old(self).stuck@.to_multiset().remove(x);
                assert(self.leaves().to_multiset() =~= old(self).leaves().to_multiset().remove(
                    x,
                ));
                assert(old(self).leaves().to_multiset().count(x) > 0);
            }
            return true;
        }
        let pb = self.bounds;
        if QuadTree::remove_from_branch(&mut self.top_left, pb, 0, id) {
            proof {
                let x = choose|x: QuadTreeLeaf|
                    QuadTree::opt_leaves(old(self).top_left).to_multiset().count(x) > 0
                        && x.identity == id && QuadTree::opt_leaves(self.top_left).to_multiset()
                        == QuadTree::opt_leaves(old(self).top_left).to_multiset().remove(x);
                self.lemma_leaves_parts();
                assert(self.leaves().to_multiset() =~= old(self).leaves().to_multiset().remove(
                    x,
                ));
                assert(old(self).leaves().to_multiset().count(x) > 0);
                assert(old(self).has_id(id));
            }
            return true;
        }
        if QuadTree::remove_from_branch(&mut self.top_right, pb, 1, id) {
            proof {
                let x = choose|x: QuadTreeLeaf|
                    QuadTree::opt_leaves(old(self).top_right).to_multiset().count(x) > 0
                        && x.identity == id && QuadTree::opt_leaves(self.top_right).to_multiset()
                        == QuadTree::opt_leaves(old(self).top_right).to_multiset().remove(x);
                self.lemma_leaves_parts();
                assert(self.leaves().to_multiset() =~= old(self).leaves().to_multiset().remove(
                    x,
                ));
                assert(old(self).leaves().to_multiset().count(x) > 0);
                assert(old(self).has_id(id));
            }
            return true;
        }
        if QuadTree::remove_from_branch(&mut self.bottom_right, pb, 2, id) {
            proof {
                let x = choose|x: QuadTreeLeaf|
                    QuadTree::opt_leaves(old(self).bottom_right).to_multiset().count(x) > 0
                        && x.identity == id && QuadTree::opt_leaves(
                        self.bottom_right,
                    ).to_multiset() == QuadTree::opt_leaves(
                        old(self).bottom_right,
                    ).to_multiset().remove(x);
                self.lemma_leaves_parts();
                assert(self.leaves().to_multiset() =~= old(self).leaves().to_multiset().remove(
                    x,
                ));
                assert(old(self).leaves().to_multiset().count(x) > 0);
                assert(old(self).has_id(id));
            }
            return true;
        }
        if QuadTree::remove_from_branch(&mut self.bottom_left, pb, 3, id) {
            proof {
                let x = choose|x: QuadTreeLeaf|
                    QuadTree::opt_leaves(old(self).bottom_left).to_multiset().count(x) > 0
                        && x.identity == id && QuadTree::opt_leaves(
                        self.bottom_left,
                    ).to_multiset() == QuadTree::opt_leaves(
                        old(self).bottom_left,
                    ).to_multiset().remove(x);
                self.lemma_leaves_parts();
                assert(self.leaves().to_multiset() =~= old(self).leaves().to_multiset().remove(
                    x,
                ));
                assert(old(self).leaves().to_multiset().count(x) > 0);
                assert(old(self).has_id(id));
            }
            return true;
        }
        proof {
            assert(self.leaves() =~= old(self).leaves());
            assert(!old(self).has_id(id)) by {
                assert forall|x: QuadTreeLeaf|
                    old(self).leaves().to_multiset().count(x) > 0 implies x.identity != id by {
                    if old(self).items@.to_multiset().count(x) > 0 {
                        assert(old(self).items@.contains(x));
                    } else if old(self).stuck@.to_multiset().count(x) > 0 {
                        assert(old(self).stuck@.contains(x));
                    }
                }
            }
        }
        false
    }

    /// Search the child slot for quadrant `q` for the leaf with this
    /// identity; when the removal leaves the child empty and childless, the
    /// slot is cleared, destroying the branch.
    fn remove_from_branch(
        slot: &mut Option<Box<QuadTree>>,
        pb: QuadTreeBounds,
        q: usize,
        id: u64,
    ) -> (found: bool)
        requires
            q < 4,
            QuadTree::branch_wf(pb, q as int, *old(slot)),
        ensures
            QuadTree::branch_wf(pb, q as int, *final(slot)),
            found == exists|x: QuadTreeLeaf|
                QuadTree::opt_leaves(*old(slot)).to_multiset().count(x) > 0 && x.identity == id,
            !found ==> QuadTree::opt_leaves(*final(slot)) == QuadTree::opt_leaves(*old(slot)),
            found ==> exists|x: QuadTreeLeaf|
                QuadTree::opt_leaves(*old(slot)).to_multiset().count(x) > 0 && x.identity == id
                    && QuadTree::opt_leaves(*final(slot)).to_multiset() == QuadTree::opt_leaves(
                    *old(slot),
                ).to_multiset().remove(x),
        decreases *old(slot),
    {
        proof {
            broadcast use vstd::multiset::group_multiset_axioms;
            broadcast use vstd::seq_lib::group_to_multiset_ensures;

        }
        if slot.is_none() {
            proof {
                assert(QuadTree::opt_leaves(*old(slot)) == Seq::<QuadTreeLeaf>::empty());
                assert forall|x: QuadTreeLeaf|
                    !(QuadTree::opt_leaves(*old(slot)).to_multiset().count(x) > 0) by {
                    if QuadTree::opt_leaves(*old(slot)).to_multiset().count(x) > 0 {
                        assert(QuadTree::opt_leaves(*old(slot)).contains(x));
                    }
                }
            }
            return false;
        }
        let mut c = slot.take().unwrap();
        let ghost c0 = *c;
        proof {
            assert(QuadTree::opt_leaves(*old(slot)) == c0.leaves());
        }
        let found = (&mut *c).remove_rec(id);
        if found {
            proof {
                let x = choose|x: QuadTreeLeaf|
                    c0.leaves().to_multiset().count(x) > 0 && x.identity == id
                        && c.leaves().to_multiset() == c0.leaves().to_multiset().remove(x);
                assert(QuadTree::opt_leaves(*old(slot)).to_multiset().count(x) > 0
                    && x.identity == id);
            }
            if !c.is_prunable() {
                proof {
                    c.lemma_occupied_nonempty();
                }
                *slot = Option::Some(c);
                proof {
                    assert(QuadTree::opt_leaves(*slot) == c.leaves());
                }
            } else {
                proof {
                    assert(c.leaves() =~= Seq::<QuadTreeLeaf>::empty());
                    assert(QuadTree::opt_leaves(*slot) == Seq::<QuadTreeLeaf>::empty());
                    assert(QuadTree::opt_leaves(*slot).to_multiset()
                        =~= c.leaves().to_multiset());
                }
            }
            return true;
        }
        *slot = Option::Some(c);
        proof {
            assert(QuadTree::opt_leaves(*slot) == c.leaves());
            assert forall|x: QuadTreeLeaf|
                !(QuadTree::opt_leaves(*old(slot)).to_multiset().count(x) > 0 && x.identity
                    == id) by {
                if c0.leaves().to_multiset().count(x) > 0 && x.identity == id {
                    assert(c0.has_id(id));
                }
            }
        }
        false
    }

    /// Remove the leaf this handle was issued for, pruning every branch the
    /// removal leaves empty and childless (the root itself is never pruned).
    /// Returns whether the leaf was still present; removing with a handle
    /// that was already removed returns false.
    pub fn remove(&mut self, leaf: &QuadTreeLeaf) -> (r: bool)
        requires
            old(self).tree_wf(),
            old(self).contains_leaf(*leaf) || !old(self).has_id(leaf.identity),
        ensures
            final(self).tree_wf(),
            final(self).bounds == old(self).bounds,
            final(self).sequence == old(self).sequence,
            r == old(self).has_id(leaf.identity),
            !r ==> final(self).leaves() == old(self).leaves(),
            forall|x: QuadTreeLeaf|
                #![auto]
                final(self).contains_leaf(x) <==> (old(self).contains_leaf(x) && x.identity
                    != leaf.identity),
    {
        let r = self.remove_rec(leaf.identity);
        proof {
            broadcast use vstd::multiset::group_multiset_axioms;
            broadcast use vstd::seq_lib::group_to_multiset_ensures;

            let om = old(self).leaves().to_multiset();
            let sm = self.leaves().to_multiset();
            if r {
                let x = choose|x: QuadTreeLeaf|
                    om.count(x) > 0 && x.identity == leaf.identity && sm == om.remove(x);
                assert forall|y: QuadTreeLeaf|
                    self.contains_leaf(y) <==> (old(self).contains_leaf(y) && y.identity
                        != leaf.identity) by {
                    assert(self.leaves().contains(y) <==> sm.count(y) > 0);
                    assert(old(self).leaves().contains(y) <==> om.count(y) > 0);
                }
            } else {
                assert forall|y: QuadTreeLeaf|
                    self.contains_leaf(y) <==> (old(self).contains_leaf(y) && y.identity
                        != leaf.identity) by {
                    assert(self.leaves().contains(y) <==> sm.count(y) > 0);
                }
            }
        }
        r
    }

    /// One growth step of the root: every occupied child slot is wrapped one
    /// level deeper inside a fresh branch at the opposite quadrant index, and
    /// the root's square doubles in place around its centre.
    fn grow(&mut self)
        requires
            old(self).node_wf(),
            old(self).root,
            can_grow(old(self).bounds),
        ensures
            final(self).node_wf(),
            final(self).root == old(self).root,
            final(self).sequence == old(self).sequence,
            final(self).bounds == grown(old(self).bounds),
            final(self).leaves() == old(self).leaves(),
            final(self).items@ == old(self).items@,
            final(self).stuck@ == old(self).stuck@,
    {
        let x = self.bounds.x;
        let y = self.bounds.y;
        let size = self.bounds.w;
        let half = size / 2;
        let ghost nb = grown(old(self).bounds);
        proof {
            assert(size % 2 == 0);
            assert(nb.w / 2 == size);
        }

        if self.top_left.is_some() {
            let child = self.top_left.take();
            let mut wrap = QuadTree::new_branch(x - half, y - half, size);
            wrap.bottom_right = child;
            proof {
                assert(wrap.leaves() =~= QuadTree::opt_leaves(old(self).top_left));
                assert(QuadTree::branch_wf(old(self).bounds, 0, old(self).top_left));
                assert(wrap.bounds == spec_quadrant(nb, 0));
                assert(spec_quadrant(wrap.bounds, 2) == spec_quadrant(old(self).bounds, 0));
                assert(QuadTree::branch_wf(wrap.bounds, 2, wrap.bottom_right));
                assert(wrap.node_wf());
            }
            self.top_left = Option::Some(Box::new(wrap));
        }
        if self.top_right.is_some() {
            let child = self.top_right.take();
            let mut wrap = QuadTree::new_branch(x + half, y - half, size);
            wrap.bottom_left = child;
            proof {
                assert(wrap.leaves() =~= QuadTree::opt_leaves(old(self).top_right));
                assert(QuadTree::branch_wf(old(self).bounds, 1, old(self).top_right));
                assert(wrap.bounds == spec_quadrant(nb, 1));
                assert(spec_quadrant(wrap.bounds, 3) == spec_quadrant(old(self).bounds, 1));
                assert(QuadTree::branch_wf(wrap.bounds, 3, wrap.bottom_left));
                assert(wrap.node_wf());
            }
            self.top_right = Option::Some(Box::new(wrap));
        }
        if self.bottom_right.is_some() {
            let child = self.bottom_right.take();
            let mut wrap = QuadTree::new_branch(x + half, y + half, size);
            wrap.top_left = child;
            proof {
                assert(wrap.leaves() =~= QuadTree::opt_leaves(old(self).bottom_right));
                assert(QuadTree::branch_wf(old(self).bounds, 2, old(self).bottom_right));
                assert(wrap.bounds == spec_quadrant(nb, 2));
                assert(spec_quadrant(wrap.bounds, 0) == spec_quadrant(old(self).bounds, 2));
                assert(QuadTree::branch_wf(wrap.bounds, 0, wrap.top_left));
                assert(wrap.node_wf());
            }
            self.bottom_right = Option::Some(Box::new(wrap));
        }
        if self.bottom_left.is_some() {
            let child = self.bottom_left.take();
            let mut wrap = QuadTree::new_branch(x - half, y + half, size);
            wrap.top_right = child;
            proof {
                assert(wrap.leaves() =~= QuadTree::opt_leaves(old(self).bottom_left));
                assert(QuadTree::branch_wf(old(self).bounds, 3, old(self).bottom_left));
                assert(wrap.bounds == spec_quadrant(nb, 3));
                assert(spec_quadrant(wrap.bounds, 1) == spec_quadrant(old(self).bounds, 3));
                assert(QuadTree::branch_wf(wrap.bounds, 1, wrap.top_right));
                assert(wrap.node_wf());
            }
            self.bottom_left = Option::Some(Box::new(wrap));
        }
        self.bounds = QuadTreeBounds::new(x - half, y - half, size + size, size + size);
        proof {
            assert(self.bounds == nb);
            assert(QuadTree::opt_leaves(self.top_left) == QuadTree::opt_leaves(
                old(self).top_left,
            ));
            assert(QuadTree::opt_leaves(self.top_right) == QuadTree::opt_leaves(
                old(self).top_right,
            ));
            assert(QuadTree::opt_leaves(self.bottom_right) == QuadTree::opt_leaves(
                old(self).bottom_right,
            ));
            assert(QuadTree::opt_leaves(self.bottom_left) == QuadTree::opt_leaves(
                old(self).bottom_left,
            ));
            assert(self.leaves() == old(self).leaves());
            assert forall|i: int| 0 <= i < self.items@.len() implies self.bounds.spec_contains(
                (#[trigger] self.items@[i]).bounds,
            ) by {
                lemma_contains_transitive(self.bounds, old(self).bounds, self.items@[i].bounds);
            }
            assert forall|i: int| 0 <= i < self.stuck@.len() implies self.bounds.spec_contains(
                (#[trigger] self.stuck@[i]).bounds,
            ) by {
                lemma_contains_transitive(self.bounds, old(self).bounds, self.stuck@[i].bounds);
            }
            assert(QuadTree::branch_wf(self.bounds, 0, self.top_left));
            assert(QuadTree::branch_wf(self.bounds, 1, self.top_right));
            assert(QuadTree::branch_wf(self.bounds, 2, self.bottom_right));
            assert(QuadTree::branch_wf(self.bounds, 3, self.bottom_left));
        }
    }
}

} // verus!
