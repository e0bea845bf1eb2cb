use vstd::prelude::*;
use crate::geom::rect::LineRange;
use crate::split::fragment::Fragment;
use crate::split::line_mark::LineMark;
use crate::split::solver::{cross_marks, SplitSolver};
use crate::split::space_layout::{pow2_of, MAX_POWER};

verus! {

/// A node of the interval tree: a vertical range and the fragments whose
/// extent holds the middle of the range, or that reached a leaf.
#[derive(Debug)]
pub struct IntervalNode {
    pub range: LineRange,
    pub fragments: Vec<Fragment>,
}

/// What a node holds.
pub struct NodeView {
    pub range: LineRange,
    pub fragments: Seq<Fragment>,
}

impl View for IntervalNode {
    type V = NodeView;

    open spec fn view(&self) -> NodeView {
        NodeView { range: self.range, fragments: self.fragments@ }
    }
}

/// The middle of a range.
pub open spec fn middle_of(range: LineRange) -> int {
    range.min + (range.max - range.min) / 2
}

impl IntervalNode {
    /// The middle of the node's range.
    pub fn middle(&self) -> (m: i64)
        requires
            self.range.min <= self.range.max,
        ensures
            m == middle_of(self.range),
            self.range.min <= m <= self.range.max,
    {
        self.range.min as i64 + (self.range.max as i64 - self.range.min as i64) / 2
    }
}

/// An interval tree over a vertical range. Node `i` has the children
/// `2 * i + 1` and `2 * i + 2`, which halve its range.
#[derive(Debug)]
pub struct SegmentTree {
    pub power: usize,
    pub nodes: Vec<IntervalNode>,
    pub radius: i64,
}

impl View for SegmentTree {
    type V = Seq<NodeView>;

    open spec fn view(&self) -> Seq<NodeView> {
        Seq::new(self.nodes@.len(), |i: int| self.nodes@[i]@)
    }
}

/// The range of node `k` of a tree over `root`: a left child has the lower
/// half of its parent's range, a right child the upper half.
pub open spec fn node_range(root: LineRange, k: nat) -> LineRange
    decreases k,
{
    if k == 0 {
        root
    } else {
        let parent = node_range(root, ((k - 1) / 2) as nat);
        if k % 2 == 1 {
            LineRange { min: parent.min, max: middle_of(parent) as i32 }
        } else {
            LineRange { min: middle_of(parent) as i32, max: parent.max }
        }
    }
}

/// The number of levels of a tree that is asked to have `power` levels: at
/// least one and at most `MAX_POWER`.
pub open spec fn levels_of(power: usize) -> nat {
    if power > MAX_POWER {
        MAX_POWER as nat
    } else if power < 1 {
        1
    } else {
        power as nat
    }
}

/// The nodes of an empty tree of `count` nodes over `root`.
pub open spec fn empty_nodes(root: LineRange, count: nat) -> Seq<NodeView> {
    Seq::new(count, |k: int| NodeView { range: node_range(root, k as nat), fragments: Seq::empty() })
}

/// The nodes of an empty tree over `root` that is asked to have `power`
/// levels.
pub open spec fn new_nodes(root: LineRange, power: usize) -> Seq<NodeView> {
    empty_nodes(root, (crate::solver::pow2(levels_of(power)) - 1) as nat)
}

/// The nodes after `fragment` is stored at the node that `slot` gives for its
/// vertical range.
pub open spec fn inserted(nodes: Seq<NodeView>, power: nat, fragment: Fragment) -> Seq<NodeView> {
    let at = slot(nodes, 0, power, fragment.rect.y_range_spec());
    nodes.update(at, NodeView { range: nodes[at].range, fragments: nodes[at].fragments.push(fragment) })
}

/// The marks of the pair `f`, `g`, tested with the lesser segment first.
pub open spec fn ordered_cross_marks(f: Fragment, g: Fragment, radius: int) -> (Seq<LineMark>, bool) {
    if f.x_segment.spec_less(g.x_segment) {
        cross_marks(f, g, radius)
    } else {
        cross_marks(g, f, radius)
    }
}

/// The marks of the pair `f`, `g` where their rectangles meet, and none
/// where they are apart.
pub open spec fn tested_marks(f: Fragment, g: Fragment, radius: int) -> (Seq<LineMark>, bool) {
    if f.rect.spec_is_intersect_border_include(g.rect) {
        ordered_cross_marks(f, g, radius)
    } else {
        (Seq::empty(), false)
    }
}

/// The marks of `this` against the fragments of `stored` from `k` on.
pub open spec fn bucket_marks(stored: Seq<Fragment>, k: int, this: Fragment, radius: int) -> (
    Seq<LineMark>,
    bool,
)
    decreases stored.len() - k,
{
    if k < 0 || k >= stored.len() {
        (Seq::empty(), false)
    } else {
        let here = tested_marks(this, stored[k], radius);
        let rest = bucket_marks(stored, k + 1, this, radius);
        (here.0 + rest.0, here.1 || rest.1)
    }
}

/// Whether every node has a range that is not empty.
pub open spec fn ranges_ok(nodes: Seq<NodeView>) -> bool {
    forall|i: int| 0 <= i < nodes.len() ==> (#[trigger] nodes[i]).range.min <= nodes[i].range.max
}

/// The node at which a fragment with the given vertical range is stored when
/// the search starts at node `i` with `fuel` levels to go: the search moves
/// to the left child while the range lies below the middle, to the right
/// child while it lies above, and stops where neither holds or no child is
/// left.
pub open spec fn slot(nodes: Seq<NodeView>, i: int, fuel: nat, range: LineRange) -> int
    decreases fuel,
{
    if fuel == 0 || i < 0 || 2 * i + 2 >= nodes.len() {
        i
    } else if range.max < middle_of(nodes[i].range) {
        slot(nodes, 2 * i + 1, (fuel - 1) as nat, range)
    } else if range.min > middle_of(nodes[i].range) {
        slot(nodes, 2 * i + 2, (fuel - 1) as nat, range)
    } else {
        i
    }
}

/// The marks of `this` against what the subtree of node `i` stores, as far
/// as the vertical range of `this` reaches into it.
pub open spec fn subtree_marks(nodes: Seq<NodeView>, i: int, fuel: nat, this: Fragment, radius: int) -> (
    Seq<LineMark>,
    bool,
)
    decreases fuel,
{
    if i < 0 || i >= nodes.len() {
        (Seq::empty(), false)
    } else {
        let here = bucket_marks(nodes[i].fragments, 0, this, radius);
        if fuel == 0 || 2 * i + 2 >= nodes.len() {
            here
        } else {
            let left = if this.rect.min_y < middle_of(nodes[i].range) {
                subtree_marks(nodes, 2 * i + 1, (fuel - 1) as nat, this, radius)
            } else {
                (Seq::empty(), false)
            };
            let right = if this.rect.max_y > middle_of(nodes[i].range) {
                subtree_marks(nodes, 2 * i + 2, (fuel - 1) as nat, this, radius)
            } else {
                (Seq::empty(), false)
            };
            (here.0 + left.0 + right.0, here.1 || left.1 || right.1)
        }
    }
}

impl SegmentTree {
    /// Whether the tree is well formed.
    pub open spec fn wf(&self) -> bool {
        &&& self.nodes.len() >= 1
        &&& self.nodes.len() <= 0x2000
        &&& ranges_ok(self@)
    }

    /// An empty tree over `range` with `power` levels, at least one and at
    /// most `MAX_POWER`.
    pub fn new(range: LineRange, power: usize, radius: i64) -> (tree: SegmentTree)
        requires
            range.min <= range.max,
        ensures
            tree.wf(),
            tree@ == new_nodes(range, power),
            tree.power == levels_of(power),
            tree.radius == radius,
    {
        let levels: usize = if power > MAX_POWER {
            MAX_POWER
        } else if power < 1 {
            1
        } else {
            power
        };
        proof {
            crate::solver::lemma_pow2_monotonic(levels as nat, 12);
            crate::split::space_layout::lemma_pow2_64();
        }
        let count: usize = (pow2_of(levels) - 1) as usize;
        let mut nodes: Vec<IntervalNode> = Vec::new();
        nodes.push(IntervalNode { range, fragments: Vec::new() });
        let mut k: usize = 1;
        while k < count
            invariant
                1 <= k,
                k <= count || k == 1,
                count <= 4095,
                range.min <= range.max,
                nodes.len() == k,
                forall|i: int|
                    0 <= i < nodes.len() ==> (#[trigger] nodes@[i]).range == node_range(range, i as nat)
                        && nodes@[i].range.min <= nodes@[i].range.max && nodes@[i].fragments@.len() == 0,
            decreases count + 1 - k,
        {
            let parent: usize = (k - 1) / 2;
            let pr: LineRange = nodes[parent].range;
            let mid: i64 = nodes[parent].middle();
            let child: LineRange = if k % 2 == 1 {
                LineRange { min: pr.min, max: mid as i32 }
            } else {
                LineRange { min: mid as i32, max: pr.max }
            };
            nodes.push(IntervalNode { range: child, fragments: Vec::new() });
            k += 1;
        }
        let tree: SegmentTree = SegmentTree { power: levels, nodes, radius };
        proof {
            assert(count >= 1) by {
                crate::solver::lemma_pow2_monotonic(1, levels as nat);
                assert(crate::solver::pow2(1) == 2) by {
                    reveal_with_fuel(crate::solver::pow2, 2);
                }
            }
            assert forall|q: int| 0 <= q < tree@.len() implies (#[trigger] tree@[q]) == new_nodes(range, power)[q] by {
                assert(tree.nodes@[q].fragments@ =~= Seq::<Fragment>::empty());
            }
            assert(tree@ =~= new_nodes(range, power));
            assert forall|q: int| 0 <= q < tree@.len() implies (#[trigger] tree@[q]).range.min
                <= tree@[q].range.max by {
                assert(tree@[q] == tree.nodes@[q]@);
            }
        }
        tree
    }

    /// Stores a fragment at the node that `slot` gives for its vertical
    /// range.
    pub fn insert(&mut self, fragment: Fragment)
        requires
            old(self).wf(),
        ensures
            final(self).wf(),
            final(self).power == old(self).power,
            final(self).radius == old(self).radius,
            final(self)@ == inserted(old(self)@, old(self).power as nat, fragment),
    {
        let range: LineRange = fragment.rect.y_range();
        let n: usize = self.nodes.len();
        let mut i: usize = 0;
        let mut fuel: usize = self.power;
        let mut done: bool = false;
        while !done && fuel > 0 && 2 * i + 2 < n
            invariant
                n == self.nodes.len(),
                n <= 0x2000,
                i < n,
                self.wf(),
                *self == *old(self),
                done ==> slot(self@, i as int, fuel as nat, range) == i,
                slot(self@, i as int, fuel as nat, range) == slot(self@, 0, self.power as nat, range),
            decreases fuel + (if done { 0int } else { 1int }),
        {
            assert(self@[i as int] == self.nodes@[i as int]@);
            let middle: i64 = self.nodes[i].middle();
            if (range.max as i64) < middle {
                i = 2 * i + 1;
                fuel -= 1;
            } else if range.min as i64 > middle {
                i = 2 * i + 2;
                fuel -= 1;
            } else {
                done = true;
            }
        }
        self.nodes[i].fragments.push(fragment);
        proof {
            assert(self@ =~= inserted(old(self)@, old(self).power as nat, fragment));
        }
    }

    /// Tests `this` against the stored fragments of the subtree of node `i`
    /// that its vertical range reaches.
    fn intersect_node(&self, i: usize, fuel: usize, this: &Fragment, marks: &mut Vec<LineMark>) -> (r: bool)
        requires
            self.wf(),
        ensures
            final(marks)@ == old(marks)@ + subtree_marks(
                self@,
                i as int,
                fuel as nat,
                *this,
                self.radius as int,
            ).0,
            r == subtree_marks(self@, i as int, fuel as nat, *this, self.radius as int).1,
        decreases fuel,
    {
        let n: usize = self.nodes.len();
        if i >= n {
            return false;
        }
        let mut any_round: bool = false;
        let count: usize = self.nodes[i].fragments.len();
        let ghost stored: Seq<Fragment> = self@[i as int].fragments;
        let mut k: usize = 0;
        while k < count
            invariant
                i < n,
                n == self.nodes.len(),
                stored == self.nodes@[i as int].fragments@,
                count == stored.len(),
                k <= count,
                marks@ + bucket_marks(stored, k as int, *this, self.radius as int).0 == old(marks)@
                    + bucket_marks(stored, 0, *this, self.radius as int).0,
                (any_round || bucket_marks(stored, k as int, *this, self.radius as int).1) == bucket_marks(
                    stored,
                    0,
                    *this,
                    self.radius as int,
                ).1,
            decreases count - k,
        {
            let other: Fragment = self.nodes[i].fragments[k];
            if this.rect.is_intersect_border_include(&other.rect) {
                let is_round: bool = if this.x_segment.less(&other.x_segment) {
                    SplitSolver::cross_fragments(this, &other, marks, self.radius)
                } else {
                    SplitSolver::cross_fragments(&other, this, marks, self.radius)
                };
                any_round = any_round || is_round;
            }
            k += 1;
        }
        if fuel == 0 || 2 * i + 2 >= n {
            return any_round;
        }
        assert(self@[i as int] == self.nodes@[i as int]@);
        let middle: i64 = self.nodes[i].middle();
        if (this.rect.min_y as i64) < middle {
            let left: bool = self.intersect_node(2 * i + 1, fuel - 1, this, marks);
            any_round = any_round || left;
        }
        if this.rect.max_y as i64 > middle {
            let right: bool = self.intersect_node(2 * i + 2, fuel - 1, this, marks);
            any_round = any_round || right;
        }
        any_round
    }

    /// Tests `this` against every stored fragment that its vertical range
    /// can reach and whose rectangle meets its own, appends the marks, and
    /// tells whether a pair calls for another pass.
    pub fn intersect(&self, this: &Fragment, marks: &mut Vec<LineMark>) -> (r: bool)
        requires
            self.wf(),
        ensures
            final(marks)@ == old(marks)@ + subtree_marks(
                self@,
                0,
                self.power as nat,
                *this,
                self.radius as int,
            ).0,
            r == subtree_marks(self@, 0, self.power as nat, *this, self.radius as int).1,
    {
        self.intersect_node(0, self.power, this, marks)
    }

    /// Removes every stored fragment.
    pub fn clear(&mut self)
        requires
            old(self).wf(),
        ensures
            final(self).wf(),
            final(self).power == old(self).power,
            final(self).radius == old(self).radius,
            final(self)@ == cleared(old(self)@),
    {
        let n: usize = self.nodes.len();
        let mut i: usize = 0;
        while i < n
            invariant
                n == self.nodes.len(),
                n == old(self).nodes.len(),
                i <= n,
                self.wf(),
                ranges_ok(old(self)@),
                self.power == old(self).power,
                self.radius == old(self).radius,
                forall|k: int| 0 <= k < i ==> (#[trigger] self.nodes@[k]).fragments@.len() == 0,
                forall|k: int| 0 <= k < n ==> (#[trigger] self.nodes@[k]).range == old(self).nodes@[k].range,
            decreases n - i,
        {
            self.nodes[i].fragments.clear();
            proof {
                assert forall|q: int| 0 <= q < self@.len() implies (#[trigger] self@[q]).range.min
                    <= self@[q].range.max by {
                    assert(self@[q] == self.nodes@[q]@);
                    assert(old(self)@[q] == old(self).nodes@[q]@);
                    assert(self@[q].range == old(self)@[q].range);
                }
            }
            i += 1;
        }
        proof {
            assert(self@ =~= cleared(old(self)@)) by {
                assert forall|q: int| 0 <= q < n implies (#[trigger] self@[q]) == cleared(old(self)@)[q] by {
                    assert(self.nodes@[q].fragments@ =~= Seq::<Fragment>::empty());
                }
            }
        }
    }
}

/// The nodes with their ranges and without their fragments.
pub open spec fn cleared(nodes: Seq<NodeView>) -> Seq<NodeView> {
    Seq::new(nodes.len(), |k: int| NodeView { range: nodes[k].range, fragments: Seq::empty() })
}

/// The node that `slot` gives is a node of the tree.
pub proof fn lemma_slot_in_range(nodes: Seq<NodeView>, i: int, fuel: nat, range: LineRange)
    requires
        0 <= i < nodes.len(),
    ensures
        0 <= slot(nodes, i, fuel, range) < nodes.len(),
    decreases fuel,
{
    if fuel == 0 || 2 * i + 2 >= nodes.len() {
    } else if range.max < middle_of(nodes[i].range) {
        lemma_slot_in_range(nodes, 2 * i + 1, (fuel - 1) as nat, range);
    } else if range.min > middle_of(nodes[i].range) {
        lemma_slot_in_range(nodes, 2 * i + 2, (fuel - 1) as nat, range);
    }
}

/// Storing a fragment changes no range.
pub proof fn lemma_inserted_ranges(nodes: Seq<NodeView>, power: nat, fragment: Fragment)
    requires
        nodes.len() >= 1,
    ensures
        inserted(nodes, power, fragment).len() == nodes.len(),
        forall|k: int|
            0 <= k < nodes.len() ==> (#[trigger] inserted(nodes, power, fragment)[k]).range == nodes[k].range,
{
    lemma_slot_in_range(nodes, 0, power, fragment.rect.y_range_spec());
}

} // verus!
