use vstd::prelude::*;
use crate::geom::rect::LineRange;
use crate::segm::count::WindingCount;
use crate::segm::segment::{all_wf, Segment};
use crate::solver::Solver;
use crate::split::fragment::Fragment;
use crate::split::line_mark::LineMark;
use crate::split::list_laws::{no_crossings, no_pure_crossings};
use crate::split::segment_tree::{
    cleared, inserted, lemma_inserted_ranges, levels_of, new_nodes, subtree_marks, NodeView, SegmentTree,
};
use crate::split::slab_laws::{lemma_complex_run_no_residual_crossings, lemma_tree_run_no_residual_crossings};
use crate::split::solver::{applied, is_settled, list_run, whole, SplitEnd, SplitSolver, MAX_PASSES};
use crate::split::tree_laws::lemma_simple_run_no_residual_crossings;
use crate::split::space_layout::{SpaceLayout, MIN_HEIGHT};

verus! {

/// Whether `y` is the second coordinate of an end of one of the segments.
pub open spec fn is_end_y<C: WindingCount>(segments: Seq<Segment<C>>, y: int) -> bool {
    exists|i: int|
        0 <= i < segments.len() && ((#[trigger] segments[i]).x_segment.a.y == y
            || segments[i].x_segment.b.y == y)
}

/// Whether `range` is the vertical extent of the segments: it reaches from
/// the least to the greatest second coordinate of their ends.
pub open spec fn is_ver_range<C: WindingCount>(segments: Seq<Segment<C>>, range: LineRange) -> bool {
    &&& forall|i: int|
        0 <= i < segments.len() ==> range.min <= (#[trigger] segments[i]).x_segment.a.y <= range.max
    &&& forall|i: int|
        0 <= i < segments.len() ==> range.min <= (#[trigger] segments[i]).x_segment.b.y <= range.max
    &&& is_end_y(segments, range.min as int)
    &&& is_end_y(segments, range.max as int)
}

/// The vertical extent of a working set: there is one range only that
/// reaches from the least to the greatest second coordinate.
pub open spec fn spec_ver_range<C: WindingCount>(segments: Seq<Segment<C>>) -> LineRange {
    choose|range: LineRange| is_ver_range(segments, range)
}

/// Two ranges that are the vertical extent of one working set are equal.
pub proof fn lemma_ver_range_unique<C: WindingCount>(segments: Seq<Segment<C>>, p: LineRange, q: LineRange)
    requires
        is_ver_range(segments, p),
        is_ver_range(segments, q),
    ensures
        p == q,
{
    let i = choose|i: int|
        0 <= i < segments.len() && ((#[trigger] segments[i]).x_segment.a.y == p.min
            || segments[i].x_segment.b.y == p.min);
    let j = choose|i: int|
        0 <= i < segments.len() && ((#[trigger] segments[i]).x_segment.a.y == q.min
            || segments[i].x_segment.b.y == q.min);
    let k = choose|i: int|
        0 <= i < segments.len() && ((#[trigger] segments[i]).x_segment.a.y == p.max
            || segments[i].x_segment.b.y == p.max);
    let l = choose|i: int|
        0 <= i < segments.len() && ((#[trigger] segments[i]).x_segment.a.y == q.max
            || segments[i].x_segment.b.y == q.max);
    assert(q.min <= segments[i].x_segment.a.y && q.min <= segments[i].x_segment.b.y);
    assert(p.min <= segments[j].x_segment.a.y && p.min <= segments[j].x_segment.b.y);
    assert(segments[k].x_segment.a.y <= q.max && segments[k].x_segment.b.y <= q.max);
    assert(segments[l].x_segment.a.y <= p.max && segments[l].x_segment.b.y <= p.max);
}

/// The vertical extent of a working set that is not empty.
pub fn ver_range<C: WindingCount>(segments: &Vec<Segment<C>>) -> (r: LineRange)
    requires
        segments.len() > 0,
    ensures
        is_ver_range(segments@, r),
        r == spec_ver_range(segments@),
        r.min <= r.max,
{
    let mut min_y: i32 = segments[0].x_segment.a.y;
    let mut max_y: i32 = min_y;
    let n: usize = segments.len();
    let mut i: usize = 0;
    while i < n
        invariant
            n == segments.len(),
            n > 0,
            i <= n,
            min_y <= max_y,
            forall|k: int| 0 <= k < i ==> min_y <= (#[trigger] segments@[k]).x_segment.a.y <= max_y,
            forall|k: int| 0 <= k < i ==> min_y <= (#[trigger] segments@[k]).x_segment.b.y <= max_y,
            is_end_y(segments@, min_y as int),
            is_end_y(segments@, max_y as int),
        decreases n - i,
    {
        let a_y: i32 = segments[i].x_segment.a.y;
        let b_y: i32 = segments[i].x_segment.b.y;
        if a_y < min_y {
            min_y = a_y;
        }
        if a_y > max_y {
            max_y = a_y;
        }
        if b_y < min_y {
            min_y = b_y;
        }
        if b_y > max_y {
            max_y = b_y;
        }
        i += 1;
    }
    let r: LineRange = LineRange { min: min_y, max: max_y };
    proof {
        assert(is_ver_range(segments@, r));
        assert(exists|range: LineRange| is_ver_range(segments@, range));
        lemma_ver_range_unique(segments@, r, spec_ver_range(segments@));
    }
    r
}

/// The marks of a pass over a tree that holds `nodes`, from fragment `k` on:
/// each fragment is tested against the tree and then stored in it.
pub open spec fn tree_pass_from(
    nodes: Seq<NodeView>,
    power: nat,
    fragments: Seq<Fragment>,
    k: int,
    radius: int,
) -> (Seq<LineMark>, bool)
    decreases fragments.len() - k,
{
    if k < 0 || k >= fragments.len() {
        (Seq::empty(), false)
    } else {
        let here = subtree_marks(nodes, 0, power, fragments[k], radius);
        let rest = tree_pass_from(inserted(nodes, power, fragments[k]), power, fragments, k + 1, radius);
        (here.0 + rest.0, here.1 || rest.1)
    }
}

/// The fragments that stand for the first `n` segments of a working set,
/// each for a whole segment.
pub open spec fn wholes<C: WindingCount>(segments: Seq<Segment<C>>, n: int) -> Seq<Fragment>
    decreases n,
{
    if n <= 0 {
        Seq::empty()
    } else {
        wholes(segments, n - 1).push(whole(segments, n - 1))
    }
}

/// The working set that a tree of whole segments returns when it starts pass
/// `iter` with `segments`, and how the run ends. Every pass starts with an
/// empty tree over `range` of `power` levels.
pub open spec fn simple_run<C: WindingCount>(
    solver: Solver,
    range: LineRange,
    power: usize,
    segments: Seq<Segment<C>>,
    iter: usize,
) -> (Seq<Segment<C>>, SplitEnd)
    decreases MAX_PASSES - iter,
{
    if segments.len() <= 2 {
        (segments, SplitEnd::Few)
    } else if iter >= MAX_PASSES || segments.len() > usize::MAX {
        (segments, SplitEnd::GaveUp)
    } else {
        let pass = tree_pass_from(
            new_nodes(range, power),
            levels_of(power),
            wholes(segments, segments.len() as int),
            0,
            solver.spec_radius(iter),
        );
        if pass.0.len() == 0 {
            (segments, SplitEnd::Quiet)
        } else {
            let next = applied(pass.0, segments);
            if !pass.1 {
                (next, SplitEnd::Exact)
            } else {
                simple_run(solver, range, power, next, (iter + 1) as usize)
            }
        }
    }
}

/// Whether breaking a working set of `count` segments into `fragments`
/// fragments inflates it by more than a tenth.
pub open spec fn is_inflated(fragments: nat, count: nat) -> bool {
    fragments * 100 > count * 110
}

/// The working set that a tree of fragments returns when it starts pass
/// `iter` with `segments`, and how the run ends. Where breaking the segments
/// inflates the working set, the run is handed to the tree of whole
/// segments.
pub open spec fn complex_run<C: WindingCount>(
    solver: Solver,
    range: LineRange,
    layout: SpaceLayout,
    segments: Seq<Segment<C>>,
    iter: usize,
) -> (Seq<Segment<C>>, SplitEnd)
    decreases MAX_PASSES - iter,
{
    if segments.len() <= 2 {
        (segments, SplitEnd::Few)
    } else if iter >= MAX_PASSES || segments.len() > usize::MAX {
        (segments, SplitEnd::GaveUp)
    } else {
        let fragments = layout.all_broken(segments, segments.len() as int);
        if is_inflated(fragments.len(), segments.len()) {
            simple_run(solver, range, layout.power, segments, iter)
        } else {
            let pass = tree_pass_from(
                new_nodes(range, layout.power),
                levels_of(layout.power),
                fragments,
                0,
                solver.spec_radius(iter),
            );
            if pass.0.len() == 0 {
                (segments, SplitEnd::Quiet)
            } else {
                let next = applied(pass.0, segments);
                if !pass.1 {
                    (next, SplitEnd::Exact)
                } else {
                    complex_run(solver, range, layout, next, (iter + 1) as usize)
                }
            }
        }
    }
}

/// The working set that the tree strategy returns when it starts pass `iter`
/// with `segments`, and how the run ends.
///
/// A working set lower than `MIN_HEIGHT` is first split pair by pair. Then
/// the segments are fed to the tree whole where more than one in twenty
/// would have to be broken, and broken into fragments otherwise; the tree
/// goes on with the pass that comes next.
pub open spec fn tree_run<C: WindingCount>(solver: Solver, segments: Seq<Segment<C>>, iter: usize) -> (
    Seq<Segment<C>>,
    SplitEnd,
) {
    if segments.len() <= 2 {
        (segments, SplitEnd::Few)
    } else {
        let range = spec_ver_range(segments);
        let height = range.spec_width() as usize;
        let list = list_run(solver, segments, iter);
        let work = if height < MIN_HEIGHT {
            list.0
        } else {
            segments
        };
        let at = if height < MIN_HEIGHT {
            list.2
        } else {
            iter
        };
        let layout = SpaceLayout::spec_new(height, work.len() as usize);
        if layout.count_required(work, work.len() as int) * 20 > work.len() {
            simple_run(solver, range, layout.power, work, at)
        } else {
            complex_run(solver, range, layout, work, at)
        }
    }
}

/// A tree that has its ranges from an empty tree is that empty tree again
/// once it is cleared.
pub proof fn lemma_cleared_is_new(nodes: Seq<NodeView>, fresh: Seq<NodeView>)
    requires
        nodes.len() == fresh.len(),
        forall|k: int| 0 <= k < nodes.len() ==> (#[trigger] nodes[k]).range == fresh[k].range,
        forall|k: int| 0 <= k < fresh.len() ==> (#[trigger] fresh[k]).fragments == Seq::<Fragment>::empty(),
    ensures
        cleared(nodes) == fresh,
{
    assert(cleared(nodes) =~= fresh);
}

impl SplitSolver {
    /// Splits with the tree strategy from pass `iter` on and tells how the
    /// run ended; see `tree_run`.
    ///
    /// Where every segment has a length and the run ends because a pass finds
    /// no mark or needs no rounding, no two segments of the result cross in
    /// the interior of both. A run that ends for want of segments leaves at
    /// most two.
    pub fn tree_split<C: WindingCount>(&self, segments: Vec<Segment<C>>, iter: usize) -> (r: (
        Vec<Segment<C>>,
        SplitEnd,
    ))
        ensures
            (r.0@, r.1) == tree_run(self.solver, segments@, iter),
            all_wf(segments@) && is_settled(r.1) ==> no_crossings(r.0@) && no_pure_crossings(r.0@),
            r.1 == SplitEnd::Few ==> r.0.len() <= 2,
    {
        proof {
            if all_wf(segments@) && is_settled(tree_run(self.solver, segments@, iter).1) {
                lemma_tree_run_no_residual_crossings(self.solver, segments@, iter);
            }
        }
        if segments.len() <= 2 {
            return (segments, SplitEnd::Few);
        }
        let range: LineRange = ver_range(&segments);
        let height: usize = range.width() as usize;
        let mut work: Vec<Segment<C>> = segments;
        let mut at: usize = iter;
        if height < MIN_HEIGHT {
            let (list, _end, passes) = self.list_split(work, iter);
            work = list;
            at = passes;
        }
        let layout: SpaceLayout = SpaceLayout::new(height, work.len());
        if layout.is_fragmentation_required_for_edges(&work) {
            self.simple(range, &layout, work, at)
        } else {
            self.complex(range, &layout, work, at)
        }
    }

    /// One pass of the tree: each fragment is tested against the tree and
    /// then stored in it.
    fn tree_pass(tree: &mut SegmentTree, fragments: &Vec<Fragment>, marks: &mut Vec<LineMark>) -> (r: bool)
        requires
            old(tree).wf(),
        ensures
            final(tree).wf(),
            final(tree).power == old(tree).power,
            final(tree).radius == old(tree).radius,
            final(tree)@.len() == old(tree)@.len(),
            forall|k: int| 0 <= k < old(tree)@.len() ==> (#[trigger] final(tree)@[k]).range == old(tree)@[k].range,
            final(marks)@ == old(marks)@ + tree_pass_from(
                old(tree)@,
                old(tree).power as nat,
                fragments@,
                0,
                old(tree).radius as int,
            ).0,
            r == tree_pass_from(old(tree)@, old(tree).power as nat, fragments@, 0, old(tree).radius as int).1,
    {
        let n: usize = fragments.len();
        let mut any_round: bool = false;
        let mut i: usize = 0;
        while i < n
            invariant
                n == fragments.len(),
                i <= n,
                tree.wf(),
                tree.power == old(tree).power,
                tree.radius == old(tree).radius,
                tree@.len() == old(tree)@.len(),
                forall|k: int| 0 <= k < old(tree)@.len() ==> (#[trigger] tree@[k]).range == old(tree)@[k].range,
                marks@ + tree_pass_from(tree@, tree.power as nat, fragments@, i as int, tree.radius as int).0
                    == old(marks)@ + tree_pass_from(
                    old(tree)@,
                    old(tree).power as nat,
                    fragments@,
                    0,
                    old(tree).radius as int,
                ).0,
                (any_round || tree_pass_from(
                    tree@,
                    tree.power as nat,
                    fragments@,
                    i as int,
                    tree.radius as int,
                ).1) == tree_pass_from(
                    old(tree)@,
                    old(tree).power as nat,
                    fragments@,
                    0,
                    old(tree).radius as int,
                ).1,
            decreases n - i,
        {
            let fragment: Fragment = fragments[i];
            let round: bool = tree.intersect(&fragment, marks);
            any_round = any_round || round;
            proof {
                lemma_inserted_ranges(tree@, tree.power as nat, fragment);
            }
            tree.insert(fragment);
            i += 1;
        }
        any_round
    }

    /// The fragments that stand for the segments of a working set, each for a
    /// whole segment.
    fn whole_fragments<C: WindingCount>(segments: &Vec<Segment<C>>) -> (r: Vec<Fragment>)
        ensures
            r@ == wholes(segments@, segments.len() as int),
    {
        let n: usize = segments.len();
        let mut r: Vec<Fragment> = Vec::with_capacity(n);
        let mut i: usize = 0;
        while i < n
            invariant
                n == segments.len(),
                i <= n,
                r@ == wholes(segments@, i as int),
            decreases n - i,
        {
            r.push(Fragment::with_index_and_segment(i, segments[i].x_segment));
            i += 1;
        }
        r
    }

    /// Splits with a tree of whole segments over `ver_range` from pass `iter`
    /// on and tells how the run ended: passes are made until one finds no
    /// mark or needs no rounding, until fewer than three segments are left,
    /// or until passes can no longer be counted; see `simple_run`.
    ///
    /// Where every segment has a length and the run ends because a pass finds
    /// no mark or needs no rounding, no two segments of the result cross in
    /// the interior of both. A run that ends for want of segments leaves at
    /// most two.
    pub fn simple<C: WindingCount>(
        &self,
        ver_range: LineRange,
        layout: &SpaceLayout,
        segments: Vec<Segment<C>>,
        iter: usize,
    ) -> (r: (Vec<Segment<C>>, SplitEnd))
        requires
            ver_range.min <= ver_range.max,
        ensures
            (r.0@, r.1) == simple_run(self.solver, ver_range, layout.power, segments@, iter),
            all_wf(segments@) && is_settled(r.1) ==> no_crossings(r.0@) && no_pure_crossings(r.0@),
            r.1 == SplitEnd::Few ==> r.0.len() <= 2,
    {
        proof {
            if all_wf(segments@) && is_settled(
                simple_run(self.solver, ver_range, layout.power, segments@, iter).1,
            ) {
                lemma_simple_run_no_residual_crossings(self.solver, ver_range, layout.power, segments@, iter);
            }
        }
        let mut tree: SegmentTree = SegmentTree::new(ver_range, layout.power, 0);
        let mut work: Vec<Segment<C>> = segments;
        let mut marks: Vec<LineMark> = Vec::new();
        let mut pass: usize = iter;
        while work.len() > 2 && pass < MAX_PASSES
            invariant
                tree.wf(),
                tree@ == new_nodes(ver_range, layout.power),
                tree.power == levels_of(layout.power),
                marks@.len() == 0,
                simple_run(self.solver, ver_range, layout.power, work@, pass) == simple_run(
                    self.solver,
                    ver_range,
                    layout.power,
                    segments@,
                    iter,
                ),
                all_wf(segments@) && is_settled(
                    simple_run(self.solver, ver_range, layout.power, segments@, iter).1,
                ) ==> no_crossings(simple_run(self.solver, ver_range, layout.power, segments@, iter).0)
                    && no_pure_crossings(simple_run(self.solver, ver_range, layout.power, segments@, iter).0),
            decreases MAX_PASSES - pass,
        {
            tree.radius = self.solver.radius(pass);
            let fragments: Vec<Fragment> = Self::whole_fragments(&work);
            let need_to_fix: bool = Self::tree_pass(&mut tree, &fragments, &mut marks);
            if marks.len() == 0 {
                return (work, SplitEnd::Quiet);
            }
            proof {
                lemma_cleared_is_new(tree@, new_nodes(ver_range, layout.power));
            }
            tree.clear();
            work = self.apply(&marks, work);
            marks.clear();
            if !need_to_fix {
                return (work, SplitEnd::Exact);
            }
            pass += 1;
        }
        if work.len() <= 2 {
            (work, SplitEnd::Few)
        } else {
            (work, SplitEnd::GaveUp)
        }
    }

    /// The fragments of a working set.
    fn break_all<C: WindingCount>(layout: &SpaceLayout, segments: &Vec<Segment<C>>, fragments: &mut Vec<Fragment>)
        requires
            old(fragments)@.len() == 0,
        ensures
            final(fragments)@ == layout.all_broken(segments@, segments.len() as int),
    {
        let n: usize = segments.len();
        let mut i: usize = 0;
        while i < n
            invariant
                n == segments.len(),
                i <= n,
                fragments@ == layout.all_broken(segments@, i as int),
            decreases n - i,
        {
            layout.break_into_fragments(i, segments[i].x_segment, fragments);
            i += 1;
        }
    }

    /// Splits with a tree of fragments over `ver_range` from pass `iter` on
    /// and tells how the run ended. Where breaking the segments yields more
    /// than eleven fragments for ten segments, the work is handed to the tree
    /// of whole segments, which goes on with the same pass; see
    /// `complex_run`.
    ///
    /// Where every segment has a length and the run ends because a pass finds
    /// no mark or needs no rounding, no two segments of the result cross in
    /// the interior of both. A run that ends for want of segments leaves at
    /// most two.
    pub fn complex<C: WindingCount>(
        &self,
        ver_range: LineRange,
        layout: &SpaceLayout,
        segments: Vec<Segment<C>>,
        iter: usize,
    ) -> (r: (Vec<Segment<C>>, SplitEnd))
        requires
            ver_range.min <= ver_range.max,
        ensures
            (r.0@, r.1) == complex_run(self.solver, ver_range, *layout, segments@, iter),
            all_wf(segments@) && is_settled(r.1) ==> no_crossings(r.0@) && no_pure_crossings(r.0@),
            r.1 == SplitEnd::Few ==> r.0.len() <= 2,
    {
        proof {
            if all_wf(segments@) && is_settled(complex_run(self.solver, ver_range, *layout, segments@, iter).1) {
                lemma_complex_run_no_residual_crossings(self.solver, ver_range, *layout, segments@, iter);
            }
        }
        let mut tree: SegmentTree = SegmentTree::new(ver_range, layout.power, 0);
        let mut work: Vec<Segment<C>> = segments;
        let mut marks: Vec<LineMark> = Vec::new();
        let mut fragments: Vec<Fragment> = Vec::new();
        let mut pass: usize = iter;
        while work.len() > 2 && pass < MAX_PASSES
            invariant
                ver_range.min <= ver_range.max,
                tree.wf(),
                tree@ == new_nodes(ver_range, layout.power),
                tree.power == levels_of(layout.power),
                marks@.len() == 0,
                complex_run(self.solver, ver_range, *layout, work@, pass) == complex_run(
                    self.solver,
                    ver_range,
                    *layout,
                    segments@,
                    iter,
                ),
                all_wf(segments@) && is_settled(
                    complex_run(self.solver, ver_range, *layout, segments@, iter).1,
                ) ==> no_crossings(complex_run(self.solver, ver_range, *layout, segments@, iter).0)
                    && no_pure_crossings(complex_run(self.solver, ver_range, *layout, segments@, iter).0),
            decreases MAX_PASSES - pass,
        {
            fragments.clear();
            Self::break_all(layout, &work, &mut fragments);
            let n: usize = work.len();
            assert(is_inflated(fragments@.len(), n as nat) == ((fragments.len() as u128) * 100 > (n as u128)
                * 110));
            if (fragments.len() as u128) * 100 > (n as u128) * 110 {
                return self.simple(ver_range, layout, work, pass);
            }
            tree.radius = self.solver.radius(pass);
            let need_to_fix: bool = Self::tree_pass(&mut tree, &fragments, &mut marks);
            if marks.len() == 0 {
                return (work, SplitEnd::Quiet);
            }
            proof {
                lemma_cleared_is_new(tree@, new_nodes(ver_range, layout.power));
            }
            tree.clear();
            work = self.apply(&marks, work);
            marks.clear();
            if !need_to_fix {
                return (work, SplitEnd::Exact);
            }
            pass += 1;
        }
        if work.len() <= 2 {
            (work, SplitEnd::Few)
        } else {
            (work, SplitEnd::GaveUp)
        }
    }
}

} // verus!
