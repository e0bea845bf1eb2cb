use vstd::prelude::*;
use crate::geom::point::IntPoint;
use crate::overlay::link::{IdPoint, OverlayLink};
use crate::solver::Solver;
use crate::sort::{lemma_permutation_keeps, sort, sorted, KeyInts, KeyValue, Keyed};

verus! {

/// An end of a link: the point, the link, and which of its two ends it is.
#[derive(Clone, Copy, Debug, PartialEq, Eq, Structural)]
pub struct End {
    pub point: IntPoint,
    pub link: usize,
    pub is_b: bool,
}

impl Keyed for End {
    open spec fn spec_key(&self) -> KeyInts {
        (
            self.point.x as int,
            self.point.y as int,
            self.link as int,
            if self.is_b {
                1
            } else {
                0
            },
            0,
            0,
            0,
            0,
            0,
        )
    }

    fn key(&self) -> (k: KeyValue) {
        (
            self.point.x as i128,
            self.point.y as i128,
            self.link as i128,
            if self.is_b {
                1
            } else {
                0
            },
            0,
            0,
            0,
            0,
            0,
        )
    }

    proof fn lemma_key_injective(&self, other: &Self) {
    }
}

/// A node of the graph: the links that end at one point.
#[derive(Debug)]
pub struct OverlayNode {
    pub indices: Vec<usize>,
}

/// The planar graph of an overlay: links that meet only at their ends, and
/// for every point at which links end a node that lists them.
#[derive(Debug)]
pub struct OverlayGraph {
    pub solver: Solver,
    pub nodes: Vec<OverlayNode>,
    pub links: Vec<OverlayLink>,
}

/// The ends of the first `n` links: for every link its end `a`, then its end
/// `b`.
pub open spec fn ends_of(links: Seq<OverlayLink>, n: int) -> Seq<End>
    decreases n,
{
    if n <= 0 {
        Seq::empty()
    } else {
        ends_of(links, n - 1).push(
            End { point: links[n - 1].a.point, link: (n - 1) as usize, is_b: false },
        ).push(End { point: links[n - 1].b.point, link: (n - 1) as usize, is_b: true })
    }
}

/// The links with the numbers of their nodes set to zero.
pub open spec fn reset_ids(links: Seq<OverlayLink>) -> Seq<OverlayLink> {
    Seq::new(
        links.len(),
        |i: int|
            OverlayLink {
                a: IdPoint { id: 0, point: links[i].a.point },
                b: IdPoint { id: 0, point: links[i].b.point },
                fill: links[i].fill,
            },
    )
}

/// The link `l` with the node `id` at the end that `e` names.
pub open spec fn with_node(l: OverlayLink, e: End, id: usize) -> OverlayLink {
    if e.is_b {
        OverlayLink { a: l.a, b: IdPoint { id, point: l.b.point }, fill: l.fill }
    } else {
        OverlayLink { a: IdPoint { id, point: l.a.point }, b: l.b, fill: l.fill }
    }
}

/// The links and the nodes once the ends from `k` on are connected: an end
/// at a point other than that of the end before it opens a node; every end
/// joins the last node, and its link gets the number of that node.
pub open spec fn connected(ends: Seq<End>, k: int, links: Seq<OverlayLink>, nodes: Seq<Seq<usize>>) -> (
    Seq<OverlayLink>,
    Seq<Seq<usize>>,
)
    decreases ends.len() - k,
{
    if k < 0 || k >= ends.len() {
        (links, nodes)
    } else {
        let e = ends[k];
        let opened = if k == 0 || ends[k - 1].point != e.point {
            nodes.push(Seq::empty())
        } else {
            nodes
        };
        let id = opened.len() - 1;
        connected(
            ends,
            k + 1,
            links.update(e.link as int, with_node(links[e.link as int], e, id as usize)),
            opened.update(id, opened[id].push(e.link)),
        )
    }
}

impl View for OverlayGraph {
    type V = (Seq<OverlayLink>, Seq<Seq<usize>>);

    /// The links of the graph and, for every node, the links that end at it.
    open spec fn view(&self) -> (Seq<OverlayLink>, Seq<Seq<usize>>) {
        (self.links@, Seq::new(self.nodes@.len(), |i: int| self.nodes@[i].indices@))
    }
}

/// The links and the nodes of the graph of the given links: the ends of the
/// links are sorted by point; every run of ends at one point becomes a
/// node, numbered in that order, and the links get the numbers of the nodes
/// at their ends.
pub open spec fn graph_of(links: Seq<OverlayLink>) -> (Seq<OverlayLink>, Seq<Seq<usize>>) {
    connected(sorted(ends_of(links, links.len() as int)), 0, reset_ids(links), Seq::empty())
}

impl OverlayGraph {
    /// Whether every link names nodes of the graph and every node names
    /// links of the graph.
    pub open spec fn wf(&self) -> bool {
        &&& forall|i: int|
            0 <= i < self.links.len() ==> (#[trigger] self.links@[i]).a.id < self.nodes.len()
                && self.links@[i].b.id < self.nodes.len()
        &&& forall|n: int, k: int|
            0 <= n < self.nodes.len() && 0 <= k < self.nodes@[n].indices.len() ==> (
            #[trigger] self.nodes@[n].indices@[k]) < self.links.len()
    }

    /// Whether every link names nodes of the graph and every node names
    /// links of the graph.
    pub fn is_valid(&self) -> (r: bool)
        ensures
            r == self.wf(),
    {
        let n: usize = self.links.len();
        let m: usize = self.nodes.len();
        let mut i: usize = 0;
        while i < n
            invariant
                n == self.links.len(),
                m == self.nodes.len(),
                i <= n,
                forall|k: int|
                    0 <= k < i ==> (#[trigger] self.links@[k]).a.id < self.nodes.len() && self.links@[k].b.id
                        < self.nodes.len(),
            decreases n - i,
        {
            if self.links[i].a.id >= m || self.links[i].b.id >= m {
                return false;
            }
            i += 1;
        }
        let mut c: usize = 0;
        while c < m
            invariant
                n == self.links.len(),
                m == self.nodes.len(),
                c <= m,
                forall|k: int|
                    0 <= k < n ==> (#[trigger] self.links@[k]).a.id < self.nodes.len() && self.links@[k].b.id
                        < self.nodes.len(),
                forall|q: int, k: int|
                    0 <= q < c && 0 <= k < self.nodes@[q].indices.len() ==> (
                    #[trigger] self.nodes@[q].indices@[k]) < self.links.len(),
            decreases m - c,
        {
            let count: usize = self.nodes[c].indices.len();
            let mut k: usize = 0;
            while k < count
                invariant
                    n == self.links.len(),
                    m == self.nodes.len(),
                    c < m,
                    count == self.nodes@[c as int].indices.len(),
                    k <= count,
                    forall|t: int| 0 <= t < k ==> (#[trigger] self.nodes@[c as int].indices@[t]) < self.links.len(),
                decreases count - k,
            {
                if self.nodes[c].indices[k] >= n {
                    return false;
                }
                k += 1;
            }
            c += 1;
        }
        true
    }

    /// The graph of the given links; see `graph_of`.
    pub fn new(solver: Solver, links: Vec<OverlayLink>) -> (g: OverlayGraph)
        ensures
            g.wf(),
            g.solver == solver,
            g@ == graph_of(links@),
            g.links.len() == links.len(),
            forall|i: int|
                0 <= i < links.len() ==> (#[trigger] g.links@[i]).a.point == links@[i].a.point
                    && g.links@[i].b.point == links@[i].b.point && g.links@[i].fill == links@[i].fill,
    {
        let n: usize = links.len();
        let mut ends: Vec<End> = Vec::new();
        let mut i: usize = 0;
        while i < n
            invariant
                n == links.len(),
                i <= n,
                ends@ == ends_of(links@, i as int),
                forall|k: int| 0 <= k < ends.len() ==> (#[trigger] ends@[k]).link < n,
            decreases n - i,
        {
            ends.push(End { point: links[i].a.point, link: i, is_b: false });
            ends.push(End { point: links[i].b.point, link: i, is_b: true });
            i += 1;
        }
        let ghost unsorted: Seq<End> = ends@;
        sort(&mut ends);
        proof {
            lemma_permutation_keeps(unsorted, ends@, |e: End| e.link < n);
        }
        let mut work: Vec<OverlayLink> = links;
        let mut nodes: Vec<OverlayNode> = Vec::new();
        let mut r: usize = 0;
        while r < n
            invariant
                n == work.len(),
                n == links.len(),
                r <= n,
                forall|q: int| 0 <= q < r ==> (#[trigger] work@[q]) == reset_ids(links@)[q],
                forall|q: int| r <= q < n ==> (#[trigger] work@[q]) == links@[q],
            decreases n - r,
        {
            let l: OverlayLink = work[r];
            work[r] = OverlayLink {
                a: IdPoint { id: 0, point: l.a.point },
                b: IdPoint { id: 0, point: l.b.point },
                fill: l.fill,
            };
            r += 1;
        }
        assert(work@ =~= reset_ids(links@));
        assert(ends@ == sorted(ends_of(links@, links@.len() as int)));
        assert(Seq::new(nodes@.len(), |i: int| nodes@[i].indices@) =~= Seq::<Seq<usize>>::empty());
        let count: usize = ends.len();
        let mut k: usize = 0;
        while k < count
            invariant
                n == work.len(),
                n == links.len(),
                count == ends.len(),
                k <= count,
                k > 0 ==> nodes.len() > 0,
                forall|q: int| 0 <= q < ends.len() ==> (#[trigger] ends@[q]).link < n,
                forall|q: int|
                    0 <= q < n ==> ((#[trigger] work@[q]).a.id < nodes.len() || work@[q].a.id == 0) && (
                    work@[q].b.id < nodes.len() || work@[q].b.id == 0),
                forall|q: int|
                    0 <= q < n ==> (#[trigger] work@[q]).a.point == links@[q].a.point && work@[q].b.point
                        == links@[q].b.point && work@[q].fill == links@[q].fill,
                forall|m: int, t: int|
                    0 <= m < nodes.len() && 0 <= t < nodes@[m].indices.len() ==> (
                    #[trigger] nodes@[m].indices@[t]) < n,
                connected(ends@, k as int, work@, Seq::new(nodes@.len(), |i: int| nodes@[i].indices@))
                    == graph_of(links@),
            decreases count - k,
        {
            let e: End = ends[k];
            let ghost lists: Seq<Seq<usize>> = Seq::new(nodes@.len(), |i: int| nodes@[i].indices@);
            if k == 0 || ends[k - 1].point != e.point {
                nodes.push(OverlayNode { indices: Vec::new() });
            }
            let ghost opened: Seq<Seq<usize>> = Seq::new(nodes@.len(), |i: int| nodes@[i].indices@);
            proof {
                if k == 0 || ends@[k - 1].point != e.point {
                    assert(opened =~= lists.push(Seq::empty()));
                } else {
                    assert(opened =~= lists);
                }
            }
            let id: usize = nodes.len() - 1;
            let l: OverlayLink = work[e.link];
            if e.is_b {
                work[e.link] = OverlayLink { a: l.a, b: IdPoint { id, point: l.b.point }, fill: l.fill };
            } else {
                work[e.link] = OverlayLink { a: IdPoint { id, point: l.a.point }, b: l.b, fill: l.fill };
            }
            nodes[id].indices.push(e.link);
            proof {
                assert(Seq::new(nodes@.len(), |i: int| nodes@[i].indices@) =~= opened.update(
                    id as int,
                    opened[id as int].push(e.link),
                ));
            }
            k += 1;
        }
        proof {
            if n > 0 {
                assert(ends_of(links@, n as int).len() >= 2) by {
                    assert(ends_of(links@, n as int) == ends_of(links@, n - 1).push(
                        End { point: links@[n - 1].a.point, link: (n - 1) as usize, is_b: false },
                    ).push(End { point: links@[n - 1].b.point, link: (n - 1) as usize, is_b: true }));
                }
                assert(count > 0);
            }
        }
        OverlayGraph { solver, nodes, links: work }
    }
}

} // verus!
