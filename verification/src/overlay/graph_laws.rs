use vstd::prelude::*;
use crate::overlay::graph::{connected, ends_of, graph_of, reset_ids, with_node, End};
use crate::overlay::link::{IdPoint, OverlayLink};
use crate::sort::{key_le, lemma_sorted_ensures, sorted, sorted_by_key, Keyed};

verus! {

/// The end of link `i` that `is_b` names.
pub open spec fn end_of(links: Seq<OverlayLink>, i: int, is_b: bool) -> IdPoint {
    if is_b {
        links[i].b
    } else {
        links[i].a
    }
}

/// The end of link `i` that `is_b` names, as an entry of the list of ends.
pub open spec fn nth_end(links: Seq<OverlayLink>, i: int, is_b: bool) -> End {
    End { point: end_of(links, i, is_b).point, link: i as usize, is_b }
}

/// Whether an entry of a list of ends is an end of a link of `links`.
pub open spec fn valid_end(links: Seq<OverlayLink>, e: End) -> bool {
    e.link < links.len() && e == nth_end(links, e.link as int, e.is_b)
}

/// The list of ends holds the two ends of every link, link by link.
pub proof fn lemma_ends_of(links: Seq<OverlayLink>, n: int)
    requires
        0 <= n <= links.len(),
        links.len() <= usize::MAX,
    ensures
        ends_of(links, n).len() == 2 * n,
        forall|q: int| 0 <= q < 2 * n ==> (#[trigger] ends_of(links, n)[q]) == nth_end(links, q / 2, q % 2 == 1),
    decreases n,
{
    if n > 0 {
        lemma_ends_of(links, n - 1);
    }
}

/// What holds of the sorted list of the ends of `links`: it holds the two
/// ends of every link, each once, and nothing else, in the order of the
/// points.
pub open spec fn ends_in_order(links: Seq<OverlayLink>, ends: Seq<End>) -> bool {
    &&& ends.len() == 2 * links.len()
    &&& sorted_by_key(ends)
    &&& ends.no_duplicates()
    &&& forall|q: int| 0 <= q < ends.len() ==> valid_end(links, #[trigger] ends[q])
    &&& forall|i: int, is_b: bool| 0 <= i < links.len() ==> ends.contains(#[trigger] nth_end(links, i, is_b))
}

/// The sorted list of the ends of links holds every end once.
pub proof fn lemma_sorted_ends(links: Seq<OverlayLink>)
    requires
        links.len() <= usize::MAX,
    ensures
        ends_in_order(links, sorted(ends_of(links, links.len() as int))),
{
    let n = links.len() as int;
    let raw = ends_of(links, n);
    let ends = sorted(raw);
    lemma_ends_of(links, n);
    lemma_sorted_ensures(raw);
    vstd::seq_lib::to_multiset_len(raw);
    vstd::seq_lib::to_multiset_len(ends);
    assert forall|p: int, q: int| 0 <= p < raw.len() && 0 <= q < raw.len() && p != q implies raw[p] != raw[q] by {
        assert(raw[p] == nth_end(links, p / 2, p % 2 == 1));
        assert(raw[q] == nth_end(links, q / 2, q % 2 == 1));
    }
    raw.lemma_multiset_has_no_duplicates();
    ends.lemma_multiset_has_no_duplicates_conv();
    raw.to_multiset_ensures();
    ends.to_multiset_ensures();
    assert forall|q: int| 0 <= q < ends.len() implies valid_end(links, #[trigger] ends[q]) by {
        assert(ends.contains(ends[q]));
        assert(ends.to_multiset().count(ends[q]) > 0);
        assert(raw.contains(ends[q]));
        let p = choose|p: int| 0 <= p < raw.len() && raw[p] == ends[q];
        assert(raw[p] == nth_end(links, p / 2, p % 2 == 1));
    }
    assert forall|i: int, is_b: bool| 0 <= i < links.len() implies ends.contains(
        #[trigger] nth_end(links, i, is_b),
    ) by {
        let p = if is_b {
            2 * i + 1
        } else {
            2 * i
        };
        assert(raw[p] == nth_end(links, p / 2, p % 2 == 1));
        assert(raw.contains(raw[p]));
        assert(raw.to_multiset().count(raw[p]) > 0);
    }
}

/// The number of the run of entry `q` in a list of ends: a run goes on while
/// the point stays the same.
pub open spec fn run_of(ends: Seq<End>, q: int) -> int
    decreases q,
{
    if q <= 0 {
        0
    } else {
        run_of(ends, q - 1) + if ends[q - 1].point != ends[q].point {
            1int
        } else {
            0int
        }
    }
}

/// The numbers of the runs never decrease and grow no faster than the
/// entries.
pub proof fn lemma_run_grows(ends: Seq<End>, p: int, q: int)
    requires
        0 <= p <= q,
    ensures
        run_of(ends, p) <= run_of(ends, q) <= run_of(ends, p) + (q - p),
        0 <= run_of(ends, p) <= p,
    decreases q,
{
    if p < q {
        lemma_run_grows(ends, p, q - 1);
    } else if p > 0 {
        lemma_run_grows(ends, p - 1, p - 1);
        lemma_run_grows(ends, 0, p - 1);
    }
}

/// In a list of ends in the order of their points, two entries are of one
/// run where their points are the same, and only there.
pub proof fn lemma_run_same(ends: Seq<End>, p: int, q: int)
    requires
        sorted_by_key(ends),
        0 <= p <= q < ends.len(),
    ensures
        (run_of(ends, p) == run_of(ends, q)) == (ends[p].point == ends[q].point),
    decreases q,
{
    if p < q {
        lemma_run_same(ends, p, q - 1);
        lemma_run_grows(ends, p, q - 1);
        assert(key_le(ends[q - 1].spec_key(), ends[q].spec_key()));
        if p < q - 1 {
            assert(key_le(ends[p].spec_key(), ends[q - 1].spec_key()));
        }
    }
}

/// Whether entry `q` of the list of ends is an end of link `l` in run `m`.
pub open spec fn is_entry(ends: Seq<End>, q: int, m: int, l: usize) -> bool {
    ends[q].link == l && run_of(ends, q) == m
}

/// Whether the links `work` have the points and the fills of `links`.
pub open spec fn keeps_links(links: Seq<OverlayLink>, work: Seq<OverlayLink>) -> bool {
    &&& work.len() == links.len()
    &&& forall|i: int|
        0 <= i < links.len() ==> (#[trigger] work[i]).a.point == links[i].a.point && work[i].b.point
            == links[i].b.point && work[i].fill == links[i].fill
}

/// Whether each of the first `k` ends has the number of its run.
pub open spec fn ends_numbered(ends: Seq<End>, k: int, work: Seq<OverlayLink>) -> bool {
    forall|q: int| 0 <= q < k ==> end_of(work, (#[trigger] ends[q]).link as int, ends[q].is_b).id == run_of(ends, q)
}

/// Whether the node of the run of each of the first `k` ends lists the link
/// of the end.
pub open spec fn nodes_list(ends: Seq<End>, k: int, nodes: Seq<Seq<usize>>) -> bool {
    forall|q: int| 0 <= q < k ==> nodes[run_of(ends, q)].contains((#[trigger] ends[q]).link)
}

/// Whether one of the first `k` ends is an end of link `l` in run `m`.
pub open spec fn listed(ends: Seq<End>, k: int, m: int, l: usize) -> bool {
    exists|q: int| 0 <= q < k && #[trigger] is_entry(ends, q, m, l)
}

/// Whether every node lists only links of the ends of its run among the
/// first `k` ends.
pub open spec fn nodes_only(ends: Seq<End>, k: int, nodes: Seq<Seq<usize>>) -> bool {
    forall|m: int, t: int| 0 <= m < nodes.len() && 0 <= t < nodes[m].len() ==> listed(ends, k, m, #[trigger] nodes[m][t])
}

/// What holds of the links and the nodes once the first `k` ends are
/// connected: the links keep their points and fills; there is a node for
/// every run so far; each of these ends has the number of its run; and the
/// node of a run lists the links of its ends and no other.
pub open spec fn joined_upto(
    links: Seq<OverlayLink>,
    ends: Seq<End>,
    k: int,
    work: Seq<OverlayLink>,
    nodes: Seq<Seq<usize>>,
) -> bool {
    &&& keeps_links(links, work)
    &&& nodes.len() == if k <= 0 {
        0
    } else {
        run_of(ends, k - 1) + 1
    }
    &&& ends_numbered(ends, k, work)
    &&& nodes_list(ends, k, nodes)
    &&& nodes_only(ends, k, nodes)
}

/// Numbering one end more keeps the numbers of the ends before it.
proof fn lemma_number_one(links: Seq<OverlayLink>, ends: Seq<End>, k: int, work: Seq<OverlayLink>, id: int)
    requires
        ends_in_order(links, ends),
        0 <= k < ends.len(),
        keeps_links(links, work),
        ends_numbered(ends, k, work),
        id == run_of(ends, k),
        0 <= id <= usize::MAX,
    ensures
        keeps_links(links, work.update(ends[k].link as int, with_node(work[ends[k].link as int], ends[k], id as usize))),
        ends_numbered(
            ends,
            k + 1,
            work.update(ends[k].link as int, with_node(work[ends[k].link as int], ends[k], id as usize)),
        ),
{
    let e = ends[k];
    let next = work.update(e.link as int, with_node(work[e.link as int], e, id as usize));
    assert(valid_end(links, ends[k]));
    assert forall|q: int| 0 <= q < k + 1 implies end_of(next, (#[trigger] ends[q]).link as int, ends[q].is_b).id
        == run_of(ends, q) by {
        if q < k {
            assert(ends[q] != ends[k]);
            assert(valid_end(links, ends[q]));
            assert(end_of(work, ends[q].link as int, ends[q].is_b).id == run_of(ends, q));
        }
    }
    assert forall|i: int| 0 <= i < links.len() implies (#[trigger] next[i]).a.point == links[i].a.point
        && next[i].b.point == links[i].b.point && next[i].fill == links[i].fill by {
        assert(work[i].a.point == links[i].a.point);
    }
}

/// Listing one link more keeps what the nodes list.
proof fn lemma_list_one(ends: Seq<End>, k: int, opened: Seq<Seq<usize>>)
    requires
        0 <= k < ends.len(),
        opened.len() == run_of(ends, k) + 1,
        nodes_list(ends, k, opened),
    ensures
        nodes_list(
            ends,
            k + 1,
            opened.update(run_of(ends, k), opened[run_of(ends, k)].push(ends[k].link)),
        ),
{
    let id = run_of(ends, k);
    let lists = opened.update(id, opened[id].push(ends[k].link));
    lemma_run_grows(ends, 0, k);
    assert forall|q: int| 0 <= q < k + 1 implies lists[run_of(ends, q)].contains((#[trigger] ends[q]).link) by {
        lemma_run_grows(ends, q, k);
        lemma_run_grows(ends, 0, q);
        let m = run_of(ends, q);
        if q < k {
            assert(opened[m].contains(ends[q].link));
            let t = choose|t: int| 0 <= t < opened[m].len() && opened[m][t] == ends[q].link;
            if m == id {
                assert(lists[m][t] == ends[q].link);
            } else {
                assert(lists[m] == opened[m]);
            }
        } else {
            assert(lists[id][opened[id].len() as int] == ends[k].link);
        }
    }
}

/// Listing one link more lists no link of another run.
proof fn lemma_only_one(ends: Seq<End>, k: int, nodes: Seq<Seq<usize>>, opened: Seq<Seq<usize>>)
    requires
        0 <= k < ends.len(),
        opened.len() == run_of(ends, k) + 1,
        opened == nodes || opened == nodes.push(Seq::empty()),
        nodes_only(ends, k, nodes),
    ensures
        nodes_only(
            ends,
            k + 1,
            opened.update(run_of(ends, k), opened[run_of(ends, k)].push(ends[k].link)),
        ),
{
    lemma_run_grows(ends, 0, k);
    let id = run_of(ends, k);
    let lists = opened.update(id, opened[id].push(ends[k].link));
    assert forall|m: int, t: int| 0 <= m < lists.len() && 0 <= t < lists[m].len() implies listed(
        ends,
        k + 1,
        m,
        #[trigger] lists[m][t],
    ) by {
        assert(lists.len() == opened.len());
        if m == id && t == opened[id].len() {
            assert(lists[m] == opened[id].push(ends[k].link));
            assert(is_entry(ends, k, m, lists[m][t]));
        } else {
            if m == id {
                assert(lists[m] == opened[id].push(ends[k].link));
                assert(t < opened[id].len());
                assert(lists[m][t] == opened[m][t]);
            } else {
                assert(lists[m] == opened[m]);
            }
            if opened != nodes {
                assert(opened.len() == nodes.len() + 1);
                assert(opened[nodes.len() as int] == Seq::<usize>::empty());
                assert(m != nodes.len());
            }
            assert(m < nodes.len());
            assert(opened[m] == nodes[m]);
            assert(listed(ends, k, m, nodes[m][t]));
            let q = choose|q: int| 0 <= q < k && #[trigger] is_entry(ends, q, m, nodes[m][t]);
            assert(is_entry(ends, q, m, lists[m][t]));
        }
    }
}

/// Connecting the ends from `k` on keeps what holds of the links and the
/// nodes.
pub proof fn lemma_connected(
    links: Seq<OverlayLink>,
    ends: Seq<End>,
    k: int,
    work: Seq<OverlayLink>,
    nodes: Seq<Seq<usize>>,
)
    requires
        ends_in_order(links, ends),
        ends.len() <= usize::MAX,
        0 <= k <= ends.len(),
        joined_upto(links, ends, k, work, nodes),
    ensures
        joined_upto(
            links,
            ends,
            ends.len() as int,
            connected(ends, k, work, nodes).0,
            connected(ends, k, work, nodes).1,
        ),
    decreases ends.len() - k,
{
    if k < ends.len() {
        let e = ends[k];
        let opened = if k == 0 || ends[k - 1].point != e.point {
            nodes.push(Seq::empty())
        } else {
            nodes
        };
        let id = opened.len() - 1;
        let next = work.update(e.link as int, with_node(work[e.link as int], e, id as usize));
        let lists = opened.update(id, opened[id].push(e.link));
        lemma_run_grows(ends, 0, k);
        assert(id == run_of(ends, k));
        assert(nodes_list(ends, k, opened)) by {
            assert forall|q: int| 0 <= q < k implies opened[run_of(ends, q)].contains((#[trigger] ends[q]).link) by {
                lemma_run_grows(ends, q, k - 1);
                lemma_run_grows(ends, 0, q);
                assert(nodes[run_of(ends, q)].contains(ends[q].link));
                assert(opened[run_of(ends, q)] == nodes[run_of(ends, q)]);
            }
        }
        lemma_number_one(links, ends, k, work, id);
        lemma_list_one(ends, k, opened);
        lemma_only_one(ends, k, nodes, opened);
        assert(joined_upto(links, ends, k + 1, next, lists));
        lemma_connected(links, ends, k + 1, next, lists);
    }
}

/// What holds of the graph of links: see `lemma_graph_joins_by_point`.
proof fn lemma_graph_of(links: Seq<OverlayLink>)
    requires
        2 * links.len() <= usize::MAX,
    ensures
        ends_in_order(links, sorted(ends_of(links, links.len() as int))),
        joined_upto(
            links,
            sorted(ends_of(links, links.len() as int)),
            2 * links.len() as int,
            graph_of(links).0,
            graph_of(links).1,
        ),
{
    let ends = sorted(ends_of(links, links.len() as int));
    lemma_sorted_ends(links);
    lemma_connected(links, ends, 0, reset_ids(links), Seq::empty());
}

/// Links meet where their ends coincide: in the graph of links every link
/// keeps its points; every end of a link has a node, which lists the link;
/// and two ends have the same node where they are at the same point, and
/// only there.
pub proof fn lemma_graph_joins_by_point(links: Seq<OverlayLink>, i: int, e: bool, j: int, f: bool)
    requires
        2 * links.len() <= usize::MAX,
        0 <= i < links.len(),
        0 <= j < links.len(),
    ensures
        graph_of(links).0.len() == links.len(),
        end_of(graph_of(links).0, i, e).point == end_of(links, i, e).point,
        end_of(graph_of(links).0, i, e).id < graph_of(links).1.len(),
        graph_of(links).1[end_of(graph_of(links).0, i, e).id as int].contains(i as usize),
        (end_of(graph_of(links).0, i, e).id == end_of(graph_of(links).0, j, f).id) == (end_of(links, i, e).point
            == end_of(links, j, f).point),
{
    let ends = sorted(ends_of(links, links.len() as int));
    let graph = graph_of(links);
    lemma_graph_of(links);
    assert(ends.contains(nth_end(links, i, e)));
    assert(ends.contains(nth_end(links, j, f)));
    let p = choose|p: int| 0 <= p < ends.len() && ends[p] == nth_end(links, i, e);
    let q = choose|q: int| 0 <= q < ends.len() && ends[q] == nth_end(links, j, f);
    assert(end_of(graph.0, ends[p].link as int, ends[p].is_b).id == run_of(ends, p));
    assert(end_of(graph.0, ends[q].link as int, ends[q].is_b).id == run_of(ends, q));
    assert(graph.1[run_of(ends, p)].contains(ends[p].link));
    lemma_run_grows(ends, p, ends.len() - 1);
    lemma_run_grows(ends, 0, p);
    if p <= q {
        lemma_run_same(ends, p, q);
    } else {
        lemma_run_same(ends, q, p);
    }
}

/// A node lists only links that end at it.
pub proof fn lemma_node_lists_its_links(links: Seq<OverlayLink>, m: int, t: int)
    requires
        2 * links.len() <= usize::MAX,
        0 <= m < graph_of(links).1.len(),
        0 <= t < graph_of(links).1[m].len(),
    ensures
        graph_of(links).1[m][t] < links.len(),
        graph_of(links).0[graph_of(links).1[m][t] as int].a.id == m || graph_of(links).0[graph_of(links).1[m][t] as int].b.id
            == m,
{
    let ends = sorted(ends_of(links, links.len() as int));
    let graph = graph_of(links);
    lemma_graph_of(links);
    let l = graph.1[m][t];
    assert(listed(ends, ends.len() as int, m, l));
    let q = choose|q: int| 0 <= q < ends.len() && #[trigger] is_entry(ends, q, m, l);
    assert(valid_end(links, ends[q]));
    assert(end_of(graph.0, ends[q].link as int, ends[q].is_b).id == run_of(ends, q));
}

} // verus!
