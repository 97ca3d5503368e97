use vstd::prelude::*;

use std::collections::VecDeque;

pub mod vertex_with_stats;

use crate::errors::GraphError;
use crate::vertex::Vertex;
use vertex_with_stats::VertexWithStats;

verus! {

/// The underlying records of an annotated graph, in order.
pub open spec fn verts(g: Seq<VertexWithStats>) -> Seq<Vertex> {
    g.map_values(|v: VertexWithStats| v.vertex)
}

/// Why one declared reference is rejected, if it is: IDs run from 1 to
/// `max`, and 0 names the synthetic root, which no reference may address.
pub open spec fn slot_error(r: Option<usize>, max: int) -> Option<GraphError> {
    match r {
        None => None,
        Some(id) => if id > max {
            Some(GraphError::InvalidVertexId(id))
        } else if id == 0 {
            Some(GraphError::RootIdUsedAsReference)
        } else {
            None
        },
    }
}

/// The first reference error at or after position `i`, scanning each
/// vertex's left slot before its right one.
pub open spec fn ref_error_from(vs: Seq<Vertex>, i: int, max: int) -> Option<GraphError>
    decreases vs.len() - i,
{
    if i < 0 || i >= vs.len() {
        None
    } else if slot_error(vs[i].left, max) is Some {
        slot_error(vs[i].left, max)
    } else if slot_error(vs[i].right, max) is Some {
        slot_error(vs[i].right, max)
    } else {
        ref_error_from(vs, i + 1, max)
    }
}

/// What the vertex with 1-based ID `id` contributes to the inbound list
/// of `target`: once for its left slot, once for its right one.
pub open spec fn row_sources(v: Vertex, id: usize, target: usize) -> Seq<usize> {
    (if v.left == Some(target) {
        seq![id]
    } else {
        seq![]
    }) + (if v.right == Some(target) {
        seq![id]
    } else {
        seq![]
    })
}

/// IDs of the vertices among the first `n` that declare `target` as a
/// parent, in scan order.
pub open spec fn inbound_sources(vs: Seq<Vertex>, n: int, target: usize) -> Seq<usize>
    decreases n,
{
    if n <= 0 {
        seq![]
    } else {
        inbound_sources(vs, n - 1, target) + row_sources(vs[n - 1], n as usize, target)
    }
}

proof fn lemma_ref_error_skip(vs: Seq<Vertex>, i: int, max: int)
    requires
        0 <= i <= vs.len(),
        forall|k: int|
            0 <= k < i ==> slot_error(#[trigger] vs[k].left, max) is None && slot_error(
                vs[k].right,
                max,
            ) is None,
    ensures
        ref_error_from(vs, 0, max) == ref_error_from(vs, i, max),
    decreases i,
{
    if i > 0 {
        lemma_ref_error_skip(vs, i - 1, max);
    }
}

/// Rejects a reference that addresses no vertex: 0, or beyond `max_id`.
pub fn check_valid_id(id: usize, max_id: usize) -> (r: Result<(), GraphError>)
    ensures
        r == (match slot_error(Some(id), max_id as int) {
            Some(e) => Err::<(), GraphError>(e),
            None => Ok::<(), GraphError>(()),
        }),
{
    if id > max_id {
        return Err(GraphError::InvalidVertexId(id));
    }
    if id == 0 {
        return Err(GraphError::RootIdUsedAsReference);
    }
    Ok(())
}

/// Fills every vertex's inbound list from the declared parent references:
/// vertex `i + 1` is appended to the list of each parent it declares. On
/// any invalid reference the graph is left unchanged and the first error
/// in scan order is returned.
#[verifier::loop_isolation(false)]
pub fn find_inward_references(graph: &mut Vec<VertexWithStats>) -> (r: Result<(), GraphError>)
    ensures
        old(graph)@.len() == 0 ==> r == Err::<(), GraphError>(GraphError::EmptyGraph)
            && final(graph)@ == old(graph)@,
        old(graph)@.len() > 0 ==> (match ref_error_from(
            verts(old(graph)@),
            0,
            old(graph)@.len() as int,
        ) {
            Some(e) => r == Err::<(), GraphError>(e) && final(graph)@ == old(graph)@,
            None => r == Ok::<(), GraphError>(()) && final(graph)@.len() == old(graph)@.len()
                && forall|j: int|
                0 <= j < old(graph)@.len() ==> {
                    &&& (#[trigger] final(graph)@[j]).vertex == old(graph)@[j].vertex
                    &&& final(graph)@[j].visited == old(graph)@[j].visited
                    &&& final(graph)@[j].root_depth == old(graph)@[j].root_depth
                    &&& final(graph)@[j].inbounds@ == old(graph)@[j].inbounds@ + inbound_sources(
                        verts(old(graph)@),
                        old(graph)@.len() as int,
                        (j + 1) as usize,
                    )
                },
        }),
{
    let n = graph.len();
    if n == 0 {
        return Err(GraphError::EmptyGraph);
    }
    let ghost g0 = graph@;
    let ghost vs = verts(g0);
    proof {
        assert(vs.len() == n);
    }
    let max_id = n;
    let mut i: usize = 0;
    while i < n
        invariant
            i <= n,
            g0 == old(graph)@,
            graph@ == g0,
            g0.len() == n,
            vs == verts(g0),
            forall|k: int|
                0 <= k < i as int ==> slot_error(#[trigger] vs[k].left, n as int) is None
                    && slot_error(vs[k].right, n as int) is None,
        decreases n - i,
    {
        proof {
            assert(vs[i as int] == g0[i as int].vertex);
        }
        if let Some(id) = graph[i].vertex.left {
            if let Err(e) = check_valid_id(id, max_id) {
                proof {
                    lemma_ref_error_skip(vs, i as int, n as int);
                }
                return Err(e);
            }
        }
        if let Some(id) = graph[i].vertex.right {
            if let Err(e) = check_valid_id(id, max_id) {
                proof {
                    lemma_ref_error_skip(vs, i as int, n as int);
                }
                return Err(e);
            }
        }
        i = i + 1;
    }
    proof {
        lemma_ref_error_skip(vs, n as int, n as int);
    }
    let mut i: usize = 0;
    while i < n
        invariant
            i <= n,
            g0 == old(graph)@,
            graph@.len() == n,
            g0.len() == n,
            vs == verts(g0),
            ref_error_from(vs, 0, n as int) is None,
            forall|k: int|
                0 <= k < n as int ==> slot_error(#[trigger] vs[k].left, n as int) is None
                    && slot_error(vs[k].right, n as int) is None,
            forall|j: int|
                0 <= j < n as int ==> {
                    &&& (#[trigger] graph@[j]).vertex == g0[j].vertex
                    &&& graph@[j].visited == g0[j].visited
                    &&& graph@[j].root_depth == g0[j].root_depth
                    &&& graph@[j].inbounds@ == g0[j].inbounds@ + inbound_sources(
                        vs,
                        i as int,
                        (j + 1) as usize,
                    )
                },
        decreases n - i,
    {
        let current_id = i + 1;
        proof {
            assert(vs[i as int] == g0[i as int].vertex);
        }
        let left = graph[i].vertex.left;
        if let Some(id) = left {
            proof {
                assert(slot_error(vs[i as int].left, n as int) is None);
            }
            let left_idx = id - 1;
            graph[left_idx].inbounds.push(current_id);
        }
        let right = graph[i].vertex.right;
        if let Some(id) = right {
            proof {
                assert(slot_error(vs[i as int].right, n as int) is None);
            }
            let right_idx = id - 1;
            graph[right_idx].inbounds.push(current_id);
        }
        proof {
            assert forall|j: int| 0 <= j < n as int implies (#[trigger] graph@[j]).inbounds@
                =~= g0[j].inbounds@ + inbound_sources(vs, i as int + 1, (j + 1) as usize) by {
                assert(inbound_sources(vs, i as int + 1, (j + 1) as usize) == inbound_sources(
                    vs,
                    i as int,
                    (j + 1) as usize,
                ) + row_sources(vs[i as int], (i + 1) as usize, (j + 1) as usize));
            }
        }
        i = i + 1;
    }
    Ok(())
}

/// The inbound lists alone, which is all the traversal reads.
pub open spec fn inb_lists(g: Seq<VertexWithStats>) -> Seq<Seq<usize>> {
    g.map_values(|v: VertexWithStats| v.inbounds@)
}

/// `id` can be reached from the root (ID 1) in exactly `d` inbound-edge
/// hops.
pub open spec fn reachable_in(inb: Seq<Seq<usize>>, id: usize, d: nat) -> bool
    decreases d,
{
    if d == 0 {
        id == 1
    } else {
        exists|p: usize|
            1 <= p <= inb.len() && reachable_in(inb, p, (d - 1) as nat) && #[trigger] inb[p as int
                - 1].contains(id)
    }
}

/// `id` can be reached from the root in some number of hops.
pub open spec fn reachable(inb: Seq<Seq<usize>>, id: usize) -> bool {
    exists|d: nat| #[trigger] reachable_in(inb, id, d)
}

/// Every entry of every inbound list addresses a vertex.
pub open spec fn inb_entries_valid(inb: Seq<Seq<usize>>, max: int) -> bool {
    forall|j: int, k: int|
        0 <= j < inb.len() && 0 <= k < inb[j].len() ==> 1 <= #[trigger] inb[j][k] <= max
}

/// How many vertices the traversal has marked so far.
pub open spec fn count_visited(g: Seq<VertexWithStats>) -> int
    decreases g.len(),
{
    if g.len() == 0 {
        0
    } else {
        count_visited(g.drop_last()) + if g.last().visited {
            1int
        } else {
            0int
        }
    }
}

proof fn lemma_count_visited_bounds(g: Seq<VertexWithStats>)
    ensures
        0 <= count_visited(g) <= g.len(),
    decreases g.len(),
{
    if g.len() > 0 {
        lemma_count_visited_bounds(g.drop_last());
    }
}

proof fn lemma_count_visited_update(g: Seq<VertexWithStats>, j: int, v: VertexWithStats)
    requires
        0 <= j < g.len(),
    ensures
        count_visited(g.update(j, v)) == count_visited(g) + (if v.visited && !g[j].visited {
            1int
        } else if !v.visited && g[j].visited {
            -1int
        } else {
            0int
        }),
    decreases g.len(),
{
    if j == g.len() - 1 {
        assert(g.update(j, v).drop_last() =~= g.drop_last());
        assert(g.update(j, v).last() == v);
    } else {
        assert(g.update(j, v).drop_last() =~= g.drop_last().update(j, v));
        assert(g.update(j, v).last() == g.last());
        lemma_count_visited_update(g.drop_last(), j, v);
    }
}

proof fn lemma_count_visited_missing(g: Seq<VertexWithStats>, j: int)
    requires
        0 <= j < g.len(),
        !g[j].visited,
    ensures
        count_visited(g) <= g.len() - 1,
    decreases g.len(),
{
    if j == g.len() - 1 {
        lemma_count_visited_bounds(g.drop_last());
    } else {
        lemma_count_visited_missing(g.drop_last(), j);
    }
}

/// In a graph whose visited set contains the root at depth 0, is closed
/// under following inbound edges, and leaves no edge relaxable, every
/// vertex reachable in `d` hops is visited with a depth of at most `d`.
proof fn lemma_reachable_visited(
    inb: Seq<Seq<usize>>,
    g: Seq<VertexWithStats>,
    n: int,
    id: usize,
    d: nat,
)
    requires
        g.len() == n,
        inb.len() == n,
        n > 0,
        g[0].visited,
        g[0].root_depth == 0,
        forall|j: int| 0 <= j < n ==> (#[trigger] g[j]).inbounds@ == inb[j],
        forall|j: int, k: int|
            0 <= j < n && g[j].visited && 0 <= k < g[j].inbounds@.len() ==> 1 <= (
            #[trigger] g[j].inbounds@[k]) <= n && g[g[j].inbounds@[k] as int - 1].visited,
        forall|j: int, k: int|
            0 <= j < n && g[j].visited && 0 <= k < g[j].inbounds@.len() && 1 <= (
            #[trigger] g[j].inbounds@[k]) <= n && g[g[j].inbounds@[k] as int - 1].visited ==> g[g[j].inbounds@[k] as int
                - 1].root_depth <= g[j].root_depth + 1,
        reachable_in(inb, id, d),
        1 <= id <= n,
    ensures
        g[id as int - 1].visited,
        g[id as int - 1].root_depth <= d,
    decreases d,
{
    if d > 0 {
        let p = choose|p: usize|
            1 <= p <= inb.len() && reachable_in(inb, p, (d - 1) as nat) && #[trigger] inb[p as int
                - 1].contains(id);
        lemma_reachable_visited(inb, g, n, p, (d - 1) as nat);
        let k = choose|k: int| 0 <= k < inb[p as int - 1].len() && #[trigger] inb[p as int - 1][k] == id;
        assert(g[p as int - 1].inbounds@[k] == id);
    }
}

/// Labels every vertex that the root (ID 1) reaches along inbound edges
/// with its breadth-first traversal depth and marks it visited. The
/// inbound lists must already be filled in; untouched analysis state is
/// expected. Unreachable vertices keep the sentinel depth, and a bad ID
/// discovered on the way is reported as an error.
#[verifier::loop_isolation(false)]
#[verifier::rlimit(60)]
pub fn find_root_depth(graph: &mut Vec<VertexWithStats>) -> (r: Result<(), GraphError>)
    requires
        forall|j: int|
            0 <= j < old(graph)@.len() ==> !(#[trigger] old(graph)@[j]).visited && old(graph)@[j].root_depth == usize::MAX,
    ensures
        final(graph)@.len() == old(graph)@.len(),
        forall|j: int|
            0 <= j < old(graph)@.len() ==> (#[trigger] final(graph)@[j]).vertex == old(graph)@[j].vertex && final(graph)@[j].inbounds@ == old(graph)@[j].inbounds@,
        old(graph)@.len() == 0 ==> r == Err::<(), GraphError>(GraphError::EmptyGraph),
        old(graph)@.len() > 0 ==> (match r {
            Ok(u) => {
                let inb = inb_lists(old(graph)@);
                &&& final(graph)@[0].visited
                &&& final(graph)@[0].root_depth == 0
                &&& forall|j: int|
                    0 <= j < old(graph)@.len() ==> ((#[trigger] final(graph)@[j]).visited
                        <==> reachable(inb, (j + 1) as usize))
                &&& forall|j: int|
                    0 <= j < old(graph)@.len() && (#[trigger] final(graph)@[j]).visited ==> final(graph)@[j].root_depth < old(graph)@.len() && reachable_in(
                        inb,
                        (j + 1) as usize,
                        final(graph)@[j].root_depth as nat,
                    )
                &&& forall|j: int|
                    0 <= j < old(graph)@.len() && !(#[trigger] final(graph)@[j]).visited ==> final(graph)@[j].root_depth == usize::MAX
                &&& forall|j: int, dp: nat|
                    0 <= j < old(graph)@.len() && #[trigger] reachable_in(
                        inb,
                        (j + 1) as usize,
                        dp,
                    ) ==> final(graph)@[j].visited && final(graph)@[j].root_depth <= dp
            },
            Err(e) => {
                let inb = inb_lists(old(graph)@);
                &&& !inb_entries_valid(inb, old(graph)@.len() as int)
                &&& (e matches GraphError::InvalidVertexId(id) ==> id > old(graph)@.len() && exists|
                    j: int,
                |
                    0 <= j < inb.len() && (#[trigger] inb[j]).contains(id))
                &&& (e is RootIdUsedAsReference ==> exists|j: int|
                    0 <= j < inb.len() && (#[trigger] inb[j]).contains(0usize))
                &&& (e is InvalidVertexId || e is RootIdUsedAsReference)
            },
        }),
{
    let n = graph.len();
    if n == 0 {
        return Err(GraphError::EmptyGraph);
    }
    let ghost g0 = graph@;
    let ghost inb = inb_lists(g0);
    proof {
        assert(inb.len() == n);
        assert(reachable_in(inb, 1usize, 0nat));
        lemma_count_visited_bounds(graph@);
    }
    let max_id: usize = n;
    let mut queue: VecDeque<(usize, usize)> = VecDeque::new();
    queue.push_front((0, 1));
    while queue.len() > 0
        invariant
            graph@.len() == n,
            forall|j: int|
                0 <= j < n as int ==> (#[trigger] graph@[j]).vertex == g0[j].vertex
                    && graph@[j].inbounds@ == g0[j].inbounds@,
            forall|j: int|
                0 <= j < n as int && !(#[trigger] graph@[j]).visited ==> graph@[j].root_depth
                    == usize::MAX,
            forall|j: int|
                0 <= j < n as int && (#[trigger] graph@[j]).visited ==> graph@[j].root_depth < n
                    && reachable_in(inb, (j + 1) as usize, graph@[j].root_depth as nat),
            !graph@[0].visited ==> queue@.len() > 0 && queue@[0] == (0usize, 1usize),
            graph@[0].visited ==> graph@[0].root_depth == 0,
            forall|k: int| 0 <= k < queue@.len() ==> (#[trigger] queue@[k]).0 <= count_visited(
                graph@,
            ),
            forall|k: int|
                0 <= k < queue@.len() ==> ((#[trigger] queue@[k]) == (0usize, 1usize) || exists|
                    j: int,
                |
                    0 <= j < n as int && (#[trigger] inb[j]).contains(queue@[k].1)),
            forall|k: int|
                0 <= k < queue@.len() ==> reachable_in(
                    inb,
                    (#[trigger] queue@[k]).1,
                    queue@[k].0 as nat,
                ),
            forall|j: int, k: int|
                0 <= j < n as int && graph@[j].visited && 0 <= k < graph@[j].inbounds@.len() ==> (1
                    <= (#[trigger] graph@[j].inbounds@[k]) <= n
                    && graph@[graph@[j].inbounds@[k] as int - 1].visited) || (exists|qk: int|
                    0 <= qk < queue@.len() && (#[trigger] queue@[qk]).1 == graph@[j].inbounds@[k]
                        && queue@[qk].0 <= graph@[j].root_depth + 1),
            forall|k1: int, k2: int|
                0 <= k1 < k2 < queue@.len() ==> (#[trigger] queue@[k1]).0 <= (
                #[trigger] queue@[k2]).0,
            forall|k: int|
                0 <= k < queue@.len() ==> (#[trigger] queue@[k]).0 <= queue@[0].0 + 1,
            queue@.len() > 0 ==> (forall|j: int|
                0 <= j < n as int && (#[trigger] graph@[j]).visited ==> graph@[j].root_depth
                    <= queue@[0].0),
            forall|j: int, k: int|
                0 <= j < n as int && graph@[j].visited && 0 <= k < graph@[j].inbounds@.len() && 1
                    <= (#[trigger] graph@[j].inbounds@[k]) <= n
                    && graph@[graph@[j].inbounds@[k] as int - 1].visited ==> graph@[graph@[
                j].inbounds@[k] as int - 1].root_depth <= graph@[j].root_depth + 1,
        decreases n as int - count_visited(graph@), queue@.len(),
    {
        let ghost qfull = queue@;
        let ghost gpre = graph@;
        let pair = queue.pop_front().unwrap();
        let path_len: usize = pair.0;
        let vertex_id: usize = pair.1;
        proof {
            assert(pair == qfull[0]);
            assert(queue@ =~= qfull.skip(1));
            assert forall|k: int| 0 <= k < queue@.len() implies queue@[k] == qfull[k + 1] by {}
        }
        if let Err(e) = check_valid_id(vertex_id, max_id) {
            proof {
                assert(slot_error(Some(vertex_id), n as int) == Some(e));
                assert(pair != (0usize, 1usize));
                let j = choose|j: int| 0 <= j < n as int && (#[trigger] inb[j]).contains(vertex_id);
                let k = choose|k: int| 0 <= k < inb[j].len() && #[trigger] inb[j][k] == vertex_id;
                assert(!inb_entries_valid(inb, n as int)) by {
                    assert(inb[j][k] == vertex_id);
                    assert(!(1 <= inb[j][k] <= n));
                }
            }
            return Err(e);
        }
        let vertex_idx = vertex_id - 1;
        if graph[vertex_idx].visited {
            proof {
                if !graph@[0].visited {
                    assert(pair == (0usize, 1usize));
                    assert(false);
                }
                assert forall|j: int, k: int|
                    0 <= j < n as int && graph@[j].visited && 0 <= k
                        < graph@[j].inbounds@.len() implies (1 <= (
                #[trigger] graph@[j].inbounds@[k]) <= n && graph@[graph@[j].inbounds@[k] as int
                    - 1].visited) || (exists|qk: int|
                    0 <= qk < queue@.len() && (#[trigger] queue@[qk]).1 == graph@[j].inbounds@[k]
                        && queue@[qk].0 <= graph@[j].root_depth + 1) by {
                    let e2 = graph@[j].inbounds@[k];
                    if !(1 <= e2 <= n && graph@[e2 as int - 1].visited) {
                        let qk = choose|qk: int|
                            0 <= qk < qfull.len() && (#[trigger] qfull[qk]).1 == e2 && qfull[qk].0
                                <= graph@[j].root_depth + 1;
                        if qk == 0 {
                            assert(e2 == vertex_id);
                            assert(false);
                        } else {
                            assert(queue@[qk - 1] == qfull[qk]);
                        }
                    }
                }
            }
        } else {
            proof {
                lemma_count_visited_missing(graph@, vertex_idx as int);
            }
            let ghost cpre = count_visited(graph@);
            graph[vertex_idx].visited = true;
            proof {
                lemma_count_visited_update(gpre, vertex_idx as int, graph@[vertex_idx as int]);
                assert(count_visited(graph@) == cpre + 1);
            }
            if path_len < graph[vertex_idx].root_depth {
                let ghost gmid = graph@;
                graph[vertex_idx].root_depth = path_len;
                proof {
                    lemma_count_visited_update(gmid, vertex_idx as int, graph@[vertex_idx as int]);
                    assert(count_visited(graph@) == cpre + 1);
                }
            }
            proof {
                assert(graph@[vertex_idx as int].root_depth == path_len);
                assert(graph@[vertex_idx as int].visited);
                assert(path_len <= cpre);
                assert(cpre <= n - 1);
                assert(reachable_in(inb, vertex_id, path_len as nat));
                if !graph@[0].visited {
                    assert(gpre[0].visited == graph@[0].visited || vertex_idx == 0);
                    assert(!gpre[0].visited);
                    assert(pair == (0usize, 1usize));
                    assert(vertex_idx == 0);
                    assert(false);
                }
                if graph@[0].visited && !gpre[0].visited {
                    assert(vertex_idx == 0);
                    assert(pair == (0usize, 1usize));
                    assert(graph@[0].root_depth == 0);
                }
                assert forall|j: int, k: int|
                    0 <= j < n as int && graph@[j].visited && 0 <= k < graph@[j].inbounds@.len()
                        && j != vertex_idx as int implies (1 <= (
                #[trigger] graph@[j].inbounds@[k]) <= n && graph@[graph@[j].inbounds@[k] as int
                    - 1].visited) || (exists|qk: int|
                    0 <= qk < queue@.len() && (#[trigger] queue@[qk]).1 == graph@[j].inbounds@[k]
                        && queue@[qk].0 <= graph@[j].root_depth + 1) by {
                    let e2 = graph@[j].inbounds@[k];
                    assert(gpre[j].inbounds@[k] == e2);
                    assert(gpre[j].visited);
                    if !(1 <= e2 <= n && graph@[e2 as int - 1].visited) {
                        assert(!(1 <= e2 <= n && gpre[e2 as int - 1].visited));
                        let qk = choose|qk: int|
                            0 <= qk < qfull.len() && (#[trigger] qfull[qk]).1 == e2 && qfull[qk].0
                                <= graph@[j].root_depth + 1;
                        if qk == 0 {
                            assert(e2 == vertex_id);
                            assert(false);
                        } else {
                            assert(queue@[qk - 1] == qfull[qk]);
                        }
                    }
                }
                assert forall|j: int|
                    0 <= j < n as int && (#[trigger] graph@[j]).visited implies graph@[
                j].root_depth <= path_len by {
                    if j != vertex_idx as int {
                        assert(gpre[j].visited && gpre[j].root_depth <= qfull[0].0);
                    }
                }
                assert forall|j: int, k: int|
                    0 <= j < n as int && graph@[j].visited && 0 <= k < graph@[j].inbounds@.len()
                        && 1 <= (#[trigger] graph@[j].inbounds@[k]) <= n
                        && graph@[graph@[j].inbounds@[k] as int - 1].visited implies graph@[graph@[
                j].inbounds@[k] as int - 1].root_depth <= graph@[j].root_depth + 1 by {
                    let e2 = graph@[j].inbounds@[k];
                    if j == vertex_idx as int {
                        assert(graph@[e2 as int - 1].root_depth <= path_len);
                    } else if e2 as int - 1 == vertex_idx as int {
                        assert(gpre[j].visited && !gpre[e2 as int - 1].visited);
                        let qk = choose|qk: int|
                            0 <= qk < qfull.len() && (#[trigger] qfull[qk]).1 == e2 && qfull[qk].0
                                <= gpre[j].root_depth + 1;
                        if qk > 0 {
                            assert(qfull[0].0 <= qfull[qk].0);
                        }
                        assert(path_len <= qfull[qk].0);
                        assert(graph@[j].root_depth == gpre[j].root_depth);
                    } else {
                        assert(gpre[j].visited && gpre[e2 as int - 1].visited);
                        assert(gpre[e2 as int - 1].root_depth <= gpre[j].root_depth + 1);
                    }
                }
            }
            let m = graph[vertex_idx].inbounds.len();
            let mut t: usize = 0;
            while t < m
                invariant
                    t <= m,
                    m == graph@[vertex_idx as int].inbounds@.len(),
                    forall|k: int| 0 <= k < queue@.len() ==> (#[trigger] queue@[k]).0
                        <= count_visited(graph@),
                    forall|k: int|
                        0 <= k < queue@.len() ==> ((#[trigger] queue@[k]) == (0usize, 1usize)
                            || exists|j: int|
                            0 <= j < n as int && (#[trigger] inb[j]).contains(queue@[k].1)),
                    forall|k: int|
                        0 <= k < queue@.len() ==> reachable_in(
                            inb,
                            (#[trigger] queue@[k]).1,
                            queue@[k].0 as nat,
                        ),
                    forall|k1: int, k2: int|
                        0 <= k1 < k2 < queue@.len() ==> (#[trigger] queue@[k1]).0 <= (
                        #[trigger] queue@[k2]).0,
                    forall|k: int|
                        0 <= k < queue@.len() ==> path_len <= (#[trigger] queue@[k]).0 <= path_len
                            + 1,
                    forall|j: int, k: int|
                        0 <= j < n as int && graph@[j].visited && 0 <= k
                            < graph@[j].inbounds@.len() && !(j == vertex_idx as int && t as int
                            <= k) ==> (1 <= (#[trigger] graph@[j].inbounds@[k]) <= n
                            && graph@[graph@[j].inbounds@[k] as int - 1].visited) || (exists|
                            qk: int,
                        |
                            0 <= qk < queue@.len() && (#[trigger] queue@[qk]).1
                                == graph@[j].inbounds@[k] && queue@[qk].0 <= graph@[j].root_depth
                                + 1),
                decreases m - t,
            {
                let child = graph[vertex_idx].inbounds[t];
                let ghost qbefore = queue@;
                queue.push_back((path_len + 1, child));
                proof {
                    assert(queue@ =~= qbefore.push(((path_len + 1) as usize, child)));
                    assert(inb[vertex_idx as int] == graph@[vertex_idx as int].inbounds@);
                    assert(inb[vertex_idx as int].contains(child)) by {
                        assert(inb[vertex_idx as int][t as int] == child);
                    }
                    assert(reachable_in(inb, child, (path_len + 1) as nat)) by {
                        assert(1 <= vertex_id <= inb.len() && reachable_in(
                            inb,
                            vertex_id,
                            path_len as nat,
                        ) && inb[vertex_id as int - 1].contains(child));
                    }
                    assert forall|j: int, k: int|
                        0 <= j < n as int && graph@[j].visited && 0 <= k
                            < graph@[j].inbounds@.len() && !(j == vertex_idx as int && t as int + 1
                            <= k) implies (1 <= (#[trigger] graph@[j].inbounds@[k]) <= n
                        && graph@[graph@[j].inbounds@[k] as int - 1].visited) || (exists|qk: int|
                        0 <= qk < queue@.len() && (#[trigger] queue@[qk]).1
                            == graph@[j].inbounds@[k] && queue@[qk].0 <= graph@[j].root_depth
                            + 1) by {
                        let e2 = graph@[j].inbounds@[k];
                        if j == vertex_idx as int && k == t as int {
                            assert(queue@[qbefore.len() as int] == ((path_len + 1) as usize, child));
                        } else if !(1 <= e2 <= n && graph@[e2 as int - 1].visited) {
                            let qk = choose|qk: int|
                                0 <= qk < qbefore.len() && (#[trigger] qbefore[qk]).1 == e2
                                    && qbefore[qk].0 <= graph@[j].root_depth + 1;
                            assert(queue@[qk] == qbefore[qk]);
                        }
                    }
                }
                t = t + 1;
            }
            proof {
                assert forall|j: int, k: int|
                    0 <= j < n as int && graph@[j].visited && 0 <= k
                        < graph@[j].inbounds@.len() implies (1 <= (
                #[trigger] graph@[j].inbounds@[k]) <= n && graph@[graph@[j].inbounds@[k] as int
                    - 1].visited) || (exists|qk: int|
                    0 <= qk < queue@.len() && (#[trigger] queue@[qk]).1 == graph@[j].inbounds@[k]
                        && queue@[qk].0 <= graph@[j].root_depth + 1) by {
                    assert(!(j == vertex_idx as int && t as int <= k));
                }
            }
        }
    }
    proof {
        assert(graph@[0].visited);
        assert forall|j2: int, k2: int|
            0 <= j2 < n as int && graph@[j2].visited && 0 <= k2
                < graph@[j2].inbounds@.len() implies 1 <= (#[trigger] graph@[j2].inbounds@[k2])
            <= n && graph@[graph@[j2].inbounds@[k2] as int - 1].visited by {}
        assert forall|j: int, dp: nat|
            0 <= j < n as int && #[trigger] reachable_in(inb, (j + 1) as usize, dp) implies
            graph@[j].visited && graph@[j].root_depth <= dp by {
            lemma_reachable_visited(inb, graph@, n as int, (j + 1) as usize, dp);
        }
        assert forall|j: int|
            0 <= j < n as int && reachable(inb, (j + 1) as usize) implies (
        #[trigger] graph@[j]).visited by {
            let d = choose|d: nat| #[trigger] reachable_in(inb, (j + 1) as usize, d);
        }
        assert forall|j: int|
            0 <= j < n as int && (#[trigger] graph@[j]).visited implies reachable(
            inb,
            (j + 1) as usize,
        ) by {
            assert(reachable_in(inb, (j + 1) as usize, graph@[j].root_depth as nat));
        }
    }
    Ok(())
}

/// A loosely coupled wrapper over the functions that compute statistical
/// data about the graph.
pub struct Graph {
    pub graph: Vec<VertexWithStats>,
}

impl Graph {
    /// Wraps the loaded vertices with untouched analysis state.
    pub fn new(vertices: Vec<Vertex>) -> (r: Self)
        ensures
            r.graph@.len() == vertices@.len(),
            forall|j: int|
                0 <= j < vertices@.len() ==> {
                    &&& (#[trigger] r.graph@[j]).vertex == vertices@[j]
                    &&& !r.graph@[j].visited
                    &&& r.graph@[j].inbounds@ == Seq::<usize>::empty()
                    &&& r.graph@[j].root_depth == usize::MAX
                },
    {
        let n = vertices.len();
        let mut g: Vec<VertexWithStats> = Vec::new();
        let mut i: usize = 0;
        while i < n
            invariant
                i <= n,
                n == vertices@.len(),
                g@.len() == i as int,
                forall|j: int|
                    0 <= j < i as int ==> {
                        &&& (#[trigger] g@[j]).vertex == vertices@[j]
                        &&& !g@[j].visited
                        &&& g@[j].inbounds@ == Seq::<usize>::empty()
                        &&& g@[j].root_depth == usize::MAX
                    },
            decreases n - i,
        {
            g.push(VertexWithStats::from(vertices[i]));
            i = i + 1;
        }
        Graph { graph: g }
    }

    /// Runs the reference inversion and then the depth labeling, once
    /// each, over a freshly built graph. On success the root carries
    /// depth 0 and exactly the vertices it reaches are marked visited.
    #[verifier::rlimit(30)]
    pub fn walk_and_analyze(&mut self) -> (r: Result<(), GraphError>)
        requires
            forall|j: int|
                0 <= j < old(self).graph@.len() ==> !(#[trigger] old(self).graph@[j]).visited && old(self).graph@[j].root_depth == usize::MAX && old(self).graph@[j].inbounds@.len() == 0,
        ensures
            final(self).graph@.len() == old(self).graph@.len(),
            forall|j: int|
                0 <= j < old(self).graph@.len() ==> (#[trigger] final(self).graph@[j]).vertex
                    == old(self).graph@[j].vertex,
            old(self).graph@.len() == 0 ==> r == Err::<(), GraphError>(GraphError::EmptyGraph),
            old(self).graph@.len() > 0 ==> (match ref_error_from(
                verts(old(self).graph@),
                0,
                old(self).graph@.len() as int,
            ) {
                Some(e) => r == Err::<(), GraphError>(e) && final(self).graph@ == old(self).graph@,
                None => {
                    let n0 = old(self).graph@.len() as int;
                    let inb = Seq::new(
                        old(self).graph@.len(),
                        (|j: int| inbound_sources(verts(old(self).graph@), n0, (j + 1) as usize)),
                    );
                    &&& r == Ok::<(), GraphError>(())
                    &&& final(self).graph@[0].visited
                    &&& final(self).graph@[0].root_depth == 0
                    &&& forall|j: int|
                        0 <= j < n0 ==> (#[trigger] final(self).graph@[j]).inbounds@ == inb[j]
                    &&& forall|j: int|
                        0 <= j < n0 ==> ((#[trigger] final(self).graph@[j]).visited <==> reachable(
                            inb,
                            (j + 1) as usize,
                        ))
                    &&& forall|j: int|
                        0 <= j < n0 && (#[trigger] final(self).graph@[j]).visited ==> final(self).graph@[j].root_depth < n0 && reachable_in(
                            inb,
                            (j + 1) as usize,
                            final(self).graph@[j].root_depth as nat,
                        )
                    &&& forall|j: int|
                        0 <= j < n0 && !(#[trigger] final(self).graph@[j]).visited ==> final(self).graph@[j].root_depth == usize::MAX
                    &&& forall|j: int, dp: nat|
                        0 <= j < n0 && #[trigger] reachable_in(inb, (j + 1) as usize, dp) ==> final(self).graph@[j].visited && final(self).graph@[j].root_depth <= dp
                },
            }),
    {
        let ghost g0 = self.graph@;
        let ghost n0 = g0.len() as int;
        let n = self.graph.len();
        proof {
            assert(g0.len() == n);
        }
        if let Err(e) = find_inward_references(&mut self.graph) {
            return Err(e);
        }
        let ghost inb = Seq::new(g0.len(), |j: int| inbound_sources(verts(g0), n0, (j + 1) as usize));
        proof {
            assert forall|j: int| 0 <= j < n0 implies (#[trigger] self.graph@[j]).inbounds@
                == inb[j] by {
                assert(self.graph@[j].inbounds@ =~= g0[j].inbounds@ + inbound_sources(
                    verts(g0),
                    n0,
                    (j + 1) as usize,
                ));
            }
            assert(inb_lists(self.graph@) =~= inb);
            assert forall|j: int, k: int|
                0 <= j < inb.len() && 0 <= k < inb[j].len() implies 1 <= #[trigger] inb[j][k]
                <= n0 by {
                lemma_sources_entries(verts(g0), n0, (j + 1) as usize);
            }
            assert(inb_entries_valid(inb_lists(self.graph@), n0));
        }
        let ghost gmid = self.graph@;
        if let Err(e) = find_root_depth(&mut self.graph) {
            proof {
                assert(inb_lists(gmid) =~= inb);
                assert(false);
            }
            return Err(e);
        }
        proof {
            assert(inb_lists(gmid) =~= inb);
        }
        Ok(())
    }
}

proof fn lemma_sources_entries(vs: Seq<Vertex>, n: int, t: usize)
    requires
        0 <= n <= usize::MAX,
    ensures
        forall|k: int|
            0 <= k < inbound_sources(vs, n, t).len() ==> 1 <= #[trigger] inbound_sources(
                vs,
                n,
                t,
            )[k] <= n,
    decreases n,
{
    if n > 0 {
        lemma_sources_entries(vs, n - 1, t);
        let s = inbound_sources(vs, n, t);
        let p = inbound_sources(vs, n - 1, t);
        let rs = row_sources(vs[n - 1], n as usize, t);
        assert forall|k: int| 0 <= k < s.len() implies 1 <= #[trigger] s[k] <= n by {
            if k < p.len() {
                assert(s[k] == p[k]);
            } else {
                assert(s[k] == rs[k - p.len()]);
                assert(rs[k - p.len()] == n as usize);
            }
        }
    }
}

/// The inverter's effect is not idempotent: a first run turns an empty
/// inbound list into the contribution sequence for its vertex, and a
/// second run appends the same sequence again, doubling the length of
/// every inbound list. A correct caller runs the inversion exactly once.
pub proof fn lemma_inversion_not_idempotent(vs: Seq<Vertex>, n: int, t: usize)
    ensures
        (inbound_sources(vs, n, t) + inbound_sources(vs, n, t)).len() == 2 * inbound_sources(
            vs,
            n,
            t,
        ).len(),
{
}

/// Total inbound references over the first `n` vertices.
pub open spec fn total_inbounds(g: Seq<VertexWithStats>, n: int) -> int
    decreases n,
{
    if n <= 0 {
        0
    } else {
        total_inbounds(g, n - 1) + g[n - 1].inbounds@.len()
    }
}

/// Total root depth over the first `n` vertices.
pub open spec fn total_depths(g: Seq<VertexWithStats>, n: int) -> int
    decreases n,
{
    if n <= 0 {
        0
    } else {
        total_depths(g, n - 1) + g[n - 1].root_depth
    }
}

/// Vertices among the first `n` whose root depth is exactly `d`.
pub open spec fn count_at_depth(g: Seq<VertexWithStats>, n: int, d: int) -> int
    decreases n,
{
    if n <= 0 {
        0
    } else {
        count_at_depth(g, n - 1, d) + if g[n - 1].root_depth == d {
            1int
        } else {
            0int
        }
    }
}

/// Vertices among the first `n` whose root depth lies in `[1, d)`.
pub open spec fn count_in_levels(g: Seq<VertexWithStats>, n: int, d: int) -> int
    decreases n,
{
    if n <= 0 {
        0
    } else {
        count_in_levels(g, n - 1, d) + if 1 <= g[n - 1].root_depth < d {
            1int
        } else {
            0int
        }
    }
}

/// Sum of the non-empty level sizes for depths `[1, d)`, paired with how
/// many of those levels are non-empty. The root level is left out by
/// design, and empty levels do not count.
pub open spec fn level_totals(g: Seq<VertexWithStats>, d: int) -> (int, int)
    decreases d,
{
    if d <= 1 {
        (0int, 0int)
    } else {
        let prev = level_totals(g, d - 1);
        let c = count_at_depth(g, g.len() as int, d - 1);
        if c > 0 {
            (prev.0 + c, prev.1 + 1)
        } else {
            prev
        }
    }
}

proof fn lemma_total_inbounds_nonneg(g: Seq<VertexWithStats>, n: int)
    requires
        0 <= n,
    ensures
        total_inbounds(g, n) >= 0,
    decreases n,
{
    if n > 0 {
        lemma_total_inbounds_nonneg(g, n - 1);
    }
}

proof fn lemma_total_inbounds_mono(g: Seq<VertexWithStats>, n: int)
    requires
        0 <= n <= g.len(),
    ensures
        total_inbounds(g, n) <= total_inbounds(g, g.len() as int),
        total_inbounds(g, n) >= 0,
    decreases g.len() - n,
{
    lemma_total_inbounds_nonneg(g, n);
    if n < g.len() {
        lemma_total_inbounds_mono(g, n + 1);
    }
}

proof fn lemma_total_depths_mono(g: Seq<VertexWithStats>, n: int)
    requires
        0 <= n <= g.len(),
    ensures
        total_depths(g, n) <= total_depths(g, g.len() as int),
        total_depths(g, n) >= 0,
    decreases g.len() - n,
{
    lemma_total_depths_nonneg(g, n);
    if n < g.len() {
        lemma_total_depths_mono(g, n + 1);
    }
}

proof fn lemma_total_depths_nonneg(g: Seq<VertexWithStats>, n: int)
    requires
        0 <= n,
    ensures
        total_depths(g, n) >= 0,
    decreases n,
{
    if n > 0 {
        lemma_total_depths_nonneg(g, n - 1);
    }
}

proof fn lemma_count_at_depth_bounds(g: Seq<VertexWithStats>, n: int, d: int)
    requires
        0 <= n,
    ensures
        0 <= count_at_depth(g, n, d) <= n,
    decreases n,
{
    if n > 0 {
        lemma_count_at_depth_bounds(g, n - 1, d);
    }
}

proof fn lemma_count_in_levels_bounds(g: Seq<VertexWithStats>, n: int, d: int)
    requires
        0 <= n,
    ensures
        0 <= count_in_levels(g, n, d) <= n,
    decreases n,
{
    if n > 0 {
        lemma_count_in_levels_bounds(g, n - 1, d);
    }
}

proof fn lemma_count_in_levels_split(g: Seq<VertexWithStats>, n: int, d: int)
    requires
        0 <= n,
        d >= 2,
    ensures
        count_in_levels(g, n, d) == count_in_levels(g, n, d - 1) + count_at_depth(g, n, d - 1),
    decreases n,
{
    if n > 0 {
        lemma_count_in_levels_split(g, n - 1, d);
    }
}

proof fn lemma_count_in_levels_base(g: Seq<VertexWithStats>, n: int)
    requires
        0 <= n,
    ensures
        count_in_levels(g, n, 1) == 0,
    decreases n,
{
    if n > 0 {
        lemma_count_in_levels_base(g, n - 1);
    }
}

proof fn lemma_level_totals(g: Seq<VertexWithStats>, d: int)
    requires
        d >= 1,
    ensures
        level_totals(g, d).0 == count_in_levels(g, g.len() as int, d),
        0 <= level_totals(g, d).1 <= d - 1,
    decreases d,
{
    if d == 1 {
        lemma_count_in_levels_base(g, g.len() as int);
    } else {
        lemma_level_totals(g, d - 1);
        lemma_count_in_levels_split(g, g.len() as int, d);
        lemma_count_at_depth_bounds(g, g.len() as int, d - 1);
    }
}

impl Graph {
    /// Total number of inbound references over the whole graph, or
    /// `None` when the sum does not fit a machine word.
    #[verifier::loop_isolation(false)]
    pub fn total_inbound_refs(&self) -> (r: Option<usize>)
        ensures
            total_inbounds(self.graph@, self.graph@.len() as int) <= usize::MAX ==> r == Some(
                total_inbounds(self.graph@, self.graph@.len() as int) as usize,
            ),
            total_inbounds(self.graph@, self.graph@.len() as int) > usize::MAX ==> r is None,
    {
        let n = self.graph.len();
        let mut sum: usize = 0;
        let mut i: usize = 0;
        while i < n
            invariant
                i <= n,
                sum == total_inbounds(self.graph@, i as int),
            decreases n - i,
        {
            let l = self.graph[i].inbounds.len();
            match sum.checked_add(l) {
                Some(s) => {
                    sum = s;
                },
                None => {
                    proof {
                        lemma_total_inbounds_mono(self.graph@, i as int + 1);
                    }
                    return None;
                },
            }
            i = i + 1;
        }
        Some(sum)
    }

    /// Sum of every vertex's root depth, sentinel values included, or
    /// `None` when the sum does not fit a machine word.
    #[verifier::loop_isolation(false)]
    pub fn total_root_depth(&self) -> (r: Option<usize>)
        ensures
            total_depths(self.graph@, self.graph@.len() as int) <= usize::MAX ==> r == Some(
                total_depths(self.graph@, self.graph@.len() as int) as usize,
            ),
            total_depths(self.graph@, self.graph@.len() as int) > usize::MAX ==> r is None,
    {
        let n = self.graph.len();
        let mut sum: usize = 0;
        let mut i: usize = 0;
        while i < n
            invariant
                i <= n,
                sum == total_depths(self.graph@, i as int),
            decreases n - i,
        {
            let d = self.graph[i].root_depth;
            match sum.checked_add(d) {
                Some(s) => {
                    sum = s;
                },
                None => {
                    proof {
                        lemma_total_depths_mono(self.graph@, i as int + 1);
                    }
                    return None;
                },
            }
            i = i + 1;
        }
        Some(sum)
    }

    /// Sum of the non-empty depth-level sizes past the root level, and
    /// the number of such levels. `None` when some vertex keeps a depth
    /// that no level can hold, which is exactly the unvisited sentinel
    /// after a completed analysis.
    #[verifier::loop_isolation(false)]
    #[verifier::rlimit(30)]
    pub fn depth_level_totals(&self) -> (r: Option<(usize, usize)>)
        ensures
            (forall|j: int|
                0 <= j < self.graph@.len() ==> (#[trigger] self.graph@[j]).root_depth
                    < self.graph@.len()) ==> r == Some(
                (
                    level_totals(self.graph@, self.graph@.len() as int).0 as usize,
                    level_totals(self.graph@, self.graph@.len() as int).1 as usize,
                ),
            ),
            (exists|j: int|
                0 <= j < self.graph@.len() && (#[trigger] self.graph@[j]).root_depth
                    >= self.graph@.len()) ==> r is None,
    {
        let n = self.graph.len();
        let mut counts: Vec<usize> = Vec::new();
        let mut i: usize = 0;
        while i < n
            invariant
                i <= n,
                counts@.len() == i as int,
                forall|d: int| 0 <= d < i as int ==> #[trigger] counts@[d] == 0,
            decreases n - i,
        {
            counts.push(0);
            i = i + 1;
        }
        proof {
            assert forall|d: int| 0 <= d < n as int implies #[trigger] counts@[d] == count_at_depth(
                self.graph@,
                0,
                d,
            ) by {}
        }
        let mut i: usize = 0;
        while i < n
            invariant
                i <= n,
                counts@.len() == n as int,
                forall|j: int|
                    0 <= j < i as int ==> (#[trigger] self.graph@[j]).root_depth < n,
                forall|d: int|
                    0 <= d < n as int ==> #[trigger] counts@[d] == count_at_depth(
                        self.graph@,
                        i as int,
                        d,
                    ),
            decreases n - i,
        {
            let d = self.graph[i].root_depth;
            if d >= n {
                return None;
            }
            proof {
                lemma_count_at_depth_bounds(self.graph@, i as int, d as int);
            }
            let c = counts[d];
            counts[d] = c + 1;
            i = i + 1;
        }
        let mut sum: usize = 0;
        let mut cnt: usize = 0;
        let mut d: usize = 1;
        while d < n
            invariant
                1 <= d,
                d <= n || d == 1,
                sum == level_totals(self.graph@, d as int).0,
                cnt == level_totals(self.graph@, d as int).1,
            decreases n - d,
        {
            let c = counts[d];
            if c > 0 {
                proof {
                    lemma_level_totals(self.graph@, d as int + 1);
                    lemma_count_in_levels_bounds(self.graph@, n as int, d as int + 1);
                    lemma_level_totals(self.graph@, d as int);
                }
                sum = sum + c;
                cnt = cnt + 1;
            }
            d = d + 1;
        }
        Some((sum, cnt))
    }
}

} // verus!

