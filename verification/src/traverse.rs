use vstd::prelude::*;
use crate::node_id::NodeId;
use crate::node_id::NodeIdView;
use crate::model::Edge;
use crate::model::EdgeView;
use crate::model::GraphData;
use crate::model::Node;
use crate::model::NodeView;
use crate::model::edges_view;
use crate::model::ids_view;
use crate::model::nodes_view;
use crate::query::contains_id;
use crate::query::nodes_among;

verus! {

// ----------------------------------------------------------------------------
// Breadth-first traversal along edges from source to target, round by round
// ----------------------------------------------------------------------------

/// The node that edge `e` reaches from the current layer, when it is not reached
/// yet: its target, when its source is in the layer.
pub open spec fn new_end(e: EdgeView, layer: Set<NodeIdView>, reached: Set<NodeIdView>) -> Option<
    NodeIdView,
> {
    if layer.contains(e.source) && !reached.contains(e.target) {
        Some(e.target)
    } else {
        None
    }
}

/// Whether one of the first `n` edges reaches `v` from the layer.
pub open spec fn discovered(
    es: Seq<EdgeView>,
    layer: Set<NodeIdView>,
    reached: Set<NodeIdView>,
    n: int,
    v: NodeIdView,
) -> bool {
    exists|j: int| 0 <= j < n && #[trigger] new_end(es[j], layer, reached) == Some(v)
}

/// The nodes that the edges reach from the layer: the next layer.
pub open spec fn next_layer(es: Seq<EdgeView>, layer: Set<NodeIdView>, reached: Set<NodeIdView>) -> Set<
    NodeIdView,
> {
    Set::new(|v: NodeIdView| discovered(es, layer, reached, es.len() as int, v))
}

/// Where a traversal stands after some rounds: the last layer and all nodes reached.
pub ghost struct BfsState {
    pub layer: Set<NodeIdView>,
    pub reached: Set<NodeIdView>,
}

/// A traversal along the edges, from source to target, from `start`, after `k` rounds.
pub open spec fn bfs(es: Seq<EdgeView>, start: NodeIdView, k: nat) -> BfsState
    decreases k,
{
    if k == 0 {
        BfsState { layer: set![start], reached: set![start] }
    } else {
        let s = bfs(es, start, (k - 1) as nat);
        let nl = next_layer(es, s.layer, s.reached);
        BfsState { layer: nl, reached: s.reached.union(nl) }
    }
}

/// The edges whose two ends are both in `reached`, in order.
pub open spec fn edges_among(es: Seq<EdgeView>, reached: Set<NodeIdView>) -> Seq<EdgeView> {
    es.filter(|e: EdgeView| reached.contains(e.source) && reached.contains(e.target))
}

/// One of the edges goes from `u` to `v`.
pub open spec fn adjacent(es: Seq<EdgeView>, u: NodeIdView, v: NodeIdView) -> bool {
    exists|i: int| 0 <= i < es.len() && (#[trigger] es[i]).source == u && es[i].target == v
}

/// The nodes at most `k` steps from `start`, each step along an edge from its
/// source to its target.
pub open spec fn within(es: Seq<EdgeView>, start: NodeIdView, k: nat) -> Set<NodeIdView>
    decreases k,
{
    if k == 0 {
        set![start]
    } else {
        let w = within(es, start, (k - 1) as nat);
        w.union(Set::new(|v: NodeIdView| exists|u: NodeIdView| w.contains(u) && adjacent(es, u, v)))
    }
}

proof fn lemma_layer_in_reached(es: Seq<EdgeView>, start: NodeIdView, k: nat)
    ensures
        bfs(es, start, k).layer.subset_of(bfs(es, start, k).reached),
{
}

proof fn lemma_empty_layer_stays(es: Seq<EdgeView>, start: NodeIdView, k: nat, m: nat)
    requires
        bfs(es, start, k).layer =~= Set::<NodeIdView>::empty(),
    ensures
        bfs(es, start, k + m).layer =~= Set::<NodeIdView>::empty(),
        bfs(es, start, k + m).reached == bfs(es, start, k).reached,
    decreases m,
{
    if m > 0 {
        lemma_empty_layer_stays(es, start, k, (m - 1) as nat);
        let s = bfs(es, start, (k + m - 1) as nat);
        assert(next_layer(es, s.layer, s.reached) =~= Set::<NodeIdView>::empty());
        assert(s.reached.union(Set::<NodeIdView>::empty()) =~= s.reached);
    }
}

/// What a list of ids holds after a push.
proof fn lemma_ids_push(vs: Seq<NodeIdView>, x: NodeIdView)
    ensures
        forall|w: NodeIdView| #[trigger] vs.push(x).contains(w) <==> (vs.contains(w) || w == x),
{
    assert forall|w: NodeIdView| #[trigger] vs.push(x).contains(w) <==> (vs.contains(w) || w == x) by {
        if vs.push(x).contains(w) && w != x {
            let k = choose|k: int| 0 <= k < vs.push(x).len() && vs.push(x)[k] == w;
            assert(vs[k] == w);
        }
        if vs.contains(w) {
            let k = choose|k: int| 0 <= k < vs.len() && vs[k] == w;
            assert(vs.push(x)[k] == w);
        }
        if w == x {
            assert(vs.push(x)[vs.len() as int] == w);
        }
    }
}

/// The discoveries among the first `i + 1` edges are those among the first `i` and
/// the one of edge `i`.
proof fn lemma_discovered_step(
    es: Seq<EdgeView>,
    layer: Set<NodeIdView>,
    reached: Set<NodeIdView>,
    i: int,
)
    requires
        0 <= i < es.len(),
    ensures
        forall|w: NodeIdView|
            #[trigger] discovered(es, layer, reached, i + 1, w) <==> (discovered(es, layer, reached, i, w)
                || new_end(es[i], layer, reached) == Some(w)),
{
    assert forall|w: NodeIdView|
        #[trigger] discovered(es, layer, reached, i + 1, w) <==> (discovered(es, layer, reached, i, w)
            || new_end(es[i], layer, reached) == Some(w)) by {
        if discovered(es, layer, reached, i + 1, w) {
            let j = choose|j: int| 0 <= j < i + 1 && #[trigger] new_end(es[j], layer, reached) == Some(w);
            if j < i {
                assert(discovered(es, layer, reached, i, w));
            }
        }
        if discovered(es, layer, reached, i, w) {
            let j = choose|j: int| 0 <= j < i && #[trigger] new_end(es[j], layer, reached) == Some(w);
            assert(0 <= j < i + 1);
        }
        if new_end(es[i], layer, reached) == Some(w) {
            assert(0 <= i < i + 1);
        }
    }
}

/// The edges whose two ends are both in the list, in their order.
pub fn edges_between(edges: &Vec<Edge>, ids: &Vec<NodeId>) -> (r: Vec<Edge>)
    ensures
        edges_view(r@) == edges_view(edges@).filter(
            |e: EdgeView| ids_view(ids@).contains(e.source) && ids_view(ids@).contains(e.target),
        ),
{
    let ghost ev = edges_view(edges@);
    let ghost pred = |e: EdgeView| ids_view(ids@).contains(e.source) && ids_view(ids@).contains(e.target);
    let mut out: Vec<Edge> = Vec::new();
    let mut i: usize = 0;
    while i < edges.len()
        invariant
            i <= edges.len(),
            ev == edges_view(edges@),
            pred == (|e: EdgeView| ids_view(ids@).contains(e.source) && ids_view(ids@).contains(e.target)),
            edges_view(out@) == ev.take(i as int).filter(pred),
        decreases edges.len() - i,
    {
        assert(ev.take(i + 1) =~= ev.take(i as int).push(edges@[i as int]@));
        proof {
            ev.take(i as int).lemma_filter_push(edges@[i as int]@, pred);
        }
        if contains_id(ids, &edges[i].source) && contains_id(ids, &edges[i].target) {
            let ghost before = edges_view(out@);
            out.push(edges[i].duplicate());
            assert(edges_view(out@) =~= before.push(edges@[i as int]@));
        }
        i = i + 1;
    }
    assert(ev.take(edges.len() as int) =~= ev);
    out
}

/// A traversal from `start`: `hops` rounds (1 when not given), each of which walks
/// the edges in order and takes, for each edge whose source is among the last
/// round's nodes and whose target is not reached yet, that target, stopping early
/// when a round reaches nothing. Its result holds the nodes that were reached and
/// the edges whose two ends were both reached, each in the order given.
pub fn traverse_graph(nodes: &Vec<Node>, edges: &Vec<Edge>, start: &NodeId, hops: Option<usize>) -> (g:
    GraphData)
    ensures
        ({
            let k: nat = match hops {
                Some(h) => h as nat,
                None => 1,
            };
            let reached = bfs(edges_view(edges@), start@, k).reached;
            &&& edges_view(g.edges@) == edges_among(edges_view(edges@), reached)
            &&& nodes_view(g.nodes@) == nodes_view(nodes@).filter(
                |n: NodeView| reached.contains(n.id),
            )
        }),
{
    let hops: usize = match hops {
        Some(h) => h,
        None => 1,
    };
    let ghost es = edges_view(edges@);
    let mut visited: Vec<NodeId> = Vec::new();
    visited.push(start.duplicate());
    let mut queue: Vec<NodeId> = Vec::new();
    queue.push(start.duplicate());
    let mut round: usize = 0;
    let mut stop = false;
    proof {
        lemma_ids_push(Seq::<NodeIdView>::empty(), start@);
        assert(ids_view(visited@) =~= Seq::<NodeIdView>::empty().push(start@));
        assert(ids_view(queue@) =~= Seq::<NodeIdView>::empty().push(start@));
    }
    while round < hops && !stop
        invariant
            round <= hops,
            es == edges_view(edges@),
            forall|v: NodeIdView| #[trigger] ids_view(queue@).contains(v) <==> bfs(es, start@, round as nat).layer.contains(v),
            forall|v: NodeIdView| #[trigger] ids_view(visited@).contains(v) <==> bfs(es, start@, round as nat).reached.contains(v),
            stop ==> bfs(es, start@, round as nat).layer =~= Set::<NodeIdView>::empty(),
        decreases hops - round,
    {
        let ghost st = bfs(es, start@, round as nat);
        let ghost layer = st.layer;
        let ghost reached = st.reached;
        proof {
            lemma_layer_in_reached(es, start@, round as nat);
        }
        let mut next_queue: Vec<NodeId> = Vec::new();
        let mut i: usize = 0;
        while i < edges.len()
            invariant
                i <= edges.len(),
                es == edges_view(edges@),
                layer.subset_of(reached),
                forall|v: NodeIdView| #[trigger] ids_view(queue@).contains(v) <==> layer.contains(v),
                forall|v: NodeIdView|
                    #[trigger] ids_view(visited@).contains(v) <==> (reached.contains(v) || discovered(
                        es,
                        layer,
                        reached,
                        i as int,
                        v,
                    )),
                forall|v: NodeIdView|
                    #[trigger] ids_view(next_queue@).contains(v) <==> discovered(es, layer, reached, i as int, v),
            decreases edges.len() - i,
        {
            let e = &edges[i];
            let ghost ev = es[i as int];
            assert(ev == e@);
            let ghost vv = ids_view(visited@);
            let ghost qv = ids_view(next_queue@);
            proof {
                lemma_discovered_step(es, layer, reached, i as int);
            }
            if contains_id(&queue, &e.source) && !contains_id(&visited, &e.target) {
                assert(new_end(ev, layer, reached) == Some(ev.target));
                visited.push(e.target.duplicate());
                next_queue.push(e.target.duplicate());
                proof {
                    assert(ids_view(visited@) =~= vv.push(ev.target));
                    assert(ids_view(next_queue@) =~= qv.push(ev.target));
                    lemma_ids_push(vv, ev.target);
                    lemma_ids_push(qv, ev.target);
                }
            } else {
                proof {
                    if layer.contains(ev.source) && !reached.contains(ev.target) {
                        assert(discovered(es, layer, reached, i as int, ev.target));
                    }
                }
            }
            i = i + 1;
        }
        proof {
            let nst = bfs(es, start@, (round + 1) as nat);
            assert(nst.layer == next_layer(es, layer, reached));
            assert forall|v: NodeIdView| #[trigger] ids_view(next_queue@).contains(v) <==> nst.layer.contains(v) by {}
            assert forall|v: NodeIdView| #[trigger] ids_view(visited@).contains(v) <==> nst.reached.contains(v) by {}
        }
        queue = next_queue;
        round = round + 1;
        if queue.len() == 0 {
            stop = true;
            proof {
                assert forall|v: NodeIdView| !bfs(es, start@, round as nat).layer.contains(v) by {
                    if bfs(es, start@, round as nat).layer.contains(v) {
                        assert(ids_view(queue@).contains(v));
                    }
                }
            }
        }
    }
    proof {
        if stop && round < hops {
            lemma_empty_layer_stays(es, start@, round as nat, (hops - round) as nat);
        }
    }
    let ghost fin = bfs(es, start@, hops as nat);
    let found_nodes = nodes_among(nodes, &visited);
    let found_edges = edges_between(edges, &visited);
    assert((|n: NodeView| ids_view(visited@).contains(n.id)) =~= (|n: NodeView| fin.reached.contains(n.id)));
    assert((|e: EdgeView| ids_view(visited@).contains(e.source) && ids_view(visited@).contains(e.target))
        =~= (|e: EdgeView| fin.reached.contains(e.source) && fin.reached.contains(e.target)));
    GraphData { nodes: found_nodes, edges: found_edges }
}

// ----------------------------------------------------------------------------
// Laws
// ----------------------------------------------------------------------------

/// A traversal of `k` rounds reaches exactly the nodes at most `k` steps from the
/// start, each step along an edge from source to target, and its last round's
/// nodes are those exactly `k` steps away.
pub proof fn lemma_traversal_reaches_within(es: Seq<EdgeView>, start: NodeIdView, k: nat)
    ensures
        bfs(es, start, k).reached == within(es, start, k),
        k == 0 ==> bfs(es, start, k).layer == within(es, start, k),
        k > 0 ==> bfs(es, start, k).layer == within(es, start, k).difference(
            within(es, start, (k - 1) as nat),
        ),
    decreases k,
{
    if k > 0 {
        let k1 = (k - 1) as nat;
        lemma_traversal_reaches_within(es, start, k1);
        let s = bfs(es, start, k1);
        let w = within(es, start, k1);
        let nl = next_layer(es, s.layer, s.reached);
        let grow = Set::new(|v: NodeIdView| exists|u: NodeIdView| w.contains(u) && adjacent(es, u, v));
        assert forall|v: NodeIdView| nl.contains(v) <==> (w.union(grow).contains(v) && !w.contains(v)) by {
            if nl.contains(v) {
                let j = choose|j: int| 0 <= j < es.len() && #[trigger] new_end(es[j], s.layer, s.reached) == Some(v);
                let e = es[j];
                assert(adjacent(es, e.source, v));
                assert(w.contains(e.source));
                assert(grow.contains(v));
            }
            if w.union(grow).contains(v) && !w.contains(v) {
                assert(grow.contains(v));
                let u = choose|u: NodeIdView| w.contains(u) && adjacent(es, u, v);
                let j = choose|j: int| 0 <= j < es.len() && (#[trigger] es[j]).source == u && es[j].target == v;
                assert(s.layer.contains(u)) by {
                    if k1 > 0 {
                        let w0 = within(es, start, (k1 - 1) as nat);
                        if w0.contains(u) {
                            let grow0 = Set::new(|x: NodeIdView| exists|y: NodeIdView| w0.contains(y) && adjacent(es, y, x));
                            assert(grow0.contains(v));
                            assert(w.contains(v));
                        }
                    }
                }
                assert(new_end(es[j], s.layer, s.reached) == Some(v));
                assert(discovered(es, s.layer, s.reached, es.len() as int, v));
            }
        }
        assert(nl =~= within(es, start, k).difference(w));
        assert(bfs(es, start, k).reached =~= within(es, start, k));
    }
}

/// With no rounds the traversal reaches only its start; each further round keeps
/// what was reached, and so keeps the edges among it.
pub proof fn lemma_traversal_grows(es: Seq<EdgeView>, start: NodeIdView, k: nat)
    ensures
        bfs(es, start, 0).reached == set![start],
        bfs(es, start, k).reached.subset_of(bfs(es, start, k + 1).reached),
        forall|i: int|
            0 <= i < es.len() && bfs(es, start, k).reached.contains(es[i].source) && bfs(
                es,
                start,
                k,
            ).reached.contains(es[i].target) ==> edges_among(es, bfs(es, start, k + 1).reached).contains(
                #[trigger] es[i],
            ),
{
    let t = bfs(es, start, k + 1);
    assert forall|i: int|
        0 <= i < es.len() && bfs(es, start, k).reached.contains(es[i].source) && bfs(
            es,
            start,
            k,
        ).reached.contains(es[i].target) implies edges_among(es, t.reached).contains(
        #[trigger] es[i],
    ) by {
        let pred = |e: EdgeView| t.reached.contains(e.source) && t.reached.contains(e.target);
        es.lemma_filter_contains(pred, i);
    }
}

} // verus!
