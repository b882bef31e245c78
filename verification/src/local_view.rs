use vstd::prelude::*;
use crate::node_id::NodeId;
use crate::node_id::NodeIdView;
use crate::model::Edge;
use crate::model::EdgeView;
use crate::model::edges_view;
use crate::model::ids_view;
use crate::query::contains_id;
use crate::query::touches;

verus! {

// ----------------------------------------------------------------------------
// The local graph around a selected node
// ----------------------------------------------------------------------------

/// Whether the layout of the local graph starts afresh: a node is selected, the
/// local graph has a node, and either nothing is placed yet, the selected node is
/// not placed, or the simulation has stopped (a new selection stops it).
pub open spec fn reset_needed(
    selected: bool,
    layout_empty: bool,
    selected_placed: bool,
    running: bool,
    visible_empty: bool,
) -> bool {
    &&& selected
    &&& (layout_empty || !selected_placed || !running)
    &&& !visible_empty
}

/// Decides whether the viewer lays out the local graph afresh (see `reset_needed`).
pub fn needs_reset(
    selected: bool,
    layout_empty: bool,
    selected_placed: bool,
    running: bool,
    visible_empty: bool,
) -> (r: bool)
    ensures
        r == reset_needed(selected, layout_empty, selected_placed, running, visible_empty),
{
    selected && (layout_empty || !selected_placed || !running) && !visible_empty
}

/// The end of an edge that is not `root` (the target when the source is `root`).
pub open spec fn other_end(e: EdgeView, root: NodeIdView) -> NodeIdView {
    if e.source == root {
        e.target
    } else {
        e.source
    }
}

/// Whether `v` is the selected node or the other end of an edge at it.
pub open spec fn in_local_graph(es: Seq<EdgeView>, root: NodeIdView, v: NodeIdView) -> bool {
    ||| v == root
    ||| exists|i: int| 0 <= i < es.len() && touches(es[i], root) && #[trigger] other_end(es[i], root) == v
}

pub open spec fn distinct_ids_seq(s: Seq<NodeIdView>) -> bool {
    forall|i: int, j: int| 0 <= i < s.len() && 0 <= j < s.len() && i != j ==> s[i] != s[j]
}

/// The part of the graph shown around a selected node: the node, the other ends
/// of its edges (each once, the selected node first), and its edges in order.
pub fn local_graph(edges: &Vec<Edge>, root: &NodeId) -> (r: (Vec<NodeId>, Vec<Edge>))
    ensures
        edges_view(r.1@) == edges_view(edges@).filter(|e: EdgeView| touches(e, root@)),
        r.0.len() > 0,
        r.0@[0]@ == root@,
        distinct_ids_seq(ids_view(r.0@)),
        forall|v: NodeIdView|
            #[trigger] ids_view(r.0@).contains(v) <==> in_local_graph(edges_view(edges@), root@, v),
{
    let ghost es = edges_view(edges@);
    let ghost pred = |e: EdgeView| touches(e, root@);
    let mut visible: Vec<NodeId> = Vec::new();
    visible.push(root.duplicate());
    let mut shown: Vec<Edge> = Vec::new();
    proof {
        assert(edges_view(shown@) =~= Seq::<EdgeView>::empty());
        assert forall|v: NodeIdView| #[trigger] ids_view(visible@).contains(v) <==> v == root@ by {
            if v == root@ {
                assert(ids_view(visible@)[0] == v);
            }
        }
    }
    let mut i: usize = 0;
    while i < edges.len()
        invariant
            i <= edges.len(),
            es == edges_view(edges@),
            pred == (|e: EdgeView| touches(e, root@)),
            visible.len() > 0,
            visible@[0]@ == root@,
            distinct_ids_seq(ids_view(visible@)),
            edges_view(shown@) == es.take(i as int).filter(pred),
            forall|v: NodeIdView|
                #[trigger] ids_view(visible@).contains(v) <==> in_local_graph(es.take(i as int), root@, v),
        decreases edges.len() - i,
    {
        let e = &edges[i];
        let ghost ev = es[i as int];
        let ghost prev = es.take(i as int);
        let ghost next = es.take(i + 1);
        assert(next =~= prev.push(ev));
        proof {
            prev.lemma_filter_push(ev, pred);
        }
        assert forall|v: NodeIdView| in_local_graph(next, root@, v) <==> (in_local_graph(prev, root@, v)
            || (touches(ev, root@) && other_end(ev, root@) == v)) by {
            if in_local_graph(next, root@, v) && v != root@ {
                let j = choose|j: int| 0 <= j < next.len() && touches(next[j], root@) && #[trigger] other_end(next[j], root@) == v;
                if j < i {
                    assert(prev[j] == next[j]);
                }
            }
            if in_local_graph(prev, root@, v) && v != root@ {
                let j = choose|j: int| 0 <= j < prev.len() && touches(prev[j], root@) && #[trigger] other_end(prev[j], root@) == v;
                assert(next[j] == prev[j]);
            }
            if touches(ev, root@) && other_end(ev, root@) == v {
                assert(next[i as int] == ev);
            }
        }
        let is_src = e.source.same_as(root);
        let is_tgt = e.target.same_as(root);
        if is_src || is_tgt {
            let ghost before = edges_view(shown@);
            shown.push(e.duplicate());
            assert(edges_view(shown@) =~= before.push(ev));
            let other = if is_src {
                e.target.duplicate()
            } else {
                e.source.duplicate()
            };
            assert(other@ == other_end(ev, root@));
            if !contains_id(&visible, &other) {
                let ghost vv = ids_view(visible@);
                visible.push(other);
                proof {
                    assert(ids_view(visible@) =~= vv.push(other_end(ev, root@)));
                    assert forall|a: int, b: int|
                        0 <= a < ids_view(visible@).len() && 0 <= b < ids_view(visible@).len() && a
                            != b implies ids_view(visible@)[a] != ids_view(visible@)[b] by {
                        if a == vv.len() {
                            assert(vv[b] == ids_view(visible@)[b]);
                        } else if b == vv.len() {
                            assert(vv[a] == ids_view(visible@)[a]);
                        }
                    }
                    assert forall|v: NodeIdView| #[trigger] ids_view(visible@).contains(v) <==> in_local_graph(next, root@, v) by {
                        if ids_view(visible@).contains(v) {
                            let k = choose|k: int| 0 <= k < ids_view(visible@).len() && ids_view(visible@)[k] == v;
                            if k < vv.len() {
                                assert(vv[k] == v);
                            }
                        }
                        if vv.contains(v) {
                            let k = choose|k: int| 0 <= k < vv.len() && vv[k] == v;
                            assert(ids_view(visible@)[k] == v);
                        }
                        if v == other_end(ev, root@) {
                            assert(ids_view(visible@)[vv.len() as int] == v);
                        }
                    }
                }
            }
        }
        i = i + 1;
    }
    assert(es.take(edges.len() as int) =~= es);
    (visible, shown)
}

// ----------------------------------------------------------------------------
// Text blocks of a scanned document
// ----------------------------------------------------------------------------

/// A block of text that document analysis found: whether it is a line, and its
/// text when it has one.
#[derive(Debug, PartialEq, Eq)]
pub struct TextBlock {
    pub is_line: bool,
    pub text: Option<String>,
}

pub ghost struct TextBlockView {
    pub is_line: bool,
    pub text: Option<Seq<char>>,
}

impl View for TextBlock {
    type V = TextBlockView;

    open spec fn view(&self) -> TextBlockView {
        TextBlockView {
            is_line: self.is_line,
            text: match self.text {
                Some(t) => Some(t@),
                None => None,
            },
        }
    }
}

pub open spec fn block_text(b: TextBlockView) -> Seq<char> {
    match b.text {
        Some(t) => t,
        None => seq![],
    }
}

/// The text of each line block, in order (empty for a line without text).
pub fn line_texts(blocks: &Vec<TextBlock>) -> (r: Vec<String>)
    ensures
        r.deep_view() == blocks@.map_values(|b: TextBlock| b@).filter(
            |b: TextBlockView| b.is_line,
        ).map_values(|b: TextBlockView| block_text(b)),
{
    let ghost bv = blocks@.map_values(|b: TextBlock| b@);
    let ghost pred = |b: TextBlockView| b.is_line;
    let mut out: Vec<String> = Vec::new();
    let mut i: usize = 0;
    while i < blocks.len()
        invariant
            i <= blocks.len(),
            bv == blocks@.map_values(|b: TextBlock| b@),
            pred == (|b: TextBlockView| b.is_line),
            out.deep_view() == bv.take(i as int).filter(pred).map_values(
                |b: TextBlockView| block_text(b),
            ),
        decreases blocks.len() - i,
    {
        assert(bv.take(i + 1) =~= bv.take(i as int).push(blocks@[i as int]@));
        proof {
            bv.take(i as int).lemma_filter_push(blocks@[i as int]@, pred);
        }
        if blocks[i].is_line {
            let t = match &blocks[i].text {
                Some(t) => t.clone(),
                None => String::new(),
            };
            let ghost before = out.deep_view();
            out.push(t);
            assert(out.deep_view() =~= before.push(block_text(blocks@[i as int]@)));
            assert(bv.take(i + 1).filter(pred).map_values(|b: TextBlockView| block_text(b))
                =~= bv.take(i as int).filter(pred).map_values(|b: TextBlockView| block_text(b)).push(
                block_text(blocks@[i as int]@),
            ));
        }
        i = i + 1;
    }
    assert(bv.take(blocks.len() as int) =~= bv);
    out
}

} // verus!
