use vstd::prelude::*;
use crate::chars::chars_of;
use crate::chars::contains_run;
use crate::chars::seq_contains_run;
use crate::chars::to_lowercase;
use crate::chars::unicode_lowercase;
use crate::node_id::NodeId;
use crate::node_id::NodeIdView;
use crate::node_id::NodeKind;
use crate::model::Node;
use crate::model::NodeView;
use crate::model::nodes_view;

verus! {

broadcast use vstd::seq_lib::group_to_multiset_ensures;

// ----------------------------------------------------------------------------
// Order of names
// ----------------------------------------------------------------------------

/// Lexicographic order of texts by code point, the order of `String`'s `cmp`
/// (UTF-8 byte order is code point order).
pub open spec fn name_lt(a: Seq<char>, b: Seq<char>) -> bool
    decreases a.len(),
{
    if a.len() == 0 {
        b.len() > 0
    } else if b.len() == 0 {
        false
    } else if a[0] != b[0] {
        (a[0] as u32) < (b[0] as u32)
    } else {
        name_lt(a.drop_first(), b.drop_first())
    }
}

pub open spec fn name_le(a: Seq<char>, b: Seq<char>) -> bool {
    !name_lt(b, a)
}

proof fn lemma_name_lt_irreflexive(a: Seq<char>)
    ensures
        !name_lt(a, a),
    decreases a.len(),
{
    if a.len() > 0 {
        lemma_name_lt_irreflexive(a.drop_first());
    }
}

proof fn lemma_name_lt_transitive(a: Seq<char>, b: Seq<char>, c: Seq<char>)
    requires
        name_lt(a, b),
        name_lt(b, c),
    ensures
        name_lt(a, c),
    decreases a.len(),
{
    if a.len() > 0 && b.len() > 0 && c.len() > 0 {
        if a[0] == b[0] && b[0] == c[0] {
            lemma_name_lt_transitive(a.drop_first(), b.drop_first(), c.drop_first());
        } else {
            vstd::utf8::char_u32_cast(a[0], a[0] as u32);
            vstd::utf8::char_u32_cast(b[0], b[0] as u32);
            vstd::utf8::char_u32_cast(c[0], c[0] as u32);
        }
    }
}

proof fn lemma_name_lt_total(a: Seq<char>, b: Seq<char>)
    ensures
        a == b || name_lt(a, b) || name_lt(b, a),
    decreases a.len(),
{
    if a.len() > 0 && b.len() > 0 {
        if a[0] == b[0] {
            lemma_name_lt_total(a.drop_first(), b.drop_first());
            if a.drop_first() == b.drop_first() {
                assert(a =~= seq![a[0]] + a.drop_first());
                assert(b =~= seq![b[0]] + b.drop_first());
            }
        } else {
            vstd::utf8::char_u32_cast(a[0], a[0] as u32);
            vstd::utf8::char_u32_cast(b[0], b[0] as u32);
        }
    } else if a.len() == 0 && b.len() == 0 {
        assert(a =~= b);
    }
}

proof fn lemma_name_le_transitive(a: Seq<char>, b: Seq<char>, c: Seq<char>)
    requires
        name_le(a, b),
        name_le(b, c),
    ensures
        name_le(a, c),
{
    if name_lt(c, a) {
        lemma_name_lt_total(a, b);
        if a == b {
        } else {
            lemma_name_lt_transitive(c, a, b);
        }
    }
}

proof fn lemma_name_lt_le(a: Seq<char>, b: Seq<char>)
    requires
        name_lt(a, b),
    ensures
        name_le(a, b),
{
    if name_lt(b, a) {
        lemma_name_lt_transitive(a, b, a);
        lemma_name_lt_irreflexive(a);
    }
}

/// Whether `a` comes before `b` by code point.
pub fn name_less(a: &Vec<char>, b: &Vec<char>) -> (r: bool)
    ensures
        r == name_lt(a@, b@),
{
    let mut i: usize = 0;
    assert(a@.skip(0) =~= a@);
    assert(b@.skip(0) =~= b@);
    while i < a.len() && i < b.len() && a[i] == b[i]
        invariant
            i <= a.len(),
            i <= b.len(),
            name_lt(a@, b@) == name_lt(a@.skip(i as int), b@.skip(i as int)),
        decreases a.len() - i,
    {
        assert(a@.skip(i as int).drop_first() =~= a@.skip(i + 1));
        assert(b@.skip(i as int).drop_first() =~= b@.skip(i + 1));
        i = i + 1;
    }
    if i == a.len() {
        i < b.len()
    } else if i == b.len() {
        false
    } else {
        assert(a@.skip(i as int)[0] == a@[i as int]);
        assert(b@.skip(i as int)[0] == b@[i as int]);
        (a[i] as u32) < (b[i] as u32)
    }
}

// ----------------------------------------------------------------------------
// The document list
// ----------------------------------------------------------------------------

pub open spec fn entry_view(e: (NodeId, String)) -> (NodeIdView, Seq<char>) {
    (e.0@, e.1@)
}

pub open spec fn entries_view(v: Seq<(NodeId, String)>) -> Seq<(NodeIdView, Seq<char>)> {
    v.map_values(|e: (NodeId, String)| entry_view(e))
}

/// Node `i` is the last one with its id (so a map keyed by id keeps it).
pub open spec fn is_last_with_id(ns: Seq<NodeView>, i: int) -> bool {
    forall|j: int| i < j < ns.len() ==> (#[trigger] ns[j]).id != ns[i].id
}

/// Id and name of each document node that is the last one with its id, among the
/// first `n` nodes.
pub open spec fn document_entries(ns: Seq<NodeView>, n: int) -> Seq<(NodeIdView, Seq<char>)>
    decreases n,
{
    if n <= 0 {
        seq![]
    } else {
        let r = document_entries(ns, n - 1);
        if is_last_with_id(ns, n - 1) && ns[n - 1].kind == NodeKind::Document {
            r.push((ns[n - 1].id, ns[n - 1].name))
        } else {
            r
        }
    }
}

pub open spec fn sorted_by_name(s: Seq<(NodeIdView, Seq<char>)>) -> bool {
    forall|i: int, j: int| 0 <= i < j < s.len() ==> name_le(s[i].1, s[j].1)
}

fn last_with_id(nodes: &Vec<Node>, i: usize) -> (r: bool)
    requires
        i < nodes.len(),
    ensures
        r == is_last_with_id(nodes_view(nodes@), i as int),
{
    let ghost nv = nodes_view(nodes@);
    let mut j: usize = i + 1;
    while j < nodes.len()
        invariant
            i < j <= nodes.len(),
            nv == nodes_view(nodes@),
            forall|k: int| i < k < j ==> (#[trigger] nv[k]).id != nv[i as int].id,
        decreases nodes.len() - j,
    {
        if nodes[j].id.same_as(&nodes[i].id) {
            assert(nv[j as int].id == nv[i as int].id);
            return false;
        }
        j = j + 1;
    }
    true
}

/// Node `k` is a node of kind `Document` with id and name `e`, and no later node
/// has its id.
pub open spec fn document_node_at(ns: Seq<NodeView>, k: int, e: (NodeIdView, Seq<char>)) -> bool {
    &&& ns[k].kind == NodeKind::Document
    &&& ns[k].id == e.0
    &&& ns[k].name == e.1
    &&& forall|j: int| k < j < ns.len() ==> ns[j].id != ns[k].id
}

/// Every entry of the list of the first `n` nodes is the id and name of a node of
/// kind `Document` that is the last node with its id, and every such node gives an
/// entry.
pub proof fn lemma_document_entries_are_documents(ns: Seq<NodeView>, n: int)
    requires
        0 <= n <= ns.len(),
    ensures
        forall|e: (NodeIdView, Seq<char>)|
            #[trigger] document_entries(ns, n).contains(e) <==> exists|k: int|
                0 <= k < n && #[trigger] document_node_at(ns, k, e),
    decreases n,
{
    if n > 0 {
        lemma_document_entries_are_documents(ns, n - 1);
        let r = document_entries(ns, n - 1);
        let x = (ns[n - 1].id, ns[n - 1].name);
        let take = is_last_with_id(ns, n - 1) && ns[n - 1].kind == NodeKind::Document;
        assert forall|e: (NodeIdView, Seq<char>)|
            #[trigger] document_entries(ns, n).contains(e) implies exists|k: int|
                0 <= k < n && #[trigger] document_node_at(ns, k, e) by {
            if take {
                assert(document_entries(ns, n) == r.push(x));
                let i = choose|i: int| 0 <= i < r.push(x).len() && r.push(x)[i] == e;
                if i < r.len() {
                    assert(r[i] == e);
                    assert(r.contains(e));
                } else {
                    assert(document_node_at(ns, n - 1, e));
                }
            } else {
                assert(document_entries(ns, n) == r);
            }
        }
        assert forall|e: (NodeIdView, Seq<char>), k: int|
            0 <= k < n && #[trigger] document_node_at(ns, k, e) implies document_entries(ns, n).contains(e) by {
            if k < n - 1 {
                assert(r.contains(e));
                let i = choose|i: int| 0 <= i < r.len() && r[i] == e;
                if take {
                    assert(document_entries(ns, n) == r.push(x));
                    assert(r.push(x)[i] == e);
                } else {
                    assert(document_entries(ns, n) == r);
                }
            } else {
                assert(is_last_with_id(ns, n - 1));
                assert(e == x);
                assert(document_entries(ns, n) == r.push(x));
                assert(r.push(x)[r.len() as int] == e);
            }
        }
    }
}

/// The documents of the graph, as (id, name) sorted by name: one entry for each
/// id whose last node is a document.
pub fn document_index(nodes: &Vec<Node>) -> (r: Vec<(NodeId, String)>)
    ensures
        sorted_by_name(entries_view(r@)),
        entries_view(r@).to_multiset() == document_entries(
            nodes_view(nodes@),
            nodes.len() as int,
        ).to_multiset(),
        forall|i: int|
            0 <= i < r.len() ==> exists|k: int|
                0 <= k < nodes.len() && (#[trigger] nodes@[k]).kind == NodeKind::Document
                    && nodes@[k].id@ == (#[trigger] r@[i]).0@ && nodes@[k].name@ == r@[i].1@,
        forall|k: int|
            0 <= k < nodes.len() && (#[trigger] nodes@[k]).kind == NodeKind::Document && (forall|j: int|
                k < j < nodes.len() ==> nodes@[j].id@ != nodes@[k].id@) ==> exists|i: int|
                0 <= i < r.len() && (#[trigger] r@[i]).0@ == nodes@[k].id@ && r@[i].1@ == nodes@[k].name@,
{
    let ghost nv = nodes_view(nodes@);
    let mut out: Vec<(NodeId, String)> = Vec::new();
    let mut i: usize = 0;
    assert(entries_view(out@) =~= Seq::<(NodeIdView, Seq<char>)>::empty());
    while i < nodes.len()
        invariant
            i <= nodes.len(),
            nv == nodes_view(nodes@),
            sorted_by_name(entries_view(out@)),
            entries_view(out@).to_multiset() == document_entries(nv, i as int).to_multiset(),
        decreases nodes.len() - i,
    {
        let is_doc = match nodes[i].kind {
            NodeKind::Document => true,
            _ => false,
        };
        if is_doc && last_with_id(nodes, i) {
            let name = chars_of(nodes[i].name.as_str());
            // first position whose name comes after this one
            let mut p: usize = 0;
            while p < out.len() && !name_less(&name, &chars_of(out[p].1.as_str()))
                invariant
                    p <= out.len(),
                    forall|k: int| 0 <= k < p ==> name_le(entries_view(out@)[k].1, name@),
                decreases out.len() - p,
            {
                assert(entries_view(out@)[p as int].1 == out@[p as int].1@);
                p = p + 1;
            }
            let ghost ov = entries_view(out@);
            let ghost x = (nodes@[i as int].id@, nodes@[i as int].name@);
            proof {
                if p < out.len() {
                    assert(ov[p as int].1 == out@[p as int].1@);
                    lemma_name_lt_le(name@, ov[p as int].1);
                }
            }
            out.insert(p, (nodes[i].id.duplicate(), nodes[i].name.clone()));
            proof {
                let nvw = entries_view(out@);
                assert(nvw =~= ov.insert(p as int, x));
                assert forall|a: int, b: int| 0 <= a < b < nvw.len() implies name_le(nvw[a].1, nvw[b].1) by {
                    if a < p && b < p {
                    } else if a < p && b == p {
                    } else if a < p && b > p {
                        assert(nvw[b] == ov[b - 1]);
                        assert(name_le(ov[a].1, ov[b - 1].1));
                    } else if a == p {
                        assert(nvw[b] == ov[b - 1]);
                        if p as int == b - 1 {
                        } else {
                            assert(name_le(ov[p as int].1, ov[b - 1].1));
                            lemma_name_le_transitive(x.1, ov[p as int].1, ov[b - 1].1);
                        }
                    } else {
                        assert(nvw[a] == ov[a - 1]);
                        assert(nvw[b] == ov[b - 1]);
                    }
                }
                assert(document_entries(nv, i + 1) == document_entries(nv, i as int).push(x));
            }
        } else {
            assert(document_entries(nv, i + 1) == document_entries(nv, i as int));
        }
        i = i + 1;
    }
    proof {
        let ev = entries_view(out@);
        let de = document_entries(nv, nodes.len() as int);
        lemma_document_entries_are_documents(nv, nodes.len() as int);
        assert forall|i: int| 0 <= i < out.len() implies exists|k: int|
            0 <= k < nodes.len() && (#[trigger] nodes@[k]).kind == NodeKind::Document
                && nodes@[k].id@ == (#[trigger] out@[i]).0@ && nodes@[k].name@ == out@[i].1@ by {
            let e = ev[i];
            assert(ev.contains(e));
            assert(de.to_multiset().count(e) > 0);
            assert(de.contains(e));
            let k = choose|k: int| 0 <= k < nodes.len() && #[trigger] document_node_at(nv, k, e);
            assert(nv[k] == nodes@[k]@);
        }
        assert forall|k: int|
            0 <= k < nodes.len() && (#[trigger] nodes@[k]).kind == NodeKind::Document && (forall|j: int|
                k < j < nodes.len() ==> nodes@[j].id@ != nodes@[k].id@) implies exists|i: int|
                0 <= i < out.len() && (#[trigger] out@[i]).0@ == nodes@[k].id@ && out@[i].1@ == nodes@[k].name@ by {
            let e = (nodes@[k].id@, nodes@[k].name@);
            assert(nv[k] == nodes@[k]@);
            assert forall|j: int| k < j < nv.len() implies nv[j].id != nv[k].id by {
                assert(nv[j] == nodes@[j]@);
            }
            assert(document_node_at(nv, k, e));
            assert(de.contains(e));
            assert(ev.to_multiset().count(e) > 0);
            assert(ev.contains(e));
            let i = choose|i: int| 0 <= i < ev.len() && ev[i] == e;
            assert(ev[i] == entry_view(out@[i]));
        }
    }
    out
}

/// Whether an entry is listed for a lower-cased search text: every entry when the
/// text is empty, otherwise those whose lower-cased name holds it.
pub open spec fn listed(name: Seq<char>, query: Seq<char>) -> bool {
    query.len() == 0 || seq_contains_run(unicode_lowercase(name), query)
}

/// The entries that the sidebar lists for a search text, in order.
pub fn sidebar_entries(index: &Vec<(NodeId, String)>, search: &str) -> (r: Vec<(NodeId, String)>)
    ensures
        entries_view(r@) == entries_view(index@).filter(
            |e: (NodeIdView, Seq<char>)| listed(e.1, unicode_lowercase(search@)),
        ),
{
    let q = chars_of(to_lowercase(search).as_str());
    let ghost ev = entries_view(index@);
    let ghost pred = |e: (NodeIdView, Seq<char>)| listed(e.1, unicode_lowercase(search@));
    let mut out: Vec<(NodeId, String)> = Vec::new();
    let mut i: usize = 0;
    while i < index.len()
        invariant
            i <= index.len(),
            ev == entries_view(index@),
            q@ == unicode_lowercase(search@),
            pred == (|e: (NodeIdView, Seq<char>)| listed(e.1, unicode_lowercase(search@))),
            entries_view(out@) == ev.take(i as int).filter(pred),
        decreases index.len() - i,
    {
        assert(ev.take(i + 1) =~= ev.take(i as int).push(entry_view(index@[i as int])));
        proof {
            ev.take(i as int).lemma_filter_push(entry_view(index@[i as int]), pred);
        }
        let shown = q.len() == 0 || contains_run(&chars_of(to_lowercase(index[i].1.as_str()).as_str()), &q);
        if shown {
            let ghost before = entries_view(out@);
            out.push((index[i].0.duplicate(), index[i].1.clone()));
            assert(entries_view(out@) =~= before.push(entry_view(index@[i as int])));
        }
        i = i + 1;
    }
    assert(ev.take(index.len() as int) =~= ev);
    out
}

} // verus!
