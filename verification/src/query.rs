use vstd::prelude::*;
use crate::chars::chars_of;
use crate::chars::contains_run;
use crate::chars::seq_contains_run;
use crate::chars::string_from_chars;
use crate::chars::to_lowercase;
use crate::chars::unicode_lowercase;
use crate::node_id::NodeId;
use crate::node_id::NodeIdView;
use crate::model::Doc;
use crate::model::Edge;
use crate::model::EdgeView;
use crate::model::GraphData;
use crate::model::Node;
use crate::model::NodeView;
use crate::model::SearchDoc;
use crate::model::SearchDocView;
use crate::model::SearchResult;
use crate::model::SearchResultView;
use crate::model::docs_view;
use crate::model::edges_view;
use crate::model::ids_view;
use crate::model::nodes_view;

verus! {

broadcast use vstd::string::group_string_axioms;

// ----------------------------------------------------------------------------
// Id lists
// ----------------------------------------------------------------------------

/// Whether the list holds this id.
pub fn contains_id(ids: &Vec<NodeId>, id: &NodeId) -> (r: bool)
    ensures
        r == ids_view(ids@).contains(id@),
{
    let ghost iv = ids_view(ids@);
    let mut i: usize = 0;
    while i < ids.len()
        invariant
            i <= ids.len(),
            iv == ids_view(ids@),
            forall|k: int| 0 <= k < i ==> iv[k] != id@,
        decreases ids.len() - i,
    {
        if ids[i].same_as(id) {
            assert(iv[i as int] == id@);
            return true;
        }
        i = i + 1;
    }
    false
}

/// The nodes whose id is in the list, in their order.
pub fn nodes_among(nodes: &Vec<Node>, ids: &Vec<NodeId>) -> (r: Vec<Node>)
    ensures
        nodes_view(r@) == nodes_view(nodes@).filter(
            |n: NodeView| ids_view(ids@).contains(n.id),
        ),
{
    let ghost nv = nodes_view(nodes@);
    let ghost pred = |n: NodeView| ids_view(ids@).contains(n.id);
    let mut out: Vec<Node> = Vec::new();
    let mut i: usize = 0;
    while i < nodes.len()
        invariant
            i <= nodes.len(),
            nv == nodes_view(nodes@),
            pred == (|n: NodeView| ids_view(ids@).contains(n.id)),
            nodes_view(out@) == nv.take(i as int).filter(pred),
        decreases nodes.len() - i,
    {
        assert(nv.take(i + 1) =~= nv.take(i as int).push(nodes@[i as int]@));
        proof {
            nv.take(i as int).lemma_filter_push(nodes@[i as int]@, pred);
        }
        if contains_id(ids, &nodes[i].id) {
            let ghost before = nodes_view(out@);
            out.push(nodes[i].duplicate());
            assert(nodes_view(out@) =~= before.push(nodes@[i as int]@));
        }
        i = i + 1;
    }
    assert(nv.take(nodes.len() as int) =~= nv);
    out
}

// ----------------------------------------------------------------------------
// Document content
// ----------------------------------------------------------------------------

/// The Markdown content of the first document with this id, if there is one.
pub fn document_content(docs: &Vec<Doc>, id: &NodeId) -> (r: Option<String>)
    ensures
        ({
            let dv = docs_view(docs@);
            match r {
                Some(c) => exists|i: int|
                    0 <= i < dv.len() && (#[trigger] dv[i]).id == id@ && c@ == dv[i].content
                        && forall|k: int| 0 <= k < i ==> (#[trigger] dv[k]).id != id@,
                None => forall|k: int| 0 <= k < dv.len() ==> (#[trigger] dv[k]).id != id@,
            }
        }),
{
    let ghost dv = docs_view(docs@);
    let mut i: usize = 0;
    while i < docs.len()
        invariant
            i <= docs.len(),
            dv == docs_view(docs@),
            forall|k: int| 0 <= k < i ==> (#[trigger] dv[k]).id != id@,
        decreases docs.len() - i,
    {
        assert(dv[i as int] == docs@[i as int]@);
        if docs[i].id.same_as(id) {
            return Some(docs[i].content.clone());
        }
        i = i + 1;
    }
    None
}

// ----------------------------------------------------------------------------
// Connected nodes
// ----------------------------------------------------------------------------

pub open spec fn touches(e: EdgeView, t: NodeIdView) -> bool {
    e.source == t || e.target == t
}

/// Whether `id` is an end of one of the edges.
pub open spec fn is_endpoint(es: Seq<EdgeView>, id: NodeIdView) -> bool {
    exists|i: int| 0 <= i < es.len() && ((#[trigger] es[i]).source == id || es[i].target == id)
}

/// The edges that start or end at `t`, in order.
pub open spec fn touching_edges(es: Seq<EdgeView>, t: NodeIdView) -> Seq<EdgeView> {
    es.filter(|e: EdgeView| touches(e, t))
}

/// The nodes at an end of an edge that starts or ends at `t`, in order.
pub open spec fn neighbour_nodes(ns: Seq<NodeView>, es: Seq<EdgeView>, t: NodeIdView) -> Seq<NodeView> {
    ns.filter(|n: NodeView| is_endpoint(touching_edges(es, t), n.id))
}

/// The neighbourhood of a node: the edges that start or end at it, and the nodes
/// at either end of those edges, each list in the order given.
pub fn connected_nodes(nodes: &Vec<Node>, edges: &Vec<Edge>, target: &NodeId) -> (g: GraphData)
    ensures
        edges_view(g.edges@) == touching_edges(edges_view(edges@), target@),
        nodes_view(g.nodes@) == neighbour_nodes(nodes_view(nodes@), edges_view(edges@), target@),
        forall|i: int|
            0 <= i < edges.len() && ((#[trigger] edges@[i]).source@ == target@ || edges@[i].target@
                == target@) ==> edges_view(g.edges@).contains(edges@[i]@),
        forall|k: int, i: int|
            0 <= k < nodes.len() && 0 <= i < edges.len() && ((#[trigger] edges@[i]).source@ == target@
                || edges@[i].target@ == target@) && (edges@[i].source@ == (#[trigger] nodes@[k]).id@
                || edges@[i].target@ == nodes@[k].id@) ==> nodes_view(g.nodes@).contains(nodes@[k]@),
{

    let ghost ev = edges_view(edges@);
    let ghost pred = |e: EdgeView| touches(e, target@);
    let mut found: Vec<Edge> = Vec::new();
    let mut ids: Vec<NodeId> = Vec::new();
    let mut i: usize = 0;
    while i < edges.len()
        invariant
            i <= edges.len(),
            ev == edges_view(edges@),
            pred == (|e: EdgeView| touches(e, target@)),
            edges_view(found@) == ev.take(i as int).filter(pred),
            forall|id: NodeIdView|
                #[trigger] ids_view(ids@).contains(id) <== is_endpoint(edges_view(found@), id),
            forall|id: NodeIdView|
                #[trigger] ids_view(ids@).contains(id) ==> is_endpoint(edges_view(found@), id),
        decreases edges.len() - i,
    {
        assert(ev.take(i + 1) =~= ev.take(i as int).push(edges@[i as int]@));
        proof {
            ev.take(i as int).lemma_filter_push(edges@[i as int]@, pred);
        }
        let e = &edges[i];
        if e.source.same_as(target) || e.target.same_as(target) {
            let ghost f0 = edges_view(found@);
            let ghost i0 = ids_view(ids@);
            found.push(e.duplicate());
            ids.push(e.source.duplicate());
            ids.push(e.target.duplicate());
            let ghost f1 = edges_view(found@);
            assert(f1 =~= f0.push(e@));
            assert(ids_view(ids@) =~= i0.push(e@.source).push(e@.target));
            assert forall|id: NodeIdView| #[trigger]
                ids_view(ids@).contains(id) <==> is_endpoint(f1, id) by {
                if ids_view(ids@).contains(id) {
                    let k = choose|k: int| 0 <= k < ids_view(ids@).len() && ids_view(ids@)[k] == id;
                    if k < i0.len() {
                        assert(i0[k] == id);
                        assert(i0.contains(id));
                        let j = choose|j: int|
                            0 <= j < f0.len() && ((#[trigger] f0[j]).source == id || f0[j].target
                                == id);
                        assert(f1[j] == f0[j]);
                    } else {
                        assert(f1[f0.len() as int] == e@);
                    }
                }
                if is_endpoint(f1, id) {
                    let j = choose|j: int|
                        0 <= j < f1.len() && ((#[trigger] f1[j]).source == id || f1[j].target == id);
                    if j < f0.len() {
                        assert(f0[j] == f1[j]);
                        assert(is_endpoint(f0, id));
                        assert(i0.contains(id));
                        let k = choose|k: int| 0 <= k < i0.len() && i0[k] == id;
                        assert(ids_view(ids@)[k] == id);
                    } else {
                        if e@.source == id {
                            assert(ids_view(ids@)[i0.len() as int] == id);
                        } else {
                            assert(ids_view(ids@)[i0.len() as int + 1] == id);
                        }
                    }
                }
            }
        }
        i = i + 1;
    }
    assert(ev.take(edges.len() as int) =~= ev);
    let picked = nodes_among(nodes, &ids);
    assert(ids_view(ids@).contains(NodeIdView::U32(0)) == is_endpoint(edges_view(found@), NodeIdView::U32(0)));
    assert((|n: NodeView| ids_view(ids@).contains(n.id)) =~= (|n: NodeView|
        is_endpoint(edges_view(found@), n.id)));
    proof {
        let ev0 = edges_view(edges@);
        let nv0 = nodes_view(nodes@);
        lemma_neighbourhood_is_complete(ev0, nv0, target@);
        assert forall|k: int, i: int|
            0 <= k < nodes.len() && 0 <= i < edges.len() && ((#[trigger] edges@[i]).source@ == target@
                || edges@[i].target@ == target@) && (edges@[i].source@ == (#[trigger] nodes@[k]).id@
                || edges@[i].target@ == nodes@[k].id@) implies nodes_view(picked@).contains(nodes@[k]@) by {
            assert(ev0[i] == edges@[i]@);
            assert(nv0[k] == nodes@[k]@);
        }
        assert forall|i: int|
            0 <= i < edges.len() && ((#[trigger] edges@[i]).source@ == target@ || edges@[i].target@
                == target@) implies edges_view(found@).contains(edges@[i]@) by {
            assert(ev0[i] == edges@[i]@);
        }
    }
    GraphData { nodes: picked, edges: found }
}

// ----------------------------------------------------------------------------
// Search
// ----------------------------------------------------------------------------

/// Whether some string of the list, lower-cased, holds `term`.
pub open spec fn any_contains(list: Seq<Seq<char>>, term: Seq<char>) -> bool {
    exists|i: int|
        0 <= i < list.len() && seq_contains_run(unicode_lowercase(#[trigger] list[i]), term)
}

/// Whether a document matches a lower-cased search term: its title, text, one of
/// its keywords or one of its tags holds the term, once lower-cased.
pub open spec fn doc_matches(d: SearchDocView, term: Seq<char>) -> bool {
    ||| seq_contains_run(unicode_lowercase(d.title), term)
    ||| seq_contains_run(unicode_lowercase(d.text), term)
    ||| any_contains(d.keywords, term)
    ||| any_contains(d.tags, term)
}

/// What a search shows of a document: its first 200 characters as snippet.
pub open spec fn search_result_of(d: SearchDocView) -> SearchResultView {
    SearchResultView {
        doc_id: d.id,
        title: d.title,
        path: d.path,
        snippet: if d.text.len() <= 200 {
            d.text
        } else {
            d.text.take(200)
        },
    }
}

/// The first `limit` documents that match the lower-cased query, in order.
pub open spec fn search_spec(docs: Seq<SearchDocView>, query: Seq<char>, limit: nat) -> Seq<
    SearchResultView,
> {
    let hits = docs.filter(|d: SearchDocView| doc_matches(d, unicode_lowercase(query)));
    let kept = if hits.len() <= limit {
        hits
    } else {
        hits.take(limit as int)
    };
    kept.map_values(|d: SearchDocView| search_result_of(d))
}

fn list_contains(list: &Vec<String>, term: &Vec<char>) -> (r: bool)
    ensures
        r == any_contains(list.deep_view(), term@),
{
    let mut i: usize = 0;
    while i < list.len()
        invariant
            i <= list.len(),
            forall|k: int|
                0 <= k < i ==> !seq_contains_run(unicode_lowercase(#[trigger] list.deep_view()[k]), term@),
        decreases list.len() - i,
    {
        let lw = to_lowercase(list[i].as_str());
        let lc = chars_of(lw.as_str());
        assert(list.deep_view()[i as int] == list[i as int]@);
        if contains_run(&lc, term) {
            return true;
        }
        i = i + 1;
    }
    false
}

fn matches_term(d: &SearchDoc, term: &Vec<char>) -> (r: bool)
    ensures
        r == doc_matches(d@, term@),
{
    let t = chars_of(to_lowercase(d.title.as_str()).as_str());
    if contains_run(&t, term) {
        return true;
    }
    let x = chars_of(to_lowercase(d.text.as_str()).as_str());
    if contains_run(&x, term) {
        return true;
    }
    list_contains(&d.keywords, term) || list_contains(&d.tags, term)
}

/// The result shown for a document.
pub fn result_of(d: &SearchDoc) -> (r: SearchResult)
    ensures
        r@ == search_result_of(d@),
{
    let cs = chars_of(d.text.as_str());
    let mut snip: Vec<char> = Vec::new();
    let mut i: usize = 0;
    while i < cs.len() && i < 200
        invariant
            i <= cs.len(),
            i <= 200,
            snip@ == cs@.take(i as int),
        decreases cs.len() - i,
    {
        snip.push(cs[i]);
        assert(snip@ =~= cs@.take(i + 1));
        i = i + 1;
    }
    if cs.len() <= 200 {
        assert(snip@ =~= cs@);
    }
    SearchResult {
        doc_id: d.id.duplicate(),
        title: d.title.clone(),
        path: d.path.clone(),
        snippet: string_from_chars(&snip),
    }
}

/// The documents that match a search, at most `limit` of them (10 when no limit is
/// given), in order.
pub fn search_documents(docs: &Vec<SearchDoc>, query: &str, limit: Option<usize>) -> (r: Vec<
    SearchResult,
>)
    ensures
        r@.map_values(|x: SearchResult| x@) == search_spec(
            docs@.map_values(|d: SearchDoc| d@),
            query@,
            match limit {
                Some(l) => l as nat,
                None => 10,
            },
        ),
{
    let limit: usize = match limit {
        Some(l) => l,
        None => 10,
    };
    let term_s = to_lowercase(query);
    let term = chars_of(term_s.as_str());
    let ghost dv = docs@.map_values(|d: SearchDoc| d@);
    let ghost pred = |d: SearchDocView| doc_matches(d, unicode_lowercase(query@));
    let mut out: Vec<SearchResult> = Vec::new();
    let mut i: usize = 0;
    while i < docs.len() && out.len() < limit
        invariant
            i <= docs.len(),
            dv == docs@.map_values(|d: SearchDoc| d@),
            term@ == unicode_lowercase(query@),
            pred == (|d: SearchDocView| doc_matches(d, unicode_lowercase(query@))),
            out.len() <= limit,
            out@.map_values(|x: SearchResult| x@) == dv.take(i as int).filter(pred).map_values(
                |d: SearchDocView| search_result_of(d),
            ),
        decreases docs.len() - i,
    {
        assert(dv.take(i + 1) =~= dv.take(i as int).push(docs@[i as int]@));
        proof {
            dv.take(i as int).lemma_filter_push(docs@[i as int]@, pred);
        }
        if matches_term(&docs[i], &term) {
            let ghost before = out@.map_values(|x: SearchResult| x@);
            out.push(result_of(&docs[i]));
            assert(out@.map_values(|x: SearchResult| x@) =~= before.push(search_result_of(docs@[i as int]@)));
            assert(dv.take(i + 1).filter(pred) == dv.take(i as int).filter(pred).push(docs@[i as int]@));
            assert(dv.take(i + 1).filter(pred).map_values(|d: SearchDocView| search_result_of(d))
                =~= dv.take(i as int).filter(pred).map_values(|d: SearchDocView| search_result_of(d)).push(search_result_of(docs@[i as int]@)));
        } else {
            assert(dv.take(i + 1).filter(pred) == dv.take(i as int).filter(pred));
        }
        i = i + 1;
    }
    proof {
        let hits = dv.filter(pred);
        let pre = dv.take(i as int).filter(pred);
        assert(dv =~= dv.take(i as int) + dv.skip(i as int));
        Seq::filter_distributes_over_add(dv.take(i as int), dv.skip(i as int), pred);
        assert(hits == pre + dv.skip(i as int).filter(pred));
        pre.lemma_filter_len(pred);
        if i == docs.len() {
            assert(dv.skip(i as int) =~= Seq::<SearchDocView>::empty());
            assert(hits =~= pre);
        } else {
            assert(pre.len() == limit);
            assert(hits.take(limit as int) =~= pre);
        }
    }
    out
}

} // verus!

verus! {

// ----------------------------------------------------------------------------
// Laws
// ----------------------------------------------------------------------------

/// A search gives at most `limit` results, each of them for a document that
/// matches the lower-cased query, with a snippet of at most 200 characters taken
/// from the start of the document's text.
pub proof fn lemma_search_results_match(docs: Seq<SearchDocView>, query: Seq<char>, limit: nat)
    ensures
        search_spec(docs, query, limit).len() <= limit,
        forall|i: int|
            0 <= i < search_spec(docs, query, limit).len() ==> exists|j: int|
                0 <= j < docs.len() && doc_matches(docs[j], unicode_lowercase(query))
                    && #[trigger] search_spec(docs, query, limit)[i] == search_result_of(docs[j]),
        forall|i: int|
            0 <= i < search_spec(docs, query, limit).len() ==> (#[trigger] search_spec(
                docs,
                query,
                limit,
            )[i]).snippet.len() <= 200,
{
    let pred = |d: SearchDocView| doc_matches(d, unicode_lowercase(query));
    let hits = docs.filter(pred);
    hits.lemma_filter_len(pred);
    let kept = if hits.len() <= limit {
        hits
    } else {
        hits.take(limit as int)
    };
    assert forall|i: int| 0 <= i < search_spec(docs, query, limit).len() implies exists|j: int|
        0 <= j < docs.len() && doc_matches(docs[j], unicode_lowercase(query))
            && #[trigger] search_spec(docs, query, limit)[i] == search_result_of(docs[j]) by {
        assert(kept[i] == hits[i]);
        docs.lemma_filter_pred(pred, i);
        assert(hits.contains(hits[i]));
        docs.lemma_filter_contains_rev(pred, hits[i]);
        let j = choose|j: int| 0 <= j < docs.len() && docs[j] == hits[i];
        assert(pred(docs[j]));
        assert(search_spec(docs, query, limit)[i] == search_result_of(docs[j]));
    }
}

/// Every edge of a node's neighbourhood starts or ends at the node, and every
/// node of it is at an end of one of these edges.
pub proof fn lemma_connected_is_neighbourhood(es: Seq<EdgeView>, ns: Seq<NodeView>, t: NodeIdView)
    ensures
        forall|i: int|
            0 <= i < touching_edges(es, t).len() ==> touches(#[trigger] touching_edges(es, t)[i], t),
        forall|i: int|
            0 <= i < neighbour_nodes(ns, es, t).len() ==> is_endpoint(
                touching_edges(es, t),
                (#[trigger] neighbour_nodes(ns, es, t)[i]).id,
            ),
{
    let pe = |e: EdgeView| touches(e, t);
    let fe = es.filter(pe);
    let pn = |n: NodeView| is_endpoint(fe, n.id);
    assert forall|i: int| 0 <= i < fe.len() implies touches(#[trigger] fe[i], t) by {
        es.lemma_filter_pred(pe, i);
    }
    assert forall|i: int| 0 <= i < ns.filter(pn).len() implies is_endpoint(
        fe,
        (#[trigger] ns.filter(pn)[i]).id,
    ) by {
        ns.lemma_filter_pred(pn, i);
    }
}

/// A search finds every document that holds the query, in its title, its text, one
/// of its keywords or one of its tags (all lower-cased), unless `limit` documents
/// before it were found already; in particular it finds every such document when
/// `limit` is at least the number of documents. Conversely each result is that of a
/// document that holds the query in one of these four places.
pub proof fn lemma_search_finds_matches(docs: Seq<SearchDocView>, query: Seq<char>, limit: nat)
    ensures
        forall|i: int|
            0 <= i < docs.len() && (seq_contains_run(
                unicode_lowercase((#[trigger] docs[i]).title),
                unicode_lowercase(query),
            ) || seq_contains_run(unicode_lowercase(docs[i].text), unicode_lowercase(query)) || (exists|k: int|
                0 <= k < docs[i].keywords.len() && seq_contains_run(
                    unicode_lowercase(docs[i].keywords[k]),
                    unicode_lowercase(query),
                )) || (exists|k: int|
                0 <= k < docs[i].tags.len() && seq_contains_run(
                    unicode_lowercase(docs[i].tags[k]),
                    unicode_lowercase(query),
                ))) && (limit >= docs.len() || docs.take(i).filter(
                |d: SearchDocView| doc_matches(d, unicode_lowercase(query)),
            ).len() < limit) ==> search_spec(docs, query, limit).contains(search_result_of(docs[i])),
        forall|r: int|
            0 <= r < search_spec(docs, query, limit).len() ==> exists|j: int|
                0 <= j < docs.len() && #[trigger] search_spec(docs, query, limit)[r] == search_result_of(
                    docs[j],
                ) && (seq_contains_run(unicode_lowercase(docs[j].title), unicode_lowercase(query))
                    || seq_contains_run(unicode_lowercase(docs[j].text), unicode_lowercase(query)) || (
                exists|k: int|
                    0 <= k < docs[j].keywords.len() && seq_contains_run(
                        unicode_lowercase(docs[j].keywords[k]),
                        unicode_lowercase(query),
                    )) || (exists|k: int|
                    0 <= k < docs[j].tags.len() && seq_contains_run(
                        unicode_lowercase(docs[j].tags[k]),
                        unicode_lowercase(query),
                    ))),
{
    let lq = unicode_lowercase(query);
    let p = |d: SearchDocView| doc_matches(d, lq);
    let hits = docs.filter(p);
    let kept = if hits.len() <= limit {
        hits
    } else {
        hits.take(limit as int)
    };
    let f = |d: SearchDocView| search_result_of(d);
    assert(search_spec(docs, query, limit) == kept.map_values(f));
    assert forall|i: int|
        0 <= i < docs.len() && (seq_contains_run(
            unicode_lowercase((#[trigger] docs[i]).title),
            unicode_lowercase(query),
        ) || seq_contains_run(unicode_lowercase(docs[i].text), unicode_lowercase(query)) || (exists|k: int|
            0 <= k < docs[i].keywords.len() && seq_contains_run(
                unicode_lowercase(docs[i].keywords[k]),
                unicode_lowercase(query),
            )) || (exists|k: int|
            0 <= k < docs[i].tags.len() && seq_contains_run(
                unicode_lowercase(docs[i].tags[k]),
                unicode_lowercase(query),
            ))) && (limit >= docs.len() || docs.take(i).filter(p).len() < limit) implies search_spec(
        docs,
        query,
        limit,
    ).contains(search_result_of(docs[i])) by {
        let d = docs[i];
        if exists|k: int| 0 <= k < d.keywords.len() && seq_contains_run(unicode_lowercase(d.keywords[k]), lq) {
            let k = choose|k: int| 0 <= k < d.keywords.len() && seq_contains_run(unicode_lowercase(d.keywords[k]), lq);
            assert(any_contains(d.keywords, lq));
        }
        if exists|k: int| 0 <= k < d.tags.len() && seq_contains_run(unicode_lowercase(d.tags[k]), lq) {
            let k = choose|k: int| 0 <= k < d.tags.len() && seq_contains_run(unicode_lowercase(d.tags[k]), lq);
            assert(any_contains(d.tags, lq));
        }
        assert(p(d));
        let pre = docs.take(i);
        let upto = docs.take(i + 1);
        assert(upto =~= pre.push(d));
        pre.lemma_filter_push(d, p);
        pre.lemma_filter_len(p);
        let m = pre.filter(p).len();
        assert(docs =~= upto + docs.skip(i + 1));
        Seq::filter_distributes_over_add(upto, docs.skip(i + 1), p);
        assert(hits == upto.filter(p) + docs.skip(i + 1).filter(p));
        assert(upto.filter(p)[m as int] == d);
        assert(hits[m as int] == d);
        assert(m < limit);
        assert(kept[m as int] == d);
        assert(kept.map_values(f)[m as int] == search_result_of(d));
    }
    assert forall|r: int| 0 <= r < search_spec(docs, query, limit).len() implies exists|j: int|
        0 <= j < docs.len() && #[trigger] search_spec(docs, query, limit)[r] == search_result_of(docs[j])
            && (seq_contains_run(unicode_lowercase(docs[j].title), unicode_lowercase(query))
            || seq_contains_run(unicode_lowercase(docs[j].text), unicode_lowercase(query)) || (exists|k: int|
            0 <= k < docs[j].keywords.len() && seq_contains_run(
                unicode_lowercase(docs[j].keywords[k]),
                unicode_lowercase(query),
            )) || (exists|k: int|
            0 <= k < docs[j].tags.len() && seq_contains_run(
                unicode_lowercase(docs[j].tags[k]),
                unicode_lowercase(query),
            ))) by {
        lemma_search_results_match(docs, query, limit);
        let j = choose|j: int|
            0 <= j < docs.len() && doc_matches(docs[j], lq) && #[trigger] search_spec(docs, query, limit)[r]
                == search_result_of(docs[j]);
        let d = docs[j];
        if any_contains(d.keywords, lq) {
            let k = choose|k: int| 0 <= k < d.keywords.len() && seq_contains_run(unicode_lowercase(#[trigger] d.keywords[k]), lq);
        }
        if any_contains(d.tags, lq) {
            let k = choose|k: int| 0 <= k < d.tags.len() && seq_contains_run(unicode_lowercase(#[trigger] d.tags[k]), lq);
        }
    }
}

/// The neighbourhood of a node holds every edge that starts or ends at the node,
/// of any kind, and every node at an end of such an edge; and nothing else.
pub proof fn lemma_neighbourhood_is_complete(es: Seq<EdgeView>, ns: Seq<NodeView>, t: NodeIdView)
    ensures
        forall|i: int|
            0 <= i < es.len() && ((#[trigger] es[i]).source == t || es[i].target == t) ==> touching_edges(
                es,
                t,
            ).contains(es[i]),
        forall|i: int|
            0 <= i < touching_edges(es, t).len() ==> (#[trigger] touching_edges(es, t)[i]).source == t
                || touching_edges(es, t)[i].target == t,
        forall|k: int, i: int|
            0 <= k < ns.len() && 0 <= i < es.len() && ((#[trigger] es[i]).source == t || es[i].target
                == t) && (es[i].source == (#[trigger] ns[k]).id || es[i].target == ns[k].id)
                ==> neighbour_nodes(ns, es, t).contains(ns[k]),
        forall|k: int|
            0 <= k < neighbour_nodes(ns, es, t).len() ==> exists|i: int|
                0 <= i < es.len() && (es[i].source == t || es[i].target == t) && ((#[trigger] es[i]).source
                    == (#[trigger] neighbour_nodes(ns, es, t)[k]).id || es[i].target == neighbour_nodes(ns, es, t)[k].id),
{
    let pe = |e: EdgeView| touches(e, t);
    let fe = es.filter(pe);
    let pn = |n: NodeView| is_endpoint(fe, n.id);
    assert forall|i: int|
        0 <= i < es.len() && ((#[trigger] es[i]).source == t || es[i].target == t) implies touching_edges(
        es,
        t,
    ).contains(es[i]) by {
        es.lemma_filter_contains(pe, i);
    }
    assert forall|i: int| 0 <= i < fe.len() implies (#[trigger] fe[i]).source == t || fe[i].target == t by {
        es.lemma_filter_pred(pe, i);
    }
    assert forall|k: int, i: int|
        0 <= k < ns.len() && 0 <= i < es.len() && ((#[trigger] es[i]).source == t || es[i].target == t)
            && (es[i].source == (#[trigger] ns[k]).id || es[i].target == ns[k].id) implies neighbour_nodes(
        ns,
        es,
        t,
    ).contains(ns[k]) by {
        es.lemma_filter_contains(pe, i);
        let m = choose|m: int| 0 <= m < fe.len() && fe[m] == es[i];
        assert(is_endpoint(fe, ns[k].id));
        ns.lemma_filter_contains(pn, k);
    }
    assert forall|k: int| 0 <= k < ns.filter(pn).len() implies exists|i: int|
        0 <= i < es.len() && (es[i].source == t || es[i].target == t) && ((#[trigger] es[i]).source
            == (#[trigger] ns.filter(pn)[k]).id || es[i].target == ns.filter(pn)[k].id) by {
        ns.lemma_filter_pred(pn, k);
        let n = ns.filter(pn)[k];
        let m = choose|m: int| 0 <= m < fe.len() && ((#[trigger] fe[m]).source == n.id || fe[m].target == n.id);
        es.lemma_filter_pred(pe, m);
        assert(fe.contains(fe[m]));
        es.lemma_filter_contains_rev(pe, fe[m]);
        let i = choose|i: int| 0 <= i < es.len() && es[i] == fe[m];
        assert(es[i].source == n.id || es[i].target == n.id);
    }
}

} // verus!
