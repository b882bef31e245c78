use vstd::prelude::*;
use crate::node_id::NodeId;
use crate::node_id::NodeIdView;
use crate::node_id::NodeKind;
use crate::node_id::concept_id;
use crate::node_id::tag_id;
use crate::node_id::keyword_id;
use crate::model::Doc;
use crate::model::DocView;
use crate::model::Edge;
use crate::model::EdgeView;
use crate::model::GraphData;
use crate::model::Node;
use crate::model::NodeView;
use crate::model::docs_view;
use crate::model::edges_view;
use crate::model::nodes_view;
use crate::text::contains_string;
use crate::text::dedup;
use crate::text::distinct_seqs;
use crate::text::lemma_dedup_contains;
use crate::text::lemma_dedup_distinct;

verus! {

broadcast use vstd::string::group_string_axioms;

// ----------------------------------------------------------------------------
// Keyword statistics
// ----------------------------------------------------------------------------

/// What TF-IDF scoring needs of a keyword: for each document that holds it, in
/// order, the document's keyword count (at least 1) and how often the keyword
/// occurs among that document's keywords.
#[derive(Debug, PartialEq, Eq)]
pub struct TermStat {
    pub term: String,
    pub doc_lengths: Vec<usize>,
    pub counts: Vec<usize>,
}

/// How often `t` occurs in `ks`.
pub open spec fn occurrences(ks: Seq<Seq<char>>, t: Seq<char>) -> nat
    decreases ks.len(),
{
    if ks.len() == 0 {
        0
    } else {
        occurrences(ks.drop_last(), t) + if ks.last() == t {
            1nat
        } else {
            0nat
        }
    }
}

/// The keyword count of a document, at least 1.
pub open spec fn doc_length(d: DocView) -> nat {
    if d.keywords.len() == 0 {
        1
    } else {
        d.keywords.len()
    }
}

/// The keywords of all documents, in order.
pub open spec fn all_keywords(docs: Seq<DocView>) -> Seq<Seq<char>>
    decreases docs.len(),
{
    if docs.len() == 0 {
        seq![]
    } else {
        all_keywords(docs.drop_last()) + docs.last().keywords
    }
}

/// The distinct keywords of all documents, in order of first occurrence.
pub open spec fn distinct_terms(docs: Seq<DocView>) -> Seq<Seq<char>> {
    dedup(all_keywords(docs))
}

/// The keyword counts of the documents that hold `t`, in order.
pub open spec fn term_doc_lengths(docs: Seq<DocView>, t: Seq<char>) -> Seq<nat>
    decreases docs.len(),
{
    if docs.len() == 0 {
        seq![]
    } else {
        let r = term_doc_lengths(docs.drop_last(), t);
        if docs.last().keywords.contains(t) {
            r.push(doc_length(docs.last()))
        } else {
            r
        }
    }
}

/// How often `t` occurs in each document that holds it, in order.
pub open spec fn term_doc_counts(docs: Seq<DocView>, t: Seq<char>) -> Seq<nat>
    decreases docs.len(),
{
    if docs.len() == 0 {
        seq![]
    } else {
        let r = term_doc_counts(docs.drop_last(), t);
        if docs.last().keywords.contains(t) {
            r.push(occurrences(docs.last().keywords, t))
        } else {
            r
        }
    }
}

/// How often `s` occurs in `v`.
pub fn count_string(v: &Vec<String>, s: &String) -> (r: usize)
    ensures
        r == occurrences(v.deep_view(), s@),
{
    let ghost vv = v.deep_view();
    let mut r: usize = 0;
    let mut i: usize = 0;
    while i < v.len()
        invariant
            i <= v.len(),
            vv == v.deep_view(),
            r <= i,
            r == occurrences(vv.take(i as int), s@),
        decreases v.len() - i,
    {
        assert(vv.take(i + 1).drop_last() =~= vv.take(i as int));
        assert(vv.take(i + 1).last() == v[i as int]@);
        if v[i] == *s {
            r = r + 1;
        }
        i = i + 1;
    }
    assert(vv.take(v.len() as int) =~= vv);
    r
}

/// For each distinct keyword, the keyword counts of the documents holding it
/// and how often it occurs in each of them. The number of such documents is
/// the keyword's document frequency.
pub fn term_statistics(docs: &Vec<Doc>) -> (stats: Vec<TermStat>)
    ensures
        stats.len() == distinct_terms(docs_view(docs@)).len(),
        forall|i: int|
            0 <= i < stats.len() ==> {
                &&& (#[trigger] stats[i]).term@ == distinct_terms(docs_view(docs@))[i]
                &&& stats[i].doc_lengths@.map_values(|n: usize| n as nat) == term_doc_lengths(
                    docs_view(docs@),
                    distinct_terms(docs_view(docs@))[i],
                )
                &&& stats[i].counts@.map_values(|n: usize| n as nat) == term_doc_counts(
                    docs_view(docs@),
                    distinct_terms(docs_view(docs@))[i],
                )
            },
{
    let ghost dv = docs_view(docs@);
    // the distinct keywords, in order of first occurrence
    let mut terms: Vec<String> = Vec::new();
    let mut di: usize = 0;
    while di < docs.len()
        invariant
            di <= docs.len(),
            dv == docs_view(docs@),
            terms.deep_view() == dedup(all_keywords(dv.take(di as int))),
        decreases docs.len() - di,
    {
        let doc = &docs[di];
        assert(dv.take(di + 1).drop_last() =~= dv.take(di as int));
        assert(dv.take(di + 1).last() == doc@);
        let ghost base = all_keywords(dv.take(di as int));
        let mut k: usize = 0;
        while k < doc.keywords.len()
            invariant
                k <= doc.keywords.len(),
                terms.deep_view() == dedup(base + doc.keywords.deep_view().take(k as int)),
            decreases doc.keywords.len() - k,
        {
            let ghost prev = base + doc.keywords.deep_view().take(k as int);
            let ghost next = base + doc.keywords.deep_view().take(k + 1);
            assert(next =~= prev.push(doc.keywords[k as int]@));
            assert(next.drop_last() =~= prev);
            proof {
                lemma_dedup_contains(prev, doc.keywords[k as int]@);
            }
            if !contains_string(&terms, &doc.keywords[k]) {
                let ghost before = terms.deep_view();
                terms.push(doc.keywords[k].clone());
                assert(terms.deep_view() =~= before.push(doc.keywords[k as int]@));
            }
            k = k + 1;
        }
        assert(doc.keywords.deep_view().take(doc.keywords.len() as int) =~= doc.keywords.deep_view());
        assert(all_keywords(dv.take(di + 1)) == base + doc@.keywords);
        di = di + 1;
    }
    assert(dv.take(docs.len() as int) =~= dv);
    let ghost terms_v = terms.deep_view();
    let mut stats: Vec<TermStat> = Vec::new();
    let mut ti: usize = 0;
    while ti < terms.len()
        invariant
            ti <= terms.len(),
            dv == docs_view(docs@),
            terms_v == terms.deep_view(),
            terms_v == distinct_terms(dv),
            stats.len() == ti,
            forall|i: int|
                0 <= i < ti ==> {
                    &&& (#[trigger] stats[i]).term@ == terms_v[i]
                    &&& stats[i].doc_lengths@.map_values(|n: usize| n as nat)
                        == term_doc_lengths(dv, terms_v[i])
                    &&& stats[i].counts@.map_values(|n: usize| n as nat)
                        == term_doc_counts(dv, terms_v[i])
                },
        decreases terms.len() - ti,
    {
        let term = &terms[ti];
        let mut lens: Vec<usize> = Vec::new();
        let mut counts: Vec<usize> = Vec::new();
        let mut di: usize = 0;
        while di < docs.len()
            invariant
                di <= docs.len(),
                dv == docs_view(docs@),
                lens@.map_values(|n: usize| n as nat) == term_doc_lengths(dv.take(di as int), term@),
                counts@.map_values(|n: usize| n as nat) == term_doc_counts(dv.take(di as int), term@),
            decreases docs.len() - di,
        {
            assert(dv.take(di + 1).drop_last() =~= dv.take(di as int));
            assert(dv.take(di + 1).last() == docs[di as int]@);
            if contains_string(&docs[di].keywords, term) {
                let ghost before = lens@.map_values(|n: usize| n as nat);
                let n = docs[di].keywords.len();
                let len_d: usize = if n == 0 {
                    1
                } else {
                    n
                };
                lens.push(len_d);
                assert(lens@.map_values(|n: usize| n as nat) =~= before.push(
                    doc_length(docs[di as int]@),
                ));
                let ghost before_c = counts@.map_values(|n: usize| n as nat);
                let c = count_string(&docs[di].keywords, term);
                counts.push(c);
                assert(counts@.map_values(|n: usize| n as nat) =~= before_c.push(
                    occurrences(docs[di as int]@.keywords, term@),
                ));
            }
            di = di + 1;
        }
        assert(dv.take(docs.len() as int) =~= dv);
        stats.push(TermStat { term: term.clone(), doc_lengths: lens, counts });
        ti = ti + 1;
    }
    stats
}

// ----------------------------------------------------------------------------
// Graph building
// ----------------------------------------------------------------------------

pub open spec fn has_id(ns: Seq<NodeView>, id: NodeIdView) -> bool {
    exists|i: int| 0 <= i < ns.len() && (#[trigger] ns[i]).id == id
}

pub open spec fn distinct_ids(ns: Seq<NodeView>) -> bool {
    forall|i: int, j: int|
        0 <= i < ns.len() && 0 <= j < ns.len() && i != j ==> (#[trigger] ns[i]).id != (
        #[trigger] ns[j]).id
}

/// Puts a node in place of the one with the same id, or adds it at the end.
pub open spec fn upsert(ns: Seq<NodeView>, n: NodeView) -> Seq<NodeView> {
    if has_id(ns, n.id) {
        let i = choose|i: int| 0 <= i < ns.len() && (#[trigger] ns[i]).id == n.id;
        ns.update(i, n)
    } else {
        ns.push(n)
    }
}

/// Adds a node at the end unless one with its id is there already.
pub open spec fn insert_absent(ns: Seq<NodeView>, n: NodeView) -> Seq<NodeView> {
    if has_id(ns, n.id) {
        ns
    } else {
        ns.push(n)
    }
}

pub open spec fn doc_node(d: DocView, di: int) -> NodeView {
    NodeView {
        id: d.id,
        name: d.title,
        kind: NodeKind::Document,
        doc_id: Some(d.id),
        vector_ref: Some(di as usize),
    }
}

pub open spec fn concept_node(d: DocView, idx: int) -> NodeView {
    NodeView {
        id: concept_id(d.id, idx as u32),
        name: d.wiki_links[idx],
        kind: NodeKind::Concept,
        doc_id: Some(d.id),
        vector_ref: None,
    }
}

pub open spec fn tag_node(name: Seq<char>) -> NodeView {
    NodeView { id: tag_id(name), name: name, kind: NodeKind::Tag, doc_id: None, vector_ref: None }
}

pub open spec fn keyword_node(name: Seq<char>) -> NodeView {
    NodeView {
        id: keyword_id(name),
        name: name,
        kind: NodeKind::Keyword,
        doc_id: None,
        vector_ref: None,
    }
}

/// The concept nodes of the first `k` wiki links of a document, each added unless
/// its id is there already.
pub open spec fn links_step(ns: Seq<NodeView>, d: DocView, k: int) -> Seq<NodeView>
    decreases k,
{
    if k <= 0 {
        ns
    } else {
        insert_absent(links_step(ns, d, k - 1), concept_node(d, k - 1))
    }
}

pub open spec fn tags_step(ns: Seq<NodeView>, d: DocView, k: int) -> Seq<NodeView>
    decreases k,
{
    if k <= 0 {
        ns
    } else {
        insert_absent(tags_step(ns, d, k - 1), tag_node(d.tags[k - 1]))
    }
}

pub open spec fn keywords_step(
    ns: Seq<NodeView>,
    d: DocView,
    significant: Seq<Seq<char>>,
    k: int,
) -> Seq<NodeView>
    decreases k,
{
    if k <= 0 {
        ns
    } else {
        let r = keywords_step(ns, d, significant, k - 1);
        if significant.contains(d.keywords[k - 1]) {
            insert_absent(r, keyword_node(d.keywords[k - 1]))
        } else {
            r
        }
    }
}

/// What the `di`-th document adds to the nodes: its own node (in place of any node
/// with its id), then its concepts, tags and significant keywords, each unless a
/// node with its id is there already.
pub open spec fn doc_step(
    ns: Seq<NodeView>,
    d: DocView,
    di: int,
    significant: Seq<Seq<char>>,
) -> Seq<NodeView> {
    keywords_step(
        tags_step(
            links_step(upsert(ns, doc_node(d, di)), d, d.wiki_links.len() as int),
            d,
            d.tags.len() as int,
        ),
        d,
        significant,
        d.keywords.len() as int,
    )
}

/// The nodes of the graph of the first `n` documents.
pub open spec fn graph_nodes(docs: Seq<DocView>, significant: Seq<Seq<char>>, n: int) -> Seq<
    NodeView,
>
    decreases n,
{
    if n <= 0 {
        seq![]
    } else {
        doc_step(graph_nodes(docs, significant, n - 1), docs[n - 1], n - 1, significant)
    }
}

pub open spec fn edge_of(source: NodeIdView, target: NodeIdView, kind: Seq<char>) -> EdgeView {
    EdgeView { source, target, kind }
}

pub open spec fn link_edges(d: DocView, k: int) -> Seq<EdgeView>
    decreases k,
{
    if k <= 0 {
        seq![]
    } else {
        link_edges(d, k - 1).push(edge_of(d.id, concept_id(d.id, (k - 1) as u32), "LinksTo"@))
    }
}

pub open spec fn tag_edges(d: DocView, k: int) -> Seq<EdgeView>
    decreases k,
{
    if k <= 0 {
        seq![]
    } else {
        tag_edges(d, k - 1).push(edge_of(d.id, tag_id(d.tags[k - 1]), "HasTag"@))
    }
}

pub open spec fn keyword_edges(d: DocView, significant: Seq<Seq<char>>, k: int) -> Seq<EdgeView>
    decreases k,
{
    if k <= 0 {
        seq![]
    } else {
        let r = keyword_edges(d, significant, k - 1);
        if significant.contains(d.keywords[k - 1]) {
            r.push(edge_of(d.id, keyword_id(d.keywords[k - 1]), "HasKeyword"@))
        } else {
            r
        }
    }
}

/// The edges of one document: a `LinksTo` edge to each of its concepts, a `HasTag`
/// edge to each of its tags and a `HasKeyword` edge to each of its significant
/// keywords, in order.
pub open spec fn doc_edges(d: DocView, significant: Seq<Seq<char>>) -> Seq<EdgeView> {
    link_edges(d, d.wiki_links.len() as int) + tag_edges(d, d.tags.len() as int) + keyword_edges(
        d,
        significant,
        d.keywords.len() as int,
    )
}

/// The edges of the graph of the first `n` documents.
pub open spec fn graph_edges(docs: Seq<DocView>, significant: Seq<Seq<char>>, n: int) -> Seq<
    EdgeView,
>
    decreases n,
{
    if n <= 0 {
        seq![]
    } else {
        graph_edges(docs, significant, n - 1) + doc_edges(docs[n - 1], significant)
    }
}

proof fn lemma_upsert_distinct(ns: Seq<NodeView>, n: NodeView)
    requires
        distinct_ids(ns),
    ensures
        distinct_ids(upsert(ns, n)),
        forall|id: NodeIdView| #[trigger] has_id(upsert(ns, n), id) <==> (has_id(ns, id) || id == n.id),
{
    let r = upsert(ns, n);
    if has_id(ns, n.id) {
        let i = choose|i: int| 0 <= i < ns.len() && (#[trigger] ns[i]).id == n.id;
        assert forall|id: NodeIdView| #[trigger] has_id(r, id) <==> (has_id(ns, id) || id == n.id) by {
            if has_id(ns, id) {
                let j = choose|j: int| 0 <= j < ns.len() && (#[trigger] ns[j]).id == id;
                assert(r[j].id == id);
            }
            if id == n.id {
                assert(r[i].id == id);
            }
            if has_id(r, id) {
                let j = choose|j: int| 0 <= j < r.len() && (#[trigger] r[j]).id == id;
                if j != i {
                    assert(ns[j].id == id);
                }
            }
        }
    } else {
        assert forall|id: NodeIdView| #[trigger] has_id(r, id) <==> (has_id(ns, id) || id == n.id) by {
            if has_id(ns, id) {
                let j = choose|j: int| 0 <= j < ns.len() && (#[trigger] ns[j]).id == id;
                assert(r[j].id == id);
            }
            if id == n.id {
                assert(r[ns.len() as int].id == id);
            }
            if has_id(r, id) {
                let j = choose|j: int| 0 <= j < r.len() && (#[trigger] r[j]).id == id;
                if j < ns.len() {
                    assert(ns[j].id == id);
                }
            }
        }
        assert forall|a: int, b: int|
            0 <= a < r.len() && 0 <= b < r.len() && a != b implies (#[trigger] r[a]).id != (
            #[trigger] r[b]).id by {
            if a == ns.len() {
                assert(r[b] == ns[b]);
            } else if b == ns.len() {
                assert(r[a] == ns[a]);
            }
        }
    }
}

proof fn lemma_insert_absent_distinct(ns: Seq<NodeView>, n: NodeView)
    requires
        distinct_ids(ns),
    ensures
        distinct_ids(insert_absent(ns, n)),
        forall|id: NodeIdView| #[trigger] has_id(insert_absent(ns, n), id) <==> (has_id(ns, id) || id
            == n.id),
{
    if !has_id(ns, n.id) {
        lemma_upsert_distinct(ns, n);
    } else {
        assert forall|id: NodeIdView| #[trigger] has_id(insert_absent(ns, n), id) <==> (has_id(ns, id)
            || id == n.id) by {}
    }
}

/// The position of the node with this id, if any.
fn find_node(nodes: &Vec<Node>, id: &NodeId) -> (r: Option<usize>)
    ensures
        match r {
            Some(i) => i < nodes.len() && nodes_view(nodes@)[i as int].id == id@,
            None => !has_id(nodes_view(nodes@), id@),
        },
{
    let ghost nv = nodes_view(nodes@);
    let mut i: usize = 0;
    while i < nodes.len()
        invariant
            i <= nodes.len(),
            nv == nodes_view(nodes@),
            forall|k: int| 0 <= k < i ==> nv[k].id != id@,
        decreases nodes.len() - i,
    {
        if nodes[i].id.same_as(id) {
            return Some(i);
        }
        i = i + 1;
    }
    proof {
        if has_id(nv, id@) {
            let k = choose|k: int| 0 <= k < nv.len() && (#[trigger] nv[k]).id == id@;
            assert(nv[k].id != id@);
        }
    }
    None
}

fn upsert_node(nodes: &mut Vec<Node>, n: Node)
    requires
        distinct_ids(nodes_view(old(nodes)@)),
    ensures
        nodes_view(final(nodes)@) == upsert(nodes_view(old(nodes)@), n@),
        distinct_ids(nodes_view(final(nodes)@)),
{
    let ghost nv = nodes_view(nodes@);
    proof {
        lemma_upsert_distinct(nv, n@);
    }
    match find_node(nodes, &n.id) {
        Some(i) => {
            proof {
                let j = choose|j: int| 0 <= j < nv.len() && (#[trigger] nv[j]).id == n@.id;
                assert(nv[i as int].id == n@.id);
                if j != i {
                    assert(nv[j].id != nv[i as int].id);
                }
            }
            nodes.set(i, n);
            assert(nodes_view(nodes@) =~= upsert(nv, n@));
        },
        None => {
            nodes.push(n);
            assert(nodes_view(nodes@) =~= upsert(nv, n@));
        },
    }
}

fn insert_absent_node(nodes: &mut Vec<Node>, n: Node)
    requires
        distinct_ids(nodes_view(old(nodes)@)),
    ensures
        nodes_view(final(nodes)@) == insert_absent(nodes_view(old(nodes)@), n@),
        distinct_ids(nodes_view(final(nodes)@)),
{
    let ghost nv = nodes_view(nodes@);
    proof {
        lemma_insert_absent_distinct(nv, n@);
    }
    match find_node(nodes, &n.id) {
        Some(i) => {
            assert(has_id(nv, n@.id)) by {
                assert(nv[i as int].id == n@.id);
            }
        },
        None => {
            nodes.push(n);
            assert(nodes_view(nodes@) =~= insert_absent(nv, n@));
        },
    }
}

/// The knowledge graph of the documents.
///
/// `significant` holds the keywords whose TF-IDF score passed the threshold. Each
/// document gives its own node (a later document with the same id replaces it),
/// and a node for each of its concepts, tags and significant keywords unless a
/// node with that id is there already; each document's edges are listed in turn.
/// The nodes have distinct ids and come in the order in which their ids first
/// entered the graph.
pub fn build_graph_from_docs(docs: &Vec<Doc>, significant: &Vec<String>) -> (g: GraphData)
    ensures
        nodes_view(g.nodes@) == graph_nodes(
            docs_view(docs@),
            significant.deep_view(),
            docs.len() as int,
        ),
        edges_view(g.edges@) == graph_edges(
            docs_view(docs@),
            significant.deep_view(),
            docs.len() as int,
        ),
        distinct_ids(nodes_view(g.nodes@)),
        forall|j: int, k: int|
            0 <= j < docs.len() && 0 <= k < docs@[j]@.keywords.len() && significant.deep_view().contains(
                #[trigger] docs@[j]@.keywords[k],
            ) ==> edges_view(g.edges@).contains(
                EdgeView {
                    source: docs@[j]@.id,
                    target: keyword_id(docs@[j]@.keywords[k]),
                    kind: "HasKeyword"@,
                },
            ),
        edges_view(g.edges@).filter(|e: EdgeView| e.kind == "HasKeyword"@).len() == significant_entries(
            docs_view(docs@),
            significant.deep_view(),
            docs.len() as int,
        ),
{
    let ghost dv = docs_view(docs@);
    let ghost sv = significant.deep_view();
    proof {
        lemma_document_edges_present(dv, sv, docs.len() as int);
        lemma_keyword_edge_count(dv, sv, docs.len() as int);
        assert forall|j: int| 0 <= j < docs.len() implies #[trigger] docs@[j]@ == dv[j] by {}
    }
    let mut nodes: Vec<Node> = Vec::new();
    let mut edges: Vec<Edge> = Vec::new();
    if docs.len() == 0 {
        assert(nodes_view(nodes@) =~= Seq::<NodeView>::empty());
        assert(edges_view(edges@) =~= Seq::<EdgeView>::empty());
        return GraphData { nodes, edges };
    }
    assert(nodes_view(nodes@) =~= Seq::<NodeView>::empty());
    assert(edges_view(edges@) =~= Seq::<EdgeView>::empty());
    let mut di: usize = 0;
    while di < docs.len()
        invariant
            di <= docs.len(),
            dv == docs_view(docs@),
            sv == significant.deep_view(),
            nodes_view(nodes@) == graph_nodes(dv, sv, di as int),
            edges_view(edges@) == graph_edges(dv, sv, di as int),
            distinct_ids(nodes_view(nodes@)),
        decreases docs.len() - di,
    {
        let doc = &docs[di];
        let ghost d = doc@;
        assert(dv[di as int] == d);
        let ghost e0 = edges_view(edges@);
        upsert_node(
            &mut nodes,
            Node {
                id: doc.id.duplicate(),
                name: doc.title.clone(),
                kind: NodeKind::Document,
                doc_id: Some(doc.id.duplicate()),
                vector_ref: Some(di),
            },
        );
        let ghost n1 = nodes_view(nodes@);
        assert(n1 == upsert(graph_nodes(dv, sv, di as int), doc_node(d, di as int)));
        // concepts
        let mut k: usize = 0;
        while k < doc.wiki_links.len()
            invariant
                k <= doc.wiki_links.len(),
                d == doc@,
                nodes_view(nodes@) == links_step(n1, d, k as int),
                edges_view(edges@) == e0 + link_edges(d, k as int),
                distinct_ids(nodes_view(nodes@)),
            decreases doc.wiki_links.len() - k,
        {
            let target = NodeId::new_concept(&doc.id, k as u32);
            let ghost before_e = edges_view(edges@);
            edges.push(
                Edge {
                    source: doc.id.duplicate(),
                    target: target.duplicate(),
                    kind: String::from_str("LinksTo"),
                },
            );
            assert(edges_view(edges@) =~= before_e.push(edges@[edges@.len() - 1]@));
            assert(edges@[edges@.len() - 1]@ == edge_of(d.id, concept_id(d.id, k as u32), "LinksTo"@));
            assert(link_edges(d, k + 1) == link_edges(d, k as int).push(edge_of(d.id, concept_id(d.id, k as u32), "LinksTo"@)));
            assert(edges_view(edges@) =~= e0 + link_edges(d, k + 1));
            insert_absent_node(
                &mut nodes,
                Node {
                    id: target,
                    name: doc.wiki_links[k].clone(),
                    kind: NodeKind::Concept,
                    doc_id: Some(doc.id.duplicate()),
                    vector_ref: None,
                },
            );
            k = k + 1;
        }
        let ghost n2 = nodes_view(nodes@);
        let ghost e1 = edges_view(edges@);
        // tags
        let mut k: usize = 0;
        while k < doc.tags.len()
            invariant
                k <= doc.tags.len(),
                d == doc@,
                nodes_view(nodes@) == tags_step(n2, d, k as int),
                edges_view(edges@) == e1 + tag_edges(d, k as int),
                distinct_ids(nodes_view(nodes@)),
            decreases doc.tags.len() - k,
        {
            let tag = NodeId::new_tag(doc.tags[k].as_str());
            let ghost before_e = edges_view(edges@);
            edges.push(
                Edge {
                    source: doc.id.duplicate(),
                    target: tag.duplicate(),
                    kind: String::from_str("HasTag"),
                },
            );
            assert(edges_view(edges@) =~= before_e.push(edges@[edges@.len() - 1]@));
            assert(edges@[edges@.len() - 1]@ == edge_of(d.id, tag_id(d.tags[k as int]), "HasTag"@));
            assert(tag_edges(d, k + 1) == tag_edges(d, k as int).push(edge_of(d.id, tag_id(d.tags[k as int]), "HasTag"@)));
            assert(edges_view(edges@) =~= e1 + tag_edges(d, k + 1));
            insert_absent_node(
                &mut nodes,
                Node {
                    id: tag,
                    name: doc.tags[k].clone(),
                    kind: NodeKind::Tag,
                    doc_id: None,
                    vector_ref: None,
                },
            );
            k = k + 1;
        }
        let ghost n3 = nodes_view(nodes@);
        let ghost e2 = edges_view(edges@);
        // significant keywords
        let mut k: usize = 0;
        while k < doc.keywords.len()
            invariant
                k <= doc.keywords.len(),
                d == doc@,
                sv == significant.deep_view(),
                nodes_view(nodes@) == keywords_step(n3, d, sv, k as int),
                edges_view(edges@) == e2 + keyword_edges(d, sv, k as int),
                distinct_ids(nodes_view(nodes@)),
            decreases doc.keywords.len() - k,
        {
            if contains_string(significant, &doc.keywords[k]) {
                let kw = NodeId::new_keyword(doc.keywords[k].as_str());
                let ghost before_e = edges_view(edges@);
                edges.push(
                    Edge {
                        source: doc.id.duplicate(),
                        target: kw.duplicate(),
                        kind: String::from_str("HasKeyword"),
                    },
                );
                assert(edges_view(edges@) =~= before_e.push(edges@[edges@.len() - 1]@));
                assert(edges@[edges@.len() - 1]@ == edge_of(d.id, keyword_id(d.keywords[k as int]), "HasKeyword"@));
                assert(keyword_edges(d, sv, k + 1) == keyword_edges(d, sv, k as int).push(edge_of(d.id, keyword_id(d.keywords[k as int]), "HasKeyword"@)));
                assert(edges_view(edges@) =~= e2 + keyword_edges(d, sv, k + 1));
                insert_absent_node(
                    &mut nodes,
                    Node {
                        id: kw,
                        name: doc.keywords[k].clone(),
                        kind: NodeKind::Keyword,
                        doc_id: None,
                        vector_ref: None,
                    },
                );
            }
            k = k + 1;
        }
        assert(edges_view(edges@) =~= graph_edges(dv, sv, di + 1));
        di = di + 1;
    }
    GraphData { nodes, edges }
}

} // verus!

verus! {

// ----------------------------------------------------------------------------
// Laws
// ----------------------------------------------------------------------------

proof fn lemma_upsert_keeps(ns: Seq<NodeView>, n: NodeView, id: NodeIdView)
    ensures
        (has_id(ns, id) || id == n.id) ==> has_id(upsert(ns, n), id),
{
    let r = upsert(ns, n);
    if has_id(ns, n.id) {
        let i = choose|i: int| 0 <= i < ns.len() && (#[trigger] ns[i]).id == n.id;
        if has_id(ns, id) {
            let j = choose|j: int| 0 <= j < ns.len() && (#[trigger] ns[j]).id == id;
            assert(r[j].id == id);
        }
        if id == n.id {
            assert(r[i].id == id);
        }
    } else {
        if has_id(ns, id) {
            let j = choose|j: int| 0 <= j < ns.len() && (#[trigger] ns[j]).id == id;
            assert(r[j].id == id);
        }
        if id == n.id {
            assert(r[ns.len() as int].id == id);
        }
    }
}

proof fn lemma_insert_absent_keeps(ns: Seq<NodeView>, n: NodeView, id: NodeIdView)
    ensures
        (has_id(ns, id) || id == n.id) ==> has_id(insert_absent(ns, n), id),
{
    if !has_id(ns, n.id) {
        lemma_upsert_keeps(ns, n, id);
    }
}

proof fn lemma_links_step_ids(ns: Seq<NodeView>, d: DocView, k: int, id: NodeIdView)
    ensures
        has_id(ns, id) ==> has_id(links_step(ns, d, k), id),
        (exists|i: int| 0 <= i < k && #[trigger] concept_id(d.id, i as u32) == id) ==> has_id(
            links_step(ns, d, k),
            id,
        ),
    decreases k,
{
    if k > 0 {
        lemma_links_step_ids(ns, d, k - 1, id);
        lemma_insert_absent_keeps(links_step(ns, d, k - 1), concept_node(d, k - 1), id);
        if exists|i: int| 0 <= i < k && #[trigger] concept_id(d.id, i as u32) == id {
            let i = choose|i: int| 0 <= i < k && #[trigger] concept_id(d.id, i as u32) == id;
            if i < k - 1 {
                assert(exists|i2: int| 0 <= i2 < k - 1 && #[trigger] concept_id(d.id, i2 as u32) == id);
            }
        }
    }
}

proof fn lemma_tags_step_ids(ns: Seq<NodeView>, d: DocView, k: int, id: NodeIdView)
    ensures
        has_id(ns, id) ==> has_id(tags_step(ns, d, k), id),
        (exists|i: int| 0 <= i < k && tag_id(d.tags[i]) == id) ==> has_id(tags_step(ns, d, k), id),
    decreases k,
{
    if k > 0 {
        lemma_tags_step_ids(ns, d, k - 1, id);
        lemma_insert_absent_keeps(tags_step(ns, d, k - 1), tag_node(d.tags[k - 1]), id);
        if exists|i: int| 0 <= i < k && tag_id(d.tags[i]) == id {
            let i = choose|i: int| 0 <= i < k && tag_id(d.tags[i]) == id;
            if i < k - 1 {
                assert(exists|i2: int| 0 <= i2 < k - 1 && tag_id(d.tags[i2]) == id);
            }
        }
    }
}

proof fn lemma_keywords_step_ids(
    ns: Seq<NodeView>,
    d: DocView,
    sig: Seq<Seq<char>>,
    k: int,
    id: NodeIdView,
)
    ensures
        has_id(ns, id) ==> has_id(keywords_step(ns, d, sig, k), id),
        (exists|i: int|
            0 <= i < k && sig.contains(d.keywords[i]) && keyword_id(d.keywords[i]) == id) ==> has_id(
            keywords_step(ns, d, sig, k),
            id,
        ),
    decreases k,
{
    if k > 0 {
        lemma_keywords_step_ids(ns, d, sig, k - 1, id);
        let r = keywords_step(ns, d, sig, k - 1);
        lemma_insert_absent_keeps(r, keyword_node(d.keywords[k - 1]), id);
        if exists|i: int|
            0 <= i < k && sig.contains(d.keywords[i]) && keyword_id(d.keywords[i]) == id {
            let i = choose|i: int|
                0 <= i < k && sig.contains(d.keywords[i]) && keyword_id(d.keywords[i]) == id;
            if i < k - 1 {
                assert(exists|i2: int|
                    0 <= i2 < k - 1 && sig.contains(d.keywords[i2]) && keyword_id(d.keywords[i2])
                        == id);
            }
        }
    }
}

/// The ids that one document's edges point to.
pub open spec fn doc_targets(d: DocView, sig: Seq<Seq<char>>, id: NodeIdView) -> bool {
    ||| exists|i: int| 0 <= i < d.wiki_links.len() && #[trigger] concept_id(d.id, i as u32) == id
    ||| exists|i: int| 0 <= i < d.tags.len() && tag_id(d.tags[i]) == id
    ||| exists|i: int|
        0 <= i < d.keywords.len() && sig.contains(d.keywords[i]) && keyword_id(d.keywords[i]) == id
}

proof fn lemma_doc_step_ids(ns: Seq<NodeView>, d: DocView, di: int, sig: Seq<Seq<char>>, id: NodeIdView)
    ensures
        (has_id(ns, id) || id == d.id || doc_targets(d, sig, id)) ==> has_id(
            doc_step(ns, d, di, sig),
            id,
        ),
{
    let n0 = upsert(ns, doc_node(d, di));
    let n1 = links_step(n0, d, d.wiki_links.len() as int);
    let n2 = tags_step(n1, d, d.tags.len() as int);
    lemma_upsert_keeps(ns, doc_node(d, di), id);
    lemma_links_step_ids(n0, d, d.wiki_links.len() as int, id);
    lemma_tags_step_ids(n1, d, d.tags.len() as int, id);
    lemma_keywords_step_ids(n2, d, sig, d.keywords.len() as int, id);
}

proof fn lemma_doc_edges_shape(d: DocView, sig: Seq<Seq<char>>)
    ensures
        forall|j: int|
            0 <= j < doc_edges(d, sig).len() ==> (#[trigger] doc_edges(d, sig)[j]).source == d.id
                && doc_targets(d, sig, doc_edges(d, sig)[j].target),
{
    lemma_link_edges_shape(d, d.wiki_links.len() as int);
    lemma_tag_edges_shape(d, d.tags.len() as int);
    lemma_keyword_edges_shape(d, sig, d.keywords.len() as int);
    let a = link_edges(d, d.wiki_links.len() as int);
    let b = tag_edges(d, d.tags.len() as int);
    let c = keyword_edges(d, sig, d.keywords.len() as int);
    assert forall|j: int| 0 <= j < doc_edges(d, sig).len() implies (#[trigger] doc_edges(
        d,
        sig,
    )[j]).source == d.id && doc_targets(d, sig, doc_edges(d, sig)[j].target) by {
        let e = doc_edges(d, sig)[j];
        if j < a.len() {
            assert(e == a[j]);
            assert(concept_id(d.id, j as u32) == e.target);
        } else if j < a.len() + b.len() {
            assert(e == b[j - a.len()]);
            let t = j - a.len();
            assert(tag_id(d.tags[t]) == e.target);
        } else {
            assert(e == c[j - a.len() - b.len()]);
        }
    }
}

proof fn lemma_link_edges_shape(d: DocView, k: int)
    requires
        0 <= k,
    ensures
        link_edges(d, k).len() == k,
        forall|j: int|
            0 <= j < k ==> (#[trigger] link_edges(d, k)[j]) == edge_of(
                d.id,
                concept_id(d.id, j as u32),
                "LinksTo"@,
            ),
    decreases k,
{
    if k > 0 {
        lemma_link_edges_shape(d, k - 1);
    }
}

proof fn lemma_tag_edges_shape(d: DocView, k: int)
    requires
        0 <= k,
    ensures
        tag_edges(d, k).len() == k,
        forall|j: int|
            0 <= j < k ==> (#[trigger] tag_edges(d, k)[j]) == edge_of(
                d.id,
                tag_id(d.tags[j]),
                "HasTag"@,
            ),
    decreases k,
{
    if k > 0 {
        lemma_tag_edges_shape(d, k - 1);
    }
}

proof fn lemma_keyword_edges_shape(d: DocView, sig: Seq<Seq<char>>, k: int)
    requires
        0 <= k,
    ensures
        forall|j: int|
            0 <= j < keyword_edges(d, sig, k).len() ==> (#[trigger] keyword_edges(d, sig, k)[j]).source
                == d.id && exists|i: int|
                0 <= i < k && sig.contains(d.keywords[i]) && keyword_id(d.keywords[i])
                    == keyword_edges(d, sig, k)[j].target,
    decreases k,
{
    if k > 0 {
        lemma_keyword_edges_shape(d, sig, k - 1);
        let r = keyword_edges(d, sig, k - 1);
        assert forall|j: int| 0 <= j < keyword_edges(d, sig, k).len() implies (
        #[trigger] keyword_edges(d, sig, k)[j]).source == d.id && exists|i: int|
            0 <= i < k && sig.contains(d.keywords[i]) && keyword_id(d.keywords[i])
                == keyword_edges(d, sig, k)[j].target by {
            if j < r.len() {
                assert(keyword_edges(d, sig, k)[j] == r[j]);
                let i = choose|i: int|
                    0 <= i < k - 1 && sig.contains(d.keywords[i]) && keyword_id(d.keywords[i])
                        == r[j].target;
                assert(0 <= i < k);
            } else {
                assert(sig.contains(d.keywords[k - 1]));
                assert(keyword_id(d.keywords[k - 1]) == keyword_edges(d, sig, k)[j].target);
            }
        }
    }
}

/// Every edge of the graph joins two of its nodes: its source and its target are
/// ids of nodes of the graph.
pub proof fn lemma_edges_join_nodes(docs: Seq<DocView>, sig: Seq<Seq<char>>, n: int)
    requires
        0 <= n <= docs.len(),
    ensures
        forall|j: int|
            0 <= j < graph_edges(docs, sig, n).len() ==> has_id(
                graph_nodes(docs, sig, n),
                (#[trigger] graph_edges(docs, sig, n)[j]).source,
            ) && has_id(graph_nodes(docs, sig, n), graph_edges(docs, sig, n)[j].target),
    decreases n,
{
    if n > 0 {
        lemma_edges_join_nodes(docs, sig, n - 1);
        let prev_n = graph_nodes(docs, sig, n - 1);
        let prev_e = graph_edges(docs, sig, n - 1);
        let d = docs[n - 1];
        lemma_doc_edges_shape(d, sig);
        let de = doc_edges(d, sig);
        assert forall|j: int| 0 <= j < graph_edges(docs, sig, n).len() implies has_id(
            graph_nodes(docs, sig, n),
            (#[trigger] graph_edges(docs, sig, n)[j]).source,
        ) && has_id(graph_nodes(docs, sig, n), graph_edges(docs, sig, n)[j].target) by {
            let e = graph_edges(docs, sig, n)[j];
            lemma_doc_step_ids(prev_n, d, n - 1, sig, e.source);
            lemma_doc_step_ids(prev_n, d, n - 1, sig, e.target);
            if j < prev_e.len() {
                assert(e == prev_e[j]);
            } else {
                assert(e == de[j - prev_e.len()]);
            }
        }
    }
}

} // verus!

verus! {

proof fn lemma_all_keywords_from_docs(docs: Seq<DocView>, t: Seq<char>)
    requires
        all_keywords(docs).contains(t),
    ensures
        term_doc_lengths(docs, t).len() >= 1,
    decreases docs.len(),
{
    if docs.len() > 0 {
        let p = docs.drop_last();
        let a = all_keywords(p);
        let k = docs.last().keywords;
        let j = choose|j: int| 0 <= j < (a + k).len() && (a + k)[j] == t;
        if j < a.len() {
            assert(a[j] == t);
            lemma_all_keywords_from_docs(p, t);
        } else {
            assert(k[j - a.len()] == t);
            assert(k.contains(t));
        }
    }
}

proof fn lemma_occurrences_bounds(ks: Seq<Seq<char>>, t: Seq<char>)
    ensures
        occurrences(ks, t) <= ks.len(),
        ks.contains(t) ==> occurrences(ks, t) >= 1,
    decreases ks.len(),
{
    if ks.len() > 0 {
        lemma_occurrences_bounds(ks.drop_last(), t);
        if ks.contains(t) && ks.last() != t {
            let j = choose|j: int| 0 <= j < ks.len() && ks[j] == t;
            assert(ks.drop_last()[j] == t);
        }
    }
}

/// For every keyword and every document holding it, the keyword's number of
/// occurrences is at least 1 and at most the document's keyword count, so the
/// term frequency lies in (0, 1]; both lists have one entry per holder.
pub proof fn lemma_term_frequency_bounds(docs: Seq<DocView>, t: Seq<char>)
    ensures
        term_doc_counts(docs, t).len() == term_doc_lengths(docs, t).len(),
        forall|i: int|
            0 <= i < term_doc_counts(docs, t).len() ==> 1 <= #[trigger] term_doc_counts(docs, t)[i]
                <= term_doc_lengths(docs, t)[i],
    decreases docs.len(),
{
    if docs.len() > 0 {
        let p = docs.drop_last();
        lemma_term_frequency_bounds(p, t);
        lemma_occurrences_bounds(docs.last().keywords, t);
    }
}

/// Every keyword that statistics are kept for occurs in at least one document,
/// so its document frequency is at least 1; and each keyword is listed once.
pub proof fn lemma_terms_occur(docs: Seq<DocView>)
    ensures
        forall|i: int|
            0 <= i < distinct_terms(docs).len() ==> term_doc_lengths(
                docs,
                #[trigger] distinct_terms(docs)[i],
            ).len() >= 1,
        distinct_seqs(distinct_terms(docs)),
{
    lemma_dedup_distinct(all_keywords(docs));
    assert forall|i: int| 0 <= i < distinct_terms(docs).len() implies term_doc_lengths(
        docs,
        #[trigger] distinct_terms(docs)[i],
    ).len() >= 1 by {
        let t = distinct_terms(docs)[i];
        assert(dedup(all_keywords(docs)).contains(t));
        lemma_dedup_contains(all_keywords(docs), t);
        lemma_all_keywords_from_docs(docs, t);
    }
}

} // verus!

verus! {

proof fn lemma_upsert_keeps_property(ns: Seq<NodeView>, n: NodeView, p: spec_fn(NodeView) -> bool)
    requires
        forall|k: int| 0 <= k < ns.len() ==> p(#[trigger] ns[k]),
        p(n),
    ensures
        forall|k: int| 0 <= k < upsert(ns, n).len() ==> p(#[trigger] upsert(ns, n)[k]),
{
    let r = upsert(ns, n);
    if has_id(ns, n.id) {
        let i = choose|i: int| 0 <= i < ns.len() && (#[trigger] ns[i]).id == n.id;
        assert forall|k: int| 0 <= k < r.len() implies p(#[trigger] r[k]) by {
            if k != i {
                assert(r[k] == ns[k]);
            }
        }
    } else {
        assert forall|k: int| 0 <= k < r.len() implies p(#[trigger] r[k]) by {
            if k < ns.len() {
                assert(r[k] == ns[k]);
            }
        }
    }
}

proof fn lemma_insert_absent_keeps_property(ns: Seq<NodeView>, n: NodeView, p: spec_fn(NodeView) -> bool)
    requires
        forall|k: int| 0 <= k < ns.len() ==> p(#[trigger] ns[k]),
        p(n),
    ensures
        forall|k: int| 0 <= k < insert_absent(ns, n).len() ==> p(#[trigger] insert_absent(ns, n)[k]),
{
    if !has_id(ns, n.id) {
        lemma_upsert_keeps_property(ns, n, p);
    }
}

/// A node is significant-or-not-a-keyword.
pub open spec fn keyword_is_significant(sig: Seq<Seq<char>>) -> spec_fn(NodeView) -> bool {
    |n: NodeView| n.kind == NodeKind::Keyword ==> sig.contains(n.name)
}

proof fn lemma_doc_step_keywords(ns: Seq<NodeView>, d: DocView, di: int, sig: Seq<Seq<char>>)
    requires
        forall|k: int| 0 <= k < ns.len() ==> keyword_is_significant(sig)(#[trigger] ns[k]),
    ensures
        forall|k: int|
            0 <= k < doc_step(ns, d, di, sig).len() ==> keyword_is_significant(sig)(
                #[trigger] doc_step(ns, d, di, sig)[k],
            ),
{
    let p = keyword_is_significant(sig);
    lemma_upsert_keeps_property(ns, doc_node(d, di), p);
    let n0 = upsert(ns, doc_node(d, di));
    lemma_links_keep_property(n0, d, d.wiki_links.len() as int, p);
    let n1 = links_step(n0, d, d.wiki_links.len() as int);
    lemma_tags_keep_property(n1, d, d.tags.len() as int, p);
    let n2 = tags_step(n1, d, d.tags.len() as int);
    lemma_keywords_keep_property(n2, d, sig, d.keywords.len() as int);
}

proof fn lemma_links_keep_property(ns: Seq<NodeView>, d: DocView, k: int, p: spec_fn(NodeView) -> bool)
    requires
        forall|j: int| 0 <= j < ns.len() ==> p(#[trigger] ns[j]),
        forall|i: int| #![trigger concept_node(d, i)] p(concept_node(d, i)),
    ensures
        forall|j: int| 0 <= j < links_step(ns, d, k).len() ==> p(#[trigger] links_step(ns, d, k)[j]),
    decreases k,
{
    if k > 0 {
        lemma_links_keep_property(ns, d, k - 1, p);
        assert(p(concept_node(d, k - 1)));
        lemma_insert_absent_keeps_property(links_step(ns, d, k - 1), concept_node(d, k - 1), p);
    }
}

proof fn lemma_tags_keep_property(ns: Seq<NodeView>, d: DocView, k: int, p: spec_fn(NodeView) -> bool)
    requires
        forall|j: int| 0 <= j < ns.len() ==> p(#[trigger] ns[j]),
        forall|t: Seq<char>| #![trigger tag_node(t)] p(tag_node(t)),
    ensures
        forall|j: int| 0 <= j < tags_step(ns, d, k).len() ==> p(#[trigger] tags_step(ns, d, k)[j]),
    decreases k,
{
    if k > 0 {
        lemma_tags_keep_property(ns, d, k - 1, p);
        assert(p(tag_node(d.tags[k - 1])));
        lemma_insert_absent_keeps_property(tags_step(ns, d, k - 1), tag_node(d.tags[k - 1]), p);
    }
}

proof fn lemma_keywords_keep_property(ns: Seq<NodeView>, d: DocView, sig: Seq<Seq<char>>, k: int)
    requires
        forall|j: int| 0 <= j < ns.len() ==> keyword_is_significant(sig)(#[trigger] ns[j]),
    ensures
        forall|j: int|
            0 <= j < keywords_step(ns, d, sig, k).len() ==> keyword_is_significant(sig)(
                #[trigger] keywords_step(ns, d, sig, k)[j],
            ),
    decreases k,
{
    if k > 0 {
        lemma_keywords_keep_property(ns, d, sig, k - 1);
        let r = keywords_step(ns, d, sig, k - 1);
        if sig.contains(d.keywords[k - 1]) {
            lemma_insert_absent_keeps_property(
                r,
                keyword_node(d.keywords[k - 1]),
                keyword_is_significant(sig),
            );
        }
    }
}

/// Only significant keywords become keyword nodes: every node of kind `Keyword`
/// is named by a keyword of the significant list.
pub proof fn lemma_keyword_nodes_are_significant(docs: Seq<DocView>, sig: Seq<Seq<char>>, n: int)
    ensures
        forall|k: int|
            0 <= k < graph_nodes(docs, sig, n).len() && (#[trigger] graph_nodes(docs, sig, n)[k]).kind
                == NodeKind::Keyword ==> sig.contains(graph_nodes(docs, sig, n)[k].name),
    decreases n,
{
    if n > 0 {
        lemma_keyword_nodes_are_significant(docs, sig, n - 1);
        let prev = graph_nodes(docs, sig, n - 1);
        assert forall|k: int| 0 <= k < prev.len() implies keyword_is_significant(sig)(
            #[trigger] prev[k],
        ) by {}
        lemma_doc_step_keywords(prev, docs[n - 1], n - 1, sig);
        let cur = graph_nodes(docs, sig, n);
        assert forall|k: int|
            0 <= k < cur.len() && (#[trigger] cur[k]).kind == NodeKind::Keyword implies sig.contains(
            cur[k].name,
        ) by {
            assert(keyword_is_significant(sig)(cur[k]));
        }
    }
}

} // verus!

verus! {

/// The list holds a document node with this id.
pub open spec fn has_doc_node(ns: Seq<NodeView>, id: NodeIdView) -> bool {
    exists|k: int| 0 <= k < ns.len() && (#[trigger] ns[k]).id == id && ns[k].kind == NodeKind::Document
}

proof fn lemma_insert_absent_keeps_doc(ns: Seq<NodeView>, n: NodeView, id: NodeIdView)
    requires
        has_doc_node(ns, id),
    ensures
        has_doc_node(insert_absent(ns, n), id),
{
    let k = choose|k: int| 0 <= k < ns.len() && (#[trigger] ns[k]).id == id && ns[k].kind == NodeKind::Document;
    assert(insert_absent(ns, n)[k] == ns[k]);
}

proof fn lemma_upsert_doc(ns: Seq<NodeView>, n: NodeView, id: NodeIdView)
    requires
        n.kind == NodeKind::Document,
        has_doc_node(ns, id) || id == n.id,
    ensures
        has_doc_node(upsert(ns, n), id),
{
    let r = upsert(ns, n);
    if has_id(ns, n.id) {
        let i = choose|i: int| 0 <= i < ns.len() && (#[trigger] ns[i]).id == n.id;
        if id == n.id {
            assert(r[i] == n);
        } else {
            let k = choose|k: int| 0 <= k < ns.len() && (#[trigger] ns[k]).id == id && ns[k].kind == NodeKind::Document;
            assert(k != i);
            assert(r[k] == ns[k]);
        }
    } else {
        if id == n.id {
            assert(r[ns.len() as int] == n);
        } else {
            let k = choose|k: int| 0 <= k < ns.len() && (#[trigger] ns[k]).id == id && ns[k].kind == NodeKind::Document;
            assert(r[k] == ns[k]);
        }
    }
}

proof fn lemma_links_keep_doc(ns: Seq<NodeView>, d: DocView, k: int, id: NodeIdView)
    requires
        has_doc_node(ns, id),
    ensures
        has_doc_node(links_step(ns, d, k), id),
    decreases k,
{
    if k > 0 {
        lemma_links_keep_doc(ns, d, k - 1, id);
        lemma_insert_absent_keeps_doc(links_step(ns, d, k - 1), concept_node(d, k - 1), id);
    }
}

proof fn lemma_tags_keep_doc(ns: Seq<NodeView>, d: DocView, k: int, id: NodeIdView)
    requires
        has_doc_node(ns, id),
    ensures
        has_doc_node(tags_step(ns, d, k), id),
    decreases k,
{
    if k > 0 {
        lemma_tags_keep_doc(ns, d, k - 1, id);
        lemma_insert_absent_keeps_doc(tags_step(ns, d, k - 1), tag_node(d.tags[k - 1]), id);
    }
}

proof fn lemma_keywords_keep_doc(ns: Seq<NodeView>, d: DocView, sig: Seq<Seq<char>>, k: int, id: NodeIdView)
    requires
        has_doc_node(ns, id),
    ensures
        has_doc_node(keywords_step(ns, d, sig, k), id),
    decreases k,
{
    if k > 0 {
        lemma_keywords_keep_doc(ns, d, sig, k - 1, id);
        if sig.contains(d.keywords[k - 1]) {
            lemma_insert_absent_keeps_doc(
                keywords_step(ns, d, sig, k - 1),
                keyword_node(d.keywords[k - 1]),
                id,
            );
        }
    }
}

/// Every document becomes a node: for each document, the graph has a node of kind
/// `Document` with the document's id.
pub proof fn lemma_documents_are_nodes(docs: Seq<DocView>, sig: Seq<Seq<char>>, n: int)
    requires
        0 <= n <= docs.len(),
    ensures
        forall|j: int| 0 <= j < n ==> has_doc_node(graph_nodes(docs, sig, n), #[trigger] docs[j].id),
    decreases n,
{
    if n > 0 {
        lemma_documents_are_nodes(docs, sig, n - 1);
        let prev = graph_nodes(docs, sig, n - 1);
        let d = docs[n - 1];
        assert forall|j: int| 0 <= j < n implies has_doc_node(graph_nodes(docs, sig, n), #[trigger] docs[j].id) by {
            let id = docs[j].id;
            lemma_upsert_doc(prev, doc_node(d, n - 1), id);
            let n0 = upsert(prev, doc_node(d, n - 1));
            lemma_links_keep_doc(n0, d, d.wiki_links.len() as int, id);
            let n1 = links_step(n0, d, d.wiki_links.len() as int);
            lemma_tags_keep_doc(n1, d, d.tags.len() as int, id);
            let n2 = tags_step(n1, d, d.tags.len() as int);
            lemma_keywords_keep_doc(n2, d, sig, d.keywords.len() as int, id);
        }
    }
}

} // verus!

verus! {

// ----------------------------------------------------------------------------
// Laws: one edge for each link, tag and significant keyword
// ----------------------------------------------------------------------------

proof fn lemma_edge_kinds_differ()
    ensures
        "LinksTo"@ != "HasKeyword"@,
        "HasTag"@ != "HasKeyword"@,
{
    reveal_strlit("LinksTo");
    reveal_strlit("HasTag");
    reveal_strlit("HasKeyword");
    assert("LinksTo"@.len() != "HasKeyword"@.len());
    assert("HasTag"@.len() != "HasKeyword"@.len());
}

proof fn lemma_concat_contains(a: Seq<EdgeView>, b: Seq<EdgeView>, x: EdgeView)
    requires
        a.contains(x) || b.contains(x),
    ensures
        (a + b).contains(x),
{
    if a.contains(x) {
        let i = choose|i: int| 0 <= i < a.len() && a[i] == x;
        assert((a + b)[i] == x);
    } else {
        let i = choose|i: int| 0 <= i < b.len() && b[i] == x;
        assert((a + b)[a.len() + i] == x);
    }
}

proof fn lemma_link_edges_hold(d: DocView, k: int, m: int)
    requires
        0 <= m < k,
    ensures
        link_edges(d, k).contains(EdgeView { source: d.id, target: concept_id(d.id, m as u32), kind: "LinksTo"@ }),
    decreases k,
{
    let x = EdgeView { source: d.id, target: concept_id(d.id, m as u32), kind: "LinksTo"@ };
    let r = link_edges(d, k - 1);
    let y = edge_of(d.id, concept_id(d.id, (k - 1) as u32), "LinksTo"@);
    assert(link_edges(d, k) == r.push(y));
    if m == k - 1 {
        assert(r.push(y)[r.len() as int] == x);
    } else {
        lemma_link_edges_hold(d, k - 1, m);
        let i = choose|i: int| 0 <= i < r.len() && r[i] == x;
        assert(r.push(y)[i] == x);
    }
}

proof fn lemma_tag_edges_hold(d: DocView, k: int, m: int)
    requires
        0 <= m < k,
    ensures
        tag_edges(d, k).contains(EdgeView { source: d.id, target: tag_id(d.tags[m]), kind: "HasTag"@ }),
    decreases k,
{
    let x = EdgeView { source: d.id, target: tag_id(d.tags[m]), kind: "HasTag"@ };
    let r = tag_edges(d, k - 1);
    let y = edge_of(d.id, tag_id(d.tags[k - 1]), "HasTag"@);
    assert(tag_edges(d, k) == r.push(y));
    if m == k - 1 {
        assert(r.push(y)[r.len() as int] == x);
    } else {
        lemma_tag_edges_hold(d, k - 1, m);
        let i = choose|i: int| 0 <= i < r.len() && r[i] == x;
        assert(r.push(y)[i] == x);
    }
}

proof fn lemma_keyword_edges_hold(d: DocView, sig: Seq<Seq<char>>, k: int, m: int)
    requires
        0 <= m < k,
        sig.contains(d.keywords[m]),
    ensures
        keyword_edges(d, sig, k).contains(EdgeView { source: d.id, target: keyword_id(d.keywords[m]), kind: "HasKeyword"@ }),
    decreases k,
{
    let x = EdgeView { source: d.id, target: keyword_id(d.keywords[m]), kind: "HasKeyword"@ };
    let r = keyword_edges(d, sig, k - 1);
    if m == k - 1 {
        assert(keyword_edges(d, sig, k) == r.push(x));
        assert(r.push(x)[r.len() as int] == x);
    } else {
        lemma_keyword_edges_hold(d, sig, k - 1, m);
        let i = choose|i: int| 0 <= i < r.len() && r[i] == x;
        if sig.contains(d.keywords[k - 1]) {
            let y = edge_of(d.id, keyword_id(d.keywords[k - 1]), "HasKeyword"@);
            assert(keyword_edges(d, sig, k) == r.push(y));
            assert(r.push(y)[i] == x);
        }
    }
}

proof fn lemma_doc_edges_hold(d: DocView, sig: Seq<Seq<char>>)
    ensures
        forall|k: int| 0 <= k < d.wiki_links.len() ==> #[trigger] doc_edges(d, sig).contains(
            EdgeView { source: d.id, target: concept_id(d.id, k as u32), kind: "LinksTo"@ }),
        forall|k: int| 0 <= k < d.tags.len() ==> doc_edges(d, sig).contains(
            EdgeView { source: d.id, target: tag_id(#[trigger] d.tags[k]), kind: "HasTag"@ }),
        forall|k: int| 0 <= k < d.keywords.len() && sig.contains(#[trigger] d.keywords[k]) ==> doc_edges(d, sig).contains(
            EdgeView { source: d.id, target: keyword_id(d.keywords[k]), kind: "HasKeyword"@ }),
{
    let le = link_edges(d, d.wiki_links.len() as int);
    let te = tag_edges(d, d.tags.len() as int);
    let ke = keyword_edges(d, sig, d.keywords.len() as int);
    assert forall|k: int| 0 <= k < d.wiki_links.len() implies #[trigger] doc_edges(d, sig).contains(
        EdgeView { source: d.id, target: concept_id(d.id, k as u32), kind: "LinksTo"@ }) by {
        let x = EdgeView { source: d.id, target: concept_id(d.id, k as u32), kind: "LinksTo"@ };
        lemma_link_edges_hold(d, d.wiki_links.len() as int, k);
        lemma_concat_contains(le, te, x);
        lemma_concat_contains(le + te, ke, x);
    }
    assert forall|k: int| 0 <= k < d.tags.len() implies doc_edges(d, sig).contains(
        EdgeView { source: d.id, target: tag_id(#[trigger] d.tags[k]), kind: "HasTag"@ }) by {
        let x = EdgeView { source: d.id, target: tag_id(d.tags[k]), kind: "HasTag"@ };
        lemma_tag_edges_hold(d, d.tags.len() as int, k);
        lemma_concat_contains(le, te, x);
        lemma_concat_contains(le + te, ke, x);
    }
    assert forall|k: int| 0 <= k < d.keywords.len() && sig.contains(#[trigger] d.keywords[k]) implies doc_edges(d, sig).contains(
        EdgeView { source: d.id, target: keyword_id(d.keywords[k]), kind: "HasKeyword"@ }) by {
        let x = EdgeView { source: d.id, target: keyword_id(d.keywords[k]), kind: "HasKeyword"@ };
        lemma_keyword_edges_hold(d, sig, d.keywords.len() as int, k);
        lemma_concat_contains(le + te, ke, x);
    }
}

/// Every document is joined to what it names: for each document, the graph has a
/// `LinksTo` edge from it to the concept of each of its wiki links, a `HasTag`
/// edge to the node of each of its tags, and a `HasKeyword` edge to the node of
/// each of its keywords that is significant.
pub proof fn lemma_document_edges_present(docs: Seq<DocView>, sig: Seq<Seq<char>>, n: int)
    requires
        0 <= n <= docs.len(),
    ensures
        forall|j: int, k: int|
            0 <= j < n && 0 <= k < docs[j].wiki_links.len() ==> #[trigger] graph_edges(docs, sig, n).contains(
                EdgeView { source: docs[j].id, target: concept_id(docs[j].id, k as u32), kind: "LinksTo"@ },
            ),
        forall|j: int, k: int|
            0 <= j < n && 0 <= k < docs[j].tags.len() ==> graph_edges(docs, sig, n).contains(
                EdgeView { source: docs[j].id, target: tag_id(#[trigger] docs[j].tags[k]), kind: "HasTag"@ },
            ),
        forall|j: int, k: int|
            0 <= j < n && 0 <= k < docs[j].keywords.len() && sig.contains(#[trigger] docs[j].keywords[k])
                ==> graph_edges(docs, sig, n).contains(
                EdgeView { source: docs[j].id, target: keyword_id(docs[j].keywords[k]), kind: "HasKeyword"@ },
            ),
    decreases n,
{
    if n > 0 {
        lemma_document_edges_present(docs, sig, n - 1);
        let prev = graph_edges(docs, sig, n - 1);
        let de = doc_edges(docs[n - 1], sig);
        lemma_doc_edges_hold(docs[n - 1], sig);
        assert forall|j: int, k: int|
            0 <= j < n && 0 <= k < docs[j].wiki_links.len() implies #[trigger] graph_edges(docs, sig, n).contains(
                EdgeView { source: docs[j].id, target: concept_id(docs[j].id, k as u32), kind: "LinksTo"@ }) by {
            let x = EdgeView { source: docs[j].id, target: concept_id(docs[j].id, k as u32), kind: "LinksTo"@ };
            if j < n - 1 {
                assert(graph_edges(docs, sig, n - 1).contains(x));
            } else {
                assert(de.contains(x));
            }
            lemma_concat_contains(prev, de, x);
        }
        assert forall|j: int, k: int|
            0 <= j < n && 0 <= k < docs[j].tags.len() implies graph_edges(docs, sig, n).contains(
                EdgeView { source: docs[j].id, target: tag_id(#[trigger] docs[j].tags[k]), kind: "HasTag"@ }) by {
            let x = EdgeView { source: docs[j].id, target: tag_id(docs[j].tags[k]), kind: "HasTag"@ };
            if j < n - 1 {
                assert(prev.contains(x));
            } else {
                assert(de.contains(x));
            }
            lemma_concat_contains(prev, de, x);
        }
        assert forall|j: int, k: int|
            0 <= j < n && 0 <= k < docs[j].keywords.len() && sig.contains(#[trigger] docs[j].keywords[k])
                implies graph_edges(docs, sig, n).contains(
                EdgeView { source: docs[j].id, target: keyword_id(docs[j].keywords[k]), kind: "HasKeyword"@ }) by {
            let x = EdgeView { source: docs[j].id, target: keyword_id(docs[j].keywords[k]), kind: "HasKeyword"@ };
            if j < n - 1 {
                assert(prev.contains(x));
            } else {
                assert(de.contains(x));
            }
            lemma_concat_contains(prev, de, x);
        }
    }
}

/// How many keyword entries of the first `n` documents are significant (a keyword
/// listed twice by a document counts twice).
pub open spec fn significant_entries(docs: Seq<DocView>, sig: Seq<Seq<char>>, n: int) -> nat
    decreases n,
{
    if n <= 0 {
        0
    } else {
        significant_entries(docs, sig, n - 1) + docs[n - 1].keywords.filter(
            |w: Seq<char>| sig.contains(w),
        ).len()
    }
}

pub open spec fn is_keyword_edge(e: EdgeView) -> bool {
    e.kind == "HasKeyword"@
}

proof fn lemma_no_keyword_links(d: DocView, k: int)
    ensures
        link_edges(d, k).filter(|e: EdgeView| is_keyword_edge(e)).len() == 0,
    decreases k,
{
    let p = |e: EdgeView| is_keyword_edge(e);
    if k > 0 {
        lemma_no_keyword_links(d, k - 1);
        lemma_edge_kinds_differ();
        link_edges(d, k - 1).lemma_filter_push(edge_of(d.id, concept_id(d.id, (k - 1) as u32), "LinksTo"@), p);
    }
}

proof fn lemma_no_keyword_tags(d: DocView, k: int)
    ensures
        tag_edges(d, k).filter(|e: EdgeView| is_keyword_edge(e)).len() == 0,
    decreases k,
{
    let p = |e: EdgeView| is_keyword_edge(e);
    if k > 0 {
        lemma_no_keyword_tags(d, k - 1);
        lemma_edge_kinds_differ();
        tag_edges(d, k - 1).lemma_filter_push(edge_of(d.id, tag_id(d.tags[k - 1]), "HasTag"@), p);
    }
}

proof fn lemma_keyword_edges_count(d: DocView, sig: Seq<Seq<char>>, k: int)
    requires
        0 <= k <= d.keywords.len(),
    ensures
        keyword_edges(d, sig, k).filter(|e: EdgeView| is_keyword_edge(e)).len() == d.keywords.take(k).filter(
            |w: Seq<char>| sig.contains(w),
        ).len(),
    decreases k,
{
    let p = |e: EdgeView| is_keyword_edge(e);
    let q = |w: Seq<char>| sig.contains(w);
    if k == 0 {
        assert(d.keywords.take(0) =~= Seq::<Seq<char>>::empty());
        assert(d.keywords.take(0).filter(q) =~= Seq::<Seq<char>>::empty());
        assert(keyword_edges(d, sig, 0).filter(p) =~= Seq::<EdgeView>::empty());
    } else {
        lemma_keyword_edges_count(d, sig, k - 1);
        let r = keyword_edges(d, sig, k - 1);
        let w = d.keywords[k - 1];
        assert(d.keywords.take(k) =~= d.keywords.take(k - 1).push(w));
        d.keywords.take(k - 1).lemma_filter_push(w, q);
        if sig.contains(w) {
            let y = edge_of(d.id, keyword_id(w), "HasKeyword"@);
            r.lemma_filter_push(y, p);
        }
    }
}

proof fn lemma_doc_keyword_edges_count(d: DocView, sig: Seq<Seq<char>>)
    ensures
        doc_edges(d, sig).filter(|e: EdgeView| is_keyword_edge(e)).len() == d.keywords.filter(
            |w: Seq<char>| sig.contains(w),
        ).len(),
{
    let p = |e: EdgeView| is_keyword_edge(e);
    let le = link_edges(d, d.wiki_links.len() as int);
    let te = tag_edges(d, d.tags.len() as int);
    let ke = keyword_edges(d, sig, d.keywords.len() as int);
    lemma_no_keyword_links(d, d.wiki_links.len() as int);
    lemma_no_keyword_tags(d, d.tags.len() as int);
    lemma_keyword_edges_count(d, sig, d.keywords.len() as int);
    assert(d.keywords.take(d.keywords.len() as int) =~= d.keywords);
    Seq::filter_distributes_over_add(le, te, p);
    Seq::filter_distributes_over_add(le + te, ke, p);
}

/// The graph has exactly one `HasKeyword` edge for each significant entry of each
/// document's keyword list.
pub proof fn lemma_keyword_edge_count(docs: Seq<DocView>, sig: Seq<Seq<char>>, n: int)
    requires
        0 <= n <= docs.len(),
    ensures
        graph_edges(docs, sig, n).filter(|e: EdgeView| e.kind == "HasKeyword"@).len()
            == significant_entries(docs, sig, n),
    decreases n,
{
    let p = |e: EdgeView| is_keyword_edge(e);
    assert((|e: EdgeView| e.kind == "HasKeyword"@) =~= p);
    if n == 0 {
        assert(graph_edges(docs, sig, 0).filter(p) =~= Seq::<EdgeView>::empty());
    } else {
        lemma_keyword_edge_count(docs, sig, n - 1);
        lemma_doc_keyword_edges_count(docs[n - 1], sig);
        Seq::filter_distributes_over_add(graph_edges(docs, sig, n - 1), doc_edges(docs[n - 1], sig), p);
    }
}

} // verus!

