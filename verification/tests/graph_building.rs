use graphodoc::graph::build_graph_from_docs;
use graphodoc::graph::count_string;
use graphodoc::graph::term_statistics;
use graphodoc::model::Doc;
use graphodoc::model::Node;
use graphodoc::node_id::NodeId;
use graphodoc::node_id::NodeKind;

fn doc(id: NodeId, title: &str, links: &[&str], tags: &[&str], keywords: &[&str]) -> Doc {
    Doc {
        id,
        path: format!("{}.md", title),
        title: title.to_string(),
        content: String::new(),
        text: String::new(),
        wiki_links: links.iter().map(|s| s.to_string()).collect(),
        tags: tags.iter().map(|s| s.to_string()).collect(),
        keywords: keywords.iter().map(|s| s.to_string()).collect(),
    }
}

fn node_with<'a>(nodes: &'a [Node], id: &NodeId) -> &'a Node {
    nodes.iter().find(|n| &n.id == id).expect("node present")
}

#[test]
fn term_statistics_lists_each_keyword_with_holder_lengths() {
    let docs = vec![
        doc(NodeId::U32(0), "a", &[], &[], &["quantum", "oracle", "quantum"]),
        doc(NodeId::U32(1), "b", &[], &[], &["oracle"]),
        doc(NodeId::U32(2), "c", &[], &[], &[]),
    ];
    let stats = term_statistics(&docs);
    assert_eq!(stats.len(), 2);
    assert_eq!(stats[0].term, "quantum");
    assert_eq!(stats[0].doc_lengths, vec![3]);
    assert_eq!(stats[0].counts, vec![2]);
    assert_eq!(stats[1].term, "oracle");
    assert_eq!(stats[1].doc_lengths, vec![3, 1]);
    assert_eq!(stats[1].counts, vec![1, 1]);
    assert!(term_statistics(&vec![]).is_empty());
}

#[test]
fn empty_corpus_gives_empty_graph() {
    let g = build_graph_from_docs(&vec![], &vec![]);
    assert!(g.nodes.is_empty());
    assert!(g.edges.is_empty());
}

#[test]
fn graph_has_document_concept_tag_and_keyword_nodes() {
    let docs = vec![
        doc(NodeId::U32(0), "Grover", &["Oracle", "Amplitude"], &["quantum"], &["search", "speedup"]),
        doc(NodeId::U32(1), "Shor", &["Oracle"], &["Quantum"], &["factoring", "search"]),
    ];
    let significant = vec!["search".to_string()];
    let g = build_graph_from_docs(&docs, &significant);

    // 2 documents, 3 concepts, 1 tag (case folded), 1 keyword
    assert_eq!(g.nodes.len(), 7);
    for (i, a) in g.nodes.iter().enumerate() {
        for b in g.nodes.iter().skip(i + 1) {
            assert_ne!(a.id, b.id);
        }
    }
    let d0 = node_with(&g.nodes, &NodeId::U32(0));
    assert_eq!(d0.kind, NodeKind::Document);
    assert_eq!(d0.name, "Grover");
    assert_eq!(d0.doc_id, Some(NodeId::U32(0)));
    assert_eq!(d0.vector_ref, Some(0));
    let c = node_with(&g.nodes, &NodeId::U64(0x1));
    assert_eq!(c.kind, NodeKind::Concept);
    assert_eq!(c.name, "Amplitude");
    assert_eq!(c.doc_id, Some(NodeId::U32(0)));
    let c2 = node_with(&g.nodes, &NodeId::U64(0x1_0000_0000));
    assert_eq!(c2.name, "Oracle");
    let t = node_with(&g.nodes, &NodeId::new_tag("quantum"));
    assert_eq!(t.kind, NodeKind::Tag);
    assert_eq!(t.name, "quantum");
    let k = node_with(&g.nodes, &NodeId::new_keyword("search"));
    assert_eq!(k.kind, NodeKind::Keyword);
    assert_eq!(k.doc_id, None);

    let kinds: Vec<&str> = g.edges.iter().map(|e| e.kind.as_str()).collect();
    assert_eq!(
        kinds,
        vec!["LinksTo", "LinksTo", "HasTag", "HasKeyword", "LinksTo", "HasTag", "HasKeyword"]
    );
    assert_eq!(g.edges[0].source, NodeId::U32(0));
    assert_eq!(g.edges[0].target, NodeId::U64(0));
    assert_eq!(g.edges[5].target, NodeId::new_tag("quantum"));
    for e in &g.edges {
        assert!(g.nodes.iter().any(|n| n.id == e.source));
        assert!(g.nodes.iter().any(|n| n.id == e.target));
    }
}

#[test]
fn later_document_with_same_id_replaces_node() {
    let docs = vec![
        doc(NodeId::U32(3), "first", &[], &[], &[]),
        doc(NodeId::U32(3), "second", &[], &[], &[]),
    ];
    let g = build_graph_from_docs(&docs, &vec![]);
    assert_eq!(g.nodes.len(), 1);
    assert_eq!(g.nodes[0].name, "second");
    assert_eq!(g.nodes[0].vector_ref, Some(1));
}

#[test]
fn concept_does_not_replace_existing_node() {
    // the concept of document 0 with index 1 is U64(1); a document with that id
    // comes first, so the concept leaves it in place
    let docs = vec![
        doc(NodeId::U64(1), "owner", &[], &[], &[]),
        doc(NodeId::U32(0), "linker", &["a", "b"], &[], &[]),
    ];
    let g = build_graph_from_docs(&docs, &vec![]);
    let n = node_with(&g.nodes, &NodeId::U64(1));
    assert_eq!(n.kind, NodeKind::Document);
    assert_eq!(n.name, "owner");
    assert_eq!(g.edges.len(), 2);
}

#[test]
fn count_string_counts_every_occurrence() {
    let v: Vec<String> = vec!["a".into(), "b".into(), "a".into(), "a".into()];
    assert_eq!(count_string(&v, &"a".to_string()), 3);
    assert_eq!(count_string(&v, &"b".to_string()), 1);
    assert_eq!(count_string(&v, &"c".to_string()), 0);
    assert_eq!(count_string(&vec![], &"a".to_string()), 0);
}
