use graphodoc::local_view::line_texts;
use graphodoc::local_view::local_graph;
use graphodoc::local_view::needs_reset;
use graphodoc::local_view::TextBlock;
use graphodoc::model::Doc;
use graphodoc::model::Edge;
use graphodoc::model::Node;
use graphodoc::model::SearchDoc;
use graphodoc::node_id::NodeId;
use graphodoc::node_id::NodeKind;
use graphodoc::query::connected_nodes;
use graphodoc::query::document_content;
use graphodoc::query::search_documents;
use graphodoc::sidebar::document_index;
use graphodoc::sidebar::sidebar_entries;
use graphodoc::traverse::traverse_graph;

fn node(n: u32, name: &str, kind: NodeKind) -> Node {
    Node { id: NodeId::U32(n), name: name.to_string(), kind, doc_id: None, vector_ref: Some(n as usize) }
}

fn edge(a: u32, b: u32) -> Edge {
    Edge { source: NodeId::U32(a), target: NodeId::U32(b), kind: "LinksTo".to_string() }
}

fn ids(nodes: &[Node]) -> Vec<u32> {
    nodes.iter().map(|n| match n.id { NodeId::U32(x) => x, _ => panic!("u32 id") }).collect()
}

fn ends(edges: &[Edge]) -> Vec<(u32, u32)> {
    edges
        .iter()
        .map(|e| match (&e.source, &e.target) {
            (NodeId::U32(a), NodeId::U32(b)) => (*a, *b),
            _ => panic!("u32 ids"),
        })
        .collect()
}

fn chain() -> (Vec<Node>, Vec<Edge>) {
    let nodes = (0..6).map(|i| node(i, &format!("n{}", i), NodeKind::Document)).collect();
    // 0 - 1 - 2 - 3, 4 -> 1, 5 alone
    let edges = vec![edge(0, 1), edge(1, 2), edge(2, 3), edge(4, 1)];
    (nodes, edges)
}

#[test]
fn connected_nodes_are_ends_of_touching_edges() {
    let (nodes, edges) = chain();
    let g = connected_nodes(&nodes, &edges, &NodeId::U32(1));
    assert_eq!(ends(&g.edges), vec![(0, 1), (1, 2), (4, 1)]);
    assert_eq!(ids(&g.nodes), vec![0, 1, 2, 4]);
    let lone = connected_nodes(&nodes, &edges, &NodeId::U32(5));
    assert!(lone.edges.is_empty());
    assert!(lone.nodes.is_empty());
}

#[test]
fn traversal_reaches_nodes_within_hops() {
    let (nodes, edges) = chain();
    let g0 = traverse_graph(&nodes, &edges, &NodeId::U32(0), Some(0));
    assert_eq!(ids(&g0.nodes), vec![0]);
    assert!(g0.edges.is_empty());
    let g1 = traverse_graph(&nodes, &edges, &NodeId::U32(0), None);
    assert_eq!(ids(&g1.nodes), vec![0, 1]);
    assert_eq!(ends(&g1.edges), vec![(0, 1)]);
    let g2 = traverse_graph(&nodes, &edges, &NodeId::U32(0), Some(2));
    assert_eq!(ids(&g2.nodes), vec![0, 1, 2]);
    assert_eq!(ends(&g2.edges), vec![(0, 1), (1, 2)]);
    let g9 = traverse_graph(&nodes, &edges, &NodeId::U32(0), Some(9));
    assert_eq!(ids(&g9.nodes), vec![0, 1, 2, 3]);
    assert_eq!(ends(&g9.edges), vec![(0, 1), (1, 2), (2, 3)]);
}

#[test]
fn traversal_follows_edges_from_source_to_target() {
    let (nodes, edges) = chain();
    // 4 -> 1 is reached from 4, but 1 never leads back to 4
    let from4 = traverse_graph(&nodes, &edges, &NodeId::U32(4), Some(1));
    assert_eq!(ids(&from4.nodes), vec![1, 4]);
    assert_eq!(ends(&from4.edges), vec![(4, 1)]);
    let from1 = traverse_graph(&nodes, &edges, &NodeId::U32(1), Some(3));
    assert_eq!(ids(&from1.nodes), vec![1, 2, 3]);
    let from3 = traverse_graph(&nodes, &edges, &NodeId::U32(3), Some(2));
    assert_eq!(ids(&from3.nodes), vec![3]);
    assert!(from3.edges.is_empty());
}

#[test]
fn traversal_returns_every_edge_among_reached_nodes() {
    let nodes: Vec<Node> = (0..3).map(|i| node(i, "x", NodeKind::Tag)).collect();
    // a triangle from the start: 0 -> 1, 0 -> 2, 1 -> 2, and 2 -> 0 back
    let edges = vec![edge(0, 1), edge(1, 2), edge(0, 2), edge(2, 0)];
    let g = traverse_graph(&nodes, &edges, &NodeId::U32(0), Some(1));
    assert_eq!(ids(&g.nodes), vec![0, 1, 2]);
    assert_eq!(ends(&g.edges), vec![(0, 1), (1, 2), (0, 2), (2, 0)]);
}

fn sdoc(n: u32, title: &str, text: &str, keywords: &[&str], tags: &[&str]) -> SearchDoc {
    SearchDoc {
        id: NodeId::U32(n),
        title: title.to_string(),
        path: format!("{}.md", title),
        text: text.to_string(),
        keywords: keywords.iter().map(|s| s.to_string()).collect(),
        tags: tags.iter().map(|s| s.to_string()).collect(),
    }
}

#[test]
fn search_matches_title_text_keywords_and_tags() {
    let long = "x".repeat(300);
    let docs = vec![
        sdoc(0, "Rust Book", "about ownership", &[], &[]),
        sdoc(1, "Other", "nothing here", &["rustacean"], &[]),
        sdoc(2, "Third", &long, &[], &["RUST"]),
        sdoc(3, "Fourth", "no match", &["go"], &["c"]),
    ];
    let r = search_documents(&docs, "RUST", None);
    let titles: Vec<&str> = r.iter().map(|x| x.title.as_str()).collect();
    assert_eq!(titles, vec!["Rust Book", "Other", "Third"]);
    assert_eq!(r[0].snippet, "about ownership");
    assert_eq!(r[2].snippet.chars().count(), 200);
    assert_eq!(r[0].doc_id, NodeId::U32(0));
    assert_eq!(r[1].path, "Other.md");
    let limited = search_documents(&docs, "rust", Some(1));
    assert_eq!(limited.len(), 1);
    assert!(search_documents(&docs, "rust", Some(0)).is_empty());
    assert_eq!(search_documents(&docs, "", None).len(), 4);
}

#[test]
fn search_defaults_to_ten_results() {
    let docs: Vec<SearchDoc> = (0..15).map(|i| sdoc(i, "same", "t", &[], &[])).collect();
    assert_eq!(search_documents(&docs, "same", None).len(), 10);
}

#[test]
fn local_graph_holds_selected_node_and_neighbours() {
    let (_, edges) = chain();
    let (visible, shown) = local_graph(&edges, &NodeId::U32(1));
    assert_eq!(visible, vec![NodeId::U32(1), NodeId::U32(0), NodeId::U32(2), NodeId::U32(4)]);
    assert_eq!(ends(&shown), vec![(0, 1), (1, 2), (4, 1)]);
    let (alone, none) = local_graph(&edges, &NodeId::U32(5));
    assert_eq!(alone, vec![NodeId::U32(5)]);
    assert!(none.is_empty());
}

#[test]
fn document_index_is_sorted_by_name() {
    let nodes = vec![
        node(0, "beta", NodeKind::Document),
        node(1, "Alpha", NodeKind::Document),
        node(2, "tagged", NodeKind::Tag),
        node(3, "alpha", NodeKind::Document),
        node(0, "zeta", NodeKind::Document),
    ];
    let index = document_index(&nodes);
    let names: Vec<&str> = index.iter().map(|e| e.1.as_str()).collect();
    assert_eq!(names, vec!["Alpha", "alpha", "zeta"]);
    let shown = sidebar_entries(&index, "ALP");
    let names: Vec<&str> = shown.iter().map(|e| e.1.as_str()).collect();
    assert_eq!(names, vec!["Alpha", "alpha"]);
    assert_eq!(sidebar_entries(&index, "").len(), 3);
}

#[test]
fn line_blocks_give_their_text() {
    let blocks = vec![
        TextBlock { is_line: true, text: Some("first".to_string()) },
        TextBlock { is_line: false, text: Some("page".to_string()) },
        TextBlock { is_line: true, text: None },
    ];
    assert_eq!(line_texts(&blocks), vec!["first".to_string(), String::new()]);
}

fn stored_doc(n: u32, content: &str) -> Doc {
    Doc {
        id: NodeId::U32(n),
        path: format!("{}.md", n),
        title: format!("d{}", n),
        content: content.to_string(),
        text: String::new(),
        wiki_links: vec![],
        tags: vec![],
        keywords: vec![],
    }
}

#[test]
fn document_content_is_found_by_id() {
    let docs = vec![stored_doc(0, "# zero"), stored_doc(1, "# one"), stored_doc(1, "# later one")];
    assert_eq!(document_content(&docs, &NodeId::U32(1)), Some("# one".to_string()));
    assert_eq!(document_content(&docs, &NodeId::U32(0)), Some("# zero".to_string()));
    assert_eq!(document_content(&docs, &NodeId::U32(2)), None);
    assert_eq!(document_content(&docs, &NodeId::U64(1)), None);
}

#[test]
fn layout_resets_for_a_new_or_unplaced_selection() {
    // nothing selected, or nothing to show: no reset
    assert!(!needs_reset(false, true, false, false, false));
    assert!(!needs_reset(true, true, false, false, true));
    // selected and nothing placed yet
    assert!(needs_reset(true, true, false, true, false));
    // selected node not placed
    assert!(needs_reset(true, false, false, true, false));
    // simulation stopped by a new selection
    assert!(needs_reset(true, false, true, false, false));
    // running layout with the selected node placed
    assert!(!needs_reset(true, false, true, true, false));
}
