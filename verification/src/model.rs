use vstd::prelude::*;
use crate::node_id::NodeId;
use crate::node_id::NodeIdView;
use crate::node_id::NodeKind;

verus! {

/// A relationship between two nodes: `LinksTo`, `HasTag` or `HasKeyword`.
#[derive(Debug, PartialEq, Eq)]
pub struct Edge {
    pub source: NodeId,
    pub target: NodeId,
    pub kind: String,
}

pub ghost struct EdgeView {
    pub source: NodeIdView,
    pub target: NodeIdView,
    pub kind: Seq<char>,
}

impl View for Edge {
    type V = EdgeView;

    open spec fn view(&self) -> EdgeView {
        EdgeView { source: self.source@, target: self.target@, kind: self.kind@ }
    }
}

pub open spec fn opt_id_view(o: Option<NodeId>) -> Option<NodeIdView> {
    match o {
        Some(id) => Some(id@),
        None => None,
    }
}

/// An entity of the graph.
///
/// The embedding vector of a node is kept outside the graph; `vector_ref` says
/// where: the position of the document it comes from, in the documents a graph is
/// built from, or the position of the node, in a list of nodes read back.
#[derive(Debug, PartialEq, Eq)]
pub struct Node {
    pub id: NodeId,
    pub name: String,
    pub kind: NodeKind,
    pub doc_id: Option<NodeId>,
    pub vector_ref: Option<usize>,
}

pub ghost struct NodeView {
    pub id: NodeIdView,
    pub name: Seq<char>,
    pub kind: NodeKind,
    pub doc_id: Option<NodeIdView>,
    pub vector_ref: Option<usize>,
}

impl View for Node {
    type V = NodeView;

    open spec fn view(&self) -> NodeView {
        NodeView {
            id: self.id@,
            name: self.name@,
            kind: self.kind,
            doc_id: opt_id_view(self.doc_id),
            vector_ref: self.vector_ref,
        }
    }
}

/// Nodes and edges of a graph.
#[derive(Debug, PartialEq, Eq)]
pub struct GraphData {
    pub nodes: Vec<Node>,
    pub edges: Vec<Edge>,
}

pub open spec fn nodes_view(v: Seq<Node>) -> Seq<NodeView> {
    v.map_values(|n: Node| n@)
}

pub open spec fn edges_view(v: Seq<Edge>) -> Seq<EdgeView> {
    v.map_values(|e: Edge| e@)
}

pub open spec fn ids_view(v: Seq<NodeId>) -> Seq<NodeIdView> {
    v.map_values(|n: NodeId| n@)
}

/// A Markdown document with what was extracted from it.
#[derive(Debug, PartialEq, Eq)]
pub struct Doc {
    pub id: NodeId,
    pub path: String,
    pub title: String,
    pub content: String,
    pub text: String,
    pub wiki_links: Vec<String>,
    pub tags: Vec<String>,
    pub keywords: Vec<String>,
}

pub ghost struct DocView {
    pub id: NodeIdView,
    pub path: Seq<char>,
    pub title: Seq<char>,
    pub content: Seq<char>,
    pub text: Seq<char>,
    pub wiki_links: Seq<Seq<char>>,
    pub tags: Seq<Seq<char>>,
    pub keywords: Seq<Seq<char>>,
}

impl View for Doc {
    type V = DocView;

    open spec fn view(&self) -> DocView {
        DocView {
            id: self.id@,
            path: self.path@,
            title: self.title@,
            content: self.content@,
            text: self.text@,
            wiki_links: self.wiki_links.deep_view(),
            tags: self.tags.deep_view(),
            keywords: self.keywords.deep_view(),
        }
    }
}

pub open spec fn docs_view(v: Seq<Doc>) -> Seq<DocView> {
    v.map_values(|d: Doc| d@)
}

/// The fields of a stored document that search reads.
#[derive(Debug, PartialEq, Eq)]
pub struct SearchDoc {
    pub id: NodeId,
    pub title: String,
    pub path: String,
    pub text: String,
    pub keywords: Vec<String>,
    pub tags: Vec<String>,
}

pub ghost struct SearchDocView {
    pub id: NodeIdView,
    pub title: Seq<char>,
    pub path: Seq<char>,
    pub text: Seq<char>,
    pub keywords: Seq<Seq<char>>,
    pub tags: Seq<Seq<char>>,
}

impl View for SearchDoc {
    type V = SearchDocView;

    open spec fn view(&self) -> SearchDocView {
        SearchDocView {
            id: self.id@,
            title: self.title@,
            path: self.path@,
            text: self.text@,
            keywords: self.keywords.deep_view(),
            tags: self.tags.deep_view(),
        }
    }
}

/// A document found by a search, with the start of its text.
#[derive(Debug, PartialEq, Eq)]
pub struct SearchResult {
    pub doc_id: NodeId,
    pub title: String,
    pub path: String,
    pub snippet: String,
}

pub ghost struct SearchResultView {
    pub doc_id: NodeIdView,
    pub title: Seq<char>,
    pub path: Seq<char>,
    pub snippet: Seq<char>,
}

impl View for SearchResult {
    type V = SearchResultView;

    open spec fn view(&self) -> SearchResultView {
        SearchResultView {
            doc_id: self.doc_id@,
            title: self.title@,
            path: self.path@,
            snippet: self.snippet@,
        }
    }
}

/// The command line: where the Markdown documents and the database are, and
/// what to do.
#[derive(Debug, PartialEq, Eq)]
pub struct Cli {
    pub dir: String,
    pub db: String,
    pub rebuild: bool,
    pub json_graph: bool,
    pub server: bool,
    pub port: u16,
}

impl Edge {
    pub fn duplicate(&self) -> (r: Edge)
        ensures
            r@ == self@,
    {
        Edge { source: self.source.duplicate(), target: self.target.duplicate(), kind: self.kind.clone() }
    }
}

pub fn duplicate_opt_id(o: &Option<NodeId>) -> (r: Option<NodeId>)
    ensures
        opt_id_view(r) == opt_id_view(*o),
{
    match o {
        Some(id) => Some(id.duplicate()),
        None => None,
    }
}

impl Node {
    pub fn duplicate(&self) -> (r: Node)
        ensures
            r@ == self@,
    {
        Node {
            id: self.id.duplicate(),
            name: self.name.clone(),
            kind: self.kind,
            doc_id: duplicate_opt_id(&self.doc_id),
            vector_ref: self.vector_ref,
        }
    }
}

} // verus!
