//! Nodes, edges and graphs, with their mathematical models.

use vstd::prelude::*;

verus! {

/// Anything in a graph that carries an identifier.
pub trait GraphObject {
    /// The identifier of the object, as a sequence of characters.
    spec fn spec_id(&self) -> Seq<char>;

    /// The identifier of the object.
    fn id(&self) -> (r: &String)
        ensures
            r@ == self.spec_id(),
    ;
}

/// Whether an edge is directed or not.
#[derive(Clone, Copy, Debug, PartialEq, Eq, Hash, Structural)]
pub enum EdgeType {
    Directed,
    Undirected,
}

/// A vertex of a graph, identified by its identifier.
#[derive(Clone, Debug, PartialEq, Eq, Hash)]
pub struct Node {
    id: String,
}

impl View for Node {
    type V = Seq<char>;

    /// A node is modelled by its identifier.
    open spec fn view(&self) -> Seq<char> {
        self.spec_id()
    }
}

impl GraphObject for Node {
    closed spec fn spec_id(&self) -> Seq<char> {
        self.id@
    }

    fn id(&self) -> (r: &String) {
        &self.id
    }
}

impl Node {
    /// A node with the given identifier.
    pub fn empty(id: &str) -> (n: Node)
        ensures
            n@ == id@,
    {
        Node { id: id.to_owned() }
    }

    /// A node with the given identifier.
    pub fn new(id: String) -> (n: Node)
        ensures
            n@ == id@,
    {
        Node { id }
    }
}

/// The mathematical model of an edge.
pub struct EdgeView {
    pub id: Seq<char>,
    pub edge_type: EdgeType,
    pub start: Seq<char>,
    pub end: Seq<char>,
}

/// An edge between two nodes.
#[derive(Clone, Debug, PartialEq, Eq, Hash)]
pub struct Edge {
    id: String,
    edge_type: EdgeType,
    start: Node,
    end: Node,
}

impl View for Edge {
    type V = EdgeView;

    open spec fn view(&self) -> EdgeView {
        EdgeView {
            id: self.spec_id(),
            edge_type: self.spec_edge_type(),
            start: self.spec_start()@,
            end: self.spec_end()@,
        }
    }
}

impl GraphObject for Edge {
    closed spec fn spec_id(&self) -> Seq<char> {
        self.id@
    }

    fn id(&self) -> (r: &String) {
        &self.id
    }
}

impl Edge {
    pub closed spec fn spec_edge_type(&self) -> EdgeType {
        self.edge_type
    }

    pub closed spec fn spec_start(&self) -> Node {
        self.start
    }

    pub closed spec fn spec_end(&self) -> Node {
        self.end
    }

    /// An edge with the given identifier and type between the nodes with the
    /// given identifiers.
    pub fn empty(id: &str, edge_type: EdgeType, start_id: &str, end_id: &str) -> (e: Edge)
        ensures
            e@ == (EdgeView { id: id@, edge_type, start: start_id@, end: end_id@ }),
    {
        Edge {
            id: id.to_owned(),
            edge_type,
            start: Node::empty(start_id),
            end: Node::empty(end_id),
        }
    }

    /// An edge with the given identifier and type between two nodes.
    pub fn new(id: String, edge_type: EdgeType, start: Node, end: Node) -> (e: Edge)
        ensures
            e@ == (EdgeView { id: id@, edge_type, start: start@, end: end@ }),
    {
        Edge { id, edge_type, start, end }
    }

    /// The start node of the edge.
    pub fn start(&self) -> (n: &Node)
        ensures
            n@ == self@.start,
    {
        &self.start
    }

    /// The end node of the edge.
    pub fn end(&self) -> (n: &Node)
        ensures
            n@ == self@.end,
    {
        &self.end
    }

    /// The type of the edge.
    pub fn edge_type(&self) -> (t: EdgeType)
        ensures
            t == self@.edge_type,
    {
        self.edge_type
    }
}

/// Whether the node is one of the two end vertices of the edge.
pub open spec fn spec_is_endvertice(e: EdgeView, nid: Seq<char>) -> bool {
    e.start == nid || e.end == nid
}

/// Tells whether `node` is the start or the end vertex of `edge`.
pub fn is_endvertice(edge: &Edge, node: &Node) -> (r: bool)
    ensures
        r == spec_is_endvertice(edge@, node@),
{
    edge.start().id().eq(node.id()) || edge.end().id().eq(node.id())
}

/// The mathematical model of a graph: its identifier, the identifiers of its
/// vertices and the models of its edges.
pub struct GraphView {
    pub id: Seq<char>,
    pub nodes: Seq<Seq<char>>,
    pub edges: Seq<EdgeView>,
}

impl GraphView {
    /// A graph holds each vertex identifier once and each edge once.
    pub open spec fn wf(self) -> bool {
        &&& self.nodes.no_duplicates()
        &&& self.edges.no_duplicates()
    }

    /// Every edge of the graph joins two vertices of the graph.
    pub open spec fn closed(self) -> bool {
        forall|i: int|
            0 <= i < self.edges.len() ==> self.nodes.contains(#[trigger] self.edges[i].start)
                && self.nodes.contains(self.edges[i].end)
    }
}

/// The sequence with every element after its first occurrence removed.
pub open spec fn dedup<A>(s: Seq<A>) -> Seq<A>
    decreases s.len(),
{
    if s.len() == 0 {
        s
    } else {
        let sub = dedup(s.drop_last());
        if sub.contains(s.last()) {
            sub
        } else {
            sub.push(s.last())
        }
    }
}

/// `dedup` keeps exactly the elements of its argument, each once.
pub proof fn lemma_dedup<A>(s: Seq<A>)
    ensures
        dedup(s).no_duplicates(),
        forall|x: A| dedup(s).contains(x) <==> s.contains(x),
    decreases s.len(),
{
    broadcast use vstd::seq_lib::group_seq_properties;

    if s.len() > 0 {
        let t = s.drop_last();
        let l = s.last();
        lemma_dedup(t);
        assert(s =~= t.push(l));
        let sub = dedup(t);
        if !sub.contains(l) {
            assert forall|i: int, j: int|
                0 <= i < j < sub.push(l).len() implies sub.push(l)[i] != sub.push(l)[j] by {
                if j == sub.len() {
                    assert(sub[i] == sub.push(l)[i]);
                }
            }
        }
    }
}

/// A graph: an identifier, a set of vertices and a set of edges.
pub struct Graph {
    id: String,
    nodes: Vec<Node>,
    edges: Vec<Edge>,
}

impl View for Graph {
    type V = GraphView;

    open spec fn view(&self) -> GraphView {
        GraphView {
            id: self.spec_id(),
            nodes: self.spec_nodes().map_values(|n: Node| n@),
            edges: self.spec_edges().map_values(|e: Edge| e@),
        }
    }
}

/// Whether some node of `nodes` has the identifier `nid`.
pub(crate) fn contains_node_id(nodes: &Vec<Node>, nid: &String) -> (r: bool)
    ensures
        r == nodes@.map_values(|n: Node| n@).contains(nid@),
{
    let ghost ids = nodes@.map_values(|n: Node| n@);
    let mut i: usize = 0;
    while i < nodes.len()
        invariant
            0 <= i <= nodes.len(),
            ids == nodes@.map_values(|n: Node| n@),
            forall|j: int| 0 <= j < i ==> ids[j] != nid@,
        decreases nodes.len() - i,
    {
        if nodes[i].id().eq(nid) {
            assert(ids[i as int] == nid@);
            return true;
        }
        i += 1;
    }
    false
}

/// Whether some edge of `edges` has the same model as `e`.
fn contains_edge(edges: &Vec<Edge>, e: &Edge) -> (r: bool)
    ensures
        r == edges@.map_values(|x: Edge| x@).contains(e@),
{
    let ghost views = edges@.map_values(|x: Edge| x@);
    let mut i: usize = 0;
    while i < edges.len()
        invariant
            0 <= i <= edges.len(),
            views == edges@.map_values(|x: Edge| x@),
            forall|j: int| 0 <= j < i ==> views[j] != e@,
        decreases edges.len() - i,
    {
        let x = &edges[i];
        if x.id().eq(e.id()) && x.edge_type() == e.edge_type() && x.start().id().eq(e.start().id())
            && x.end().id().eq(e.end().id()) {
            assert(views[i as int] == e@);
            return true;
        }
        i += 1;
    }
    false
}

impl Graph {
    /// Every graph holds each vertex identifier once and each edge once.
    #[verifier::type_invariant]
    spec fn inv(self) -> bool {
        self@.wf()
    }

    /// The identifier of the graph.
    pub closed spec fn spec_id(&self) -> Seq<char> {
        self.id@
    }

    /// The vertices of the graph.
    pub closed spec fn spec_nodes(&self) -> Seq<Node> {
        self.nodes@
    }

    /// The edges of the graph.
    pub closed spec fn spec_edges(&self) -> Seq<Edge> {
        self.edges@
    }

    /// A graph with the given identifier, vertices and edges. A vertex whose
    /// identifier came before, and an edge equal to one that came before, is
    /// not added again.
    pub fn new(id: String, nodes: Vec<Node>, edges: Vec<Edge>) -> (g: Graph)
        ensures
            g@.wf(),
            g@.id == id@,
            g@.nodes == dedup(nodes@.map_values(|n: Node| n@)),
            g@.edges == dedup(edges@.map_values(|e: Edge| e@)),
    {
        let ghost in_nodes = nodes@.map_values(|n: Node| n@);
        let ghost in_edges = edges@.map_values(|e: Edge| e@);
        let mut ns: Vec<Node> = Vec::new();
        let mut nodes = nodes;
        let mut rest: Vec<Node> = Vec::new();
        // Take the nodes in order by reversing them first.
        while nodes.len() > 0
            invariant
                rest@.len() + nodes@.len() == in_nodes.len(),
                forall|j: int| 0 <= j < nodes@.len() ==> #[trigger] nodes@[j]@ == in_nodes[j],
                forall|j: int|
                    0 <= j < rest@.len() ==> #[trigger] rest@[j]@ == in_nodes[in_nodes.len() - 1 - j],
            decreases nodes.len(),
        {
            let n = nodes.pop().unwrap();
            rest.push(n);
        }
        while rest.len() > 0
            invariant
                ns@.len() + rest@.len() >= 0,
                ns@.map_values(|n: Node| n@) == dedup(in_nodes.take(in_nodes.len() - rest@.len())),
                rest@.len() <= in_nodes.len(),
                forall|j: int|
                    0 <= j < rest@.len() ==> #[trigger] rest@[j]@ == in_nodes[in_nodes.len() - 1 - j],
            decreases rest.len(),
        {
            let ghost k: int = in_nodes.len() - rest@.len();
            let n = rest.pop().unwrap();
            assert(n@ == in_nodes[k]);
            assert(in_nodes.take(k + 1).drop_last() == in_nodes.take(k));
            if !contains_node_id(&ns, n.id()) {
                ns.push(n);
                assert(ns@.map_values(|n: Node| n@) == ns@.drop_last().map_values(|n: Node| n@).push(
                    in_nodes[k],
                ));
            }
        }
        assert(in_nodes.take(in_nodes.len() as int) == in_nodes);
        let mut es: Vec<Edge> = Vec::new();
        let mut edges = edges;
        let mut erest: Vec<Edge> = Vec::new();
        while edges.len() > 0
            invariant
                erest@.len() + edges@.len() == in_edges.len(),
                forall|j: int| 0 <= j < edges@.len() ==> #[trigger] edges@[j]@ == in_edges[j],
                forall|j: int|
                    0 <= j < erest@.len() ==> #[trigger] erest@[j]@ == in_edges[in_edges.len() - 1
                        - j],
            decreases edges.len(),
        {
            let e = edges.pop().unwrap();
            erest.push(e);
        }
        while erest.len() > 0
            invariant
                es@.map_values(|e: Edge| e@) == dedup(in_edges.take(in_edges.len() - erest@.len())),
                erest@.len() <= in_edges.len(),
                forall|j: int|
                    0 <= j < erest@.len() ==> #[trigger] erest@[j]@ == in_edges[in_edges.len() - 1
                        - j],
            decreases erest.len(),
        {
            let ghost k: int = in_edges.len() - erest@.len();
            let e = erest.pop().unwrap();
            assert(e@ == in_edges[k]);
            assert(in_edges.take(k + 1).drop_last() == in_edges.take(k));
            if !contains_edge(&es, &e) {
                es.push(e);
                assert(es@.map_values(|e: Edge| e@) == es@.drop_last().map_values(|e: Edge| e@).push(
                    in_edges[k],
                ));
            }
        }
        assert(in_edges.take(in_edges.len() as int) == in_edges);
        proof {
            lemma_dedup(in_nodes);
            lemma_dedup(in_edges);
        }
        Graph { id, nodes: ns, edges: es }
    }

    /// The vertices of the graph.
    pub fn vertices(&self) -> (r: &Vec<Node>)
        ensures
            r@ == self.spec_nodes(),
            self@.wf(),
    {
        proof {
            use_type_invariant(self);
        }
        &self.nodes
    }

    /// The edges of the graph.
    pub fn edges(&self) -> (r: &Vec<Edge>)
        ensures
            r@ == self.spec_edges(),
            self@.wf(),
    {
        proof {
            use_type_invariant(self);
        }
        &self.edges
    }

    /// The identifier of the graph.
    pub fn id(&self) -> (r: &String)
        ensures
            r@ == self@.id,
    {
        &self.id
    }
}

} // verus!
