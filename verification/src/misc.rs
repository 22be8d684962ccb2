//! Functions that take a graph among their arguments and compute a value
//! from it.

use vstd::prelude::*;

use crate::errors::{PGMRustError, PGMRustResult};

use crate::types::{
    contains_node_id, dedup, is_endvertice, spec_is_endvertice, Edge, EdgeView, Graph, GraphObject,
    GraphView, Node,
};

verus! {

// ---------------------------------------------------------------------------
// Isomorphism
// ---------------------------------------------------------------------------

/// Some edge of `edges` joins `a` and `b`, in either direction.
pub open spec fn joins(edges: Seq<EdgeView>, a: Seq<char>, b: Seq<char>) -> bool {
    exists|i: int|
        0 <= i < edges.len() && ((#[trigger] edges[i].start == a && edges[i].end == b) || (
        edges[i].start == b && edges[i].end == a))
}

/// `f` maps nodes with equal identifiers to nodes with equal identifiers:
/// it is a function of vertex identifiers.
pub open spec fn maps_by_id<F: Fn(&Node) -> Node>(f: F) -> bool {
    forall|n1: &Node, n2: &Node, r1: Node, r2: Node|
        n1@ == n2@ && #[trigger] call_ensures(f, (n1,), r1) && #[trigger] call_ensures(f, (n2,), r2)
            ==> r1@ == r2@
}

/// Some call of `f` on a node with identifier `id` has returned.
pub open spec fn has_image<F: Fn(&Node) -> Node>(f: F, id: Seq<char>) -> bool {
    exists|p: (Node, Node)| p.0@ == id && call_ensures(f, (&p.0,), p.1)
}

/// The identifier of the node that `f` maps a node with identifier `id` to,
/// as a call of `f` on such a node shows it.
pub open spec fn node_image<F: Fn(&Node) -> Node>(f: F, id: Seq<char>) -> Seq<char> {
    (choose|p: (Node, Node)| p.0@ == id && call_ensures(f, (&p.0,), p.1)).1@
}

/// The vertex map `img` is an isomorphism from `g1` to `g2`: it maps the
/// vertices of `g1` one to one onto the vertices of `g2`, maps every edge of
/// `g1` onto an edge of `g2`, and two vertices of `g1` are joined by an edge
/// exactly when their images are joined by an edge of `g2`. Edge direction
/// is ignored.
pub open spec fn isomorphism_holds(
    g1: GraphView,
    g2: GraphView,
    img: spec_fn(Seq<char>) -> Seq<char>,
) -> bool {
    &&& g1.nodes.len() == g2.nodes.len()
    &&& g1.nodes.map_values(img).no_duplicates()
    &&& g1.nodes.map_values(img).to_set() == g2.nodes.to_set()
    &&& forall|i: int|
        0 <= i < g1.edges.len() ==> joins(
            g2.edges,
            img(#[trigger] g1.edges[i].start),
            img(g1.edges[i].end),
        )
    &&& forall|i: int, j: int|
        #![trigger g1.nodes[i], g1.nodes[j]]
        0 <= i < g1.nodes.len() && 0 <= j < g1.nodes.len() ==> (joins(
            g1.edges,
            g1.nodes[i],
            g1.nodes[j],
        ) <==> joins(g2.edges, img(g1.nodes[i]), img(g1.nodes[j])))
}

/// A call of `f` shows its image of the identifier of its argument.
pub proof fn lemma_node_image<F: Fn(&Node) -> Node>(f: F, n: &Node, r: Node)
    requires
        maps_by_id(f),
        call_ensures(f, (n,), r),
    ensures
        has_image(f, n@),
        node_image(f, n@) == r@,
{
    let w = (*n, r);
    assert(w.0@ == n@ && call_ensures(f, (&w.0,), w.1));
    let p = choose|p: (Node, Node)| p.0@ == n@ && call_ensures(f, (&p.0,), p.1);
    assert(call_ensures(f, (&p.0,), p.1));
}

/// Whether no two nodes of `nodes` have the same identifier.
fn node_ids_distinct(nodes: &Vec<Node>) -> (r: bool)
    ensures
        r == nodes@.map_values(|n: Node| n@).no_duplicates(),
{
    let ghost ids = nodes@.map_values(|n: Node| n@);
    let mut i: usize = 0;
    while i < nodes.len()
        invariant
            0 <= i <= nodes.len(),
            ids == nodes@.map_values(|n: Node| n@),
            forall|a: int, b: int| 0 <= a < b < ids.len() && a < i ==> ids[a] != ids[b],
        decreases nodes.len() - i,
    {
        let mut j: usize = i + 1;
        while j < nodes.len()
            invariant
                0 <= i < nodes.len(),
                i + 1 <= j <= nodes.len(),
                ids == nodes@.map_values(|n: Node| n@),
                forall|a: int, b: int| 0 <= a < b < ids.len() && a < i ==> ids[a] != ids[b],
                forall|b: int| i < b < j ==> ids[i as int] != ids[b],
            decreases nodes.len() - j,
        {
            if nodes[i].id().eq(nodes[j].id()) {
                assert(ids[i as int] == ids[j as int]);
                return false;
            }
            j += 1;
        }
        i += 1;
    }
    true
}

/// Whether some edge of `edges` joins `a` and `b`, in either direction.
fn has_edge_pair(edges: &Vec<Edge>, a: &String, b: &String) -> (r: bool)
    ensures
        r == joins(edges@.map_values(|e: Edge| e@), a@, b@),
{
    let ghost ev = edges@.map_values(|e: Edge| e@);
    let mut i: usize = 0;
    while i < edges.len()
        invariant
            0 <= i <= edges.len(),
            ev == edges@.map_values(|e: Edge| e@),
            forall|k: int|
                0 <= k < i ==> !((#[trigger] ev[k].start == a@ && ev[k].end == b@) || (ev[k].start
                    == b@ && ev[k].end == a@)),
        decreases edges.len() - i,
    {
        let s = edges[i].start().id();
        let t = edges[i].end().id();
        if (s.eq(a) && t.eq(b)) || (s.eq(b) && t.eq(a)) {
            assert(ev[i as int].start == s@);
            return true;
        }
        i += 1;
    }
    false
}

/// Checks whether the vertex map `f` is an isomorphism from `g1` to `g2`:
/// `f` maps the vertices of `g1` one to one onto the vertices of `g2`, maps
/// every edge of `g1` onto an edge of `g2`, and preserves adjacency and
/// non-adjacency of the vertices of `g1`. Edge direction is ignored. `f` is
/// a map of vertices: nodes with the same identifier go to nodes with the
/// same identifier. When both graphs have as many vertices, `f` is applied
/// to every vertex and to both ends of every edge of `g1`.
#[verifier::loop_isolation(false)]
pub fn check_isomorphism<F: Fn(&Node) -> Node>(g1: &Graph, g2: &Graph, f: F) -> (r: bool)
    requires
        forall|n: &Node| call_requires(f, (n,)),
        maps_by_id(f),
    ensures
        r == isomorphism_holds(g1@, g2@, |id: Seq<char>| node_image(f, id)),
        g1@.nodes.len() == g2@.nodes.len() ==> {
            &&& forall|i: int| 0 <= i < g1@.nodes.len() ==> has_image(f, #[trigger] g1@.nodes[i])
            &&& forall|i: int|
                0 <= i < g1@.edges.len() ==> has_image(f, (#[trigger] g1@.edges[i]).start)
                    && has_image(f, g1@.edges[i].end)
        },
{
    let ghost img = |id: Seq<char>| node_image(f, id);
    let v1 = g1.vertices();
    let v2 = g2.vertices();
    let e1 = g1.edges();
    let e2 = g2.edges();
    if v1.len() != v2.len() {
        return false;
    }
    // The images of the vertices of g1.
    let mut mapped: Vec<Node> = Vec::new();
    let mut i: usize = 0;
    while i < v1.len()
        invariant
            0 <= i <= v1.len(),
            mapped@.len() == i,
            forall|j: int| 0 <= j < i ==> #[trigger] mapped@[j]@ == img(g1@.nodes[j]),
            forall|j: int| 0 <= j < i ==> has_image(f, #[trigger] g1@.nodes[j]),
        decreases v1.len() - i,
    {
        let m = f(&v1[i]);
        proof {
            lemma_node_image(f, &v1@[i as int], m);
        }
        mapped.push(m);
        i += 1;
    }
    // The images of the ends of the edges of g1.
    let mut ends: Vec<(Node, Node)> = Vec::new();
    let mut i: usize = 0;
    while i < e1.len()
        invariant
            0 <= i <= e1.len(),
            ends@.len() == i,
            forall|j: int|
                0 <= j < i ==> (#[trigger] ends@[j]).0@ == img(g1@.edges[j].start) && ends@[j].1@
                    == img(g1@.edges[j].end),
            forall|j: int|
                0 <= j < i ==> has_image(f, (#[trigger] g1@.edges[j]).start) && has_image(
                    f,
                    g1@.edges[j].end,
                ),
        decreases e1.len() - i,
    {
        let s = e1[i].start();
        let t = e1[i].end();
        let fs = f(s);
        let ft = f(t);
        proof {
            lemma_node_image(f, s, fs);
            lemma_node_image(f, t, ft);
        }
        ends.push((fs, ft));
        i += 1;
    }
    let ghost mids = mapped@.map_values(|n: Node| n@);
    assert(mids =~= g1@.nodes.map_values(img));
    // Injectivity.
    if !node_ids_distinct(&mapped) {
        return false;
    }
    // The image is the vertex set of g2.
    let ghost ids2 = g2@.nodes;
    let mut i: usize = 0;
    while i < mapped.len()
        invariant
            0 <= i <= mapped.len(),
            forall|j: int| 0 <= j < i ==> ids2.contains(#[trigger] mids[j]),
        decreases mapped.len() - i,
    {
        if !contains_node_id(v2, mapped[i].id()) {
            assert(mids.to_set().contains(mids[i as int]));
            assert(!ids2.to_set().contains(mids[i as int]));
            return false;
        }
        i += 1;
    }
    let mut i: usize = 0;
    while i < v2.len()
        invariant
            0 <= i <= v2.len(),
            forall|j: int| 0 <= j < i ==> mids.contains(#[trigger] ids2[j]),
        decreases v2.len() - i,
    {
        if !contains_node_id(&mapped, v2[i].id()) {
            assert(ids2.to_set().contains(ids2[i as int]));
            assert(!mids.to_set().contains(ids2[i as int]));
            return false;
        }
        i += 1;
    }
    assert(mids.to_set() =~= ids2.to_set()) by {
        assert forall|x: Seq<char>| mids.contains(x) implies ids2.contains(x) by {
            let k = choose|k: int| 0 <= k < mids.len() && mids[k] == x;
        }
        assert forall|x: Seq<char>| ids2.contains(x) implies mids.contains(x) by {
            let k = choose|k: int| 0 <= k < ids2.len() && ids2[k] == x;
        }
    }
    // Every edge of g1 is mapped onto an edge of g2.
    let mut i: usize = 0;
    while i < e1.len()
        invariant
            0 <= i <= e1.len(),
            forall|j: int|
                0 <= j < i ==> joins(
                    g2@.edges,
                    img(#[trigger] g1@.edges[j].start),
                    img(g1@.edges[j].end),
                ),
        decreases e1.len() - i,
    {
        if !has_edge_pair(e2, ends[i].0.id(), ends[i].1.id()) {
            assert(!joins(g2@.edges, img(g1@.edges[i as int].start), img(g1@.edges[i as int].end)));
            return false;
        }
        i += 1;
    }
    // Two vertices of g1 are joined exactly when their images are.
    let mut i: usize = 0;
    while i < v1.len()
        invariant
            0 <= i <= v1.len(),
            forall|a: int, b: int|
                #![trigger g1@.nodes[a], g1@.nodes[b]]
                0 <= a < i && 0 <= b < v1.len() ==> (joins(g1@.edges, g1@.nodes[a], g1@.nodes[b])
                    <==> joins(g2@.edges, img(g1@.nodes[a]), img(g1@.nodes[b]))),
        decreases v1.len() - i,
    {
        let mut j: usize = 0;
        while j < v1.len()
            invariant
                0 <= i < v1.len(),
                0 <= j <= v1.len(),
                forall|a: int, b: int|
                    #![trigger g1@.nodes[a], g1@.nodes[b]]
                    0 <= a < i && 0 <= b < v1.len() ==> (joins(g1@.edges, g1@.nodes[a], g1@.nodes[b])
                        <==> joins(g2@.edges, img(g1@.nodes[a]), img(g1@.nodes[b]))),
                forall|b: int|
                    0 <= b < j ==> (joins(g1@.edges, g1@.nodes[i as int], #[trigger] g1@.nodes[b])
                        <==> joins(g2@.edges, img(g1@.nodes[i as int]), img(g1@.nodes[b]))),
            decreases v1.len() - j,
        {
            let joined1 = has_edge_pair(e1, v1[i].id(), v1[j].id());
            let joined2 = has_edge_pair(e2, mapped[i].id(), mapped[j].id());
            proof {
                assert(v1@[i as int]@ == g1@.nodes[i as int]);
                assert(v1@[j as int]@ == g1@.nodes[j as int]);
                assert(mapped@[i as int]@ == img(g1@.nodes[i as int]));
                assert(mapped@[j as int]@ == img(g1@.nodes[j as int]));
            }
            if joined1 != joined2 {
                return false;
            }
            j += 1;
        }
        i += 1;
    }
    true
}

// ---------------------------------------------------------------------------
// Subgraph induced by a set of vertices
// ---------------------------------------------------------------------------

/// The identifiers of the nodes `ns`.
pub open spec fn node_ids(ns: Seq<&Node>) -> Seq<Seq<char>> {
    ns.map_values(|n: &Node| n@)
}

/// The default edge policy: both end vertices of the edge are among `vs`.
pub open spec fn both_ends_in(e: EdgeView, vs: Seq<Seq<char>>) -> bool {
    vs.contains(e.start) && vs.contains(e.end)
}

/// The elements of `s` at the positions where `keep` holds, in order.
pub open spec fn keep_where<A>(s: Seq<A>, keep: Seq<bool>) -> Seq<A>
    decreases s.len(),
{
    if s.len() == 0 {
        s
    } else {
        let sub = keep_where(s.drop_last(), keep.take(s.len() - 1));
        if keep[s.len() - 1] {
            sub.push(s.last())
        } else {
            sub
        }
    }
}

/// Whether some node of `vs` has the identifier `nid`.
fn contains_ref_id(vs: &Vec<&Node>, nid: &String) -> (r: bool)
    ensures
        r == node_ids(vs@).contains(nid@),
{
    let ghost ids = node_ids(vs@);
    let mut i: usize = 0;
    while i < vs.len()
        invariant
            0 <= i <= vs.len(),
            ids == node_ids(vs@),
            forall|j: int| 0 <= j < i ==> ids[j] != nid@,
        decreases vs.len() - i,
    {
        if vs[i].id().eq(nid) {
            assert(ids[i as int] == nid@);
            return true;
        }
        i += 1;
    }
    false
}

/// The default edge policy: whether both end vertices of `e` are among `vs`.
pub fn default_edge_policy(e: &Edge, vs: &Vec<&Node>) -> (r: bool)
    ensures
        r == both_ends_in(e@, node_ids(vs@)),
{
    contains_ref_id(vs, e.start().id()) && contains_ref_id(vs, e.end().id())
}

/// The subgraph of `g` induced by the vertices `ns`: the vertices of `g`
/// whose identifier is that of a node of `ns`, and the edges of `g` that
/// `edge_policy` accepts. Without a policy, an edge is kept when both its end
/// vertices are among `ns`. Vertices and edges come in the order of `g`.
#[verifier::loop_isolation(false)]
pub fn get_subgraph_by_vertices<'a, 'b, F>(
    g: &'a Graph,
    ns: Vec<&'b Node>,
    edge_policy: Option<F>,
) -> (r: (Vec<&'a Node>, Vec<&'a Edge>)) where F: Fn(&Edge, &Vec<&'b Node>) -> bool
    requires
        edge_policy matches Some(p) ==> forall|e: &Edge, vs: &Vec<&'b Node>|
            call_requires(p, (e, vs)),
    ensures
        r.0@.map_values(|n: &Node| n@) == g@.nodes.filter(
            |id: Seq<char>| node_ids(ns@).contains(id),
        ),
        edge_policy is None ==> r.1@.map_values(|e: &Edge| e@) == g@.edges.filter(
            |e: EdgeView| both_ends_in(e, node_ids(ns@)),
        ),
        edge_policy matches Some(p) ==> exists|keep: Seq<bool>|
            {
                &&& keep.len() == g@.edges.len()
                &&& forall|j: int|
                    0 <= j < keep.len() ==> call_ensures(
                        p,
                        (&g.spec_edges()[j], &ns),
                        #[trigger] keep[j],
                    )
                &&& r.1@.map_values(|e: &Edge| e@) == keep_where(g@.edges, keep)
            },
{
    let ghost ids = node_ids(ns@);
    let ghost in_ns = |id: Seq<char>| ids.contains(id);
    let ghost by_ends = |e: EdgeView| both_ends_in(e, ids);
    let es = g.edges();
    let ghost ev = g@.edges;
    let mut eset: Vec<&'a Edge> = Vec::new();
    let ghost mut keep: Seq<bool> = Seq::empty();
    let mut i: usize = 0;
    while i < es.len()
        invariant
            0 <= i <= es.len(),
            es@ == g.spec_edges(),
            ev == g@.edges,
            keep.len() == i,
            eset@.map_values(|e: &Edge| e@) == keep_where(ev.take(i as int), keep),
            edge_policy is None ==> eset@.map_values(|e: &Edge| e@) == ev.take(i as int).filter(
                by_ends,
            ),
            edge_policy matches Some(p) ==> forall|j: int|
                0 <= j < i ==> call_ensures(p, (&g.spec_edges()[j], &ns), #[trigger] keep[j]),
        decreases es.len() - i,
    {
        let e: &'a Edge = &es[i];
        let b = match &edge_policy {
            Some(p) => p(e, &ns),
            None => default_edge_policy(e, &ns),
        };
        let ghost before = eset@;
        if b {
            eset.push(e);
        }
        proof {
            let old_keep = keep;
            keep = keep.push(b);
            let t = ev.take(i + 1);
            assert(t.drop_last() == ev.take(i as int));
            assert(keep.take(i as int) == old_keep);
            assert(t.last() == e@);
            reveal_with_fuel(Seq::filter, 1);
            assert(eset@.map_values(|e: &Edge| e@) == if b {
                before.map_values(|e: &Edge| e@).push(e@)
            } else {
                before.map_values(|e: &Edge| e@)
            });
        }
        i += 1;
    }
    assert(ev.take(es.len() as int) == ev);
    let vs = g.vertices();
    let ghost nv = g@.nodes;
    let mut nset: Vec<&'a Node> = Vec::new();
    let mut i: usize = 0;
    while i < vs.len()
        invariant
            0 <= i <= vs.len(),
            vs@ == g.spec_nodes(),
            nv == g@.nodes,
            nset@.map_values(|n: &Node| n@) == nv.take(i as int).filter(in_ns),
        decreases vs.len() - i,
    {
        let n: &'a Node = &vs[i];
        let ghost before = nset@;
        if contains_ref_id(&ns, n.id()) {
            nset.push(n);
        }
        proof {
            assert(nv.take(i + 1).drop_last() == nv.take(i as int));
            reveal_with_fuel(Seq::filter, 1);
            assert(nset@.map_values(|n: &Node| n@) == if in_ns(n@) {
                before.map_values(|n: &Node| n@).push(n@)
            } else {
                before.map_values(|n: &Node| n@)
            });
        }
        i += 1;
    }
    assert(nv.take(vs.len() as int) == nv);
    (nset, eset)
}

// ---------------------------------------------------------------------------
// Adjacency matrix
// ---------------------------------------------------------------------------

/// The adjacency matrix of `g`, keyed by pairs of vertex identifiers. Its
/// keys are both orientations of every edge and every ordered pair of
/// vertices; a key maps to whether some edge joins its two vertices, in
/// either direction.
pub open spec fn adjacency_matrix(g: GraphView) -> Map<(Seq<char>, Seq<char>), bool> {
    Map::new(
        |k: (Seq<char>, Seq<char>)| joins(g.edges, k.0, k.1) || (g.nodes.contains(k.0) && g.nodes.contains(k.1)),
        |k: (Seq<char>, Seq<char>)| joins(g.edges, k.0, k.1),
    )
}

/// `entries` lists the map `m`: each key of `m` once, with its value.
pub open spec fn lists_map(
    entries: Seq<(Seq<char>, Seq<char>, bool)>,
    m: Map<(Seq<char>, Seq<char>), bool>,
) -> bool {
    &&& forall|i: int, j: int|
        0 <= i < j < entries.len() ==> (#[trigger] entries[i].0, entries[i].1) != (
        #[trigger] entries[j].0, entries[j].1)
    &&& forall|i: int|
        0 <= i < entries.len() ==> m.contains_key((#[trigger] entries[i].0, entries[i].1)) && m[(
        entries[i].0, entries[i].1)] == entries[i].2
    &&& forall|k: (Seq<char>, Seq<char>)|
        #[trigger] m.contains_key(k) ==> exists|i: int|
            0 <= i < entries.len() && (#[trigger] entries[i].0, entries[i].1) == k
}

/// Some entry of `m` has the key `(a, b)`.
pub open spec fn has_key_spec(m: Seq<(String, String, bool)>, a: Seq<char>, b: Seq<char>) -> bool {
    exists|p: int| 0 <= p < m.len() && #[trigger] m[p].0@ == a && m[p].1@ == b
}

/// Whether some entry of `m` has the key `(a, b)`.
fn has_key(m: &Vec<(String, String, bool)>, a: &String, b: &String) -> (r: bool)
    ensures
        r == has_key_spec(m@, a@, b@),
{
    let mut i: usize = 0;
    while i < m.len()
        invariant
            0 <= i <= m.len(),
            forall|j: int| 0 <= j < i ==> !(#[trigger] m@[j].0@ == a@ && m@[j].1@ == b@),
        decreases m.len() - i,
    {
        if m[i].0.eq(a) && m[i].1.eq(b) {
            assert(m@[i as int].0@ == a@ && m@[i as int].1@ == b@);
            return true;
        }
        i += 1;
    }
    false
}

/// Adds the entry `(a, b) -> v` to `m` unless `m` has the key `(a, b)`.
fn insert_if_absent(m: &mut Vec<(String, String, bool)>, a: &String, b: &String, v: bool)
    ensures
        has_key_spec(old(m)@, a@, b@) ==> final(m)@ == old(m)@,
        !has_key_spec(old(m)@, a@, b@) ==> {
            &&& final(m)@.len() == old(m)@.len() + 1
            &&& final(m)@.drop_last() == old(m)@
            &&& final(m)@.last().0@ == a@
            &&& final(m)@.last().1@ == b@
            &&& final(m)@.last().2 == v
        },
{
    if !has_key(m, a, b) {
        m.push((a.clone(), b.clone(), v));
        assert(m@.drop_last() == old(m)@);
    }
}

/// The keys that the adjacency matrix holds once the first `st.0` edges,
/// the first orientation of edge `st.0` when `st.1`, the rows of the first
/// `st.2` vertices and the first `st.3` entries of row `st.2` are done.
spec fn stage_key(g: GraphView, st: (int, bool, int, int), a: Seq<char>, b: Seq<char>) -> bool {
    ||| joins(g.edges.take(st.0), a, b)
    ||| (st.1 && a == g.edges[st.0].start && b == g.edges[st.0].end)
    ||| (g.nodes.take(st.2).contains(a) && g.nodes.contains(b))
    ||| (0 <= st.2 < g.nodes.len() && a == g.nodes[st.2] && g.nodes.take(st.3).contains(b))
}

/// `m` lists, each once, the keys of stage `st`, each with its final value.
spec fn stage_entries(m: Seq<(String, String, bool)>, g: GraphView, st: (int, bool, int, int)) -> bool {
    &&& forall|p: int, q: int|
        0 <= p < q < m.len() ==> (#[trigger] m[p].0@, m[p].1@) != (#[trigger] m[q].0@, m[q].1@)
    &&& forall|p: int|
        0 <= p < m.len() ==> stage_key(g, st, (#[trigger] m[p]).0@, m[p].1@) && m[p].2 == joins(
            g.edges,
            m[p].0@,
            m[p].1@,
        )
    &&& forall|a: Seq<char>, b: Seq<char>|
        #[trigger] stage_key(g, st, a, b) ==> has_key_spec(m, a, b)
}

/// Inserting a key that the next stage adds, with its final value, keeps
/// the entries exact.
proof fn lemma_stage_insert(
    m0: Seq<(String, String, bool)>,
    m: Seq<(String, String, bool)>,
    g: GraphView,
    st1: (int, bool, int, int),
    st2: (int, bool, int, int),
    a: Seq<char>,
    b: Seq<char>,
    v: bool,
)
    requires
        stage_entries(m0, g, st1),
        stage_key(g, st1, a, b) || v == joins(g.edges, a, b),
        forall|x: Seq<char>, y: Seq<char>|
            #[trigger] stage_key(g, st2, x, y) <==> (stage_key(g, st1, x, y) || (x == a && y == b)),
        has_key_spec(m0, a, b) ==> m == m0,
        !has_key_spec(m0, a, b) ==> {
            &&& m.len() == m0.len() + 1
            &&& m.drop_last() == m0
            &&& m.last().0@ == a
            &&& m.last().1@ == b
            &&& m.last().2 == v
        },
    ensures
        stage_entries(m, g, st2),
{
    if !has_key_spec(m0, a, b) {
        assert forall|p: int| 0 <= p < m0.len() implies #[trigger] m[p] == m0[p] by {
            assert(m.drop_last()[p] == m[p]);
        }
        assert forall|p: int, q: int| 0 <= p < q < m.len() implies (#[trigger] m[p].0@, m[p].1@) != (
        #[trigger] m[q].0@, m[q].1@) by {
            if q == m0.len() {
                assert(m[p] == m0[p]);
                if m[p].0@ == a && m[p].1@ == b {
                    assert(has_key_spec(m0, a, b));
                }
            } else {
                assert(m[p] == m0[p]);
                assert(m[q] == m0[q]);
            }
        }
        assert forall|p: int| 0 <= p < m.len() implies stage_key(g, st2, (#[trigger] m[p]).0@, m[p].1@)
            && m[p].2 == joins(g.edges, m[p].0@, m[p].1@) by {
            if p < m0.len() {
                assert(m[p] == m0[p]);
                assert(stage_key(g, st1, m0[p].0@, m0[p].1@));
            } else {
                assert(m[p] == m.last());
                assert(stage_key(g, st2, a, b));
            }
        }
        assert forall|x: Seq<char>, y: Seq<char>| #[trigger] stage_key(g, st2, x, y) implies has_key_spec(m, x, y) by {
            if stage_key(g, st1, x, y) {
                let p = choose|p: int| 0 <= p < m0.len() && #[trigger] m0[p].0@ == x && m0[p].1@ == y;
                assert(m[p] == m0[p]);
            } else {
                let p = m0.len() as int;
                assert(m[p] == m.last());
            }
        }
    } else {
        assert forall|p: int| 0 <= p < m.len() implies stage_key(g, st2, (#[trigger] m[p]).0@, m[p].1@)
            && m[p].2 == joins(g.edges, m[p].0@, m[p].1@) by {
            assert(stage_key(g, st1, m0[p].0@, m0[p].1@));
        }
        assert forall|x: Seq<char>, y: Seq<char>| #[trigger] stage_key(g, st2, x, y) implies has_key_spec(m, x, y) by {
            if stage_key(g, st1, x, y) {
            }
        }
    }
}

/// Two stages with the same keys have the same exact entries.
proof fn lemma_stage_same(
    m: Seq<(String, String, bool)>,
    g: GraphView,
    st1: (int, bool, int, int),
    st2: (int, bool, int, int),
)
    requires
        stage_entries(m, g, st1),
        forall|x: Seq<char>, y: Seq<char>|
            #[trigger] stage_key(g, st2, x, y) <==> stage_key(g, st1, x, y),
    ensures
        stage_entries(m, g, st2),
{
    assert forall|p: int| 0 <= p < m.len() implies stage_key(g, st2, (#[trigger] m[p]).0@, m[p].1@)
        && m[p].2 == joins(g.edges, m[p].0@, m[p].1@) by {
        assert(stage_key(g, st1, m[p].0@, m[p].1@));
    }
    assert forall|x: Seq<char>, y: Seq<char>| #[trigger] stage_key(g, st2, x, y) implies has_key_spec(m, x, y) by {
        assert(stage_key(g, st1, x, y));
    }
}

/// The pairs joined by the first `k + 1` edges are those joined by the
/// first `k` edges and the two orientations of edge `k`.
proof fn lemma_joins_take_succ(edges: Seq<EdgeView>, k: int)
    requires
        0 <= k < edges.len(),
    ensures
        forall|x: Seq<char>, y: Seq<char>|
            #[trigger] joins(edges.take(k + 1), x, y) <==> (joins(edges.take(k), x, y) || (x
                == edges[k].start && y == edges[k].end) || (x == edges[k].end && y == edges[k].start)),
{
    let cur = edges.take(k + 1);
    let prev = edges.take(k);
    assert forall|x: Seq<char>, y: Seq<char>|
        #[trigger] joins(cur, x, y) <==> (joins(prev, x, y) || (x == edges[k].start && y
            == edges[k].end) || (x == edges[k].end && y == edges[k].start)) by {
        if joins(prev, x, y) {
            let q = choose|q: int|
                0 <= q < prev.len() && ((#[trigger] prev[q].start == x && prev[q].end == y) || (
                prev[q].start == y && prev[q].end == x));
            assert(cur[q] == prev[q]);
        }
        if joins(cur, x, y) {
            let q = choose|q: int|
                0 <= q < cur.len() && ((#[trigger] cur[q].start == x && cur[q].end == y) || (
                cur[q].start == y && cur[q].end == x));
            if q < k {
                assert(prev[q] == cur[q]);
            }
        }
        assert(cur[k] == edges[k]);
    }
}

/// The entries of the last stage list the adjacency matrix.
proof fn lemma_stage_final(m: Seq<(String, String, bool)>, g: GraphView)
    requires
        stage_entries(m, g, (g.edges.len() as int, false, g.nodes.len() as int, 0)),
    ensures
        lists_map(m.map_values(|t: (String, String, bool)| (t.0@, t.1@, t.2)), adjacency_matrix(g)),
{
    let st = (g.edges.len() as int, false, g.nodes.len() as int, 0);
    let dv = m.map_values(|t: (String, String, bool)| (t.0@, t.1@, t.2));
    let mat = adjacency_matrix(g);
    assert(g.edges.take(g.edges.len() as int) == g.edges);
    assert(g.nodes.take(g.nodes.len() as int) == g.nodes);
    assert forall|x: Seq<char>, y: Seq<char>|
        #[trigger] stage_key(g, st, x, y) <==> mat.contains_key((x, y)) by {}
    assert forall|i: int, j: int|
        0 <= i < j < dv.len() implies (#[trigger] dv[i].0, dv[i].1) != (#[trigger] dv[j].0, dv[j].1) by {
        assert((m[i].0@, m[i].1@) != (m[j].0@, m[j].1@));
    }
    assert forall|i: int|
        0 <= i < dv.len() implies mat.contains_key((#[trigger] dv[i].0, dv[i].1)) && mat[(dv[i].0, dv[i].1)]
            == dv[i].2 by {
        assert(stage_key(g, st, m[i].0@, m[i].1@));
    }
    assert forall|k: (Seq<char>, Seq<char>)| #[trigger] mat.contains_key(k) implies exists|i: int|
        0 <= i < dv.len() && (#[trigger] dv[i].0, dv[i].1) == k by {
        assert(stage_key(g, st, k.0, k.1));
        let p = choose|p: int| 0 <= p < m.len() && #[trigger] m[p].0@ == k.0 && m[p].1@ == k.1;
        assert((dv[p].0, dv[p].1) == k);
    }
}

/// The adjacency matrix of `g`: for every edge, both orientations of its
/// pair of end vertices map to `true`; every other ordered pair of vertices
/// maps to `false`. Edge direction is ignored. Each key is listed once.
#[verifier::loop_isolation(false)]
pub fn to_adjmat(g: &Graph) -> (r: Vec<(String, String, bool)>)
    ensures
        lists_map(r@.map_values(|t: (String, String, bool)| (t.0@, t.1@, t.2)), adjacency_matrix(g@)),
{
    let es = g.edges();
    let ghost ev = g@.edges;
    let ghost nv = g@.nodes;
    let mut m: Vec<(String, String, bool)> = Vec::new();
    let mut i: usize = 0;
    while i < es.len()
        invariant
            0 <= i <= es.len(),
            es@ == g.spec_edges(),
            ev == g@.edges,
            nv == g@.nodes,
            stage_entries(m@, g@, (i as int, false, 0, 0)),
        decreases es.len() - i,
    {
        let s = es[i].start().id();
        let t = es[i].end().id();
        let ghost m0 = m@;
        proof {
            assert(ev[i as int].start == s@ && ev[i as int].end == t@);
            lemma_joins_take_succ(ev, i as int);
            assert(joins(ev, s@, t@)) by {
                assert(ev[i as int].start == s@);
            }
            assert(joins(ev, t@, s@)) by {
                assert(ev[i as int].start == s@);
            }
        }
        insert_if_absent(&mut m, s, t, true);
        proof {
            lemma_stage_insert(m0, m@, g@, (i as int, false, 0, 0), (i as int, true, 0, 0), s@, t@, true);
        }
        let ghost m1 = m@;
        insert_if_absent(&mut m, t, s, true);
        proof {
            lemma_stage_insert(m1, m@, g@, (i as int, true, 0, 0), (i + 1, false, 0, 0), t@, s@, true);
        }
        i += 1;
    }
    let vs = g.vertices();
    let mut i: usize = 0;
    while i < vs.len()
        invariant
            0 <= i <= vs.len(),
            vs@ == g.spec_nodes(),
            ev == g@.edges,
            nv == g@.nodes,
            stage_entries(m@, g@, (ev.len() as int, false, i as int, 0)),
        decreases vs.len() - i,
    {
        let a = vs[i].id();
        let mut j: usize = 0;
        while j < vs.len()
            invariant
                0 <= i < vs.len(),
                0 <= j <= vs.len(),
                a@ == nv[i as int],
                stage_entries(m@, g@, (ev.len() as int, false, i as int, j as int)),
            decreases vs.len() - j,
        {
            let b = vs[j].id();
            let ghost m0 = m@;
            proof {
                assert(b@ == nv[j as int]);
                assert(nv.take(j + 1) == nv.take(j as int).push(b@));
                assert(nv.contains(b@)) by {
                    assert(nv[j as int] == b@);
                }
                assert forall|x: Seq<char>, y: Seq<char>|
                    #[trigger] stage_key(g@, (ev.len() as int, false, i as int, j + 1), x, y) <==> (
                    stage_key(g@, (ev.len() as int, false, i as int, j as int), x, y) || (x == a@
                        && y == b@)) by {
                    broadcast use vstd::seq_lib::group_seq_properties;
                }
            }
            insert_if_absent(&mut m, a, b, false);
            proof {
                assert(ev.take(ev.len() as int) == ev);
                lemma_stage_insert(
                    m0,
                    m@,
                    g@,
                    (ev.len() as int, false, i as int, j as int),
                    (ev.len() as int, false, i as int, j + 1),
                    a@,
                    b@,
                    false,
                );
            }
            j += 1;
        }
        proof {
            assert(nv.take(nv.len() as int) == nv);
            assert(nv.take(i + 1) == nv.take(i as int).push(a@));
            assert forall|x: Seq<char>, y: Seq<char>|
                #[trigger] stage_key(g@, (ev.len() as int, false, i + 1, 0), x, y) <==> stage_key(
                    g@,
                    (ev.len() as int, false, i as int, nv.len() as int),
                    x,
                    y,
                ) by {
                broadcast use vstd::seq_lib::group_seq_properties;
            }
            lemma_stage_same(
                m@,
                g@,
                (ev.len() as int, false, i as int, nv.len() as int),
                (ev.len() as int, false, i + 1, 0),
            );
        }
        i += 1;
    }
    proof {
        lemma_stage_final(m@, g@);
    }
    m
}

// ---------------------------------------------------------------------------
// Adjacency list
// ---------------------------------------------------------------------------

/// The identifiers of the edges of `edges` that have `nid` as an end vertex,
/// each once, in the order of their first occurrence.
pub open spec fn incident_edge_ids(edges: Seq<EdgeView>, nid: Seq<char>) -> Seq<Seq<char>> {
    dedup(edges.filter(|e: EdgeView| spec_is_endvertice(e, nid)).map_values(|e: EdgeView| e.id))
}

/// The adjacency list of `g`: for each vertex, in order, its identifier with
/// the identifiers of its incident edges, or `None` when it has none.
pub open spec fn adjacency_list(g: GraphView) -> Seq<(Seq<char>, Option<Seq<Seq<char>>>)> {
    g.nodes.map_values(
        |nid: Seq<char>|
            {
                let ids = incident_edge_ids(g.edges, nid);
                (nid, if ids.len() == 0 {
                    None
                } else {
                    Some(ids)
                })
            },
    )
}

/// Whether `v` holds a string equal to `x`.
fn contains_string(v: &Vec<String>, x: &String) -> (r: bool)
    ensures
        r == v.deep_view().contains(x@),
{
    let ghost dv = v.deep_view();
    let mut i: usize = 0;
    while i < v.len()
        invariant
            0 <= i <= v.len(),
            dv == v.deep_view(),
            forall|j: int| 0 <= j < i ==> dv[j] != x@,
        decreases v.len() - i,
    {
        if v[i].eq(x) {
            assert(dv[i as int] == x@);
            return true;
        }
        i += 1;
    }
    false
}

/// The identifiers of the edges of `es` incident to `node`, each once.
fn incident_edges(es: &Vec<Edge>, node: &Node) -> (r: Vec<String>)
    ensures
        r.deep_view() == incident_edge_ids(es@.map_values(|e: Edge| e@), node@),
{
    let ghost ev = es@.map_values(|e: Edge| e@);
    let ghost p = |e: EdgeView| spec_is_endvertice(e, node@);
    let ghost idf = |e: EdgeView| e.id;
    let mut n_es: Vec<String> = Vec::new();
    let mut j: usize = 0;
    while j < es.len()
        invariant
            0 <= j <= es.len(),
            ev == es@.map_values(|e: Edge| e@),
            p == (|e: EdgeView| spec_is_endvertice(e, node@)),
            idf == (|e: EdgeView| e.id),
            n_es.deep_view() == dedup(ev.take(j as int).filter(p).map_values(idf)),
        decreases es.len() - j,
    {
        let e = &es[j];
        let ghost before = n_es.deep_view();
        let ghost prev = ev.take(j as int).filter(p).map_values(idf);
        proof {
            assert(ev.take(j + 1).drop_last() == ev.take(j as int));
            assert(ev.take(j + 1).last() == e@);
            reveal_with_fuel(Seq::filter, 1);
        }
        if is_endvertice(e, node) {
            let eid = e.id();
            proof {
                let cur = ev.take(j + 1).filter(p).map_values(idf);
                assert(cur == prev.push(eid@));
                assert(cur.drop_last() == prev);
            }
            if !contains_string(&n_es, eid) {
                n_es.push(eid.clone());
                assert(n_es.deep_view() == before.push(eid@));
            }
        } else {
            assert(ev.take(j + 1).filter(p) == ev.take(j as int).filter(p));
        }
        j += 1;
    }
    assert(ev.take(es.len() as int) == ev);
    n_es
}

/// The adjacency list of `g`: for each vertex, in the order of the
/// vertices, its identifier with the identifiers of the edges that have it
/// as an end vertex (each once, in the order of the edges), or `None` when
/// no edge has it as an end vertex.
pub fn to_adjacencylist(g: &Graph) -> (r: Vec<(String, Option<Vec<String>>)>)
    ensures
        r.deep_view() == adjacency_list(g@),
{
    let vs = g.vertices();
    let es = g.edges();
    let ghost target = adjacency_list(g@);
    let mut elist: Vec<(String, Option<Vec<String>>)> = Vec::new();
    let mut i: usize = 0;
    while i < vs.len()
        invariant
            0 <= i <= vs.len(),
            vs@ == g.spec_nodes(),
            es@ == g.spec_edges(),
            target == adjacency_list(g@),
            elist.deep_view() == target.take(i as int),
        decreases vs.len() - i,
    {
        let node = &vs[i];
        let n_es = incident_edges(es, node);
        let nid = node.id().clone();
        let ghost before = elist.deep_view();
        if n_es.len() == 0 {
            elist.push((nid, None));
        } else {
            elist.push((nid, Some(n_es)));
        }
        assert(elist.deep_view() == before.push(target[i as int]));
        assert(target.take(i + 1) == target.take(i as int).push(target[i as int]));
        i += 1;
    }
    assert(target.take(vs.len() as int) == target);
    elist
}

// ---------------------------------------------------------------------------
// Lookup by identifier
// ---------------------------------------------------------------------------

/// Position `i` holds the first object of `objs` with identifier `id`.
pub open spec fn is_first_with_id<T: GraphObject>(objs: Seq<T>, id: Seq<char>, i: int) -> bool {
    &&& 0 <= i < objs.len()
    &&& objs[i].spec_id() == id
    &&& forall|j: int| 0 <= j < i ==> (#[trigger] objs[j]).spec_id() != id
}

/// What looking up `id` among `objs` of graph `g` gives: the first object
/// with that identifier, or `NotInGraph` with the identifier and the graph's
/// identifier when there is none.
pub open spec fn lookup_result<T: GraphObject>(
    objs: Seq<T>,
    id: Seq<char>,
    gid: Seq<char>,
    res: Result<&T, PGMRustError>,
) -> bool {
    match res {
        Ok(h) => exists|i: int| is_first_with_id(objs, id, i) && *h == objs[i],
        Err(PGMRustError::NotInGraph(a, b)) => {
            &&& forall|j: int| 0 <= j < objs.len() ==> (#[trigger] objs[j]).spec_id() != id
            &&& a@ == id
            &&& b@ == gid
        },
    }
}

/// Obtains the graph object with identifier `id` among the objects that `f`
/// selects from `g` (such as its vertices or its edges): the first one in
/// their order, or `NotInGraph` when none has that identifier.
pub fn by_id<'a, T: GraphObject, F: Fn(&'a Graph) -> &'a Vec<T>>(
    g: &'a Graph,
    id: &str,
    f: F,
) -> (r: PGMRustResult<&'a T>)
    requires
        call_requires(f, (g,)),
    ensures
        exists|objs: &'a Vec<T>| call_ensures(f, (g,), objs) && lookup_result(objs@, id@, g@.id, r),
{
    let objs = f(g);
    let key = id.to_owned();
    let mut i: usize = 0;
    while i < objs.len()
        invariant
            0 <= i <= objs.len(),
            key@ == id@,
            call_ensures(f, (g,), objs),
            forall|j: int| 0 <= j < i ==> (#[trigger] objs@[j]).spec_id() != id@,
        decreases objs.len() - i,
    {
        let h = &objs[i];
        if h.id().eq(&key) {
            let r: PGMRustResult<&'a T> = Ok(h);
            assert(is_first_with_id(objs@, id@, i as int) && *h == objs@[i as int]);
            assert(lookup_result(objs@, id@, g@.id, r));
            return r;
        }
        i += 1;
    }
    Err(PGMRustError::NotInGraph(key, g.id().clone()))
}

} // verus!
