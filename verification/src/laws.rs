//! Properties that hold across the graph operations.

use vstd::prelude::*;

use crate::errors::PGMRustError;
use crate::misc::{
    has_image, lemma_node_image, maps_by_id, node_image,
    adjacency_list, adjacency_matrix, both_ends_in, incident_edge_ids, is_first_with_id,
    isomorphism_holds, joins, keep_where, lists_map, lookup_result, node_ids,
};
use crate::types::{dedup, lemma_dedup, spec_is_endvertice, EdgeView, GraphObject, GraphView, Node};

verus! {

/// `joins` does not depend on the order of the two vertices.
pub proof fn lemma_joins_symmetric(edges: Seq<EdgeView>, a: Seq<char>, b: Seq<char>)
    ensures
        joins(edges, a, b) == joins(edges, b, a),
{
    if joins(edges, a, b) {
        let k = choose|k: int|
            0 <= k < edges.len() && ((#[trigger] edges[k].start == a && edges[k].end == b) || (
            edges[k].start == b && edges[k].end == a));
        assert(edges[k].start == b || edges[k].start == a);
    }
    if joins(edges, b, a) {
        let k = choose|k: int|
            0 <= k < edges.len() && ((#[trigger] edges[k].start == b && edges[k].end == a) || (
            edges[k].start == a && edges[k].end == b));
        assert(edges[k].start == b || edges[k].start == a);
    }
}

/// The adjacency matrix is symmetric: `(a, b)` is a key exactly when
/// `(b, a)` is, and both map to the same value.
pub proof fn lemma_adjmat_symmetric(g: GraphView, a: Seq<char>, b: Seq<char>)
    ensures
        adjacency_matrix(g).contains_key((a, b)) == adjacency_matrix(g).contains_key((b, a)),
        adjacency_matrix(g).contains_key((a, b)) ==> adjacency_matrix(g)[(a, b)]
            == adjacency_matrix(g)[(b, a)],
{
    lemma_joins_symmetric(g.edges, a, b);
}

/// Every ordered pair of vertices is a key of the adjacency matrix, and the
/// adjacency matrix maps it to `true` exactly when an edge joins the two
/// vertices.
pub proof fn lemma_adjmat_covers_vertex_pairs(g: GraphView, a: Seq<char>, b: Seq<char>)
    requires
        g.nodes.contains(a),
        g.nodes.contains(b),
    ensures
        adjacency_matrix(g).contains_key((a, b)),
        adjacency_matrix(g)[(a, b)] == joins(g.edges, a, b),
{
}

/// The incident edges of `a` are listed exactly when some edge has `a` as
/// an end vertex.
proof fn lemma_incident_nonempty(edges: Seq<EdgeView>, a: Seq<char>)
    ensures
        incident_edge_ids(edges, a).len() > 0 <==> exists|k: int|
            0 <= k < edges.len() && spec_is_endvertice(#[trigger] edges[k], a),
{
    let p = |e: EdgeView| spec_is_endvertice(e, a);
    let fl = edges.filter(p);
    let ids = fl.map_values(|e: EdgeView| e.id);
    lemma_dedup(ids);
    if exists|k: int| 0 <= k < edges.len() && spec_is_endvertice(#[trigger] edges[k], a) {
        let k = choose|k: int| 0 <= k < edges.len() && spec_is_endvertice(#[trigger] edges[k], a);
        assert(p(edges[k]));
        assert(fl.contains(edges[k]));
        assert(fl.len() > 0);
        assert(ids.contains(ids[0]));
        assert(dedup(ids).contains(ids[0]));
    }
    if incident_edge_ids(edges, a).len() > 0 {
        let d = dedup(ids);
        assert(d.contains(d[0]));
        assert(ids.contains(d[0]));
        assert(fl.len() > 0);
        assert(p(fl[0]));
        assert(fl.contains(fl[0]));
        edges.lemma_filter_contains_rev(p, fl[0]);
        let k = choose|k: int| 0 <= k < edges.len() && edges[k] == fl[0];
        assert(spec_is_endvertice(edges[k], a));
    }
}

/// The adjacency list and the adjacency matrix agree: a vertex has incident
/// edges in the adjacency list exactly when its row of the adjacency matrix
/// holds `true` somewhere.
pub proof fn lemma_adjlist_agrees_with_adjmat(g: GraphView, i: int)
    requires
        0 <= i < g.nodes.len(),
    ensures
        adjacency_list(g)[i].0 == g.nodes[i],
        adjacency_list(g)[i].1 is Some <==> exists|b: Seq<char>|
            adjacency_matrix(g).contains_key((g.nodes[i], b)) && #[trigger] adjacency_matrix(g)[(
            g.nodes[i], b)],
{
    let a = g.nodes[i];
    let m = adjacency_matrix(g);
    lemma_incident_nonempty(g.edges, a);
    if adjacency_list(g)[i].1 is Some {
        let k = choose|k: int| 0 <= k < g.edges.len() && spec_is_endvertice(#[trigger] g.edges[k], a);
        let b = if g.edges[k].start == a {
            g.edges[k].end
        } else {
            g.edges[k].start
        };
        assert(joins(g.edges, a, b));
        assert(m.contains_key((a, b)) && m[(a, b)]);
    }
    if exists|b: Seq<char>| m.contains_key((a, b)) && #[trigger] m[(a, b)] {
        let b = choose|b: Seq<char>| m.contains_key((a, b)) && #[trigger] m[(a, b)];
        assert(joins(g.edges, a, b));
        let k = choose|k: int|
            0 <= k < g.edges.len() && ((#[trigger] g.edges[k].start == a && g.edges[k].end == b) || (
            g.edges[k].start == b && g.edges[k].end == a));
        assert(spec_is_endvertice(g.edges[k], a));
    }
}

/// A graph is isomorphic to itself through the identity map.
pub proof fn lemma_identity_isomorphism(g: GraphView)
    requires
        g.wf(),
    ensures
        isomorphism_holds(g, g, |id: Seq<char>| id),
{
    let img = |id: Seq<char>| id;
    assert(g.nodes.map_values(img) =~= g.nodes);
    assert forall|i: int| 0 <= i < g.edges.len() implies joins(
        g.edges,
        img(#[trigger] g.edges[i].start),
        img(g.edges[i].end),
    ) by {
        assert(g.edges[i].start == img(g.edges[i].start));
    }
}

/// When the checks hold, `img` maps the vertices of `g1` one to one onto
/// the vertices of `g2`, and maps every edge of `g1` onto an edge of `g2`.
pub proof fn lemma_isomorphism_bijection(
    g1: GraphView,
    g2: GraphView,
    img: spec_fn(Seq<char>) -> Seq<char>,
)
    requires
        isomorphism_holds(g1, g2, img),
    ensures
        forall|i: int, j: int|
            0 <= i < j < g1.nodes.len() ==> img(#[trigger] g1.nodes[i]) != img(#[trigger] g1.nodes[j]),
        forall|i: int| 0 <= i < g1.nodes.len() ==> g2.nodes.contains(img(#[trigger] g1.nodes[i])),
        forall|y: Seq<char>|
            #[trigger] g2.nodes.contains(y) ==> exists|i: int|
                0 <= i < g1.nodes.len() && img(#[trigger] g1.nodes[i]) == y,
        forall|i: int|
            0 <= i < g1.edges.len() ==> joins(g2.edges, img(#[trigger] g1.edges[i].start), img(g1.edges[i].end)),
{
    let m = g1.nodes.map_values(img);
    assert forall|i: int| 0 <= i < g1.nodes.len() implies g2.nodes.contains(img(#[trigger] g1.nodes[i])) by {
        assert(m[i] == img(g1.nodes[i]));
        assert(m.to_set().contains(m[i]));
        assert(g2.nodes.to_set().contains(m[i]));
    }
    assert forall|y: Seq<char>| #[trigger] g2.nodes.contains(y) implies exists|i: int|
        0 <= i < g1.nodes.len() && img(#[trigger] g1.nodes[i]) == y by {
        assert(g2.nodes.to_set().contains(y));
        assert(m.to_set().contains(y));
        let i = choose|i: int| 0 <= i < m.len() && m[i] == y;
        assert(img(g1.nodes[i]) == y);
    }
    assert forall|i: int, j: int|
        0 <= i < j < g1.nodes.len() implies img(#[trigger] g1.nodes[i]) != img(#[trigger] g1.nodes[j]) by {
        assert(m[i] == img(g1.nodes[i]));
        assert(m[j] == img(g1.nodes[j]));
    }
}

/// Isomorphisms compose: when `f` passes the checks from `g1` to `g2` and
/// `h` from `g2` to `g3`, their composition passes them from `g1` to `g3`.
pub proof fn lemma_isomorphism_compose(
    g1: GraphView,
    g2: GraphView,
    g3: GraphView,
    f: spec_fn(Seq<char>) -> Seq<char>,
    h: spec_fn(Seq<char>) -> Seq<char>,
)
    requires
        isomorphism_holds(g1, g2, f),
        isomorphism_holds(g2, g3, h),
    ensures
        isomorphism_holds(g1, g3, |id: Seq<char>| h(f(id))),
{
    let c = |id: Seq<char>| h(f(id));
    lemma_isomorphism_bijection(g1, g2, f);
    lemma_isomorphism_bijection(g2, g3, h);
    let m = g1.nodes.map_values(c);
    // Injectivity.
    assert forall|i: int, j: int| 0 <= i < m.len() && 0 <= j < m.len() && i != j implies m[i] != m[j] by {
        let (a, b) = if i < j { (i, j) } else { (j, i) };
        assert(f(g1.nodes[a]) != f(g1.nodes[b]));
        assert(g2.nodes.contains(f(g1.nodes[a])));
        assert(g2.nodes.contains(f(g1.nodes[b])));
        let p = choose|p: int| 0 <= p < g2.nodes.len() && g2.nodes[p] == f(g1.nodes[a]);
        let q = choose|q: int| 0 <= q < g2.nodes.len() && g2.nodes[q] == f(g1.nodes[b]);
        if p < q {
            assert(h(g2.nodes[p]) != h(g2.nodes[q]));
        } else {
            assert(h(g2.nodes[q]) != h(g2.nodes[p]));
        }
    }
    // Image.
    assert forall|y: Seq<char>| m.to_set().contains(y) <==> g3.nodes.to_set().contains(y) by {
        if m.contains(y) {
            let i = choose|i: int| 0 <= i < m.len() && m[i] == y;
            assert(g2.nodes.contains(f(g1.nodes[i])));
            let p = choose|p: int| 0 <= p < g2.nodes.len() && g2.nodes[p] == f(g1.nodes[i]);
            assert(g3.nodes.contains(h(g2.nodes[p])));
        }
        if g3.nodes.contains(y) {
            let p = choose|p: int| 0 <= p < g2.nodes.len() && h(#[trigger] g2.nodes[p]) == y;
            assert(g2.nodes.contains(g2.nodes[p]));
            let i = choose|i: int| 0 <= i < g1.nodes.len() && f(#[trigger] g1.nodes[i]) == g2.nodes[p];
            assert(m[i] == y);
        }
    }
    assert(m.to_set() =~= g3.nodes.to_set());
    // Edges.
    assert forall|i: int| 0 <= i < g1.edges.len() implies joins(
        g3.edges,
        c(#[trigger] g1.edges[i].start),
        c(g1.edges[i].end),
    ) by {
        let s = f(g1.edges[i].start);
        let t = f(g1.edges[i].end);
        assert(joins(g2.edges, s, t));
        let k = choose|k: int|
            0 <= k < g2.edges.len() && ((#[trigger] g2.edges[k].start == s && g2.edges[k].end == t) || (
            g2.edges[k].start == t && g2.edges[k].end == s));
        assert(joins(g3.edges, h(g2.edges[k].start), h(g2.edges[k].end)));
        lemma_joins_symmetric(g3.edges, h(s), h(t));
    }
}

/// Filtering by a predicate that every element satisfies changes nothing.
proof fn lemma_filter_all<A>(s: Seq<A>, p: spec_fn(A) -> bool)
    requires
        forall|i: int| 0 <= i < s.len() ==> p(#[trigger] s[i]),
    ensures
        s.filter(p) == s,
    decreases s.len(),
{
    reveal_with_fuel(Seq::filter, 1);
    if s.len() > 0 {
        assert forall|i: int| 0 <= i < s.drop_last().len() implies p(#[trigger] s.drop_last()[i]) by {
            assert(s.drop_last()[i] == s[i]);
        }
        lemma_filter_all(s.drop_last(), p);
        assert(s.drop_last().push(s.last()) =~= s);
    }
}

/// With the default edge policy, the subgraph induced by vertices with
/// identifiers `ids` is a graph: when every edge of `g` joins vertices of
/// `g`, every kept edge joins kept vertices.
pub proof fn lemma_default_subgraph_is_closed(g: GraphView, ids: Seq<Seq<char>>)
    requires
        g.closed(),
    ensures
        ({
            let kept_nodes = g.nodes.filter(|id: Seq<char>| ids.contains(id));
            let kept_edges = g.edges.filter(|e: EdgeView| both_ends_in(e, ids));
            forall|k: int|
                0 <= k < kept_edges.len() ==> kept_nodes.contains(#[trigger] kept_edges[k].start)
                    && kept_nodes.contains(kept_edges[k].end)
        }),
{
    let pn = |id: Seq<char>| ids.contains(id);
    let pe = |e: EdgeView| both_ends_in(e, ids);
    let kept_nodes = g.nodes.filter(pn);
    let kept_edges = g.edges.filter(pe);
    assert forall|k: int| 0 <= k < kept_edges.len() implies kept_nodes.contains(
        #[trigger] kept_edges[k].start,
    ) && kept_nodes.contains(kept_edges[k].end) by {
        let e = kept_edges[k];
        assert(pe(e));
        assert(kept_edges.contains(e));
        g.edges.lemma_filter_contains_rev(pe, e);
        let q = choose|q: int| 0 <= q < g.edges.len() && g.edges[q] == e;
        assert(g.nodes.contains(g.edges[q].start));
        let a = choose|a: int| 0 <= a < g.nodes.len() && g.nodes[a] == e.start;
        assert(pn(g.nodes[a]));
        let b = choose|b: int| 0 <= b < g.nodes.len() && g.nodes[b] == e.end;
        assert(pn(g.nodes[b]));
    }
}

/// Selecting every vertex of `g` keeps every vertex and, with the default
/// edge policy and when every edge of `g` joins vertices of `g`, every edge.
pub proof fn lemma_subgraph_of_all_vertices(g: GraphView, ids: Seq<Seq<char>>)
    requires
        forall|i: int| 0 <= i < g.nodes.len() ==> ids.contains(#[trigger] g.nodes[i]),
    ensures
        g.nodes.filter(|id: Seq<char>| ids.contains(id)) == g.nodes,
        g.closed() ==> g.edges.filter(|e: EdgeView| both_ends_in(e, ids)) == g.edges,
{
    let pn = |id: Seq<char>| ids.contains(id);
    let pe = |e: EdgeView| both_ends_in(e, ids);
    lemma_filter_all(g.nodes, pn);
    if g.closed() {
        assert forall|i: int| 0 <= i < g.edges.len() implies pe(#[trigger] g.edges[i]) by {
            assert(g.nodes.contains(g.edges[i].start));
            assert(g.nodes.contains(g.edges[i].end));
            let a = choose|a: int| 0 <= a < g.nodes.len() && g.nodes[a] == g.edges[i].start;
            let b = choose|b: int| 0 <= b < g.nodes.len() && g.nodes[b] == g.edges[i].end;
            assert(ids.contains(g.nodes[a]));
            assert(ids.contains(g.nodes[b]));
        }
        lemma_filter_all(g.edges, pe);
    }
}

/// Among objects with distinct identifiers, looking up the identifier of
/// one of them finds that object.
pub proof fn lemma_lookup_finds<T: GraphObject>(
    objs: Seq<T>,
    i: int,
    gid: Seq<char>,
    res: Result<&T, PGMRustError>,
)
    requires
        forall|p: int, q: int|
            0 <= p < q < objs.len() ==> (#[trigger] objs[p]).spec_id() != (#[trigger] objs[q]).spec_id(),
        0 <= i < objs.len(),
        lookup_result(objs, objs[i].spec_id(), gid, res),
    ensures
        res matches Ok(h) && *h == objs[i],
{
    match res {
        Ok(h) => {
            let k = choose|k: int| is_first_with_id(objs, objs[i].spec_id(), k) && *h == objs[k];
            if k < i {
                assert(objs[k].spec_id() != objs[i].spec_id());
            } else if k > i {
                assert(objs[i].spec_id() != objs[i].spec_id());
            }
        },
        Err(PGMRustError::NotInGraph(a, b)) => {
            assert(objs[i].spec_id() != objs[i].spec_id());
        },
    }
}

/// `img` is one to one on the vertices of `g1`.
proof fn lemma_img_injective(
    g1: GraphView,
    g2: GraphView,
    img: spec_fn(Seq<char>) -> Seq<char>,
    x: Seq<char>,
    y: Seq<char>,
)
    requires
        isomorphism_holds(g1, g2, img),
        g1.nodes.contains(x),
        g1.nodes.contains(y),
        img(x) == img(y),
    ensures
        x == y,
{
    lemma_isomorphism_bijection(g1, g2, img);
    let p = choose|p: int| 0 <= p < g1.nodes.len() && g1.nodes[p] == x;
    let q = choose|q: int| 0 <= q < g1.nodes.len() && g1.nodes[q] == y;
    if p < q {
        assert(img(g1.nodes[p]) != img(g1.nodes[q]));
    } else if q < p {
        assert(img(g1.nodes[q]) != img(g1.nodes[p]));
    }
}

/// An inverse of an isomorphism is an isomorphism back: when `img` is an
/// isomorphism from `g1` to `g2`, every edge of `g2` joins vertices of `g2`,
/// and `inv` undoes `img` on the vertices of `g1`, then `inv` is an
/// isomorphism from `g2` to `g1`.
pub proof fn lemma_isomorphism_inverse(
    g1: GraphView,
    g2: GraphView,
    img: spec_fn(Seq<char>) -> Seq<char>,
    inv: spec_fn(Seq<char>) -> Seq<char>,
)
    requires
        isomorphism_holds(g1, g2, img),
        g2.wf(),
        g2.closed(),
        forall|i: int| 0 <= i < g1.nodes.len() ==> inv(img(#[trigger] g1.nodes[i])) == g1.nodes[i],
    ensures
        isomorphism_holds(g2, g1, inv),
{
    lemma_isomorphism_bijection(g1, g2, img);
    let m2 = g2.nodes.map_values(inv);
    // Each vertex of g2 is the image of a vertex of g1, which `inv` gives back.
    assert forall|p: int| #![trigger g2.nodes[p]] 0 <= p < g2.nodes.len() implies exists|i: int|
        0 <= i < g1.nodes.len() && img(#[trigger] g1.nodes[i]) == g2.nodes[p] && inv(g2.nodes[p])
            == g1.nodes[i] by {
        assert(g2.nodes.contains(g2.nodes[p]));
        let i = choose|i: int| 0 <= i < g1.nodes.len() && img(#[trigger] g1.nodes[i]) == g2.nodes[p];
        assert(inv(img(g1.nodes[i])) == g1.nodes[i]);
    }
    assert forall|p: int, q: int| 0 <= p < m2.len() && 0 <= q < m2.len() && p != q implies m2[p] != m2[q] by {
        let i = choose|i: int|
            0 <= i < g1.nodes.len() && img(#[trigger] g1.nodes[i]) == g2.nodes[p] && inv(g2.nodes[p])
                == g1.nodes[i];
        let j = choose|j: int|
            0 <= j < g1.nodes.len() && img(#[trigger] g1.nodes[j]) == g2.nodes[q] && inv(g2.nodes[q])
                == g1.nodes[j];
        assert(g2.nodes[p] != g2.nodes[q]);
    }
    assert forall|x: Seq<char>| m2.to_set().contains(x) <==> g1.nodes.to_set().contains(x) by {
        if m2.contains(x) {
            let p = choose|p: int| 0 <= p < m2.len() && m2[p] == x;
            let i = choose|i: int|
                0 <= i < g1.nodes.len() && img(#[trigger] g1.nodes[i]) == g2.nodes[p] && inv(
                    g2.nodes[p],
                ) == g1.nodes[i];
            assert(g1.nodes[i] == x);
        }
        if g1.nodes.contains(x) {
            let i = choose|i: int| 0 <= i < g1.nodes.len() && g1.nodes[i] == x;
            assert(g2.nodes.contains(img(g1.nodes[i])));
            let p = choose|p: int| 0 <= p < g2.nodes.len() && g2.nodes[p] == img(g1.nodes[i]);
            assert(inv(img(g1.nodes[i])) == g1.nodes[i]);
            assert(m2[p] == x);
        }
    }
    assert(m2.to_set() =~= g1.nodes.to_set());
    // Adjacency carries over through the vertices of g1.
    assert forall|p: int, q: int|
        #![trigger g2.nodes[p], g2.nodes[q]]
        0 <= p < g2.nodes.len() && 0 <= q < g2.nodes.len() implies (joins(
            g2.edges,
            g2.nodes[p],
            g2.nodes[q],
        ) <==> joins(g1.edges, inv(g2.nodes[p]), inv(g2.nodes[q]))) by {
        let i = choose|i: int|
            0 <= i < g1.nodes.len() && img(#[trigger] g1.nodes[i]) == g2.nodes[p] && inv(g2.nodes[p])
                == g1.nodes[i];
        let j = choose|j: int|
            0 <= j < g1.nodes.len() && img(#[trigger] g1.nodes[j]) == g2.nodes[q] && inv(g2.nodes[q])
                == g1.nodes[j];
        assert(joins(g1.edges, g1.nodes[i], g1.nodes[j]) <==> joins(
            g2.edges,
            img(g1.nodes[i]),
            img(g1.nodes[j]),
        ));
    }
    assert forall|k: int| 0 <= k < g2.edges.len() implies joins(
        g1.edges,
        inv(#[trigger] g2.edges[k].start),
        inv(g2.edges[k].end),
    ) by {
        let e = g2.edges[k];
        assert(g2.nodes.contains(e.start) && g2.nodes.contains(e.end));
        let p = choose|p: int| 0 <= p < g2.nodes.len() && g2.nodes[p] == e.start;
        let q = choose|q: int| 0 <= q < g2.nodes.len() && g2.nodes[q] == e.end;
        assert(joins(g2.edges, g2.nodes[p], g2.nodes[q])) by {
            assert(g2.edges[k].start == g2.nodes[p]);
        }
    }
}

/// Two vertex maps that agree on the vertices and the edge ends of `g1` pass
/// the isomorphism checks from `g1` alike.
proof fn lemma_isomorphism_agree(
    g1: GraphView,
    g2: GraphView,
    a: spec_fn(Seq<char>) -> Seq<char>,
    b: spec_fn(Seq<char>) -> Seq<char>,
)
    requires
        forall|i: int| 0 <= i < g1.nodes.len() ==> a(#[trigger] g1.nodes[i]) == b(g1.nodes[i]),
        forall|k: int|
            0 <= k < g1.edges.len() ==> a((#[trigger] g1.edges[k]).start) == b(g1.edges[k].start) && a(
                g1.edges[k].end,
            ) == b(g1.edges[k].end),
        isomorphism_holds(g1, g2, a),
    ensures
        isomorphism_holds(g1, g2, b),
{
    assert(g1.nodes.map_values(a) =~= g1.nodes.map_values(b));
    assert forall|k: int| 0 <= k < g1.edges.len() implies joins(
        g2.edges,
        b(#[trigger] g1.edges[k].start),
        b(g1.edges[k].end),
    ) by {
        assert(a(g1.edges[k].start) == b(g1.edges[k].start));
    }
    assert forall|i: int, j: int|
        #![trigger g1.nodes[i], g1.nodes[j]]
        0 <= i < g1.nodes.len() && 0 <= j < g1.nodes.len() implies (joins(
            g1.edges,
            g1.nodes[i],
            g1.nodes[j],
        ) <==> joins(g2.edges, b(g1.nodes[i]), b(g1.nodes[j]))) by {
        assert(a(g1.nodes[i]) == b(g1.nodes[i]));
        assert(a(g1.nodes[j]) == b(g1.nodes[j]));
    }
}

/// `h` undoes `f`: a node that `h` returns for a node with the identifier of
/// a result of `f` has the identifier of the argument of `f`.
pub open spec fn undoes<F: Fn(&Node) -> Node, H: Fn(&Node) -> Node>(h: H, f: F) -> bool {
    forall|n: &Node, m: Node, p: &Node, r: Node|
        #![trigger call_ensures(f, (n,), m), call_ensures(h, (p,), r)]
        call_ensures(f, (n,), m) && p@ == m@ && call_ensures(h, (p,), r) ==> r@ == n@
}

/// The inverse law for `check_isomorphism`: when `f` passes the checks from
/// `g1` to `g2` (so that `f` has been applied to the vertices of `g1`), every
/// edge of `g2` joins vertices of `g2`, `h` undoes `f`, and `h` has been
/// applied to the vertices of `g2` (as `check_isomorphism(g2, g1, h)` does),
/// then `h` passes the checks from `g2` to `g1`.
pub proof fn lemma_check_isomorphism_inverse<F: Fn(&Node) -> Node, H: Fn(&Node) -> Node>(
    g1: GraphView,
    g2: GraphView,
    f: F,
    h: H,
)
    requires
        isomorphism_holds(g1, g2, |id: Seq<char>| node_image(f, id)),
        g2.wf(),
        g2.closed(),
        maps_by_id(f),
        maps_by_id(h),
        undoes(h, f),
        forall|i: int| 0 <= i < g1.nodes.len() ==> has_image(f, #[trigger] g1.nodes[i]),
        forall|p: int| 0 <= p < g2.nodes.len() ==> has_image(h, #[trigger] g2.nodes[p]),
    ensures
        isomorphism_holds(g2, g1, |id: Seq<char>| node_image(h, id)),
{
    let img = |id: Seq<char>| node_image(f, id);
    let inv = |id: Seq<char>| node_image(h, id);
    lemma_isomorphism_bijection(g1, g2, img);
    assert forall|i: int| 0 <= i < g1.nodes.len() implies inv(img(#[trigger] g1.nodes[i])) == g1.nodes[i] by {
        let x = g1.nodes[i];
        assert(has_image(f, x));
        let pf = choose|pf: (Node, Node)| pf.0@ == x && call_ensures(f, (&pf.0,), pf.1);
        let y = pf.1@;
        assert(img(x) == y);
        assert(g2.nodes.contains(y));
        let p = choose|p: int| 0 <= p < g2.nodes.len() && g2.nodes[p] == y;
        assert(has_image(h, g2.nodes[p]));
        let ph = choose|ph: (Node, Node)| ph.0@ == y && call_ensures(h, (&ph.0,), ph.1);
        assert(call_ensures(f, (&pf.0,), pf.1) && ph.0@ == pf.1@ && call_ensures(h, (&ph.0,), ph.1));
        assert(inv(y) == ph.1@);
    }
    lemma_isomorphism_inverse(g1, g2, img, inv);
}

/// `c` is the composition of `f` then `h`: whatever `c` returns, `h`
/// returns for some result of `f` on the same argument.
pub open spec fn composes<C: Fn(&Node) -> Node, F: Fn(&Node) -> Node, H: Fn(&Node) -> Node>(
    c: C,
    f: F,
    h: H,
) -> bool {
    forall|n: &Node, r: Node|
        #[trigger] call_ensures(c, (n,), r) ==> exists|m: Node|
            call_ensures(f, (n,), m) && call_ensures(h, (&m,), r)
}

/// The composition law for `check_isomorphism`: when `f` passes the checks
/// from `g1` to `g2` and `h` from `g2` to `g3`, the composition `c` of `f`
/// then `h` passes them from `g1` to `g3`, given that `c` has been applied to
/// the vertices and edge ends of `g1` (as `check_isomorphism(g1, g3, c)`
/// does).
pub proof fn lemma_check_isomorphism_compose<
    F: Fn(&Node) -> Node,
    H: Fn(&Node) -> Node,
    C: Fn(&Node) -> Node,
>(g1: GraphView, g2: GraphView, g3: GraphView, f: F, h: H, c: C)
    requires
        isomorphism_holds(g1, g2, |id: Seq<char>| node_image(f, id)),
        isomorphism_holds(g2, g3, |id: Seq<char>| node_image(h, id)),
        maps_by_id(f),
        maps_by_id(h),
        composes(c, f, h),
        forall|i: int| 0 <= i < g1.nodes.len() ==> has_image(c, #[trigger] g1.nodes[i]),
        forall|k: int|
            0 <= k < g1.edges.len() ==> has_image(c, (#[trigger] g1.edges[k]).start) && has_image(
                c,
                g1.edges[k].end,
            ),
    ensures
        isomorphism_holds(g1, g3, |id: Seq<char>| node_image(c, id)),
{
    let img_f = |id: Seq<char>| node_image(f, id);
    let img_h = |id: Seq<char>| node_image(h, id);
    let img_c = |id: Seq<char>| node_image(c, id);
    let comp = |id: Seq<char>| img_h(img_f(id));
    lemma_isomorphism_compose(g1, g2, g3, img_f, img_h);
    assert forall|x: Seq<char>| #[trigger] has_image(c, x) implies comp(x) == img_c(x) by {
        let pc = choose|pc: (Node, Node)| pc.0@ == x && call_ensures(c, (&pc.0,), pc.1);
        let m = choose|m: Node| call_ensures(f, (&pc.0,), m) && call_ensures(h, (&m,), pc.1);
        lemma_node_image(f, &pc.0, m);
        lemma_node_image(h, &m, pc.1);
    }
    assert forall|i: int| 0 <= i < g1.nodes.len() implies comp(#[trigger] g1.nodes[i]) == img_c(
        g1.nodes[i],
    ) by {
        assert(has_image(c, g1.nodes[i]));
    }
    assert forall|k: int| 0 <= k < g1.edges.len() implies comp((#[trigger] g1.edges[k]).start)
        == img_c(g1.edges[k].start) && comp(g1.edges[k].end) == img_c(g1.edges[k].end) by {
        assert(has_image(c, g1.edges[k].start));
        assert(has_image(c, g1.edges[k].end));
    }
    lemma_isomorphism_agree(g1, g3, comp, img_c);
}

/// No two edges of `g` have the same identifier.
pub open spec fn distinct_edge_ids(g: GraphView) -> bool {
    forall|p: int, q: int|
        #![trigger g.edges[p], g.edges[q]]
        0 <= p < q < g.edges.len() ==> g.edges[p].id != g.edges[q].id
}

/// Both adjacency-list entries list edges, and some edge identifier in both.
pub open spec fn share_edge_id(a: Option<Seq<Seq<char>>>, b: Option<Seq<Seq<char>>>) -> bool {
    &&& a is Some
    &&& b is Some
    &&& exists|k: Seq<char>| a.unwrap().contains(k) && #[trigger] b.unwrap().contains(k)
}

/// `k` is listed among the incident edges of `a` exactly when some edge with
/// identifier `k` has `a` as an end vertex.
pub proof fn lemma_incident_contains(edges: Seq<EdgeView>, a: Seq<char>, k: Seq<char>)
    ensures
        incident_edge_ids(edges, a).contains(k) <==> exists|q: int|
            0 <= q < edges.len() && spec_is_endvertice(#[trigger] edges[q], a) && edges[q].id == k,
{
    let p = |e: EdgeView| spec_is_endvertice(e, a);
    let fl = edges.filter(p);
    let ids = fl.map_values(|e: EdgeView| e.id);
    lemma_dedup(ids);
    if incident_edge_ids(edges, a).contains(k) {
        assert(ids.contains(k));
        let t = choose|t: int| 0 <= t < ids.len() && ids[t] == k;
        assert(p(fl[t]));
        assert(fl.contains(fl[t]));
        edges.lemma_filter_contains_rev(p, fl[t]);
        let q = choose|q: int| 0 <= q < edges.len() && edges[q] == fl[t];
        assert(spec_is_endvertice(edges[q], a) && edges[q].id == k);
    }
    if exists|q: int| 0 <= q < edges.len() && spec_is_endvertice(#[trigger] edges[q], a) && edges[q].id == k {
        let q = choose|q: int| 0 <= q < edges.len() && spec_is_endvertice(#[trigger] edges[q], a) && edges[q].id == k;
        assert(p(edges[q]));
        assert(fl.contains(edges[q]));
        let t = choose|t: int| 0 <= t < fl.len() && fl[t] == edges[q];
        assert(ids[t] == k);
        assert(ids.contains(k));
    }
}

/// When edge identifiers are distinct, two distinct vertices are adjacent
/// in the adjacency matrix exactly when their adjacency-list entries share
/// an edge identifier.
pub proof fn lemma_adjmat_shared_edge(g: GraphView, i: int, j: int)
    requires
        0 <= i < g.nodes.len(),
        0 <= j < g.nodes.len(),
        g.nodes[i] != g.nodes[j],
        distinct_edge_ids(g),
    ensures
        adjacency_matrix(g).contains_key((g.nodes[i], g.nodes[j])),
        adjacency_matrix(g)[(g.nodes[i], g.nodes[j])] <==> share_edge_id(
            adjacency_list(g)[i].1,
            adjacency_list(g)[j].1,
        ),
{
    let u = g.nodes[i];
    let v = g.nodes[j];
    let su = incident_edge_ids(g.edges, u);
    let sv = incident_edge_ids(g.edges, v);
    assert(adjacency_list(g)[i].1 == if su.len() == 0 {
        None
    } else {
        Some(su)
    });
    assert(adjacency_list(g)[j].1 == if sv.len() == 0 {
        None
    } else {
        Some(sv)
    });
    if joins(g.edges, u, v) {
        let q = choose|q: int|
            0 <= q < g.edges.len() && ((#[trigger] g.edges[q].start == u && g.edges[q].end == v) || (
            g.edges[q].start == v && g.edges[q].end == u));
        let k = g.edges[q].id;
        lemma_incident_contains(g.edges, u, k);
        lemma_incident_contains(g.edges, v, k);
        assert(su.contains(k) && sv.contains(k));
        assert(su.len() > 0 && sv.len() > 0);
        assert(adjacency_list(g)[i].1.unwrap().contains(k));
        assert(adjacency_list(g)[j].1.unwrap().contains(k));
        assert(share_edge_id(adjacency_list(g)[i].1, adjacency_list(g)[j].1));
    }
    assert(adjacency_matrix(g)[(u, v)] == joins(g.edges, u, v));
    if share_edge_id(adjacency_list(g)[i].1, adjacency_list(g)[j].1) {
        let k = choose|k: Seq<char>|
            adjacency_list(g)[i].1.unwrap().contains(k) && #[trigger] adjacency_list(g)[j].1.unwrap().contains(k);
        assert(su.contains(k) && sv.contains(k));
        lemma_incident_contains(g.edges, u, k);
        lemma_incident_contains(g.edges, v, k);
        let q1 = choose|q: int|
            0 <= q < g.edges.len() && spec_is_endvertice(#[trigger] g.edges[q], u) && g.edges[q].id == k;
        let q2 = choose|q: int|
            0 <= q < g.edges.len() && spec_is_endvertice(#[trigger] g.edges[q], v) && g.edges[q].id == k;
        if q1 < q2 {
            assert(g.edges[q1].id != g.edges[q2].id);
        } else if q2 < q1 {
            assert(g.edges[q2].id != g.edges[q1].id);
        }
        assert(joins(g.edges, u, v)) by {
            assert(g.edges[q1].start == u || g.edges[q1].start == v);
        }
    }

}

// ---------------------------------------------------------------------------
// What the subgraph selection keeps
// ---------------------------------------------------------------------------

/// `node_ids(ns)` holds the identifier of every node of `ns`, in order.
pub proof fn lemma_node_ids(ns: Seq<&Node>)
    ensures
        node_ids(ns).len() == ns.len(),
        forall|i: int| 0 <= i < ns.len() ==> #[trigger] node_ids(ns)[i] == ns[i]@,
        forall|x: Seq<char>|
            node_ids(ns).contains(x) <==> exists|i: int| 0 <= i < ns.len() && #[trigger] ns[i]@ == x,
{
    assert forall|x: Seq<char>|
        node_ids(ns).contains(x) <==> exists|i: int| 0 <= i < ns.len() && #[trigger] ns[i]@ == x by {
        if node_ids(ns).contains(x) {
            let i = choose|i: int| 0 <= i < node_ids(ns).len() && node_ids(ns)[i] == x;
            assert(ns[i]@ == x);
        }
        if exists|i: int| 0 <= i < ns.len() && #[trigger] ns[i]@ == x {
            let i = choose|i: int| 0 <= i < ns.len() && #[trigger] ns[i]@ == x;
            assert(node_ids(ns)[i] == x);
        }
    }
}

/// The vertices that the subgraph selection keeps are exactly the vertices
/// of `g` whose identifier is that of some node of `ns`.
pub proof fn lemma_subgraph_vertices(g: GraphView, ns: Seq<&Node>)
    ensures
        forall|x: Seq<char>|
            g.nodes.filter(|id: Seq<char>| node_ids(ns).contains(id)).contains(x) <==> (
            g.nodes.contains(x) && exists|i: int| 0 <= i < ns.len() && #[trigger] ns[i]@ == x),
{
    let pred = |id: Seq<char>| node_ids(ns).contains(id);
    lemma_node_ids(ns);
    assert forall|x: Seq<char>| g.nodes.filter(pred).contains(x) <==> (g.nodes.contains(x) && exists|
        i: int,
    | 0 <= i < ns.len() && #[trigger] ns[i]@ == x) by {
        if g.nodes.filter(pred).contains(x) {
            g.nodes.lemma_filter_contains_rev(pred, x);
            let k = choose|k: int| 0 <= k < g.nodes.filter(pred).len() && g.nodes.filter(pred)[k] == x;
            assert(pred(g.nodes.filter(pred)[k]));
        }
        if g.nodes.contains(x) && exists|i: int| 0 <= i < ns.len() && #[trigger] ns[i]@ == x {
            let k = choose|k: int| 0 <= k < g.nodes.len() && g.nodes[k] == x;
            assert(pred(g.nodes[k]));
        }
    }
}

/// With the default edge policy, the edges that the subgraph selection
/// keeps are exactly the edges of `g` whose two end vertices both have the
/// identifier of some node of `ns`.
pub proof fn lemma_subgraph_default_edges(g: GraphView, ns: Seq<&Node>)
    ensures
        forall|e: EdgeView|
            g.edges.filter(|e: EdgeView| both_ends_in(e, node_ids(ns))).contains(e) <==> {
                &&& g.edges.contains(e)
                &&& exists|i: int| 0 <= i < ns.len() && #[trigger] ns[i]@ == e.start
                &&& exists|j: int| 0 <= j < ns.len() && #[trigger] ns[j]@ == e.end
            },
{
    let pred = |e: EdgeView| both_ends_in(e, node_ids(ns));
    lemma_node_ids(ns);
    assert forall|e: EdgeView| g.edges.filter(pred).contains(e) <==> {
        &&& g.edges.contains(e)
        &&& exists|i: int| 0 <= i < ns.len() && #[trigger] ns[i]@ == e.start
        &&& exists|j: int| 0 <= j < ns.len() && #[trigger] ns[j]@ == e.end
    } by {
        if g.edges.filter(pred).contains(e) {
            g.edges.lemma_filter_contains_rev(pred, e);
            let k = choose|k: int| 0 <= k < g.edges.filter(pred).len() && g.edges.filter(pred)[k] == e;
            assert(pred(g.edges.filter(pred)[k]));
        }
        if g.edges.contains(e) && node_ids(ns).contains(e.start) && node_ids(ns).contains(e.end) {
            let k = choose|k: int| 0 <= k < g.edges.len() && g.edges[k] == e;
            assert(pred(g.edges[k]));
        }
    }
}

/// The number of `true` entries of `keep`.
pub open spec fn count_true(keep: Seq<bool>) -> nat {
    keep.filter(|b: bool| b).len()
}

/// With a caller-supplied edge policy, the kept edges are the edges at the
/// positions where the policy said yes, each in its place: there are as many
/// as there were yes answers, and the edge at position `j` of `s`, when
/// `keep[j]`, is the kept edge that comes after exactly the kept edges of
/// the positions before `j`. What the policy said at other positions does
/// not change whether or where `s[j]` is kept.
pub proof fn lemma_keep_where_selects<A>(s: Seq<A>, keep: Seq<bool>)
    requires
        keep.len() == s.len(),
    ensures
        keep_where(s, keep).len() == count_true(keep),
        forall|j: int|
            0 <= j < s.len() && #[trigger] keep[j] ==> keep_where(s, keep)[count_true(keep.take(j)) as int]
                == s[j],
    decreases s.len(),
{
    reveal_with_fuel(Seq::filter, 1);
    if s.len() > 0 {
        let n = s.len() - 1;
        let t = s.drop_last();
        let kt = keep.take(n);
        lemma_keep_where_selects(t, kt);
        assert(keep.drop_last() == kt);
        let sub = keep_where(t, kt);
        assert forall|j: int| 0 <= j < s.len() && #[trigger] keep[j] implies keep_where(s, keep)[count_true(
            keep.take(j),
        ) as int] == s[j] by {
            if j < n {
                assert(keep.take(j) == kt.take(j));
                assert(kt[j] == keep[j]);
                lemma_count_true_prefix(kt, j);
                assert(t[j] == s[j]);
            } else {
                assert(keep.take(j) == kt);
            }
        }
    }
}

/// A prefix has no more `true` entries than the whole, and strictly fewer
/// when a `true` entry follows it.
proof fn lemma_count_true_prefix(keep: Seq<bool>, j: int)
    requires
        0 <= j < keep.len(),
    ensures
        keep[j] ==> count_true(keep.take(j)) < count_true(keep),
        count_true(keep.take(j)) <= count_true(keep),
    decreases keep.len(),
{
    reveal_with_fuel(Seq::filter, 1);
    let n = keep.len() - 1;
    assert(keep.drop_last() == keep.take(n));
    if j < n {
        lemma_count_true_prefix(keep.take(n), j);
        assert(keep.take(n).take(j) == keep.take(j));
    } else {
        assert(keep.take(j) == keep.take(n));
    }
}

// ---------------------------------------------------------------------------
// What the adjacency list, the adjacency matrix and the lookup hold
// ---------------------------------------------------------------------------

/// The adjacency list has one entry per vertex, in order: the vertex's
/// identifier with `None` when no edge has it as an end vertex, and
/// otherwise the identifiers of exactly the edges that have it as an end
/// vertex, each once.
pub proof fn lemma_adjacency_list_entries(g: GraphView, i: int)
    requires
        0 <= i < g.nodes.len(),
    ensures
        adjacency_list(g).len() == g.nodes.len(),
        adjacency_list(g)[i].0 == g.nodes[i],
        adjacency_list(g)[i].1 is None <==> forall|q: int|
            0 <= q < g.edges.len() ==> (#[trigger] g.edges[q]).start != g.nodes[i] && g.edges[q].end
                != g.nodes[i],
        adjacency_list(g)[i].1 matches Some(s) ==> {
            &&& s.no_duplicates()
            &&& forall|k: Seq<char>|
                s.contains(k) <==> exists|q: int|
                    0 <= q < g.edges.len() && ((#[trigger] g.edges[q]).start == g.nodes[i]
                        || g.edges[q].end == g.nodes[i]) && g.edges[q].id == k
        },
{
    let a = g.nodes[i];
    let ids = incident_edge_ids(g.edges, a);
    lemma_incident_nonempty(g.edges, a);
    lemma_dedup(g.edges.filter(|e: EdgeView| spec_is_endvertice(e, a)).map_values(|e: EdgeView| e.id));
    assert(adjacency_list(g)[i].1 == if ids.len() == 0 {
        None
    } else {
        Some(ids)
    });
    assert forall|k: Seq<char>|
        ids.contains(k) <==> exists|q: int|
            0 <= q < g.edges.len() && ((#[trigger] g.edges[q]).start == a || g.edges[q].end == a)
                && g.edges[q].id == k by {
        lemma_incident_contains(g.edges, a, k);
        if ids.contains(k) {
            let q = choose|q: int|
                0 <= q < g.edges.len() && spec_is_endvertice(#[trigger] g.edges[q], a) && g.edges[q].id == k;
            assert(g.edges[q].start == a || g.edges[q].end == a);
        }
        if exists|q: int|
            0 <= q < g.edges.len() && ((#[trigger] g.edges[q]).start == a || g.edges[q].end == a)
                && g.edges[q].id == k {
            let q = choose|q: int|
                0 <= q < g.edges.len() && ((#[trigger] g.edges[q]).start == a || g.edges[q].end == a)
                    && g.edges[q].id == k;
            assert(spec_is_endvertice(g.edges[q], a));
        }
    }
    if ids.len() > 0 {
        let k = choose|k: int| 0 <= k < g.edges.len() && spec_is_endvertice(#[trigger] g.edges[k], a);
        assert((g.edges[k]).start == a || g.edges[k].end == a);
    } else {
        assert forall|q: int| 0 <= q < g.edges.len() implies (#[trigger] g.edges[q]).start != a
            && g.edges[q].end != a by {
            if g.edges[q].start == a || g.edges[q].end == a {
                assert(spec_is_endvertice(g.edges[q], a));
            }
        }
    }
}

/// The keys of `entries`.
pub open spec fn entry_keys(entries: Seq<(Seq<char>, Seq<char>, bool)>) -> Seq<(Seq<char>, Seq<char>)> {
    entries.map_values(|t: (Seq<char>, Seq<char>, bool)| (t.0, t.1))
}

/// A listing of a map holds each key of the map once and nothing else: its
/// keys form the map's domain, there are as many entries as keys, and each
/// entry holds the map's value for its key.
pub proof fn lemma_lists_map_keys(
    entries: Seq<(Seq<char>, Seq<char>, bool)>,
    m: Map<(Seq<char>, Seq<char>), bool>,
)
    requires
        lists_map(entries, m),
    ensures
        entry_keys(entries).to_set() == m.dom(),
        m.dom().finite(),
        m.dom().len() == entries.len(),
        forall|i: int| 0 <= i < entries.len() ==> m[(#[trigger] entries[i].0, entries[i].1)] == entries[i].2,
{
    let ks = entry_keys(entries);
    assert forall|k: (Seq<char>, Seq<char>)| ks.to_set().contains(k) <==> m.dom().contains(k) by {
        if ks.contains(k) {
            let i = choose|i: int| 0 <= i < ks.len() && ks[i] == k;
            assert(m.contains_key((entries[i].0, entries[i].1)));
        }
        if m.contains_key(k) {
            let i = choose|i: int| 0 <= i < entries.len() && (#[trigger] entries[i].0, entries[i].1) == k;
            assert(ks[i] == k);
        }
    }
    assert(ks.to_set() =~= m.dom());
    assert forall|p: int, q: int| 0 <= p < ks.len() && 0 <= q < ks.len() && p != q implies ks[p] != ks[q] by {
        if p < q {
            assert((entries[p].0, entries[p].1) != (entries[q].0, entries[q].1));
        } else {
            assert((entries[q].0, entries[q].1) != (entries[p].0, entries[p].1));
        }
    }
    ks.unique_seq_to_set();
}

/// When `p` holds of `s[i]` and of no earlier element, `s[i]` is the first
/// element of `s.filter(p)`.
proof fn lemma_filter_first<A>(s: Seq<A>, p: spec_fn(A) -> bool, i: int)
    requires
        0 <= i < s.len(),
        p(s[i]),
        forall|j: int| 0 <= j < i ==> !p(#[trigger] s[j]),
    ensures
        s.filter(p).len() > 0,
        s.filter(p)[0] == s[i],
    decreases s.len(),
{
    reveal_with_fuel(Seq::filter, 1);
    let t = s.drop_last();
    if i < s.len() - 1 {
        assert forall|j: int| 0 <= j < i implies !p(#[trigger] t[j]) by {
            assert(t[j] == s[j]);
        }
        assert(p(t[i]));
        lemma_filter_first(t, p, i);
    } else {
        assert forall|j: int| 0 <= j < t.len() implies !p(#[trigger] t[j]) by {
            assert(t[j] == s[j]);
        }
        lemma_filter_none(t, p);
    }
}

/// When `p` holds of no element of `s`, `s.filter(p)` is empty.
proof fn lemma_filter_none<A>(s: Seq<A>, p: spec_fn(A) -> bool)
    requires
        forall|j: int| 0 <= j < s.len() ==> !p(#[trigger] s[j]),
    ensures
        s.filter(p).len() == 0,
{
    if s.filter(p).len() > 0 {
        assert(p(s.filter(p)[0]));
        assert(s.filter(p).contains(s.filter(p)[0]));
        s.lemma_filter_contains_rev(p, s.filter(p)[0]);
    }
}

/// Looking up `id` gives the first of the objects with identifier `id` in
/// their order (the first element of their filter by identifier), and
/// `NotInGraph` with the identifier and the graph's identifier exactly when
/// there is none.
pub proof fn lemma_lookup_first<T: GraphObject>(
    objs: Seq<T>,
    id: Seq<char>,
    gid: Seq<char>,
    res: Result<&T, PGMRustError>,
)
    requires
        lookup_result(objs, id, gid, res),
    ensures
        res is Ok <==> objs.filter(|o: T| o.spec_id() == id).len() > 0,
        res matches Ok(h) ==> *h == objs.filter(|o: T| o.spec_id() == id)[0],
        res matches Err(PGMRustError::NotInGraph(a, b)) ==> a@ == id && b@ == gid,
{
    let p = |o: T| o.spec_id() == id;
    match res {
        Ok(h) => {
            let i = choose|i: int| is_first_with_id(objs, id, i) && *h == objs[i];
            assert forall|j: int| 0 <= j < i implies !p(#[trigger] objs[j]) by {
                assert(objs[j].spec_id() != id);
            }
            lemma_filter_first(objs, p, i);
        },
        Err(PGMRustError::NotInGraph(a, b)) => {
            assert forall|j: int| 0 <= j < objs.len() implies !p(#[trigger] objs[j]) by {
                assert(objs[j].spec_id() != id);
            }
            lemma_filter_none(objs, p);
        },
    }
}

/// Some occurrence of `x` in `s` comes before every occurrence of `y`.
pub open spec fn occurs_before<A>(s: Seq<A>, x: A, y: A) -> bool {
    exists|i: int|
        0 <= i < s.len() && s[i] == x && forall|j: int| 0 <= j < s.len() && #[trigger] s[j] == y ==> i < j
}

/// `dedup` keeps the first occurrences in their order: of two elements of
/// `dedup(s)`, the earlier one occurs in `s` before every occurrence of the
/// later one.
pub proof fn lemma_dedup_order<A>(s: Seq<A>)
    ensures
        forall|p: int, q: int|
            0 <= p < q < dedup(s).len() ==> occurs_before(s, #[trigger] dedup(s)[p], #[trigger] dedup(s)[q]),
    decreases s.len(),
{
    if s.len() > 0 {
        let t = s.drop_last();
        let l = s.last();
        lemma_dedup_order(t);
        lemma_dedup(t);
        let d = dedup(t);
        assert forall|p: int, q: int|
            0 <= p < q < dedup(s).len() implies occurs_before(s, #[trigger] dedup(s)[p], #[trigger] dedup(s)[q]) by {
            if q < d.len() {
                assert(dedup(s)[p] == d[p] && dedup(s)[q] == d[q]);
                assert(occurs_before(t, d[p], d[q]));
                let i = choose|i: int|
                    0 <= i < t.len() && t[i] == d[p] && forall|j: int|
                        0 <= j < t.len() && #[trigger] t[j] == d[q] ==> i < j;
                assert(s[i] == t[i]);
                assert forall|j: int| 0 <= j < s.len() && #[trigger] s[j] == d[q] implies i < j by {
                    if j < t.len() {
                        assert(t[j] == s[j]);
                    }
                }
            } else {
                // dedup(s)[q] is l, which does not occur in t
                assert(!d.contains(l));
                assert(dedup(s)[q] == l);
                assert(dedup(s)[p] == d[p]);
                assert(d.contains(d[p]));
                assert(t.contains(d[p]));
                let i = choose|i: int| 0 <= i < t.len() && t[i] == d[p];
                assert(s[i] == t[i]);
                assert forall|j: int| 0 <= j < s.len() && #[trigger] s[j] == l implies i < j by {
                    if j < t.len() {
                        assert(t[j] == s[j]);
                        assert(t.contains(l));
                    }
                }
            }
        }
    }
}

/// The keys of the adjacency matrix are exactly both orientations of every
/// edge and every ordered pair of vertices; a key maps to `true` exactly
/// when some edge has its two vertices as end vertices.
pub proof fn lemma_adjmat_keys(g: GraphView, a: Seq<char>, b: Seq<char>)
    ensures
        adjacency_matrix(g).contains_key((a, b)) <==> (exists|k: int|
            0 <= k < g.edges.len() && ((#[trigger] g.edges[k].start == a && g.edges[k].end == b) || (
            g.edges[k].start == b && g.edges[k].end == a))) || (g.nodes.contains(a) && g.nodes.contains(
            b)),
        adjacency_matrix(g).contains_key((a, b)) ==> (adjacency_matrix(g)[(a, b)] <==> exists|k: int|
            0 <= k < g.edges.len() && ((#[trigger] g.edges[k].start == a && g.edges[k].end == b) || (
            g.edges[k].start == b && g.edges[k].end == a))),
{
}

/// The default edge policy accepts an edge exactly when each of its end
/// vertices has the identifier of some node of `ns`.
pub proof fn lemma_default_policy(e: EdgeView, ns: Seq<&Node>)
    ensures
        both_ends_in(e, node_ids(ns)) <==> (exists|i: int| 0 <= i < ns.len() && #[trigger] ns[i]@ == e.start)
            && (exists|j: int| 0 <= j < ns.len() && #[trigger] ns[j]@ == e.end),
{
    lemma_node_ids(ns);
}

} // verus!
