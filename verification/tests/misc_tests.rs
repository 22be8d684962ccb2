use pgm_rust::errors::PGMRustError;
use pgm_rust::misc::{
    by_id, check_isomorphism, default_edge_policy, get_subgraph_by_vertices, to_adjacencylist,
    to_adjmat,
};
use pgm_rust::types::{is_endvertice, Edge, EdgeType, Graph, GraphObject, Node};
use std::collections::HashMap;
use std::collections::HashSet;

fn mk_node(n_id: &str) -> Node {
    Node::empty(n_id)
}

fn mk_nodes(ns: Vec<&str>) -> Vec<Node> {
    let mut hs: Vec<Node> = Vec::new();
    for n in ns {
        hs.push(mk_node(n));
    }
    hs
}

fn mk_uedge(n1_id: &str, n2_id: &str, e_id: &str) -> Edge {
    Edge::empty(e_id, EdgeType::Undirected, n1_id, n2_id)
}

fn mk_edges(es: Vec<Edge>) -> Vec<Edge> {
    let mut hs = Vec::new();
    for e in es {
        hs.push(e);
    }
    hs
}

fn mk_g1() -> Graph {
    let e1 = mk_uedge("n1", "n3", "e1");
    let e2 = mk_uedge("n2", "n3", "e2");
    let e3 = mk_uedge("n2", "n4", "e3");
    let nset = mk_nodes(vec!["n1", "n2", "n3", "n4", "n5"]);
    let h2 = mk_edges(vec![e1, e2, e3]);
    Graph::new("g1".to_string(), nset, h2)
}

fn mk_refset(es: Vec<&str>) -> HashSet<String> {
    let mut ns: HashSet<String> = HashSet::new();
    for e in es {
        ns.insert(e.to_string());
    }
    ns
}

fn adjlist_as_map(g: &Graph) -> HashMap<String, Option<HashSet<String>>> {
    let lst = to_adjacencylist(g);
    let n = lst.len();
    let m: HashMap<String, Option<HashSet<String>>> = lst
        .into_iter()
        .map(|(k, v)| (k, v.map(|ids| ids.into_iter().collect())))
        .collect();
    assert_eq!(m.len(), n);
    m
}

fn adjmat_as_map(g: &Graph) -> HashMap<(String, String), bool> {
    let mat = to_adjmat(g);
    let n = mat.len();
    let m: HashMap<(String, String), bool> =
        mat.into_iter().map(|(a, b, v)| ((a, b), v)).collect();
    // every key is listed once
    assert_eq!(m.len(), n);
    m
}

fn key(a: &str, b: &str) -> (String, String) {
    (a.to_string(), b.to_string())
}

#[test]
fn test_to_adjacencylist() {
    let g = mk_g1();
    let alst = adjlist_as_map(&g);
    let n4_ns = mk_refset(vec!["e3"]);
    //
    let n3_ns = mk_refset(vec!["e1", "e2"]);
    //
    let n2_ns = mk_refset(vec!["e2", "e3"]);
    //
    let n1_ns = mk_refset(vec!["e1"]);
    //
    let mut comp = HashMap::new();
    comp.insert("n5".to_string(), None);
    comp.insert("n4".to_string(), Some(n4_ns));
    comp.insert("n3".to_string(), Some(n3_ns));
    comp.insert("n2".to_string(), Some(n2_ns));
    comp.insert("n1".to_string(), Some(n1_ns));
    assert_eq!(comp, alst);
}

#[test]
fn test_to_adjmat() {
    let a = mk_node("a");
    let b = mk_node("b");
    let f = mk_node("f");
    let e = mk_node("e");
    let ae = mk_uedge("a", "e", "ae");
    let af = mk_uedge("a", "f", "af");
    let ef = mk_uedge("e", "f", "ef");
    let nset = mk_nodes(vec!["a", "b", "f", "e"]);
    let h2 = mk_edges(vec![ae, af, ef]);
    let g1 = Graph::new("g1".to_string(), nset, h2);
    let mut comp = HashMap::new();
    comp.insert((b.id().clone(), b.id().clone()), false);
    comp.insert((b.id().clone(), e.id().clone()), false);
    comp.insert((b.id().clone(), f.id().clone()), false);
    comp.insert((b.id().clone(), a.id().clone()), false);
    comp.insert((e.id().clone(), b.id().clone()), false);
    comp.insert((e.id().clone(), e.id().clone()), false);
    comp.insert((e.id().clone(), f.id().clone()), true);
    comp.insert((e.id().clone(), a.id().clone()), true);
    comp.insert((f.id().clone(), b.id().clone()), false);
    comp.insert((f.id().clone(), e.id().clone()), true);
    comp.insert((f.id().clone(), f.id().clone()), false);
    comp.insert((f.id().clone(), a.id().clone()), true);
    comp.insert((a.id().clone(), b.id().clone()), false);
    comp.insert((a.id().clone(), e.id().clone()), true);
    comp.insert((a.id().clone(), f.id().clone()), true);
    comp.insert((a.id().clone(), a.id().clone()), false);
    let amat = adjmat_as_map(&g1);
    assert_eq!(amat, comp);
}

#[test]
fn test_get_subgraph_by_vertices_default_edge_policy() {
    let g1 = mk_g1();
    let n1 = mk_node("n1");
    let n2 = mk_node("n2");
    let n4 = mk_node("n4");
    let mut nrefset = Vec::new();
    nrefset.push(&n1);
    nrefset.push(&n2);
    nrefset.push(&n4);
    let nrefset2: HashSet<&Node> = nrefset.iter().cloned().collect();
    let mut erefset = HashSet::new();
    let e1 = mk_uedge("n2", "n4", "e3");
    erefset.insert(&e1);
    let opt: Option<fn(&Edge, &Vec<&Node>) -> bool> = None;
    let result: (Vec<&Node>, Vec<&Edge>) = get_subgraph_by_vertices(&g1, nrefset, opt);
    let (nodes, edges) = result;
    let nodes: HashSet<&Node> = nodes.into_iter().collect();
    let edges: HashSet<&Edge> = edges.into_iter().collect();
    assert_eq!(nodes, nrefset2);

    //
    assert_eq!(edges, erefset);
}

#[test]
fn test_get_subgraph_by_vertices_inclusive_edge_policy() {
    let g1 = mk_g1();
    let n1 = mk_node("n1");
    let n3 = mk_node("n3");
    let mut nrefset = Vec::new();
    nrefset.push(&n1);
    nrefset.push(&n3);
    let nrefset2: HashSet<&Node> = nrefset.iter().cloned().collect();
    let mut erefset = HashSet::new();
    let e1 = mk_uedge("n1", "n3", "e1");
    let e2 = mk_uedge("n2", "n3", "e2");
    erefset.insert(&e1);
    erefset.insert(&e2);
    let policy = |e: &Edge, vs: &Vec<&Node>| -> bool {
        let n1 = e.start();
        let n2 = e.end();
        let mut n1_c = false;
        let mut n2_c = false;
        for v in vs {
            let vid = v.id();
            if vid == n1.id() {
                n1_c = true;
            }
            if vid == n2.id() {
                n2_c = true;
            }
        }
        n1_c || n2_c
    };

    let opt = Some(policy);
    let result: (Vec<&Node>, Vec<&Edge>) = get_subgraph_by_vertices(&g1, nrefset, opt);
    let (nodes, edges) = result;
    let nodes: HashSet<&Node> = nodes.into_iter().collect();
    let edges: HashSet<&Edge> = edges.into_iter().collect();
    assert_eq!(nodes, nrefset2);

    //
    assert_eq!(edges, erefset);
}

// --- check_isomorphism tests ---

fn mk_triangle(prefix: &str) -> Graph {
    let a = mk_node(&format!("{prefix}a"));
    let b = mk_node(&format!("{prefix}b"));
    let c = mk_node(&format!("{prefix}c"));
    let e1 = mk_uedge(&format!("{prefix}a"), &format!("{prefix}b"), &format!("{prefix}e1"));
    let e2 = mk_uedge(&format!("{prefix}b"), &format!("{prefix}c"), &format!("{prefix}e2"));
    let e3 = mk_uedge(&format!("{prefix}a"), &format!("{prefix}c"), &format!("{prefix}e3"));
    let nset = vec![a, b, c];
    let eset = mk_edges(vec![e1, e2, e3]);
    Graph::new("g".to_string(), nset, eset)
}

#[test]
fn test_check_isomorphism_valid() {
    // g1: triangle {a,b,c}, g2: triangle {x,y,z}
    // f: a->x, b->y, c->z is a valid isomorphism
    let g1 = mk_triangle("g1_");
    let g2 = mk_triangle("g2_");
    let f = |n: &Node| -> Node {
        match n.id().trim_start_matches("g1_") {
            "a" => mk_node("g2_a"),
            "b" => mk_node("g2_b"),
            _ => mk_node("g2_c"),
        }
    };
    assert!(check_isomorphism(&g1, &g2, f));
}

#[test]
fn test_check_isomorphism_non_injective() {
    // f maps two distinct nodes to the same target — not injective
    let g1 = mk_triangle("g1_");
    let g2 = mk_triangle("g2_");
    let f = |_n: &Node| -> Node { mk_node("g2_a") }; // all map to same node
    assert!(!check_isomorphism(&g1, &g2, f));
}

#[test]
fn test_check_isomorphism_edge_breaking() {
    // g1: triangle {a,b,c} with edges a-b, b-c, a-c
    // g2: path   {x,y,z} with edges x-y, y-z only (missing x-z)
    let g1 = mk_triangle("g1_");
    let e4 = mk_uedge("g2_x", "g2_y", "g2_e1");
    let e5 = mk_uedge("g2_y", "g2_z", "g2_e2");
    // deliberately only 2 edges — size guard will catch this
    let g2: Graph = Graph::new(
        "g2".to_string(),
        vec![mk_node("g2_x"), mk_node("g2_y"), mk_node("g2_z")],
        mk_edges(vec![e4, e5]),
    );
    let f = |n: &Node| -> Node {
        match n.id().trim_start_matches("g1_") {
            "a" => mk_node("g2_x"),
            "b" => mk_node("g2_y"),
            _ => mk_node("g2_z"),
        }
    };
    assert!(!check_isomorphism(&g1, &g2, f));
}

#[test]
fn test_check_isomorphism_size_mismatch() {
    // g1 has 3 nodes, g2 has 4 nodes — trivially not isomorphic
    let g1 = mk_triangle("g1_");
    let g2 = mk_g1(); // 5 nodes, 3 edges
    let f = |n: &Node| -> Node { mk_node(n.id()) };
    assert!(!check_isomorphism(&g1, &g2, f));
}

fn mk_path(prefix: &str) -> Graph {
    // a-b-c-d
    let a = mk_node(&format!("{prefix}a"));
    let b = mk_node(&format!("{prefix}b"));
    let c = mk_node(&format!("{prefix}c"));
    let d = mk_node(&format!("{prefix}d"));
    let e1 = mk_uedge(&format!("{prefix}a"), &format!("{prefix}b"), &format!("{prefix}e1"));
    let e2 = mk_uedge(&format!("{prefix}b"), &format!("{prefix}c"), &format!("{prefix}e2"));
    let e3 = mk_uedge(&format!("{prefix}c"), &format!("{prefix}d"), &format!("{prefix}e3"));
    let nset = vec![a, b, c, d];
    let eset = mk_edges(vec![e1, e2, e3]);
    Graph::new("g".to_string(), nset, eset)
}

fn mk_star(prefix: &str) -> Graph {
    // hub connected to 3 leaves: hub-l1, hub-l2, hub-l3
    let hub = mk_node(&format!("{prefix}hub"));
    let l1 = mk_node(&format!("{prefix}l1"));
    let l2 = mk_node(&format!("{prefix}l2"));
    let l3 = mk_node(&format!("{prefix}l3"));
    let e1 = mk_uedge(&format!("{prefix}hub"), &format!("{prefix}l1"), &format!("{prefix}e1"));
    let e2 = mk_uedge(&format!("{prefix}hub"), &format!("{prefix}l2"), &format!("{prefix}e2"));
    let e3 = mk_uedge(&format!("{prefix}hub"), &format!("{prefix}l3"), &format!("{prefix}e3"));
    let nset = vec![hub, l1, l2, l3];
    let eset = mk_edges(vec![e1, e2, e3]);
    Graph::new("g".to_string(), nset, eset)
}

#[test]
fn test_check_isomorphism_wrong_structure() {
    // path and star: same size (4 nodes, 3 edges), but different structure
    let g1 = mk_path("g1_");
    let g2 = mk_star("g2_");
    // f: a->hub, b->l1, c->l2, d->l3
    // bijective, but b-c in g1 maps to l1-l2, which doesn't exist in g2
    let f = |n: &Node| -> Node {
        match n.id().trim_start_matches("g1_") {
            "a" => mk_node("g2_hub"),
            "b" => mk_node("g2_l1"),
            "c" => mk_node("g2_l2"),
            _ => mk_node("g2_l3"),
        }
    };
    assert!(!check_isomorphism(&g1, &g2, f));
}

// --- further scenarios ---

#[test]
fn test_adjacencylist_order_and_shape() {
    let g = mk_g1();
    let lst = to_adjacencylist(&g);
    let ids: Vec<&str> = lst.iter().map(|(k, _)| k.as_str()).collect();
    assert_eq!(ids, vec!["n1", "n2", "n3", "n4", "n5"]);
    assert_eq!(lst[1].1, Some(vec!["e2".to_string(), "e3".to_string()]));
    assert_eq!(lst[4].1, None);
}

#[test]
fn test_adjacencylist_lists_edge_once() {
    // a self-loop has the vertex as both ends; its identifier is listed once
    let g = Graph::new(
        "g".to_string(),
        mk_nodes(vec!["a"]),
        mk_edges(vec![mk_uedge("a", "a", "loop")]),
    );
    let lst = to_adjacencylist(&g);
    assert_eq!(lst, vec![("a".to_string(), Some(vec!["loop".to_string()]))]);
}

#[test]
fn test_adjacencylist_empty_graph() {
    let g = Graph::new("g".to_string(), Vec::new(), Vec::new());
    assert!(to_adjacencylist(&g).is_empty());
    assert!(to_adjmat(&g).is_empty());
}

#[test]
fn test_adjmat_symmetric() {
    let g = mk_g1();
    let m = adjmat_as_map(&g);
    assert_eq!(m.len(), 25);
    for ((a, b), v) in m.iter() {
        assert_eq!(m.get(&(b.clone(), a.clone())), Some(v));
    }
    assert_eq!(m.get(&key("n3", "n1")), Some(&true));
    assert_eq!(m.get(&key("n1", "n2")), Some(&false));
}

#[test]
fn test_adjmat_edge_outside_vertices() {
    // an edge to a vertex the graph does not hold still enters the matrix
    let g = Graph::new(
        "g".to_string(),
        mk_nodes(vec!["a"]),
        mk_edges(vec![mk_uedge("a", "z", "az")]),
    );
    let m = adjmat_as_map(&g);
    assert_eq!(m.len(), 3);
    assert_eq!(m.get(&key("a", "z")), Some(&true));
    assert_eq!(m.get(&key("z", "a")), Some(&true));
    assert_eq!(m.get(&key("a", "a")), Some(&false));
    assert_eq!(m.get(&key("z", "z")), None);
}

#[test]
fn test_adjlist_agrees_with_adjmat() {
    let g = mk_g1();
    let lst = to_adjacencylist(&g);
    let m = adjmat_as_map(&g);
    for (a, edges) in lst.iter() {
        let row_has_true = m.iter().any(|((x, _), v)| x == a && *v);
        assert_eq!(edges.is_some(), row_has_true);
    }
}

#[test]
fn test_by_id_vertex_found() {
    let g = mk_g1();
    let n = by_id(&g, "n3", |g: &Graph| g.vertices()).unwrap();
    assert_eq!(n.id(), "n3");
}

#[test]
fn test_by_id_edge_found() {
    let g = mk_g1();
    let e = by_id(&g, "e2", |g: &Graph| g.edges()).unwrap();
    assert_eq!(e.id(), "e2");
    assert_eq!(e.start().id(), "n2");
    assert_eq!(e.end().id(), "n3");
}

#[test]
fn test_by_id_not_in_graph() {
    let g = mk_g1();
    match by_id(&g, "n9", |g: &Graph| g.vertices()) {
        Err(PGMRustError::NotInGraph(id, gid)) => {
            assert_eq!(id, "n9");
            assert_eq!(gid, "g1");
        }
        Ok(_) => panic!("n9 is not a vertex of g1"),
    }
    // an edge identifier is not a vertex identifier
    assert!(by_id(&g, "e1", |g: &Graph| g.vertices()).is_err());
}

#[test]
fn test_default_edge_policy() {
    let a = mk_node("a");
    let b = mk_node("b");
    let e = mk_uedge("a", "b", "ab");
    assert!(default_edge_policy(&e, &vec![&a, &b]));
    assert!(!default_edge_policy(&e, &vec![&a]));
    assert!(!default_edge_policy(&e, &vec![]));
}

#[test]
fn test_is_endvertice() {
    let e = mk_uedge("a", "b", "ab");
    assert!(is_endvertice(&e, &mk_node("a")));
    assert!(is_endvertice(&e, &mk_node("b")));
    assert!(!is_endvertice(&e, &mk_node("c")));
}

#[test]
fn test_subgraph_of_all_vertices() {
    let g = mk_path("p_");
    let all: Vec<&Node> = g.vertices().iter().collect();
    let opt: Option<fn(&Edge, &Vec<&Node>) -> bool> = None;
    let (nodes, edges) = get_subgraph_by_vertices(&g, all, opt);
    assert_eq!(nodes.len(), 4);
    assert_eq!(edges.len(), 3);
    let ids: Vec<&str> = nodes.iter().map(|n| n.id().as_str()).collect();
    assert_eq!(ids, vec!["p_a", "p_b", "p_c", "p_d"]);
}

#[test]
fn test_subgraph_keeps_edges_between_kept_vertices() {
    let g = mk_star("s_");
    let hub = mk_node("s_hub");
    let l2 = mk_node("s_l2");
    let opt: Option<fn(&Edge, &Vec<&Node>) -> bool> = None;
    let (nodes, edges) = get_subgraph_by_vertices(&g, vec![&l2, &hub], opt);
    let ids: Vec<&str> = nodes.iter().map(|n| n.id().as_str()).collect();
    assert_eq!(ids, vec!["s_hub", "s_l2"]);
    assert_eq!(edges.len(), 1);
    assert_eq!(edges[0].id(), "s_e2");
}

#[test]
fn test_subgraph_unknown_vertex_ignored() {
    let g = mk_g1();
    let z = mk_node("zz");
    let opt: Option<fn(&Edge, &Vec<&Node>) -> bool> = None;
    let (nodes, edges) = get_subgraph_by_vertices(&g, vec![&z], opt);
    assert!(nodes.is_empty());
    assert!(edges.is_empty());
}

#[test]
fn test_subgraph_policy_rejecting_all() {
    let g = mk_g1();
    let n1 = mk_node("n1");
    let (nodes, edges) =
        get_subgraph_by_vertices(&g, vec![&n1], Some(|_e: &Edge, _vs: &Vec<&Node>| false));
    assert_eq!(nodes.len(), 1);
    assert!(edges.is_empty());
}

#[test]
fn test_check_isomorphism_identity() {
    let g = mk_star("s_");
    assert!(check_isomorphism(&g, &g, |n: &Node| mk_node(n.id())));
    let h = mk_g1();
    assert!(check_isomorphism(&h, &h, |n: &Node| mk_node(n.id())));
}

#[test]
fn test_check_isomorphism_reversed_edge() {
    // direction is ignored: a->b maps onto y->x
    let g1 = Graph::new(
        "g1".to_string(),
        mk_nodes(vec!["a", "b"]),
        mk_edges(vec![mk_uedge("a", "b", "e")]),
    );
    let g2 = Graph::new(
        "g2".to_string(),
        mk_nodes(vec!["x", "y"]),
        mk_edges(vec![mk_uedge("y", "x", "e")]),
    );
    let f = |n: &Node| -> Node {
        if n.id() == "a" {
            mk_node("x")
        } else {
            mk_node("y")
        }
    };
    assert!(check_isomorphism(&g1, &g2, f));
}

#[test]
fn test_check_isomorphism_not_onto() {
    // injective, but its image misses a vertex of g2
    let g1 = Graph::new("g1".to_string(), mk_nodes(vec!["a", "b"]), Vec::new());
    let g2 = Graph::new("g2".to_string(), mk_nodes(vec!["x", "y"]), Vec::new());
    let f = |n: &Node| -> Node {
        if n.id() == "a" {
            mk_node("x")
        } else {
            mk_node("w")
        }
    };
    assert!(!check_isomorphism(&g1, &g2, f));
}

#[test]
fn test_check_isomorphism_compose() {
    let g1 = mk_path("p_");
    let g2 = mk_path("q_");
    let g3 = mk_path("r_");
    let f = |n: &Node| -> Node { mk_node(&n.id().replacen("p_", "q_", 1)) };
    let h = |n: &Node| -> Node { mk_node(&n.id().replacen("q_", "r_", 1)) };
    assert!(check_isomorphism(&g1, &g2, f));
    assert!(check_isomorphism(&g2, &g3, h));
    assert!(check_isomorphism(&g1, &g3, |n: &Node| h(&f(n))));
}

#[test]
fn test_graph_new_drops_repeats() {
    let g = Graph::new(
        "g".to_string(),
        mk_nodes(vec!["a", "b", "a"]),
        mk_edges(vec![mk_uedge("a", "b", "e"), mk_uedge("a", "b", "e"), mk_uedge("b", "a", "e")]),
    );
    let ids: Vec<&str> = g.vertices().iter().map(|n| n.id().as_str()).collect();
    assert_eq!(ids, vec!["a", "b"]);
    assert_eq!(g.edges().len(), 2);
    assert_eq!(g.id(), "g");
}

#[test]
fn test_edge_accessors() {
    let e = Edge::new("e".to_string(), EdgeType::Directed, Node::new("s".to_string()), mk_node("t"));
    assert_eq!(e.edge_type(), EdgeType::Directed);
    assert_eq!(e.start().id(), "s");
    assert_eq!(e.end().id(), "t");
}

#[test]
fn test_check_isomorphism_parallel_edges() {
    // f is a bijection that maps every edge onto an edge, but c and d are
    // not adjacent in g1 while their images y and z are adjacent in g2
    let g1 = Graph::new(
        "g1".to_string(),
        mk_nodes(vec!["a", "b", "c", "d"]),
        mk_edges(vec![mk_uedge("a", "b", "e1"), mk_uedge("a", "b", "e2")]),
    );
    let g2 = Graph::new(
        "g2".to_string(),
        mk_nodes(vec!["w", "x", "y", "z"]),
        mk_edges(vec![mk_uedge("w", "x", "e1"), mk_uedge("y", "z", "e2")]),
    );
    let f = |n: &Node| -> Node {
        match n.id().as_str() {
            "a" => mk_node("w"),
            "b" => mk_node("x"),
            "c" => mk_node("y"),
            _ => mk_node("z"),
        }
    };
    assert!(!check_isomorphism(&g1, &g2, f));
}

#[test]
fn test_check_isomorphism_edge_outside_vertices() {
    // an edge to a vertex outside the graph is mapped like any other
    let g = Graph::new(
        "g".to_string(),
        mk_nodes(vec!["a"]),
        mk_edges(vec![mk_uedge("a", "z", "az")]),
    );
    assert!(check_isomorphism(&g, &g, |n: &Node| mk_node(n.id())));
}

#[test]
fn test_check_isomorphism_inverse() {
    let g1 = mk_path("p_");
    let g2 = mk_path("q_");
    let f = |n: &Node| -> Node { mk_node(&n.id().replacen("p_", "q_", 1)) };
    let h = |n: &Node| -> Node { mk_node(&n.id().replacen("q_", "p_", 1)) };
    assert!(check_isomorphism(&g1, &g2, f));
    assert!(check_isomorphism(&g2, &g1, h));
}
