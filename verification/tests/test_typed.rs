use std::collections::BTreeSet;

use ttgraph::{deserialize_graph, Context, Graph, GraphSerializer, Link, Node, NodeIndex, Schema, Transaction};

type Mutate = Box<dyn FnOnce(&mut Node<String>)>;
type Update = Box<dyn FnOnce(Node<String>) -> Node<String>>;
type Tx = Transaction<String, Mutate, Update>;

const NODE_A: usize = 0;
const NODE_B: usize = 1;
const EDGE: usize = 2;

fn node_a(to: NodeIndex, name: &str) -> Node<String> {
    Node::new(NODE_A, vec![Link::point(to)], name.to_string())
}

fn node_b(a: NodeIndex, x: NodeIndex) -> Node<String> {
    Node::new(NODE_B, vec![Link::point(a), Link::point(x)], String::new())
}

fn edge(from: NodeIndex, to: NodeIndex) -> Node<String> {
    Node::new(EDGE, vec![Link::point(from), Link::point(to)], String::new())
}

#[test]
fn test_typed_can_compile() {
    let context = Context::new();
    let mut graph: Graph<String> = Graph::new(&context);
    let mut trans = Tx::new(&context);
    let n = trans.insert(edge(NodeIndex::empty(), NodeIndex::empty())).unwrap();
    graph.commit(trans).unwrap();

    let mut trans = Tx::new(&context);
    let b = trans.reserve().unwrap();
    let a = trans.insert(node_a(b, "A")).unwrap();
    trans.fill_back(b, node_b(a, n));
    graph.commit(trans).unwrap();

    assert_eq!(graph.len(), 3);
    let order: Vec<NodeIndex> = graph.iter().iter().map(|e| e.0).collect();
    assert_eq!(order, vec![n, a, b]);
    assert_eq!(graph.get(a).unwrap().data, "A");
    assert_eq!(graph.get(a).unwrap().iter_links(0), vec![b]);
    assert!(!graph.is_empty());
}

fn c_node(tos: &[NodeIndex]) -> Node<String> {
    Node::new(0, vec![Link::bset(&tos.to_vec())], String::new())
}

fn tos(graph: &Graph<String>, idx: NodeIndex) -> BTreeSet<NodeIndex> {
    BTreeSet::from_iter(graph.get(idx).unwrap().iter_links(0))
}

#[test]
fn test_typed_redirect_test() {
    let context = Context::new();
    let mut graph: Graph<String> = Graph::new(&context);
    let mut trans = Tx::new(&context);

    let a = trans.reserve().unwrap();
    let b = trans.reserve().unwrap();
    let c = trans.reserve().unwrap();
    let d = trans.insert(c_node(&[])).unwrap();
    trans.fill_back(c, c_node(&[d]));
    trans.fill_back(b, c_node(&[c, d]));
    trans.fill_back(a, c_node(&[b, c, d]));

    graph.commit(trans).unwrap();

    trans = Tx::new(&context);
    trans.redirect_links(c, b);
    trans.redirect_links(b, a);
    trans.redirect_links(d, c);
    graph.commit(trans).unwrap();

    assert_eq!(tos(&graph, a), BTreeSet::from([a]));
    assert_eq!(tos(&graph, b), BTreeSet::from([a]));
    assert_eq!(tos(&graph, c), BTreeSet::from([a]));
    assert_eq!(tos(&graph, d), BTreeSet::new());

    let listed = GraphSerializer::from(graph);
    let (_ctx2, graph2) = deserialize_graph(listed, Schema::new()).unwrap();
    assert_eq!(tos(&graph2, a), BTreeSet::from([a]));
    assert_eq!(graph2.len(), 4);
}

#[test]
fn test_typed_uncommit_test() {
    let context = Context::new();
    let _graph: Graph<String> = Graph::new(&context);
    let mut trans = Tx::new(&context);

    let a = trans.reserve().unwrap();
    let b = trans.reserve().unwrap();
    let c = trans.reserve().unwrap();
    let d = trans.insert(c_node(&[])).unwrap();
    trans.fill_back(c, c_node(&[d]));
    trans.fill_back(b, c_node(&[c, d]));
    trans.fill_back(a, c_node(&[b, c, d]));
    trans.give_up();
}

#[test]
fn redirect_all_links_reaches_staged_nodes() {
    let context = Context::new();
    let mut graph: Graph<String> = Graph::new(&context);
    let mut trans = Tx::new(&context);
    let a = trans.reserve().unwrap();
    let b = trans.reserve().unwrap();
    let c = trans.reserve().unwrap();
    let d = trans.insert(c_node(&[])).unwrap();
    trans.fill_back(c, c_node(&[d]));
    trans.fill_back(b, c_node(&[c, d]));
    trans.fill_back(a, c_node(&[b, c, d]));
    // The nodes are not committed yet; their references are redirected all the same.
    trans.redirect_all_links(c, b);
    trans.redirect_all_links(b, a);
    trans.redirect_all_links(d, c);
    graph.commit(trans).unwrap();

    assert_eq!(tos(&graph, a), BTreeSet::from([a]));
    assert_eq!(tos(&graph, b), BTreeSet::from([a]));
    assert_eq!(tos(&graph, c), BTreeSet::from([a]));
    assert_eq!(tos(&graph, d), BTreeSet::new());
    assert!(graph.check_backlinks());
}

#[test]
fn redirect_links_leaves_staged_nodes_alone() {
    let context = Context::new();
    let mut graph: Graph<String> = Graph::new(&context);
    let mut trans = Tx::new(&context);
    let a = trans.insert(c_node(&[])).unwrap();
    let b = trans.insert(c_node(&[])).unwrap();
    let c = trans.insert(c_node(&[a])).unwrap();
    graph.commit(trans).unwrap();

    let mut trans = Tx::new(&context);
    let d = trans.insert(c_node(&[a])).unwrap();
    trans.redirect_links(a, b);
    graph.commit(trans).unwrap();

    assert_eq!(tos(&graph, c), BTreeSet::from([b]));
    assert_eq!(tos(&graph, d), BTreeSet::from([a]));
    assert!(graph.check_backlinks());
}
