use std::collections::BTreeSet;

use ttgraph::{
    deserialize_graph, Context, Graph, GraphSerializer, Link, LinkType, Node, NodeIndex, Schema, Source,
    Transaction,
};

#[derive(Debug, Clone, PartialEq)]
enum Data {
    A { name: String },
    B { data1: usize },
    Empty { x: usize },
    Plain,
}

type Mutate = Box<dyn FnOnce(&mut Node<Data>)>;
type Update = Box<dyn FnOnce(Node<Data>) -> Node<Data>>;
type Tx = Transaction<Data, Mutate, Update>;

const NODE_A: usize = 0;
const NODE_B: usize = 1;
const NODE_EMPTY: usize = 2;

fn node_a(to: NodeIndex, name: &str) -> Node<Data> {
    Node::new(NODE_A, vec![Link::point(to)], Data::A { name: name.to_string() })
}

fn node_b(a: NodeIndex, x: NodeIndex, data1: usize) -> Node<Data> {
    Node::new(NODE_B, vec![Link::point(a), Link::point(x)], Data::B { data1 })
}

fn node_empty(x: usize) -> Node<Data> {
    Node::new(NODE_EMPTY, vec![], Data::Empty { x })
}

#[test]
fn test_basic_can_compile() {
    let context = Context::new();
    let mut graph: Graph<Data> = Graph::new(&context);
    let mut trans = Tx::new(&context);
    let n = trans.insert(node_empty(0)).unwrap();
    graph.commit(trans).unwrap();
    for (idx, n) in graph.iter_type(NODE_EMPTY) {
        println!("{:?} {:?}", idx, n);
    }
    assert_eq!(graph.iter_type(NODE_EMPTY).len(), 1);

    let mut trans = Tx::new(&context);
    let b = trans.reserve().unwrap();
    let a = trans.insert(node_a(b, "A")).unwrap();
    trans.fill_back(b, node_b(a, n, 3));

    graph.commit(trans).unwrap();
    for (idx, n) in graph.iter() {
        println!("{:?} {:?}", idx, n);
    }
    let of_a: Vec<NodeIndex> = graph.iter_type(NODE_A).iter().map(|e| e.0).collect();
    assert_eq!(of_a, vec![a]);
    let of_b: Vec<NodeIndex> = graph.iter_type(NODE_B).iter().map(|e| e.0).collect();
    assert_eq!(of_b, vec![b]);
    println!("{:?}", graph);
    let kinds: Vec<LinkType> = graph.get(b).unwrap().links.iter().map(|l| l.kind()).collect();
    assert_eq!(kinds, vec![LinkType::Point, LinkType::Point]);
    assert_eq!(graph.get(a).unwrap().data, Data::A { name: "A".to_string() });
    assert_eq!(graph.get(b).unwrap().data, Data::B { data1: 3 });
    assert_eq!(graph.get(b).unwrap().iter_links(1), vec![n]);
    assert_eq!(graph.back_links(n), vec![(b, Source { field: 1, pos: 0 })]);
}

const TOS: usize = 0;

fn c_node(tos: &[NodeIndex]) -> Node<Data> {
    Node::new(0, vec![Link::hset(&tos.to_vec())], Data::Plain)
}

fn tos(graph: &Graph<Data>, idx: NodeIndex) -> BTreeSet<NodeIndex> {
    BTreeSet::from_iter(graph.get(idx).unwrap().iter_links(TOS))
}

#[test]
fn test_basic_redirect_test() {
    let context = Context::new();
    let mut graph: Graph<Data> = Graph::new(&context);
    let mut trans = Tx::new(&context);

    let a = trans.reserve().unwrap();
    let b = trans.reserve().unwrap();
    let c = trans.reserve().unwrap();
    let d = trans.insert(c_node(&[])).unwrap();
    trans.fill_back(c, c_node(&[d]));
    trans.fill_back(b, c_node(&[c, d]));
    trans.fill_back(a, c_node(&[b, c, d]));

    graph.commit(trans).unwrap();

    println!("{:?}", graph);
    trans = Tx::new(&context);

    // Redirect d -> c -> b -> a: every reference ends up at a.
    trans.redirect_links(c, b);
    trans.redirect_links(b, a);
    trans.redirect_links(d, c);

    graph.commit(trans).unwrap();

    println!("{:?}", graph);
    assert_eq!(tos(&graph, a), BTreeSet::from([a]));
    assert_eq!(tos(&graph, b), BTreeSet::from([a]));
    assert_eq!(tos(&graph, c), BTreeSet::from([a]));
    assert_eq!(tos(&graph, d), BTreeSet::new());
    assert!(graph.check_backlinks());

    let listed = GraphSerializer::from(graph);
    println!("{:?}", listed);
    assert_eq!(listed.ctx_id, context.id());
    let order: Vec<NodeIndex> = listed.nodes.iter().map(|e| e.0).collect();
    let (ctx2, graph2) = deserialize_graph(listed, Schema::new()).unwrap();
    println!("{:?}", graph2);
    assert_eq!(ctx2.id(), context.id());
    let order2: Vec<NodeIndex> = graph2.iter().iter().map(|e| e.0).collect();
    assert_eq!(order2, order);
    assert_eq!(tos(&graph2, a), BTreeSet::from([a]));
    assert_eq!(tos(&graph2, d), BTreeSet::new());
    assert!(graph2.check_backlinks());
}

#[test]
fn test_basic_uncommit_test() {
    let context = Context::new();
    let _graph: Graph<Data> = Graph::new(&context);
    let mut trans = Tx::new(&context);

    let a = trans.reserve().unwrap();
    let b = trans.reserve().unwrap();
    let c = trans.reserve().unwrap();
    let d = trans.insert(c_node(&[])).unwrap();
    trans.fill_back(c, c_node(&[d]));
    trans.fill_back(b, c_node(&[c, d]));
    trans.fill_back(a, c_node(&[b, c, d]));
}

fn vec_node(x: &[NodeIndex]) -> Node<Data> {
    Node::new(0, vec![Link::vec(x.to_vec())], Data::Plain)
}

#[test]
fn test_vec_empty() {
    let ctx = Context::new();
    let mut graph: Graph<Data> = Graph::new(&ctx);
    let mut trans = Tx::new(&ctx);
    let a = trans.reserve().unwrap();
    let b = trans.insert(vec_node(&[a])).unwrap();
    trans.fill_back(a, vec_node(&[]));
    graph.commit(trans).unwrap();
    println!("{:?}", graph);

    let mut trans = Tx::new(&ctx);
    trans.mutate(
        b,
        Box::new(|b| {
            if let Link::Vec(x) = &mut b.links[0] {
                x.push(NodeIndex::empty());
            }
        }),
    );
    graph.commit(trans).unwrap();
    println!("{:?}", graph);
    assert_eq!(graph.get(b).unwrap().iter_links(0), vec![a, NodeIndex::empty()]);
    // An empty entry is no link.
    assert_eq!(graph.back_links(a), vec![(b, Source { field: 0, pos: 0 })]);
    assert!(graph.back_links(NodeIndex::empty()).is_empty());
    assert!(graph.check_backlinks());
}

#[test]
fn back_links_follow_insert_and_remove() {
    let ctx = Context::new();
    let mut graph: Graph<Data> = Graph::new(&ctx);
    let mut trans = Tx::new(&ctx);
    let b = trans.reserve().unwrap();
    let c = trans.reserve().unwrap();
    let a = trans.insert(c_node(&[b, c])).unwrap();
    trans.fill_back(b, c_node(&[]));
    trans.fill_back(c, c_node(&[]));
    graph.commit(trans).unwrap();

    let at = Source { field: TOS, pos: 0 };
    assert_eq!(graph.back_links(b), vec![(a, at)]);
    assert_eq!(graph.back_links(c), vec![(a, at)]);
    assert_eq!(graph.back_links(a), vec![]);
    assert!(graph.check_backlinks());
    assert_eq!(graph.len(), 3);

    let mut trans = Tx::new(&ctx);
    trans.remove(a);
    graph.commit(trans).unwrap();
    assert!(graph.get(a).is_none());
    assert_eq!(graph.back_links(b), vec![]);
    assert_eq!(graph.back_links(c), vec![]);
    assert!(graph.check_backlinks());
    assert_eq!(graph.len(), 2);
}
