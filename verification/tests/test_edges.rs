use ttgraph::{Context, Graph, Link, Node, NodeIndex, Source, Transaction};

// A graph of weighted vertices and weighted edges: an edge is a node with
// the fields `from` and `to`.
const VERTEX: usize = 0;
const EDGE: usize = 1;
const FROM: usize = 0;
const TO: usize = 1;

type Mutate = Box<dyn FnOnce(&mut Node<i64>)>;
type Update = Box<dyn FnOnce(Node<i64>) -> Node<i64>>;
type Tx = Transaction<i64, Mutate, Update>;

fn vertex(weight: i64) -> Node<i64> {
    Node::new(VERTEX, vec![], weight)
}

fn edge(weight: i64, from: NodeIndex, to: NodeIndex) -> Node<i64> {
    Node::new(EDGE, vec![Link::point(from), Link::point(to)], weight)
}

fn ends(graph: &Graph<i64>, e: NodeIndex) -> (Vec<NodeIndex>, Vec<NodeIndex>) {
    let node = graph.get(e).unwrap();
    (node.iter_links(FROM), node.iter_links(TO))
}

#[test]
fn test_can_compile() {
    let context = Context::new();
    let mut graph: Graph<i64> = Graph::new(&context);

    let mut trans = Tx::new(&context);
    let n1 = trans.insert(vertex(1)).unwrap();
    let n2 = trans.insert(vertex(2)).unwrap();
    let e1 = trans.insert(edge(-1, n1, n2)).unwrap();
    graph.commit(trans).unwrap();
    assert_eq!(graph.len(), 3);
    assert_eq!(ends(&graph, e1), (vec![n1], vec![n2]));

    let mut trans = Tx::new(&context);
    let n3 = trans.insert(vertex(3)).unwrap();
    let n4 = trans.insert(vertex(4)).unwrap();
    let e2 = trans.insert(edge(-2, n1, n3)).unwrap();
    let e3 = trans.insert(edge(-3, n4, n2)).unwrap();
    let e4 = trans.insert(edge(-4, n4, n3)).unwrap();
    trans.remove(e1);
    graph.commit(trans).unwrap();
    assert_eq!(graph.len(), 7);
    assert!(graph.get(e1).is_none());
    assert_eq!(graph.back_links(n1), vec![(e2, Source { field: FROM, pos: 0 })]);
    assert_eq!(graph.back_links(n2), vec![(e3, Source { field: TO, pos: 0 })]);
    assert_eq!(
        graph.back_links(n3),
        vec![(e2, Source { field: TO, pos: 0 }), (e4, Source { field: TO, pos: 0 })]
    );

    let mut trans = Tx::new(&context);
    trans.remove(n1);
    trans.mutate(n2, Box::new(|x| x.data = x.data * 5));
    graph.commit(trans).unwrap();
    assert!(graph.get(n1).is_none());
    assert_eq!(graph.get(n2).unwrap().data, 10);
    // The edge that started at the removed vertex has lost that end.
    assert_eq!(ends(&graph, e2), (vec![], vec![n3]));

    let mut trans = Tx::new(&context);
    let n5 = trans.insert(vertex(5)).unwrap();
    let e5 = trans.insert(edge(-5, n2, n5)).unwrap();
    graph.commit(trans).unwrap();

    let mut trans = Tx::new(&context);
    trans.update(n5, Box::new(|x| vertex(x.data * 3)));
    graph.commit(trans).unwrap();
    assert_eq!(graph.get(n5).unwrap().data, 15);
    assert_eq!(graph.back_links(n5), vec![(e5, Source { field: TO, pos: 0 })]);
    assert!(graph.check_backlinks());
    assert!(graph.check_integrity());
}
