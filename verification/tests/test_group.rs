use ttgraph::{Context, Graph, Link, Node, NodeIndex, Schema, Transaction};

type Mutate = Box<dyn FnOnce(&mut Node<usize>)>;
type Update = Box<dyn FnOnce(Node<usize>) -> Node<usize>>;
type Tx = Transaction<usize, Mutate, Update>;

// One shape with five link fields.
const A: usize = 0;
const B: usize = 1;
const C: usize = 2;
const INSERTED: usize = 3;
const D: usize = 4;

fn node(a: NodeIndex, b: &[NodeIndex], c: NodeIndex, inserted: NodeIndex, d: &[NodeIndex]) -> Node<usize> {
    Node::new(
        0,
        vec![
            Link::point(a),
            Link::vec(b.to_vec()),
            Link::point(c),
            Link::point(inserted),
            Link::bset(&d.to_vec()),
        ],
        0,
    )
}

fn default_node() -> Node<usize> {
    node(NodeIndex::empty(), &[], NodeIndex::empty(), NodeIndex::empty(), &[])
}

#[test]
fn test_link_group() {
    let mut schema = Schema::new();
    schema.link_group("group1".to_string(), 0, vec![A, B]);
    schema.link_group("group2".to_string(), 0, vec![C, D]);
    schema.link_group("x".to_string(), 0, vec![A, B, D]);

    let ctx = Context::new();
    let mut graph = Graph::with_schema(&ctx, schema);
    let mut trans = Tx::new(&ctx);

    let x1 = trans.insert(default_node()).unwrap();
    let x2 = trans.insert(default_node()).unwrap();
    let x3 = trans.insert(default_node()).unwrap();
    let x4 = trans.insert(default_node()).unwrap();
    let x5 = trans.insert(node(x1, &[x2, x3], x4, x2, &[x1, x3])).unwrap();

    graph.commit(trans).unwrap();

    let node = graph.get(x5).unwrap();
    let links = |name: &str| graph.schema().get_links_by_group(node, &name.to_string());
    assert_eq!(links("group1"), vec![x1, x2, x3]);
    assert_eq!(links("group2"), vec![x4, x1, x3]);
    assert_eq!(links("x"), vec![x1, x2, x3, x1, x3]);
    assert_eq!(links("unknown"), vec![]);
}

#[test]
fn test_node_group() {
    let (a_shape, b_shape, c_shape, d_shape) = (0, 1, 2, 3);
    let mut schema = Schema::new();
    schema.group("first".to_string(), vec![a_shape, b_shape]);
    schema.group("second".to_string(), vec![c_shape, d_shape]);
    schema.group("third".to_string(), vec![a_shape, d_shape]);
    schema.group("one".to_string(), vec![b_shape]);
    schema.group("all".to_string(), vec![a_shape, b_shape, c_shape, d_shape]);

    let ctx = Context::new();
    let mut graph = Graph::with_schema(&ctx, schema);
    let mut trans = Tx::new(&ctx);

    let a = trans.insert(Node::new(a_shape, vec![], 1)).unwrap();
    let b = trans.insert(Node::new(b_shape, vec![], 2)).unwrap();
    let c = trans.insert(Node::new(c_shape, vec![], 3)).unwrap();
    let d = trans.insert(Node::new(d_shape, vec![], 4)).unwrap();

    graph.commit(trans).unwrap();

    let group = |name: &str| -> Vec<NodeIndex> {
        graph.iter_group(&name.to_string()).iter().map(|e| e.0).collect()
    };
    assert_eq!(group("first"), vec![a, b]);
    assert_eq!(group("second"), vec![c, d]);
    assert_eq!(group("third"), vec![a, d]);
    assert_eq!(group("one"), vec![b]);
    assert_eq!(group("all"), vec![a, b, c, d]);
    assert_eq!(group("none"), vec![]);
    assert!(graph.schema().in_group(a_shape, &"first".to_string()));
    assert!(!graph.schema().in_group(c_shape, &"first".to_string()));
}
