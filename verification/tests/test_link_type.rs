use ttgraph::{CommitError, Context, Graph, Link, Node, NodeIndex, Schema, Transaction};

type Mutate = Box<dyn FnOnce(&mut Node<()>)>;
type Update = Box<dyn FnOnce(Node<()>) -> Node<()>>;
type Tx = Transaction<(), Mutate, Update>;

const A: usize = 0;
const B: usize = 1;
const C: usize = 2;

// Fields of A and B.
const TO_A: usize = 0;
const TO_B: usize = 1;
const X: usize = 2;
// Fields of C.
const CX: usize = 0;
const CY: usize = 1;

fn node_a(to_a: NodeIndex, to_b: &[NodeIndex], x: NodeIndex) -> Node<()> {
    Node::new(A, vec![Link::point(to_a), Link::bset(&to_b.to_vec()), Link::point(x)], ())
}

fn node_b(to_a: &[NodeIndex], to_b: &[NodeIndex], x: NodeIndex) -> Node<()> {
    Node::new(B, vec![Link::vec(to_a.to_vec()), Link::hset(&to_b.to_vec()), Link::point(x)], ())
}

fn node_c(x: NodeIndex, y: NodeIndex) -> Node<()> {
    Node::new(C, vec![Link::point(x), Link::point(y)], ())
}

fn schema() -> Schema {
    let ab = vec![A, B];
    let bc = vec![B, C];
    let mut s = Schema::new();
    s.group("AB".to_string(), ab.clone());
    s.group("BC".to_string(), bc.clone());
    s.link_type((A, TO_A), vec![A]);
    s.link_type((A, TO_B), vec![B]);
    s.link_type((A, X), vec![A, B]);
    s.link_type((B, TO_A), vec![A]);
    s.link_type((B, TO_B), vec![B]);
    s.link_type((B, X), bc);
    s.link_type((C, CX), ab);
    s.link_type((C, CY), vec![A, B, C]);
    s
}

fn setup() -> (Context, Graph<()>, Tx) {
    let ctx = Context::new();
    let graph = Graph::with_schema(&ctx, schema());
    let trans = Tx::new(&ctx);
    (ctx, graph, trans)
}

#[test]
fn test_link_type_test_link_type() {
    let (_ctx, mut graph, mut trans) = setup();

    let a = trans.reserve().unwrap();
    let b = trans.reserve().unwrap();
    let c = trans.reserve().unwrap();
    trans.fill_back(a, node_a(a, &[b], NodeIndex::empty()));
    trans.fill_back(b, node_b(&[a], &[b], c));
    trans.fill_back(c, node_c(b, a));

    graph.commit(trans).unwrap();
}

#[test]
#[should_panic]
fn test_link_type_test_link_type2() {
    let (_ctx, mut graph, mut trans) = setup();

    let a = trans.reserve().unwrap();
    let b = trans.reserve().unwrap();
    trans.fill_back(a, node_a(b, &[b], NodeIndex::empty()));
    trans.fill_back(b, node_b(&[a], &[b], b));

    graph.commit(trans).unwrap();
}

#[test]
#[should_panic]
fn test_link_type_test_link_type3() {
    let (_ctx, mut graph, mut trans) = setup();

    let a = trans.reserve().unwrap();
    let b = trans.reserve().unwrap();
    trans.fill_back(a, node_a(a, &[a], NodeIndex::empty()));
    trans.fill_back(b, node_b(&[a], &[b], b));

    graph.commit(trans).unwrap();
}

#[test]
#[should_panic]
fn test_link_type_test_link_type4() {
    let (_ctx, mut graph, mut trans) = setup();

    let a = trans.reserve().unwrap();
    let b = trans.reserve().unwrap();
    trans.fill_back(a, node_a(a, &[b], NodeIndex::empty()));
    trans.fill_back(b, node_b(&[a, b], &[b], b));

    graph.commit(trans).unwrap();
}

#[test]
#[should_panic]
fn test_link_type_test_link_type5() {
    let (_ctx, mut graph, mut trans) = setup();

    let a = trans.reserve().unwrap();
    let b = trans.reserve().unwrap();
    trans.fill_back(a, node_a(a, &[b], NodeIndex::empty()));
    trans.fill_back(b, node_b(&[a], &[a, b], b));

    graph.commit(trans).unwrap();
}

#[test]
#[should_panic]
fn test_link_type_test_link_type6() {
    let (ctx, mut graph, mut trans) = setup();

    let a = trans.reserve().unwrap();
    let b = trans.reserve().unwrap();
    trans.fill_back(a, node_a(a, &[b], NodeIndex::empty()));
    trans.fill_back(b, node_b(&[a], &[b], b));

    graph.commit(trans).unwrap();

    trans = Tx::new(&ctx);
    trans.mutate(
        a,
        Box::new(move |x| {
            x.add_link(TO_B, a).unwrap();
        }),
    );
    graph.commit(trans).unwrap();
}

#[test]
#[should_panic]
fn test_link_type7() {
    let (_ctx, mut graph, mut trans) = setup();

    let a = trans.reserve().unwrap();
    let b = trans.reserve().unwrap();
    let c = trans.reserve().unwrap();
    trans.fill_back(a, node_a(a, &[b], NodeIndex::empty()));
    trans.fill_back(b, node_b(&[a], &[b], c));
    trans.fill_back(c, node_c(c, c));

    graph.commit(trans).unwrap();
}

#[test]
fn link_type_error_names_link_and_shapes() {
    let (_ctx, mut graph, mut trans) = setup();

    let a = trans.reserve().unwrap();
    let b = trans.reserve().unwrap();
    trans.fill_back(a, node_a(b, &[b], NodeIndex::empty()));
    trans.fill_back(b, node_b(&[a], &[b], b));

    match graph.commit(trans) {
        Err(CommitError::LinkType(e)) => {
            assert_eq!(e.link, (A, TO_A));
            assert_eq!(e.expect, vec![A]);
            assert_eq!(e.found, B);
        }
        other => panic!("unexpected result {:?}", other),
    }
    // The staged nodes stay applied, and the reverse index is in order.
    assert_eq!(graph.len(), 2);
    assert!(graph.check_backlinks());
}

// Eight shapes, each with the fields g1 and g2.
const G1: usize = 0;
const G2: usize = 1;
const LEFT1: usize = 0;
const LEFT2: usize = 1;
const LEFT3: usize = 2;
const LEFT4: usize = 3;
const RIGHT1: usize = 4;
const RIGHT2: usize = 5;
const RIGHT3: usize = 6;
const RIGHT4: usize = 7;

fn lr(shape: usize, g1: NodeIndex, g2: NodeIndex) -> Node<()> {
    Node::new(shape, vec![Link::point(g1), Link::point(g2)], ())
}

fn type_group(s: &mut Schema, from: &[usize], f: usize, targets: &[usize]) {
    for a in from {
        s.link_type((*a, f), targets.to_vec());
    }
}

fn lr_setup() -> (Graph<()>, Tx) {
    let left = [LEFT1, LEFT2, LEFT3, LEFT4];
    let right = [RIGHT1, RIGHT2, RIGHT3, RIGHT4];
    let mut s = Schema::new();
    type_group(&mut s, &left, G1, &[RIGHT1, RIGHT2]);
    type_group(&mut s, &left, G2, &[RIGHT3, RIGHT4]);
    type_group(&mut s, &right, G1, &[LEFT1, LEFT2]);
    type_group(&mut s, &right, G2, &[LEFT3, LEFT4]);
    let ctx = Context::new();
    (Graph::with_schema(&ctx, s), Tx::new(&ctx))
}

#[test]
fn test_group_link_1() {
    let (mut graph, mut trans) = lr_setup();

    let l1 = trans.reserve().unwrap();
    let l2 = trans.reserve().unwrap();
    let l3 = trans.reserve().unwrap();
    let l4 = trans.reserve().unwrap();
    let r1 = trans.reserve().unwrap();
    let r2 = trans.reserve().unwrap();
    let r3 = trans.reserve().unwrap();
    let r4 = trans.reserve().unwrap();

    trans.fill_back(l1, lr(LEFT1, r1, r3));
    trans.fill_back(l2, lr(LEFT2, r2, r3));
    trans.fill_back(l3, lr(LEFT3, r1, r4));
    trans.fill_back(l4, lr(LEFT4, r2, r4));

    trans.fill_back(r1, lr(RIGHT1, l1, l3));
    trans.fill_back(r2, lr(RIGHT2, l2, l3));
    trans.fill_back(r3, lr(RIGHT3, l1, l4));
    trans.fill_back(r4, lr(RIGHT4, l2, l4));

    graph.commit(trans).unwrap();
}

#[test]
#[should_panic]
fn test_group_link_2() {
    let (mut graph, mut trans) = lr_setup();

    let l1 = trans.reserve().unwrap();
    let l2 = trans.reserve().unwrap();
    let l3 = trans.reserve().unwrap();
    let l4 = trans.reserve().unwrap();
    let r1 = trans.reserve().unwrap();
    let r2 = trans.reserve().unwrap();
    let r3 = trans.reserve().unwrap();
    let r4 = trans.reserve().unwrap();

    trans.fill_back(l1, lr(LEFT1, r1, r1));
    trans.fill_back(l2, lr(LEFT2, r2, r3));
    trans.fill_back(l3, lr(LEFT3, r1, r4));
    trans.fill_back(l4, lr(LEFT4, r2, r4));

    trans.fill_back(r1, lr(RIGHT1, l1, l3));
    trans.fill_back(r2, lr(RIGHT2, l2, l3));
    trans.fill_back(r3, lr(RIGHT3, l1, l4));
    trans.fill_back(r4, lr(RIGHT4, l2, l4));

    graph.commit(trans).unwrap();
}

#[test]
#[should_panic]
fn test_group_link_3() {
    let (mut graph, mut trans) = lr_setup();

    let l1 = trans.reserve().unwrap();
    let l2 = trans.reserve().unwrap();
    let l3 = trans.reserve().unwrap();
    let l4 = trans.reserve().unwrap();
    let r1 = trans.reserve().unwrap();
    let r2 = trans.reserve().unwrap();
    let r3 = trans.reserve().unwrap();
    let r4 = trans.reserve().unwrap();

    trans.fill_back(l1, lr(LEFT1, r1, r3));
    trans.fill_back(l2, lr(LEFT2, r2, r3));
    trans.fill_back(l3, lr(LEFT3, r1, r4));
    trans.fill_back(l4, lr(LEFT4, r2, r4));

    trans.fill_back(r1, lr(RIGHT1, l1, l3));
    trans.fill_back(r2, lr(RIGHT2, l2, l3));
    trans.fill_back(r3, lr(RIGHT3, l1, l4));
    trans.fill_back(r4, lr(RIGHT4, l4, l4));

    graph.commit(trans).unwrap();
}
