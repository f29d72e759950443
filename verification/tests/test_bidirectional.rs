use std::collections::BTreeSet;

use ttgraph::{Context, Graph, Link, Node, NodeIndex, Schema, Source, Transaction};

type Mutate = Box<dyn FnOnce(&mut Node<usize>)>;
type Update = Box<dyn FnOnce(Node<usize>) -> Node<usize>>;
type Tx = Transaction<usize, Mutate, Update>;

// Shapes.
const GRAPH_NODE: usize = 0;
const PAIR_NODE: usize = 1;
const TREE_NODE: usize = 2;
const BOX_NODE: usize = 3;
const DATA_NODE: usize = 4;

// Fields.
const TOS: usize = 0;
const FROMS: usize = 1;
const THE_OTHER: usize = 0;
const CHILDREN: usize = 0;
const FATHER: usize = 1;
const INSIDE: usize = 0;
const PARENT: usize = 0;

fn graph_node(tos: &[NodeIndex], froms: &[NodeIndex], data: usize) -> Node<usize> {
    Node::new(GRAPH_NODE, vec![Link::bset(&tos.to_vec()), Link::bset(&froms.to_vec())], data)
}

fn pair_node(the_other: NodeIndex) -> Node<usize> {
    Node::new(PAIR_NODE, vec![Link::point(the_other)], 0)
}

fn tree_node(children: &[NodeIndex], father: NodeIndex) -> Node<usize> {
    Node::new(TREE_NODE, vec![Link::hset(&children.to_vec()), Link::point(father)], 0)
}

fn box_node(inside: &[NodeIndex]) -> Node<usize> {
    Node::new(BOX_NODE, vec![Link::oset(&inside.to_vec())], 0)
}

fn data_node(parent: NodeIndex, data: usize) -> Node<usize> {
    Node::new(DATA_NODE, vec![Link::point(parent)], data)
}

fn schema() -> Schema {
    let mut s = Schema::new();
    s.bidirectional((GRAPH_NODE, TOS), (GRAPH_NODE, FROMS));
    s.bidirectional((PAIR_NODE, THE_OTHER), (PAIR_NODE, THE_OTHER));
    s.bidirectional((TREE_NODE, FATHER), (TREE_NODE, CHILDREN));
    s.bidirectional((BOX_NODE, INSIDE), (DATA_NODE, PARENT));
    s
}

fn set(graph: &Graph<usize>, idx: NodeIndex, shape: usize, field: usize) -> BTreeSet<NodeIndex> {
    let node = graph.get(idx).unwrap();
    assert_eq!(node.shape, shape);
    BTreeSet::from_iter(node.iter_links(field))
}

fn point(graph: &Graph<usize>, idx: NodeIndex, shape: usize, field: usize) -> NodeIndex {
    let node = graph.get(idx).unwrap();
    assert_eq!(node.shape, shape);
    match &node.links[field] {
        Link::Point(i) => *i,
        _ => panic!("not a single index"),
    }
}

fn data(graph: &Graph<usize>, idx: NodeIndex) -> usize {
    graph.get(idx).unwrap().data
}

fn list(graph: &Graph<usize>, idx: NodeIndex, shape: usize, field: usize) -> Vec<NodeIndex> {
    let node = graph.get(idx).unwrap();
    assert_eq!(node.shape, shape);
    node.iter_links(field)
}

fn ids(items: &[NodeIndex]) -> BTreeSet<NodeIndex> {
    BTreeSet::from_iter(items.iter().copied())
}

struct GraphUnderTest {
    gn1: NodeIndex,
    gn2: NodeIndex,
    gn3: NodeIndex,
    pn1: NodeIndex,
    pn2: NodeIndex,
    pn3: NodeIndex,
    tn1: NodeIndex,
    tn2: NodeIndex,
    tn3: NodeIndex,
    tn4: NodeIndex,
    bn: NodeIndex,
    dn1: NodeIndex,
    dn2: NodeIndex,
    dn3: NodeIndex,
}

// gn1 -> gn2, gn3
// gn2 -> gn2
// gn3 -> gn1, gn2
// pn1 <-> pn2, pn3 dangling
// tn1 -> tn2, tn3
// tn2 -> tn4
// bn -> dn1, dn2, dn3, tn1, gn1, pn3
fn build_graph() -> (Context, Graph<usize>, GraphUnderTest) {
    let ctx = Context::new();
    let mut graph = Graph::with_schema(&ctx, schema());
    let mut trans = Tx::new(&ctx);

    let gn1 = trans.reserve().unwrap();
    let gn2 = trans.reserve().unwrap();
    let gn3 = trans.reserve().unwrap();
    let pn1 = trans.reserve().unwrap();
    let pn2 = trans.reserve().unwrap();
    let pn3 = trans.reserve().unwrap();
    let tn1 = trans.reserve().unwrap();
    let tn2 = trans.reserve().unwrap();
    let tn3 = trans.reserve().unwrap();
    let tn4 = trans.reserve().unwrap();
    let bn = trans.reserve().unwrap();
    let dn1 = trans.reserve().unwrap();
    let dn2 = trans.reserve().unwrap();
    let dn3 = trans.reserve().unwrap();

    trans.fill_back(gn1, graph_node(&[gn2, gn3], &[gn3], 1));
    trans.fill_back(gn2, graph_node(&[gn2], &[gn3], 2));
    trans.fill_back(gn3, graph_node(&[], &[gn1], 3));

    trans.fill_back(pn1, pair_node(NodeIndex::empty()));
    trans.fill_back(pn2, pair_node(pn1));
    trans.fill_back(pn3, pair_node(NodeIndex::empty()));

    trans.fill_back(tn1, tree_node(&[tn2], NodeIndex::empty()));
    trans.fill_back(tn2, tree_node(&[tn4], tn1));
    trans.fill_back(tn3, tree_node(&[], tn1));
    trans.fill_back(tn4, tree_node(&[], NodeIndex::empty()));

    trans.fill_back(bn, box_node(&[dn1, dn3, tn1, gn1, pn3]));
    trans.fill_back(dn1, data_node(bn, 1));
    trans.fill_back(dn2, data_node(bn, 2));
    trans.fill_back(dn3, data_node(NodeIndex::empty(), 3));

    graph.commit(trans).unwrap();
    (
        ctx,
        graph,
        GraphUnderTest { gn1, gn2, gn3, pn1, pn2, pn3, tn1, tn2, tn3, tn4, bn, dn1, dn2, dn3 },
    )
}

#[test]
fn test_bidirectional_can_build_graph() {
    let (_ctx, graph, GraphUnderTest { gn1, gn2, gn3, pn1, pn2, pn3, tn1, tn2, tn3, tn4, bn, dn1, dn2, dn3 }) =
        build_graph();

    assert_eq!(set(&graph, gn1, GRAPH_NODE, TOS), ids(&[gn2, gn3]));
    assert_eq!(set(&graph, gn1, GRAPH_NODE, FROMS), ids(&[gn3]));
    assert_eq!(data(&graph, gn1), 1);

    assert_eq!(set(&graph, gn2, GRAPH_NODE, TOS), ids(&[gn2]));
    assert_eq!(set(&graph, gn2, GRAPH_NODE, FROMS), ids(&[gn1, gn2, gn3]));
    assert_eq!(data(&graph, gn2), 2);

    assert_eq!(set(&graph, gn3, GRAPH_NODE, TOS), ids(&[gn1, gn2]));
    assert_eq!(set(&graph, gn3, GRAPH_NODE, FROMS), ids(&[gn1]));
    assert_eq!(data(&graph, gn3), 3);

    assert_eq!(point(&graph, pn1, PAIR_NODE, THE_OTHER), pn2);
    assert_eq!(point(&graph, pn2, PAIR_NODE, THE_OTHER), pn1);
    assert!(point(&graph, pn3, PAIR_NODE, THE_OTHER).is_empty());

    assert_eq!(set(&graph, tn1, TREE_NODE, CHILDREN), ids(&[tn2, tn3]));
    assert!(point(&graph, tn1, TREE_NODE, FATHER).is_empty());
    assert_eq!(set(&graph, tn2, TREE_NODE, CHILDREN), ids(&[tn4]));
    assert_eq!(point(&graph, tn2, TREE_NODE, FATHER), tn1);
    assert!(set(&graph, tn3, TREE_NODE, CHILDREN).is_empty());
    assert_eq!(point(&graph, tn3, TREE_NODE, FATHER), tn1);
    assert!(set(&graph, tn4, TREE_NODE, CHILDREN).is_empty());
    assert_eq!(point(&graph, tn4, TREE_NODE, FATHER), tn2);

    assert_eq!(set(&graph, bn, BOX_NODE, INSIDE), ids(&[dn1, dn2, dn3, tn1, gn1, pn3]));

    assert_eq!(point(&graph, dn1, DATA_NODE, PARENT), bn);
    assert_eq!(data(&graph, dn1), 1);
    assert_eq!(point(&graph, dn2, DATA_NODE, PARENT), bn);
    assert_eq!(data(&graph, dn2), 2);
    assert_eq!(point(&graph, dn3, DATA_NODE, PARENT), bn);
    assert_eq!(data(&graph, dn3), 3);

    assert!(graph.check_backlinks());
}

#[test]
fn test_bidirectional_can_add_node() {
    let (ctx, mut graph, GraphUnderTest { gn1, gn2, gn3, pn1, pn2, pn3, tn1, tn2, tn3, tn4, bn, dn1, dn2, dn3 }) =
        build_graph();

    // gn1 -> gn2, gn3, gn4
    // gn2 -> gn2
    // gn3 -> gn1, gn2, gn4
    // gn4 -> gn2, gn3, gn4
    // pn1 <-> pn2, pn3 <-> pn4
    // tn1 -> tn2, tn3
    // tn2 -> tn4, tn5
    // bn -> dn1, dn2, dn3, dn4, gn1, tn1, pn3
    // bn2 -> dn5
    let mut trans = Tx::new(&ctx);
    let gn4 = trans.reserve().unwrap();
    trans.fill_back(gn4, graph_node(&[gn2, gn3, gn4], &[gn1, gn3], 4));
    let pn4 = trans.insert(pair_node(pn3)).unwrap();
    let tn5 = trans.insert(tree_node(&[], tn2)).unwrap();
    let dn5 = trans.reserve().unwrap();
    let bn2 = trans.insert(box_node(&[dn5])).unwrap();
    let dn4 = trans.insert(data_node(bn, 4)).unwrap();
    trans.fill_back(dn5, data_node(NodeIndex::empty(), 5));

    graph.commit(trans).unwrap();

    assert_eq!(set(&graph, gn1, GRAPH_NODE, TOS), ids(&[gn2, gn3, gn4]));
    assert_eq!(set(&graph, gn1, GRAPH_NODE, FROMS), ids(&[gn3]));
    assert_eq!(data(&graph, gn1), 1);
    assert_eq!(set(&graph, gn2, GRAPH_NODE, TOS), ids(&[gn2]));
    assert_eq!(set(&graph, gn2, GRAPH_NODE, FROMS), ids(&[gn1, gn2, gn3, gn4]));
    assert_eq!(data(&graph, gn2), 2);
    assert_eq!(set(&graph, gn3, GRAPH_NODE, TOS), ids(&[gn1, gn2, gn4]));
    assert_eq!(set(&graph, gn3, GRAPH_NODE, FROMS), ids(&[gn1, gn4]));
    assert_eq!(data(&graph, gn3), 3);
    assert_eq!(set(&graph, gn4, GRAPH_NODE, TOS), ids(&[gn2, gn3, gn4]));
    assert_eq!(set(&graph, gn4, GRAPH_NODE, FROMS), ids(&[gn1, gn3, gn4]));
    assert_eq!(data(&graph, gn4), 4);

    assert_eq!(point(&graph, pn1, PAIR_NODE, THE_OTHER), pn2);
    assert_eq!(point(&graph, pn2, PAIR_NODE, THE_OTHER), pn1);
    assert_eq!(point(&graph, pn3, PAIR_NODE, THE_OTHER), pn4);
    assert_eq!(point(&graph, pn4, PAIR_NODE, THE_OTHER), pn3);

    assert_eq!(set(&graph, tn1, TREE_NODE, CHILDREN), ids(&[tn2, tn3]));
    assert!(point(&graph, tn1, TREE_NODE, FATHER).is_empty());
    assert_eq!(set(&graph, tn2, TREE_NODE, CHILDREN), ids(&[tn4, tn5]));
    assert_eq!(point(&graph, tn2, TREE_NODE, FATHER), tn1);
    assert!(set(&graph, tn3, TREE_NODE, CHILDREN).is_empty());
    assert_eq!(point(&graph, tn3, TREE_NODE, FATHER), tn1);
    assert!(set(&graph, tn4, TREE_NODE, CHILDREN).is_empty());
    assert_eq!(point(&graph, tn4, TREE_NODE, FATHER), tn2);
    assert!(set(&graph, tn5, TREE_NODE, CHILDREN).is_empty());
    assert_eq!(point(&graph, tn5, TREE_NODE, FATHER), tn2);

    assert_eq!(set(&graph, bn, BOX_NODE, INSIDE), ids(&[dn1, dn2, dn3, dn4, tn1, gn1, pn3]));
    assert_eq!(list(&graph, bn2, BOX_NODE, INSIDE), vec![dn5]);

    assert_eq!(point(&graph, dn1, DATA_NODE, PARENT), bn);
    assert_eq!(data(&graph, dn1), 1);
    assert_eq!(point(&graph, dn2, DATA_NODE, PARENT), bn);
    assert_eq!(data(&graph, dn2), 2);
    assert_eq!(point(&graph, dn3, DATA_NODE, PARENT), bn);
    assert_eq!(data(&graph, dn3), 3);
    assert_eq!(point(&graph, dn4, DATA_NODE, PARENT), bn);
    assert_eq!(data(&graph, dn4), 4);
    assert_eq!(point(&graph, dn5, DATA_NODE, PARENT), bn2);
    assert_eq!(data(&graph, dn5), 5);

    assert!(graph.check_backlinks());
}

#[test]
fn test_bidirectional_can_modify_and_update_node() {
    let (ctx, mut graph, GraphUnderTest { gn1, gn2, gn3, pn1, pn2, pn3, tn1, tn2, tn3, tn4, bn, dn1, dn2, dn3 }) =
        build_graph();

    // gn1 -> gn2, gn4
    // gn2 ->
    // gn3 -> gn2, gn4
    // gn4 -> gn2, gn3, gn4
    // pn2 <-> pn4, pn1, pn3 dangling
    // tn1 -> tn5, tn3
    // tn5 -> tn2, tn4
    // bn -> dn1, dn4, tn1, pn3
    // bn2 -> dn2, dn3, dn5, gn1
    let mut trans = Tx::new(&ctx);

    let gn4 = trans.reserve().unwrap();
    trans.mutate(
        gn1,
        Box::new(move |x| {
            x.remove_link(TOS, gn3);
            x.remove_link(FROMS, gn3);
        }),
    );
    trans.mutate(
        gn2,
        Box::new(move |x| {
            x.remove_link(TOS, gn2);
        }),
    );
    trans.update(gn3, Box::new(move |x| graph_node(&[gn2], &[gn4], x.data)));
    trans.fill_back(gn4, graph_node(&[gn2, gn4], &[gn1, gn3], 4));

    let pn4 = trans.insert(pair_node(pn2)).unwrap();
    let empty = NodeIndex::empty();
    trans.mutate(
        pn1,
        Box::new(move |x| {
            x.links[THE_OTHER] = Link::point(empty);
        }),
    );
    trans.mutate(
        pn2,
        Box::new(|x| {
            x.links[THE_OTHER] = Link::point(NodeIndex::empty());
        }),
    );

    let tn5 = trans.insert(tree_node(&[tn2, tn4], tn1)).unwrap();
    trans.mutate(
        tn2,
        Box::new(move |x| {
            x.links[FATHER] = Link::point(tn5);
            x.remove_link(CHILDREN, tn4);
        }),
    );
    trans.mutate(
        tn4,
        Box::new(move |x| {
            x.links[FATHER] = Link::point(tn5);
        }),
    );

    let dn4 = trans.insert(data_node(NodeIndex::empty(), 4)).unwrap();
    trans.mutate(
        bn,
        Box::new(move |x| {
            x.remove_link(INSIDE, dn2);
            x.remove_link(INSIDE, dn3);
            x.remove_link(INSIDE, gn1);
            x.add_link(INSIDE, dn4).unwrap();
        }),
    );
    let bn2 = trans.insert(box_node(&[dn2, dn3, gn1])).unwrap();
    trans.update(dn2, Box::new(move |x| data_node(bn2, x.data)));
    trans.mutate(
        dn3,
        Box::new(|x| {
            x.links[PARENT] = Link::point(NodeIndex::empty());
        }),
    );
    let dn5 = trans.insert(data_node(bn2, 5)).unwrap();

    graph.commit(trans).unwrap();

    assert_eq!(set(&graph, gn1, GRAPH_NODE, TOS), ids(&[gn2, gn4]));
    assert_eq!(set(&graph, gn1, GRAPH_NODE, FROMS), ids(&[]));
    assert_eq!(data(&graph, gn1), 1);
    assert_eq!(set(&graph, gn2, GRAPH_NODE, TOS), ids(&[]));
    assert_eq!(set(&graph, gn2, GRAPH_NODE, FROMS), ids(&[gn1, gn3, gn4]));
    assert_eq!(data(&graph, gn2), 2);
    assert_eq!(set(&graph, gn3, GRAPH_NODE, TOS), ids(&[gn2, gn4]));
    assert_eq!(set(&graph, gn3, GRAPH_NODE, FROMS), ids(&[gn4]));
    assert_eq!(data(&graph, gn3), 3);
    assert_eq!(set(&graph, gn4, GRAPH_NODE, TOS), ids(&[gn2, gn3, gn4]));
    assert_eq!(set(&graph, gn4, GRAPH_NODE, FROMS), ids(&[gn1, gn3, gn4]));
    assert_eq!(data(&graph, gn4), 4);

    assert!(point(&graph, pn1, PAIR_NODE, THE_OTHER).is_empty());
    assert_eq!(point(&graph, pn2, PAIR_NODE, THE_OTHER), pn4);
    assert!(point(&graph, pn3, PAIR_NODE, THE_OTHER).is_empty());
    assert_eq!(point(&graph, pn4, PAIR_NODE, THE_OTHER), pn2);

    assert_eq!(set(&graph, tn1, TREE_NODE, CHILDREN), ids(&[tn5, tn3]));
    assert!(point(&graph, tn1, TREE_NODE, FATHER).is_empty());
    assert!(set(&graph, tn2, TREE_NODE, CHILDREN).is_empty());
    assert_eq!(point(&graph, tn2, TREE_NODE, FATHER), tn5);
    assert!(set(&graph, tn3, TREE_NODE, CHILDREN).is_empty());
    assert_eq!(point(&graph, tn3, TREE_NODE, FATHER), tn1);
    assert!(set(&graph, tn4, TREE_NODE, CHILDREN).is_empty());
    assert_eq!(point(&graph, tn4, TREE_NODE, FATHER), tn5);
    assert_eq!(set(&graph, tn5, TREE_NODE, CHILDREN), ids(&[tn2, tn4]));
    assert_eq!(point(&graph, tn5, TREE_NODE, FATHER), tn1);

    assert_eq!(set(&graph, bn, BOX_NODE, INSIDE), ids(&[dn1, dn4, tn1, pn3]));
    assert_eq!(set(&graph, bn2, BOX_NODE, INSIDE), ids(&[dn2, dn3, dn5, gn1]));

    assert_eq!(point(&graph, dn1, DATA_NODE, PARENT), bn);
    assert_eq!(data(&graph, dn1), 1);
    assert_eq!(point(&graph, dn2, DATA_NODE, PARENT), bn2);
    assert_eq!(data(&graph, dn2), 2);
    assert_eq!(point(&graph, dn3, DATA_NODE, PARENT), bn2);
    assert_eq!(data(&graph, dn3), 3);
    assert_eq!(point(&graph, dn4, DATA_NODE, PARENT), bn);
    assert_eq!(data(&graph, dn4), 4);
    assert_eq!(point(&graph, dn5, DATA_NODE, PARENT), bn2);
    assert_eq!(data(&graph, dn5), 5);
    assert!(graph.check_backlinks());
}

#[test]
fn test_bidirectional_can_remove_node() {
    let (ctx, mut graph, GraphUnderTest { gn1, gn2, gn3, pn1, pn2, pn3, tn1, tn2, tn3, tn4, bn, dn1, dn2, dn3 }) =
        build_graph();

    // gn1 -> gn2
    // gn2 -> gn2
    // pn1, pn3 dangling
    // tn1 -> tn3
    // bn -> dn1, dn2, tn1, gn1, pn3
    let mut trans = Tx::new(&ctx);
    trans.remove(gn3);
    trans.remove(pn2);
    trans.remove(tn2);
    trans.remove(dn3);

    graph.commit(trans).unwrap();

    assert_eq!(set(&graph, gn1, GRAPH_NODE, TOS), ids(&[gn2]));
    assert_eq!(set(&graph, gn1, GRAPH_NODE, FROMS), ids(&[]));
    assert_eq!(data(&graph, gn1), 1);
    assert_eq!(set(&graph, gn2, GRAPH_NODE, TOS), ids(&[gn2]));
    assert_eq!(set(&graph, gn2, GRAPH_NODE, FROMS), ids(&[gn1, gn2]));
    assert_eq!(data(&graph, gn2), 2);
    assert!(graph.get(gn3).is_none());

    assert_eq!(point(&graph, pn1, PAIR_NODE, THE_OTHER), NodeIndex::empty());
    assert!(graph.get(pn2).is_none());
    assert!(point(&graph, pn3, PAIR_NODE, THE_OTHER).is_empty());

    assert_eq!(set(&graph, tn1, TREE_NODE, CHILDREN), ids(&[tn3]));
    assert!(point(&graph, tn1, TREE_NODE, FATHER).is_empty());
    assert!(graph.get(tn2).is_none());
    assert!(set(&graph, tn3, TREE_NODE, CHILDREN).is_empty());
    assert_eq!(point(&graph, tn3, TREE_NODE, FATHER), tn1);
    assert!(set(&graph, tn4, TREE_NODE, CHILDREN).is_empty());
    assert_eq!(point(&graph, tn4, TREE_NODE, FATHER), NodeIndex::empty());

    assert_eq!(set(&graph, bn, BOX_NODE, INSIDE), ids(&[dn1, dn2, tn1, gn1, pn3]));

    assert_eq!(point(&graph, dn1, DATA_NODE, PARENT), bn);
    assert_eq!(data(&graph, dn1), 1);
    assert_eq!(point(&graph, dn2, DATA_NODE, PARENT), bn);
    assert_eq!(data(&graph, dn2), 2);
    assert!(graph.get(dn3).is_none());

    assert!(graph.check_backlinks());
}

#[test]
fn test_bidirectional_can_redirect_node() {
    let (ctx, mut graph, GraphUnderTest { gn1, gn2, gn3, pn1, pn2, pn3, tn1, tn2, tn3, tn4, bn, dn1, dn2, dn3 }) =
        build_graph();

    // Start:
    // gn1 -> gn2, gn3 ; <- gn3
    // gn2 -> gn2      ; <- gn1, gn2, gn3
    // gn3 -> gn1, gn2 ; <- gn1
    // Redirect gn2 -> gn3
    // result:
    // gn1 -> gn3      ; <- gn3
    // gn2 -> gn3      ; <-
    // gn3 -> gn1, gn3 ; <- gn1, gn2, gn3

    // pn1 <-> pn3, pn2 dangling
    // tn1 -> tn3
    // tn3 -> tn4
    // bn -> tn1, gn1, pn3
    // bn2 -> dn1, dn2, dn3
    let mut trans = Tx::new(&ctx);

    trans.redirect_links(gn2, gn3);
    trans.redirect_links(pn2, pn3);
    trans.redirect_links(tn2, tn3);
    let bn2 = trans.insert(box_node(&[])).unwrap();
    trans.redirect_links(bn, bn2);

    graph.commit(trans).unwrap();

    assert_eq!(set(&graph, gn1, GRAPH_NODE, TOS), ids(&[gn3]));
    assert_eq!(set(&graph, gn1, GRAPH_NODE, FROMS), ids(&[gn3]));
    assert_eq!(data(&graph, gn1), 1);
    assert_eq!(set(&graph, gn2, GRAPH_NODE, TOS), ids(&[gn3]));
    assert_eq!(set(&graph, gn2, GRAPH_NODE, FROMS), ids(&[]));
    assert_eq!(data(&graph, gn2), 2);
    assert_eq!(set(&graph, gn3, GRAPH_NODE, TOS), ids(&[gn1, gn3]));
    assert_eq!(set(&graph, gn3, GRAPH_NODE, FROMS), ids(&[gn1, gn2, gn3]));
    assert_eq!(data(&graph, gn3), 3);

    assert_eq!(point(&graph, pn1, PAIR_NODE, THE_OTHER), pn3);
    assert_eq!(point(&graph, pn2, PAIR_NODE, THE_OTHER), NodeIndex::empty());
    assert_eq!(point(&graph, pn3, PAIR_NODE, THE_OTHER), pn1);

    assert_eq!(set(&graph, tn1, TREE_NODE, CHILDREN), ids(&[tn3]));
    assert!(point(&graph, tn1, TREE_NODE, FATHER).is_empty());
    assert_eq!(set(&graph, tn2, TREE_NODE, CHILDREN), ids(&[]));
    assert_eq!(point(&graph, tn2, TREE_NODE, FATHER), NodeIndex::empty());
    assert_eq!(set(&graph, tn3, TREE_NODE, CHILDREN), ids(&[tn4]));
    assert_eq!(point(&graph, tn3, TREE_NODE, FATHER), tn1);
    assert!(set(&graph, tn4, TREE_NODE, CHILDREN).is_empty());
    assert_eq!(point(&graph, tn4, TREE_NODE, FATHER), tn3);

    assert_eq!(list(&graph, bn, BOX_NODE, INSIDE), vec![tn1, gn1, pn3]);
    assert_eq!(list(&graph, bn2, BOX_NODE, INSIDE), vec![dn1, dn2, dn3]);

    assert_eq!(point(&graph, dn1, DATA_NODE, PARENT), bn2);
    assert_eq!(data(&graph, dn1), 1);
    assert_eq!(point(&graph, dn2, DATA_NODE, PARENT), bn2);
    assert_eq!(data(&graph, dn2), 2);
    assert_eq!(point(&graph, dn3, DATA_NODE, PARENT), bn2);
    assert_eq!(data(&graph, dn3), 3);

    // No record of a redirected link is left behind: the one link that
    // points at gn2 is the mirror of its own link to gn3.
    assert_eq!(graph.back_links(gn2), vec![(gn3, Source { field: FROMS, pos: 0 })]);
    assert!(graph.back_links(pn2).is_empty());
    assert!(graph.back_links(tn2).is_empty());
    assert!(graph.back_links(bn).is_empty());
    assert!(graph.check_backlinks());
}

// Eight shapes, each with the fields g1 and g2.
const G1: usize = 0;
const G2: usize = 1;
const LEFT1: usize = 0;
const LEFT2: usize = 1;
const LEFT3: usize = 2;
const LEFT4: usize = 3;
const RIGHT1: usize = 4;
const RIGHT2: usize = 5;
const RIGHT3: usize = 6;
const RIGHT4: usize = 7;

fn lr(shape: usize, g1: NodeIndex, g2: NodeIndex) -> Node<usize> {
    Node::new(shape, vec![Link::point(g1), Link::point(g2)], 0)
}

fn pair_groups(s: &mut Schema, from: &[usize], f: usize, to: &[usize], m: usize) {
    for a in from {
        for b in to {
            s.bidirectional((*a, f), (*b, m));
        }
    }
}

fn type_group(s: &mut Schema, from: &[usize], f: usize, targets: &[usize]) {
    for a in from {
        s.link_type((*a, f), targets.to_vec());
    }
}

fn lr_schema() -> Schema {
    let left = [LEFT1, LEFT2, LEFT3, LEFT4];
    let right = [RIGHT1, RIGHT2, RIGHT3, RIGHT4];
    let lu = [LEFT1, LEFT2];
    let ld = [LEFT3, LEFT4];
    let ru = [RIGHT1, RIGHT2];
    let rd = [RIGHT3, RIGHT4];
    let mut s = Schema::new();
    type_group(&mut s, &left, G1, &ru);
    type_group(&mut s, &left, G2, &rd);
    type_group(&mut s, &right, G1, &lu);
    type_group(&mut s, &right, G2, &ld);
    pair_groups(&mut s, &lu, G1, &ru, G1);
    pair_groups(&mut s, &ld, G1, &ru, G2);
    pair_groups(&mut s, &lu, G2, &rd, G1);
    pair_groups(&mut s, &ld, G2, &rd, G2);
    s
}

#[test]
fn test_group_bidirectional() {
    let ctx = Context::new();
    let mut graph = Graph::with_schema(&ctx, lr_schema());
    let mut trans = Tx::new(&ctx);

    let l1 = trans.reserve().unwrap();
    let l2 = trans.reserve().unwrap();
    let l3 = trans.reserve().unwrap();
    let l4 = trans.reserve().unwrap();
    let r1 = trans.reserve().unwrap();
    let r2 = trans.reserve().unwrap();
    let r3 = trans.reserve().unwrap();
    let r4 = trans.reserve().unwrap();

    trans.fill_back(l1, lr(LEFT1, r1, r3));
    trans.fill_back(l2, lr(LEFT2, r2, r4));
    trans.fill_back(l3, lr(LEFT3, r1, r4));
    trans.fill_back(l4, lr(LEFT4, r2, r3));

    trans.fill_back(r1, lr(RIGHT1, NodeIndex::empty(), NodeIndex::empty()));
    trans.fill_back(r2, lr(RIGHT2, NodeIndex::empty(), NodeIndex::empty()));
    trans.fill_back(r3, lr(RIGHT3, NodeIndex::empty(), NodeIndex::empty()));
    trans.fill_back(r4, lr(RIGHT4, NodeIndex::empty(), NodeIndex::empty()));

    graph.commit(trans).unwrap();

    assert_eq!(point(&graph, l1, LEFT1, G1), r1);
    assert_eq!(point(&graph, l1, LEFT1, G2), r3);
    assert_eq!(point(&graph, l2, LEFT2, G1), r2);
    assert_eq!(point(&graph, l2, LEFT2, G2), r4);
    assert_eq!(point(&graph, l3, LEFT3, G1), r1);
    assert_eq!(point(&graph, l3, LEFT3, G2), r4);
    assert_eq!(point(&graph, l4, LEFT4, G1), r2);
    assert_eq!(point(&graph, l4, LEFT4, G2), r3);

    assert_eq!(point(&graph, r1, RIGHT1, G1), l1);
    assert_eq!(point(&graph, r1, RIGHT1, G2), l3);
    assert_eq!(point(&graph, r2, RIGHT2, G1), l2);
    assert_eq!(point(&graph, r2, RIGHT2, G2), l4);
    assert_eq!(point(&graph, r3, RIGHT3, G1), l1);
    assert_eq!(point(&graph, r3, RIGHT3, G2), l4);
    assert_eq!(point(&graph, r4, RIGHT4, G1), l2);
    assert_eq!(point(&graph, r4, RIGHT4, G2), l3);
}

const X_NODE: usize = 0;
const Y_NODE: usize = 1;
const Y: usize = 0;
const X1: usize = 0;
const X2: usize = 1;

fn x_node(y: NodeIndex) -> Node<usize> {
    Node::new(X_NODE, vec![Link::point(y)], 0)
}

fn y_node(x1: NodeIndex, x2: NodeIndex) -> Node<usize> {
    Node::new(Y_NODE, vec![Link::point(x1), Link::point(x2)], 0)
}

fn xy_schema() -> Schema {
    let mut s = Schema::new();
    s.link_type((X_NODE, Y), vec![Y_NODE]);
    s.link_type((Y_NODE, X1), vec![X_NODE]);
    s.link_type((Y_NODE, X2), vec![X_NODE]);
    s.bidirectional((X_NODE, Y), (Y_NODE, X1));
    s.bidirectional((X_NODE, Y), (Y_NODE, X2));
    s
}

#[test]
#[should_panic]
fn test_multilink_1() {
    let ctx = Context::new();
    let mut graph = Graph::with_schema(&ctx, xy_schema());
    let mut trans = Tx::new(&ctx);

    let y = trans.insert(y_node(NodeIndex::empty(), NodeIndex::empty())).unwrap();
    let x1 = trans.insert(x_node(y)).unwrap();
    let x2 = trans.insert(x_node(y)).unwrap();

    graph.commit(trans).unwrap();

    assert_eq!(point(&graph, x1, X_NODE, Y), y);
    assert_eq!(point(&graph, x2, X_NODE, Y), y);
    assert_eq!(point(&graph, y, Y_NODE, X1), x1);
    assert_eq!(point(&graph, y, Y_NODE, X2), x2);
}

#[test]
fn test_multilink_2() {
    let ctx = Context::new();
    let mut graph = Graph::with_schema(&ctx, xy_schema());
    let mut trans = Tx::new(&ctx);

    let x1 = trans.insert(x_node(NodeIndex::empty())).unwrap();
    let x2 = trans.insert(x_node(NodeIndex::empty())).unwrap();

    let y = trans.insert(y_node(x1, x2)).unwrap();
    graph.commit(trans).unwrap();

    assert_eq!(point(&graph, x1, X_NODE, Y), y);
    assert_eq!(point(&graph, x2, X_NODE, Y), y);
    assert_eq!(point(&graph, y, Y_NODE, X1), x1);
    assert_eq!(point(&graph, y, Y_NODE, X2), x2);
}
