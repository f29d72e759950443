use std::collections::BTreeSet;

use ttgraph::graph::query::holds_record;
use ttgraph::graph::serialize::{build, max_index};
use ttgraph::id_distributer::{keep_above, next_id};
use ttgraph::redirect::resolve_redirects;
use ttgraph::text::text_less;
use ttgraph::triples::sorted;
use ttgraph::{
    deserialize_graph, Arena, ArenaError, ArenaIndex, CheckResult, CommitError, Context, Graph, GraphCheck,
    GraphSerializer, IdDistributer, InsertionSet, Link, LinkConflict, LinkType, ModifyResult, Node, NodeIndex, Schema,
    Source, Transaction,
};

type Mutate = Box<dyn FnOnce(&mut Node<u32>)>;
type Update = Box<dyn FnOnce(Node<u32>) -> Node<u32>>;
type Tx = Transaction<u32, Mutate, Update>;

const FOO: usize = 0;
const NEXT: usize = 0;
const PREV: usize = 1;

fn foo(next: NodeIndex, prev: NodeIndex, data: u32) -> Node<u32> {
    Node::new(FOO, vec![Link::point(next), Link::point(prev)], data)
}

fn list_schema() -> Schema {
    let mut s = Schema::new();
    s.bidirectional((FOO, NEXT), (FOO, PREV));
    s
}

fn next_of(graph: &Graph<u32>, idx: NodeIndex) -> NodeIndex {
    graph.get(idx).unwrap().iter_links(NEXT).first().copied().unwrap_or(NodeIndex::empty())
}

fn prev_of(graph: &Graph<u32>, idx: NodeIndex) -> NodeIndex {
    graph.get(idx).unwrap().iter_links(PREV).first().copied().unwrap_or(NodeIndex::empty())
}

fn snapshot(graph: &Graph<u32>) -> Vec<(NodeIndex, usize, Vec<Vec<NodeIndex>>, u32)> {
    graph
        .iter()
        .iter()
        .map(|(i, n)| (*i, n.shape, (0..n.links.len()).map(|f| n.iter_links(f)).collect(), n.data))
        .collect()
}

#[test]
fn node_index_empty_is_zero() {
    assert_eq!(NodeIndex::empty(), NodeIndex(0));
    assert!(NodeIndex::empty().is_empty());
    assert!(!NodeIndex(7).is_empty());
    assert_eq!(NodeIndex::default(), NodeIndex::empty());
    assert_eq!(<NodeIndex as ArenaIndex>::new(5), NodeIndex(5));
    assert_eq!(NodeIndex(5).id(), 5);
}

#[test]
fn allocator_counts_from_one_and_is_shared() {
    let d = IdDistributer::new();
    assert_eq!(d.allocate(), Some(1));
    let e = d.share();
    assert_eq!(e.allocate(), Some(2));
    assert_eq!(d.clone().allocate(), Some(3));
    assert_eq!(IdDistributer::from_count(41).allocate(), Some(42));
    assert_eq!(IdDistributer::default().allocate(), Some(1));
    assert_eq!(next_id(0), Some(1));
    assert_eq!(next_id(usize::MAX - 1), Some(usize::MAX));
    assert_eq!(next_id(usize::MAX), None);
    assert_eq!(IdDistributer::from_count(usize::MAX).allocate(), None);
}

#[test]
fn numbers_at_or_below_the_floor_are_kept_back() {
    assert_eq!(keep_above(Some(6), 5), Some(6));
    assert_eq!(keep_above(Some(5), 5), None);
    assert_eq!(keep_above(Some(1), 0), Some(1));
    assert_eq!(keep_above(None, 0), None);

    // The handles of a context, and its transactions, draw from one counter.
    let ctx = Context::from_id(7, 10);
    assert_eq!(ctx.id(), 7);
    let d = ctx.distributer();
    assert_eq!(d.allocate(), Some(11));
    let mut trans = Tx::new(&ctx);
    assert_eq!(trans.reserve(), Some(NodeIndex(12)));
    assert_eq!(ctx.clone().distributer().allocate(), Some(13));
    trans.give_up();
}

fn keys(a: &Arena<&'static str>) -> Vec<(NodeIndex, &'static str)> {
    a.iter().iter().map(|e| (e.0, *e.1)).collect()
}

#[test]
fn arena_keeps_insertion_order_and_swaps_on_removal() {
    let mut a: Arena<&'static str> = Arena::new(IdDistributer::new());
    let i1 = a.insert("one").unwrap();
    let i2 = a.reserve().unwrap();
    let i3 = a.insert("three").unwrap();
    let i4 = a.insert("four").unwrap();
    assert_eq!((i1, i2, i3, i4), (NodeIndex(1), NodeIndex(2), NodeIndex(3), NodeIndex(4)));
    assert!(!a.contains(i2));
    assert_eq!(a.try_fill_back(i2, "two"), Ok(()));
    assert_eq!(a.try_fill_back(i2, "again"), Err(ArenaError::Occupied(i2)));
    assert_eq!(a.try_fill_back(NodeIndex::empty(), "none"), Err(ArenaError::EmptyIndex));
    assert_eq!(keys(&a), vec![(i1, "one"), (i3, "three"), (i4, "four"), (i2, "two")]);
    assert_eq!(a.len(), 4);
    assert_eq!(a.get(i3), Some(&"three"));
    assert_eq!(a.get_index(1), Some((i3, &"three")));
    assert_eq!(a.get_index(4), None);

    assert_eq!(a.remove(i1), Some("one"));
    assert_eq!(a.remove(i1), None);
    // The last entry took the place of the removed one.
    assert_eq!(keys(&a), vec![(i2, "two"), (i3, "three"), (i4, "four")]);
    *a.get_mut(i4).unwrap() = "FOUR";
    assert_eq!(a.get(i4), Some(&"FOUR"));
    assert!(a.get_mut(i1).is_none());

    assert_eq!(a.try_merge(vec![(NodeIndex(9), "nine"), (i3, "clash")]), Err(ArenaError::Occupied(i3)));
    assert_eq!(a.len(), 3);
    assert_eq!(a.try_merge(vec![(NodeIndex(9), "nine"), (NodeIndex(9), "twice")]), Err(ArenaError::Occupied(NodeIndex(9))));
    assert_eq!(a.try_merge(vec![(NodeIndex(0), "zero")]), Err(ArenaError::EmptyIndex));
    assert_eq!(a.try_merge(vec![(NodeIndex(9), "nine"), (NodeIndex(8), "eight")]), Ok(()));
    assert_eq!(
        a.into_entries(),
        vec![(i2, "two"), (i3, "three"), (i4, "FOUR"), (NodeIndex(9), "nine"), (NodeIndex(8), "eight")]
    );
    let exhausted: Result<NodeIndex, ArenaError> = Arena::new(IdDistributer::from_count(usize::MAX)).insert(1);
    assert_eq!(exhausted, Err(ArenaError::Exhausted));
}

#[test]
fn arena_update_moves_the_value_to_the_end() {
    let mut a: Arena<&'static str> = Arena::new(IdDistributer::new());
    let i1 = a.insert("one").unwrap();
    let i2 = a.insert("two").unwrap();
    let i3 = a.insert("three").unwrap();
    a.update_with(i1, |v| if v == "one" { "ONE" } else { "?" });
    assert_eq!(keys(&a), vec![(i3, "three"), (i2, "two"), (i1, "ONE")]);
    a.update_with(i1, |_| "last stays last");
    assert_eq!(keys(&a), vec![(i3, "three"), (i2, "two"), (i1, "last stays last")]);
}

#[test]
fn link_fields_change_as_described() {
    let (a, b, c) = (NodeIndex(1), NodeIndex(2), NodeIndex(3));
    let zero = NodeIndex::empty();

    let mut p = Link::point(a);
    assert_eq!(p.kind(), LinkType::Point);
    assert_eq!(p.modify(0, b, c), ModifyResult { added: false, removed: false });
    assert_eq!(p.modify(0, a, a), ModifyResult { added: false, removed: false });
    assert_eq!(p.modify(0, a, c), ModifyResult { added: true, removed: true });
    assert_eq!(p.targets(), vec![c]);
    assert_eq!(p.modify(0, c, zero), ModifyResult { added: false, removed: true });
    assert_eq!(p.targets(), vec![]);
    assert_eq!(p.add(zero), Ok(false));
    assert_eq!(p.add(a), Ok(true));
    assert_eq!(p.add(a), Ok(false));
    assert_eq!(p.add(b), Err(LinkConflict::Occupied));
    assert!(p.contains(a));
    assert!(!p.contains(b));
    assert!(!p.remove(b));
    assert!(p.remove(a));
    assert!(!p.remove(a));
    assert_eq!(p.records(4), vec![]);

    let mut s = Link::bset(&vec![c, a]);
    assert_eq!(s.targets(), vec![a, c]);
    assert_eq!(s.records(2), vec![(1, 2, 0), (3, 2, 0)]);
    // A set that already has the new target gains nothing.
    assert_eq!(s.modify(0, a, c), ModifyResult { added: false, removed: true });
    assert_eq!(s.targets(), vec![c]);
    assert_eq!(s.modify(0, c, b), ModifyResult { added: true, removed: true });
    assert_eq!(s.add(a), Ok(true));
    assert_eq!(s.add(a), Ok(false));
    assert_eq!(s.targets(), vec![a, b]);
    assert!(s.remove(a));
    assert!(!s.remove(a));
    s.redirect_all(b, c);
    assert_eq!(s.targets(), vec![c]);

    let mut h = Link::hset(&vec![a, b]);
    assert_eq!(h.kind(), LinkType::HSet);
    assert_eq!(BTreeSet::from_iter(h.targets()), BTreeSet::from([a, b]));
    h.redirect_all(a, zero);
    assert_eq!(h.targets(), vec![b]);

    let mut v = Link::vec(vec![a, zero, a, b]);
    assert_eq!(v.records(7), vec![(1, 7, 0), (1, 7, 2), (2, 7, 3)]);
    assert_eq!(v.modify(1, a, c), ModifyResult { added: false, removed: false });
    assert_eq!(v.modify(2, a, c), ModifyResult { added: true, removed: true });
    assert_eq!(v.targets(), vec![a, zero, c, b]);
    assert_eq!(v.add(c), Ok(false));
    assert_eq!(v.add(NodeIndex(9)), Err(LinkConflict::Sequence));
    assert!(!v.remove(a));
    v.redirect_all(a, b);
    assert_eq!(v.targets(), vec![b, zero, c, b]);
    assert_eq!(Link::empty_of(LinkType::Vec).targets(), vec![]);
    assert_eq!(Link::empty_of(LinkType::Point).kind(), LinkType::Point);
}

#[test]
fn node_links_are_listed_with_their_places() {
    let (a, b) = (NodeIndex(1), NodeIndex(2));
    let mut n = Node::new(3, vec![Link::point(a), Link::vec(vec![b, a]), Link::bset(&vec![b])], 0u8);
    assert_eq!(
        n.iter_sources(),
        vec![
            (a, Source { field: 0, pos: 0 }),
            (b, Source { field: 1, pos: 0 }),
            (a, Source { field: 1, pos: 1 }),
            (b, Source { field: 2, pos: 0 }),
        ]
    );
    assert_eq!(n.link_records(), vec![(1, 0, 0), (2, 1, 0), (1, 1, 1), (2, 2, 0)]);
    assert!(n.contains_link(1, a));
    assert!(!n.contains_link(2, a));
    assert!(!n.contains_link(9, a));
    assert_eq!(n.iter_links(9), vec![]);
    assert_eq!(
        n.modify_link(Source { field: 1, pos: 1 }, a, b),
        ModifyResult { added: true, removed: true }
    );
    assert_eq!(n.modify_link(Source { field: 9, pos: 0 }, a, b), ModifyResult { added: false, removed: false });
    assert_eq!(n.iter_links(1), vec![b, b]);
    assert_eq!(n.add_link(9, a), Ok(false));
    assert_eq!(n.add_link(0, b), Err(LinkConflict::Occupied));
    assert!(!n.remove_link(9, a));
    assert!(n.remove_link(2, b));
    n.redirect_all(b, a);
    assert_eq!(n.iter_links(1), vec![a, a]);
    let fresh = Node::with_fields(1, &vec![LinkType::Point, LinkType::HSet], 5u8);
    assert_eq!(fresh.links.len(), 2);
    assert_eq!(fresh.iter_sources(), vec![]);
    assert_eq!(fresh.data, 5);
}

#[test]
fn schema_lists_mirrors_once_in_declaration_order() {
    let mut s = Schema::new();
    s.bidirectional((0, 1), (1, 5));
    s.bidirectional((1, 3), (0, 1));
    s.bidirectional((0, 1), (1, 5));
    s.bidirectional((0, 1), (2, 0));
    assert_eq!(s.mirrors_of(0, 1, 1), vec![5, 3]);
    assert_eq!(s.mirrors_of(1, 5, 0), vec![1]);
    assert_eq!(s.mirrors_of(0, 1, 2), vec![0]);
    assert_eq!(s.mirrors_of(0, 0, 1), vec![]);
    s.link_type((0, 1), vec![1, 2]);
    s.link_type((0, 1), vec![2]);
    assert_eq!(s.check_link_type(2, 0, 1), Ok(()));
    let e = s.check_link_type(1, 0, 1).unwrap_err();
    assert_eq!((e.link, e.expect, e.found), ((0, 1), vec![2], 1));
    assert_eq!(s.check_link_type(7, 3, 3), Ok(()));
    s.link_group("g".to_string(), 0, vec![2, 1, 2]);
    s.link_group("g".to_string(), 0, vec![0, 1]);
    s.link_group("g".to_string(), 1, vec![9]);
    assert_eq!(s.fields_in_group(0, &"g".to_string()), vec![2, 1, 0]);
    assert_eq!(s.fields_in_group(0, &"h".to_string()), vec![]);
}

#[test]
fn chained_redirections_resolve_to_their_end() {
    let (a, b, c, d) = (NodeIndex(1), NodeIndex(2), NodeIndex(3), NodeIndex(4));
    assert_eq!(resolve_redirects(&vec![]), Some(vec![]));
    assert_eq!(resolve_redirects(&vec![(a, b), (b, c)]), Some(vec![c, c]));
    assert_eq!(resolve_redirects(&vec![(b, c), (a, b)]), Some(vec![c, c]));
    assert_eq!(resolve_redirects(&vec![(c, b), (b, a), (d, c)]), Some(vec![a, a, a]));
    assert_eq!(resolve_redirects(&vec![(a, c)]), Some(vec![c]));
    // Loops are rejected, whatever their length.
    assert_eq!(resolve_redirects(&vec![(a, a)]), None);
    assert_eq!(resolve_redirects(&vec![(a, b), (b, a)]), None);
    assert_eq!(resolve_redirects(&vec![(a, b), (c, d), (b, c), (d, a)]), None);
}

#[test]
fn a_later_redirection_of_the_same_index_replaces_the_earlier() {
    let (a, b, c, d) = (NodeIndex(1), NodeIndex(2), NodeIndex(3), NodeIndex(4));
    assert_eq!(resolve_redirects(&vec![(a, b), (a, c)]), Some(vec![b, c]));
    // The second redirection of `a` takes it off the path from `c` back to
    // itself, so the last pair closes no loop.
    assert_eq!(resolve_redirects(&vec![(a, b), (b, c), (a, d), (c, a)]), Some(vec![d, d, d, d]));
}

#[test]
fn chain_redirect_equals_direct_redirect() {
    let run = |pairs: Vec<(usize, usize)>| {
        let ctx = Context::new();
        let mut graph: Graph<u32> = Graph::new(&ctx);
        let mut trans = Tx::new(&ctx);
        let a = trans.reserve().unwrap();
        let b = trans.reserve().unwrap();
        let c = trans.reserve().unwrap();
        let ids = [NodeIndex::empty(), a, b, c];
        trans.fill_back(a, foo(b, c, 1));
        trans.fill_back(b, foo(a, a, 2));
        trans.fill_back(c, foo(a, b, 3));
        graph.commit(trans).unwrap();
        let mut trans = Tx::new(&ctx);
        for (from, to) in pairs {
            trans.redirect_links(ids[from], ids[to]);
        }
        graph.commit(trans).unwrap();
        assert!(graph.check_backlinks());
        (snapshot(&graph), graph.back_links(a), graph.back_links(b), graph.back_links(c))
    };
    let chained = run(vec![(1, 2), (2, 3)]);
    let reversed = run(vec![(2, 3), (1, 2)]);
    let direct = run(vec![(1, 3), (2, 3)]);
    assert_eq!(chained.0, direct.0);
    assert_eq!(reversed.0, direct.0);
    // Nothing points at a or b any more.
    assert!(direct.1.is_empty() && direct.2.is_empty());
    assert!(chained.1.is_empty() && chained.2.is_empty());
    assert_eq!(chained.3.len(), 6);
}

#[test]
fn early_errors_leave_the_graph_untouched() {
    let ctx = Context::new();
    let mut graph = Graph::with_schema(&ctx, list_schema());
    let mut trans = Tx::new(&ctx);
    let x = trans.insert(foo(NodeIndex::empty(), NodeIndex::empty(), 1)).unwrap();
    let y = trans.insert(foo(NodeIndex::empty(), x, 2)).unwrap();
    graph.commit(trans).unwrap();
    let before = snapshot(&graph);
    let links_before = (graph.back_links(x), graph.back_links(y));

    // An unfilled reservation.
    let mut trans = Tx::new(&ctx);
    let z = trans.insert(foo(x, y, 3)).unwrap();
    let pending = trans.reserve().unwrap();
    trans.remove(x);
    trans.redirect_links(y, x);
    let r = graph.try_commit(trans);
    assert_eq!(r, Err(CommitError::UnfilledReservation(pending)));
    assert!(r.unwrap_err().is_early());
    assert!(graph.get(z).is_none());

    // Another context.
    let other = Context::new();
    let mut trans = Tx::new(&other);
    trans.remove(x);
    assert_eq!(graph.try_commit(trans), Err(CommitError::ContextMismatch));

    // A staged index that the graph holds.
    let mut trans: Tx = Transaction::new(&ctx);
    trans.fill_back(x, foo(y, y, 9));
    assert_eq!(graph.try_commit(trans), Err(CommitError::IndexCollision(x)));

    // Changes and removals of nodes that are nowhere.
    let nowhere = NodeIndex(1000);
    let mut trans = Tx::new(&ctx);
    trans.mutate(x, Box::new(|n| n.data = 7));
    trans.mutate(nowhere, Box::new(|n| n.data = 7));
    assert_eq!(graph.try_commit(trans), Err(CommitError::MissingNode(nowhere)));
    let mut trans = Tx::new(&ctx);
    trans.update(nowhere, Box::new(|n| n));
    assert_eq!(graph.try_commit(trans), Err(CommitError::MissingNode(nowhere)));
    let mut trans = Tx::new(&ctx);
    trans.remove(y);
    trans.remove(nowhere);
    assert_eq!(graph.try_commit(trans), Err(CommitError::MissingNode(nowhere)));

    // Loops among the redirections, of either kind.
    let mut trans = Tx::new(&ctx);
    trans.remove(y);
    trans.redirect_links(x, y);
    trans.redirect_links(y, x);
    assert_eq!(graph.try_commit(trans), Err(CommitError::LoopRedirection));
    let mut trans = Tx::new(&ctx);
    trans.redirect_all_links(x, x);
    assert_eq!(graph.try_commit(trans), Err(CommitError::LoopRedirection));

    assert_eq!(snapshot(&graph), before);
    assert_eq!((graph.back_links(x), graph.back_links(y)), links_before);
    assert!(graph.check_backlinks());
}

#[test]
fn declared_mirror_is_filled_in() {
    let ctx = Context::new();
    let mut graph = Graph::with_schema(&ctx, list_schema());
    let mut trans = Tx::new(&ctx);
    let y = trans.reserve().unwrap();
    let x = trans.insert(foo(y, NodeIndex::empty(), 1)).unwrap();
    trans.fill_back(y, foo(NodeIndex::empty(), NodeIndex::empty(), 2));
    graph.commit(trans).unwrap();
    assert_eq!(prev_of(&graph, y), x);
    assert_eq!(next_of(&graph, x), y);
    assert_eq!(graph.back_links(x), vec![(y, Source { field: PREV, pos: 0 })]);
    assert_eq!(graph.back_links(y), vec![(x, Source { field: NEXT, pos: 0 })]);
    assert!(graph.check_backlinks());
    assert!(graph.check_integrity());
}

#[test]
fn satisfied_pairs_and_absent_mirrors_change_nothing() {
    let ctx = Context::new();
    let mut graph = Graph::with_schema(&ctx, list_schema());
    let mut trans = Tx::new(&ctx);
    let y = trans.reserve().unwrap();
    let x = trans.insert(foo(y, NodeIndex::empty(), 1)).unwrap();
    trans.fill_back(y, foo(NodeIndex::empty(), x, 2));
    let z = trans.insert(foo(NodeIndex::empty(), NodeIndex::empty(), 3)).unwrap();
    graph.commit(trans).unwrap();
    let before = snapshot(&graph);

    // Writing the same link again: the pair is satisfied already.
    let mut trans = Tx::new(&ctx);
    trans.mutate(x, Box::new(move |n| n.links[NEXT] = Link::point(y)));
    graph.commit(trans).unwrap();
    assert_eq!(snapshot(&graph), before);

    // Adding a link whose mirror is there, then removing one whose mirror is absent.
    let mut trans = Tx::new(&ctx);
    trans.mutate(z, Box::new(move |n| n.links[PREV] = Link::point(x)));
    assert_eq!(
        graph.commit(trans),
        Err(CommitError::BidirectionalConflict { source: z, target: x, field: NEXT, reason: LinkConflict::Occupied })
    );
    assert_eq!(prev_of(&graph, z), x);
    assert_eq!(next_of(&graph, x), y);
    let mut trans = Tx::new(&ctx);
    trans.mutate(z, Box::new(|n| n.links[PREV] = Link::point(NodeIndex::empty())));
    graph.commit(trans).unwrap();
    assert_eq!(snapshot(&graph), before);
    assert!(graph.check_backlinks());
}

#[test]
fn removed_link_takes_its_mirror_along() {
    let ctx = Context::new();
    let mut graph = Graph::with_schema(&ctx, list_schema());
    let mut trans = Tx::new(&ctx);
    let y = trans.reserve().unwrap();
    let x = trans.insert(foo(y, NodeIndex::empty(), 1)).unwrap();
    trans.fill_back(y, foo(NodeIndex::empty(), NodeIndex::empty(), 2));
    graph.commit(trans).unwrap();

    let mut trans = Tx::new(&ctx);
    trans.mutate(y, Box::new(|n| n.links[PREV] = Link::point(NodeIndex::empty())));
    graph.commit(trans).unwrap();
    assert!(next_of(&graph, x).is_empty());
    assert!(prev_of(&graph, y).is_empty());
    assert!(graph.back_links(x).is_empty() && graph.back_links(y).is_empty());
}

#[test]
fn ambiguous_mirror_is_reported() {
    let mut s = Schema::new();
    s.bidirectional((0, 0), (1, 0));
    s.bidirectional((0, 0), (1, 1));
    let ctx = Context::new();
    let mut graph: Graph<u32> = Graph::with_schema(&ctx, s);
    let mut trans = Tx::new(&ctx);
    let y = trans.insert(Node::new(1, vec![Link::point(NodeIndex::empty()), Link::point(NodeIndex::empty())], 0)).unwrap();
    let x = trans.insert(Node::new(0, vec![Link::point(y)], 0)).unwrap();
    assert_eq!(
        graph.commit(trans),
        Err(CommitError::AmbiguousBidirectional { source: x, target: y, field: 0 })
    );
    assert!(CommitError::LoopRedirection.is_early());
    assert!(!CommitError::AmbiguousBidirectional { source: x, target: y, field: 0 }.is_early());
    assert!(graph.check_backlinks());
}

#[test]
fn round_trip_keeps_nodes_order_and_back_links() {
    let ctx = Context::new();
    let mut graph = Graph::with_schema(&ctx, list_schema());
    let mut trans = Tx::new(&ctx);
    let y = trans.reserve().unwrap();
    let x = trans.insert(foo(y, NodeIndex::empty(), 1)).unwrap();
    trans.fill_back(y, foo(NodeIndex::empty(), NodeIndex::empty(), 2));
    let z = trans.insert(foo(NodeIndex::empty(), NodeIndex::empty(), 3)).unwrap();
    graph.commit(trans).unwrap();
    let mut trans = Tx::new(&ctx);
    trans.remove(z);
    graph.commit(trans).unwrap();

    let before = snapshot(&graph);
    let links = (graph.back_links(x), graph.back_links(y));
    let listed = GraphSerializer::from(graph);
    assert_eq!(max_index(&listed.nodes), 2);
    let (ctx2, graph2) = deserialize_graph(listed, list_schema()).unwrap();
    assert_eq!(snapshot(&graph2), before);
    assert_eq!((graph2.back_links(x), graph2.back_links(y)), links);
    assert_eq!(graph2.ctx_id(), ctx.id());
    assert!(graph2.check_backlinks());

    // The allocator of the new context goes on after the largest index.
    let mut graph2 = graph2;
    let mut trans = Tx::new(&ctx2);
    let w = trans.insert(foo(x, NodeIndex::empty(), 4)).unwrap();
    assert_eq!(w, NodeIndex(3));
    graph2.commit(trans).unwrap();
    assert_eq!(prev_of(&graph2, x), w);
}

#[test]
fn lists_with_bad_indices_are_refused() {
    let n = || foo(NodeIndex::empty(), NodeIndex::empty(), 0);
    let twice = GraphSerializer { ctx_id: 7, nodes: vec![(NodeIndex(1), n()), (NodeIndex(1), n())] };
    assert_eq!(deserialize_graph(twice, Schema::new()).err(), Some(CommitError::IndexCollision(NodeIndex(1))));
    let zero = GraphSerializer { ctx_id: 7, nodes: vec![(NodeIndex(0), n())] };
    assert_eq!(deserialize_graph(zero, Schema::new()).err(), Some(CommitError::IndexCollision(NodeIndex(0))));
    let ctx = Context::from_id(7, 0);
    let g = build(&ctx, vec![(NodeIndex(5), n()), (NodeIndex(2), n())], Schema::new()).unwrap();
    assert_eq!(g.iter().iter().map(|e| e.0).collect::<Vec<_>>(), vec![NodeIndex(5), NodeIndex(2)]);
    assert_eq!(max_index::<u32>(&vec![]), 0);
}

#[test]
fn switch_context_renames_indices_and_keeps_topology() {
    let ctx = Context::new();
    let mut graph = Graph::with_schema(&ctx, list_schema());
    let mut trans = Tx::new(&ctx);
    let a = trans.insert(foo(NodeIndex::empty(), NodeIndex::empty(), 1)).unwrap();
    let b = trans.insert(foo(NodeIndex(77), NodeIndex::empty(), 2)).unwrap();
    let c = trans.insert(foo(a, NodeIndex::empty(), 3)).unwrap();
    graph.commit(trans).unwrap();
    let mut trans = Tx::new(&ctx);
    trans.remove(b);
    let d = trans.insert(foo(c, NodeIndex(77), 4)).unwrap();
    graph.commit(trans).unwrap();
    assert_eq!((a, c, d), (NodeIndex(1), NodeIndex(3), NodeIndex(4)));
    // The removal moved the last node into the gap.
    assert_eq!(graph.iter().iter().map(|e| e.0).collect::<Vec<_>>(), vec![a, d, c]);

    let ctx2 = Context::new();
    let moved = graph.switch_context(&ctx2).unwrap();
    assert_eq!(moved.ctx_id(), ctx2.id());
    let (a2, d2, c2) = (NodeIndex(1), NodeIndex(2), NodeIndex(3));
    assert_eq!(
        snapshot(&moved),
        vec![
            (a2, FOO, vec![vec![], vec![c2]], 1),
            // The link to an index that the graph did not hold is dropped.
            (d2, FOO, vec![vec![c2], vec![]], 4),
            (c2, FOO, vec![vec![a2], vec![d2]], 3),
        ]
    );
    assert!(moved.check_backlinks());
    assert!(moved.check_integrity());
}

#[test]
fn merge_stages_the_nodes_of_a_graph() {
    let ctx1 = Context::new();
    let mut graph1: Graph<u32> = Graph::new(&ctx1);
    let mut trans1 = Tx::new(&ctx1);
    let n1 = trans1.insert(foo(NodeIndex::empty(), NodeIndex::empty(), 1)).unwrap();
    graph1.commit(trans1).unwrap();

    let mut graph2: Graph<u32> = Graph::new(&ctx1);
    let mut trans2 = Tx::new(&ctx1);
    let n2 = trans2.insert(foo(n1, NodeIndex::empty(), 2)).unwrap();
    assert_eq!(trans2.try_merge(graph1), Ok(()));
    graph2.commit(trans2).unwrap();
    assert!(graph2.get(n1).is_some());
    assert_eq!(graph2.back_links(n1), vec![(n2, Source { field: NEXT, pos: 0 })]);

    let ctx2 = Context::new();
    let mut graph3: Graph<u32> = Graph::new(&ctx2);
    let mut trans3 = Tx::new(&ctx2);
    let other: Graph<u32> = Graph::new(&ctx1);
    assert_eq!(trans3.try_merge(other), Err(CommitError::ContextMismatch));
    trans3.merge(graph2.switch_context(&ctx2).unwrap());
    graph3.commit(trans3).unwrap();
    assert_eq!(graph3.len(), 2);
    assert!(graph3.check_backlinks());

    let mut clash: Graph<u32> = Graph::new(&ctx2);
    let mut t = Tx::new(&ctx2);
    t.fill_back(NodeIndex(1), foo(NodeIndex::empty(), NodeIndex::empty(), 0));
    clash.commit(t).unwrap();
    let mut t = Tx::new(&ctx2);
    t.fill_back(NodeIndex(1), foo(NodeIndex::empty(), NodeIndex::empty(), 0));
    assert_eq!(t.try_merge(clash), Err(CommitError::IndexCollision(NodeIndex(1))));
}

#[test]
fn staged_nodes_are_changed_at_once() {
    let ctx = Context::new();
    let mut graph: Graph<u32> = Graph::new(&ctx);
    let mut trans = Tx::new(&ctx);
    let a = trans.insert(foo(NodeIndex::empty(), NodeIndex::empty(), 1)).unwrap();
    let b = trans.insert(foo(NodeIndex::empty(), NodeIndex::empty(), 2)).unwrap();
    let r = trans.reserve().unwrap();
    trans.mutate(a, Box::new(|n| n.data = 10));
    trans.update(a, Box::new(move |n| foo(b, NodeIndex::empty(), n.data + 1)));
    trans.remove(b);
    trans.remove(r);
    graph.commit(trans).unwrap();
    assert_eq!(snapshot(&graph), vec![(a, FOO, vec![vec![b], vec![]], 11)]);
    assert!(!graph.check_integrity());
    assert_eq!(graph.back_links(b), vec![(a, Source { field: NEXT, pos: 0 })]);
}

#[test]
fn update_moves_the_node_to_the_end() {
    let ctx = Context::new();
    let mut graph: Graph<u32> = Graph::new(&ctx);
    let mut trans = Tx::new(&ctx);
    let a = trans.insert(foo(NodeIndex::empty(), NodeIndex::empty(), 1)).unwrap();
    let b = trans.insert(foo(a, NodeIndex::empty(), 2)).unwrap();
    let c = trans.insert(foo(NodeIndex::empty(), NodeIndex::empty(), 3)).unwrap();
    graph.commit(trans).unwrap();
    let mut trans = Tx::new(&ctx);
    trans.update(a, Box::new(move |n| foo(c, NodeIndex::empty(), n.data + 10)));
    graph.commit(trans).unwrap();
    assert_eq!(
        snapshot(&graph),
        vec![
            (c, FOO, vec![vec![], vec![]], 3),
            (b, FOO, vec![vec![a], vec![]], 2),
            (a, FOO, vec![vec![c], vec![]], 11),
        ]
    );
    assert_eq!(graph.back_links(c), vec![(a, Source { field: NEXT, pos: 0 })]);
    assert!(graph.check_backlinks());
}

type NodeCheck = Box<dyn Fn(NodeIndex, &Node<u32>) -> CheckResult>;
type LinkCheck = Box<dyn Fn(NodeIndex, NodeIndex, &Node<u32>, Option<&Node<u32>>) -> CheckResult>;

#[test]
fn checks_run_on_what_changed() {
    let mut checks: GraphCheck<NodeCheck, LinkCheck> = GraphCheck::new();
    checks.insert_node_check("small".to_string(), Box::new(|_, n| if n.data < 100 { Ok(()) } else { Err(()) }));
    checks.insert_node_check("never".to_string(), Box::new(|_, _| Err(())));
    checks.insert_node_check("never".to_string(), Box::new(|_, _| Ok(())));
    checks.insert_node_check("gone".to_string(), Box::new(|_, _| Err(())));
    checks.remove_node_check(&"gone".to_string());
    checks.insert_link_add_check(
        "target exists".to_string(),
        Box::new(|_, _, _, target| if target.is_some() { Ok(()) } else { Err(()) }),
    );
    checks.insert_link_add_check("gone".to_string(), Box::new(|_, _, _, _| Err(())));
    checks.remove_link_add_check(&"gone".to_string());
    checks.insert_link_remove_check("keep all".to_string(), Box::new(|_, _, _, _| Err(())));
    checks.insert_link_remove_check("gone".to_string(), Box::new(|_, _, _, _| Err(())));
    checks.remove_link_remove_check(&"gone".to_string());

    let ctx = Context::new();
    let mut graph: Graph<u32> = Graph::new(&ctx);
    let mut trans = Tx::new(&ctx);
    let quiet = trans.insert(foo(NodeIndex::empty(), NodeIndex::empty(), 500)).unwrap();
    let a = trans.insert(foo(quiet, NodeIndex::empty(), 1)).unwrap();
    assert_eq!(graph.try_commit_checked(trans, &checks), Ok(()));

    let mut trans = Tx::new(&ctx);
    trans.mutate(a, Box::new(|n| n.data = 100));
    // Only nodes whose links changed are looked at.
    assert_eq!(graph.try_commit_checked(trans, &checks), Ok(()));

    let mut trans = Tx::new(&ctx);
    trans.mutate(a, Box::new(|n| n.links[NEXT] = Link::point(NodeIndex(99))));
    assert_eq!(
        graph.commit_checked(trans, &checks),
        Err(CommitError::CheckFailed(vec![
            "small".to_string(),
            "target exists".to_string(),
            "keep all".to_string()
        ]))
    );
    assert_eq!(next_of(&graph, a), NodeIndex(99));
    assert!(graph.check_backlinks());

    let mut trans = Tx::new(&ctx);
    let pending = trans.reserve().unwrap();
    assert_eq!(graph.try_commit_checked(trans, &checks), Err(CommitError::UnfilledReservation(pending)));
}

#[test]
fn queued_closures_run_in_queue_order() {
    let ctx = Context::new();
    let mut graph: Graph<u32> = Graph::new(&ctx);
    let mut trans = Tx::new(&ctx);
    let a = trans.insert(foo(NodeIndex::empty(), NodeIndex::empty(), 1)).unwrap();
    let b = trans.insert(foo(NodeIndex::empty(), NodeIndex::empty(), 2)).unwrap();
    graph.commit(trans).unwrap();

    let mut trans = Tx::new(&ctx);
    // Replacements run after all in-place changes, whenever they were queued.
    trans.update(a, Box::new(|n| foo(NodeIndex::empty(), NodeIndex::empty(), n.data * 100)));
    trans.mutate(a, Box::new(|n| n.data += 1));
    trans.mutate(a, Box::new(|n| n.data *= 3));
    trans.mutate(b, Box::new(move |n| n.links[NEXT] = Link::point(a)));
    graph.commit(trans).unwrap();

    assert_eq!(graph.get(a).unwrap().data, 600);
    assert_eq!(next_of(&graph, b), a);
    assert_eq!(graph.back_links(a), vec![(b, Source { field: NEXT, pos: 0 })]);
    assert!(graph.check_backlinks());
}

#[test]
fn link_type_error_names_the_first_broken_declaration() {
    let mut schema = Schema::new();
    schema.link_type((FOO, NEXT), vec![FOO, 1]);
    schema.link_type((FOO, NEXT), vec![1, 2]);
    schema.link_type((FOO, PREV), vec![FOO]);
    assert_eq!(schema.check_link_type(1, FOO, NEXT), Ok(()));
    assert_eq!(schema.check_link_type(FOO, FOO, PREV), Ok(()));
    // A tag without a declaration may point anywhere.
    assert_eq!(schema.check_link_type(7, 3, NEXT), Ok(()));
    let first = schema.check_link_type(2, FOO, NEXT).unwrap_err();
    assert_eq!((first.link, first.expect, first.found), ((FOO, NEXT), vec![FOO, 1], 2));
    let second = schema.check_link_type(FOO, FOO, NEXT).unwrap_err();
    assert_eq!((second.link, second.expect, second.found), ((FOO, NEXT), vec![1, 2], FOO));
}

// A shape with two single links that share one mirror field.
const TWIN: usize = 3;
const TWIN_A: usize = 0;
const TWIN_B: usize = 1;
const TWIN_M: usize = 2;

fn twin_schema() -> Schema {
    let mut s = Schema::new();
    s.bidirectional((TWIN, TWIN_A), (TWIN, TWIN_M));
    s.bidirectional((TWIN, TWIN_B), (TWIN, TWIN_M));
    s
}

fn twin(a: NodeIndex, b: NodeIndex, m: &[NodeIndex]) -> Node<u32> {
    Node::new(TWIN, vec![Link::point(a), Link::point(b), Link::hset(&m.to_vec())], 0)
}

// A graph in which `b` points at the node while the mirror field does not
// point back: what a commit leaves after `a` was cleared.
fn unsettled(ctx: &Context) -> (Graph<u32>, NodeIndex) {
    let mut graph = Graph::with_schema(ctx, twin_schema());
    let mut trans = Tx::new(ctx);
    let x = trans.reserve().unwrap();
    trans.fill_back(x, twin(x, x, &[x]));
    graph.commit(trans).unwrap();
    let mut trans = Tx::new(ctx);
    trans.mutate(x, Box::new(|n| n.links[TWIN_A] = Link::point(NodeIndex::empty())));
    graph.commit(trans).unwrap();
    assert_eq!(
        snapshot(&graph),
        vec![(x, TWIN, vec![vec![], vec![x], vec![]], 0)]
    );
    assert_eq!(graph.back_links(x), vec![(x, Source { field: TWIN_B, pos: 0 })]);
    (graph, x)
}

#[test]
fn round_trip_adds_no_link() {
    let ctx = Context::new();
    let (graph, x) = unsettled(&ctx);
    let before = snapshot(&graph);
    let links = graph.back_links(x);
    let (_ctx2, graph2) = deserialize_graph(GraphSerializer::from(graph), twin_schema()).unwrap();
    assert_eq!(snapshot(&graph2), before);
    assert_eq!(graph2.back_links(x), links);
    assert!(graph2.check_backlinks());
}

#[test]
fn a_moved_graph_keeps_its_links_as_they_are() {
    let ctx = Context::new();
    let (graph, _x) = unsettled(&ctx);
    let ctx2 = Context::from_id(9, 40);
    let moved = graph.switch_context(&ctx2).unwrap();
    let y = NodeIndex(41);
    assert_eq!(snapshot(&moved), vec![(y, TWIN, vec![vec![], vec![y], vec![]], 0)]);
    assert_eq!(moved.back_links(y), vec![(y, Source { field: TWIN_B, pos: 0 })]);
    assert_eq!(moved.ctx_id(), 9);
    assert!(moved.check_backlinks());

    // A graph without nodes moves even where the allocator has nothing left.
    let spent = Context::from_id(1, usize::MAX);
    let empty: Graph<u32> = Graph::new(&ctx);
    assert_eq!(empty.switch_context(&spent).unwrap().len(), 0);
    let (graph, _x) = unsettled(&ctx);
    assert_eq!(graph.switch_context(&spent).err(), Some(CommitError::IdsExhausted));
}

#[test]
fn failed_checks_are_reported_by_name() {
    let mut checks: GraphCheck<NodeCheck, LinkCheck> = GraphCheck::new();
    checks.insert_node_check("b".to_string(), Box::new(|_, _| Err(())));
    checks.insert_node_check("a".to_string(), Box::new(|_, _| Err(())));
    checks.insert_node_check("ab".to_string(), Box::new(|_, _| Err(())));
    checks.insert_node_check("".to_string(), Box::new(|_, _| Err(())));
    checks.insert_node_check("B".to_string(), Box::new(|_, _| Err(())));
    checks.insert_node_check("é".to_string(), Box::new(|_, _| Err(())));
    checks.insert_node_check("never".to_string(), Box::new(|_, _| Ok(())));
    checks.insert_link_add_check("z".to_string(), Box::new(|_, _, _, _| Err(())));
    checks.insert_link_add_check("y".to_string(), Box::new(|_, _, _, _| Err(())));
    checks.insert_link_add_check("x".to_string(), Box::new(|_, _, _, _| Err(())));
    checks.remove_link_add_check(&"y".to_string());

    let ctx = Context::new();
    let mut graph: Graph<u32> = Graph::new(&ctx);
    let mut trans = Tx::new(&ctx);
    let t = trans.insert(foo(NodeIndex::empty(), NodeIndex::empty(), 1)).unwrap();
    trans.insert(foo(t, NodeIndex::empty(), 2)).unwrap();
    let names: Vec<String> = ["", "B", "a", "ab", "b", "é", "x", "z"].iter().map(|s| s.to_string()).collect();
    assert_eq!(graph.try_commit_checked(trans, &checks), Err(CommitError::CheckFailed(names)));
}

#[test]
fn texts_are_ordered_as_strings_are() {
    let less = |a: &str, b: &str| text_less(&a.to_string(), &b.to_string());
    let pairs = [("", "a"), ("a", "ab"), ("a", "b"), ("ab", "b"), ("B", "a"), ("z", "é"), ("é", "€")];
    for (a, b) in pairs {
        assert!(less(a, b), "{:?} before {:?}", a, b);
        assert!(!less(b, a), "{:?} not before {:?}", b, a);
        assert_eq!(less(a, b), a < b);
    }
    assert!(!less("same", "same"));
    assert!(!less("", ""));
}

#[test]
fn a_node_holds_the_links_of_its_records() {
    let n = Node::new(7, vec![Link::point(NodeIndex(4)), Link::vec(vec![NodeIndex(5), NodeIndex(4)])], 0u32);
    assert!(holds_record(&n, (4, 0, 0)));
    assert!(holds_record(&n, (5, 1, 0)));
    assert!(holds_record(&n, (4, 1, 1)));
    assert!(!holds_record(&n, (4, 1, 0)));
    assert!(!holds_record(&n, (5, 0, 0)));
    assert!(!holds_record(&n, (4, 2, 0)));
}

#[test]
fn link_changes_are_followed_up_in_ascending_order() {
    assert_eq!(
        sorted(vec![(2, 1, 0), (1, 5, 3), (1, 5, 2), (1, 4, 9), (0, 7, 7)]),
        vec![(0, 7, 7), (1, 4, 9), (1, 5, 2), (1, 5, 3), (2, 1, 0)]
    );
    assert_eq!(sorted(vec![]), vec![]);

    // Two nodes point at `y`, whose one mirror field holds a single index.
    // The node with the lesser index gets the mirror link, whichever of
    // the two was staged first; the other is reported.
    let ctx = Context::new();
    let mut graph = Graph::with_schema(&ctx, list_schema());
    let mut trans = Tx::new(&ctx);
    let y = trans.insert(foo(NodeIndex::empty(), NodeIndex::empty(), 0)).unwrap();
    let a = trans.reserve().unwrap();
    let b = trans.reserve().unwrap();
    trans.fill_back(b, foo(y, NodeIndex::empty(), 2));
    trans.fill_back(a, foo(y, NodeIndex::empty(), 1));
    assert!(a < b);
    assert_eq!(
        graph.commit(trans),
        Err(CommitError::BidirectionalConflict { source: b, target: y, field: PREV, reason: LinkConflict::Occupied })
    );
    assert_eq!(prev_of(&graph, y), a);
    assert!(graph.check_backlinks());
}

#[test]
fn a_refusal_is_known_before_the_commit() {
    let ctx = Context::new();
    let mut graph: Graph<u32> = Graph::new(&ctx);
    let mut trans = Tx::new(&ctx);
    let pending = trans.reserve().unwrap();
    assert_eq!(graph.refusal(&trans), Some(CommitError::UnfilledReservation(pending)));
    trans.fill_back(pending, foo(NodeIndex::empty(), NodeIndex::empty(), 1));
    assert_eq!(graph.refusal(&trans), None);
    graph.commit(trans).unwrap();

    let other = Tx::new(&Context::new());
    assert_eq!(graph.refusal(&other), Some(CommitError::ContextMismatch));
    let mut trans = Tx::new(&ctx);
    trans.redirect_links(pending, pending);
    assert_eq!(graph.refusal(&trans), Some(CommitError::LoopRedirection));
    assert_eq!(graph.try_commit(trans), Err(CommitError::LoopRedirection));
    other.give_up();
}

#[test]
fn a_graph_is_renamed_to_the_indices_given() {
    let build_graph = |ctx: &Context| {
        let mut graph: Graph<u32> = Graph::new(ctx);
        let mut trans = Tx::new(ctx);
        let a = trans.reserve().unwrap();
        let b = trans.insert(foo(a, NodeIndex::empty(), 2)).unwrap();
        trans.fill_back(a, foo(b, NodeIndex(77), 1));
        graph.commit(trans).unwrap();
        graph
    };
    let ctx = Context::new();
    let ctx2 = Context::from_id(5, 0);

    // The order is b, a: b was staged first.
    let moved = build_graph(&ctx).relabel(&vec![30, 10], &ctx2).unwrap();
    let (a, b) = (NodeIndex(10), NodeIndex(30));
    assert_eq!(
        snapshot(&moved),
        vec![(b, FOO, vec![vec![a], vec![]], 2), (a, FOO, vec![vec![b], vec![]], 1)]
    );
    assert_eq!(moved.ctx_id(), 5);
    assert_eq!(moved.back_links(a), vec![(b, Source { field: NEXT, pos: 0 })]);
    assert!(moved.check_backlinks());

    assert_eq!(
        build_graph(&ctx).relabel(&vec![4, 4], &ctx2).err(),
        Some(CommitError::IndexCollision(NodeIndex(4)))
    );
    assert_eq!(
        build_graph(&ctx).relabel(&vec![0, 4], &ctx2).err(),
        Some(CommitError::IndexCollision(NodeIndex(0)))
    );
}

#[test]
fn an_ordered_set_keeps_the_order_of_arrival() {
    let mut s = InsertionSet::new();
    assert!(s.insert(5));
    assert!(s.insert(2));
    assert!(!s.insert(5));
    assert!(s.insert(9));
    assert_eq!(s.items(), vec![5, 2, 9]);
    assert!(s.remove(&5));
    assert!(!s.remove(&5));
    assert_eq!(s.items(), vec![2, 9]);
    assert!(s.contains(&9));
    assert!(!s.contains(&5));

    let n = |i: usize| NodeIndex(i);
    let mut l = Link::oset(&vec![n(3), n(1), n(2), n(1)]);
    assert_eq!(l.kind(), LinkType::OSet);
    assert_eq!(l.targets(), vec![n(3), n(1), n(2)]);
    assert_eq!(l.modify(0, n(1), n(7)), ModifyResult { added: true, removed: true });
    assert_eq!(l.targets(), vec![n(3), n(2), n(7)]);
    assert!(l.remove(n(3)));
    assert_eq!(l.add(n(3)), Ok(true));
    assert_eq!(l.add(n(3)), Ok(false));
    assert_eq!(l.targets(), vec![n(2), n(7), n(3)]);
    l.redirect_all(n(7), n(2));
    assert_eq!(l.targets(), vec![n(2), n(3)]);
    assert!(l.contains(n(3)));
    assert_eq!(Link::empty_of(LinkType::OSet).targets(), vec![]);
}
