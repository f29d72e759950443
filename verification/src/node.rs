//! Nodes: a shape, a payload, and a list of link fields.

use vstd::prelude::*;
use crate::index::NodeIndex;
use crate::link::{Link, LinkConflict, LinkModel, LinkType, ModifyResult, Source};
use crate::order_set::lemma_push_no_duplicates;

verus! {

/// A node of the graph.
///
/// `shape` says which of the closed set of node shapes this node has; the
/// tables of a `Schema` are looked up by it. `links` holds the outgoing
/// references, one field per link tag of the shape. `data` is whatever else
/// the node carries; the graph never looks at it.
#[derive(Debug)]
pub struct Node<D> {
    pub shape: usize,
    pub links: Vec<Link>,
    pub data: D,
}

/// Why the mirror of an added link could not be put in place.
pub enum SyncBlock {
    /// More than one field could mirror the link, and none does yet.
    Ambiguous,
    /// The one field that could mirror the link, named here, cannot take
    /// it.
    Conflict(usize, LinkConflict),
}

/// Whether `m` is the one member of `fields`.
pub open spec fn is_sole(fields: Set<usize>, m: usize) -> bool {
    forall|a: usize| fields.contains(a) <==> a == m
}

/// A node as a mathematical value.
pub struct NodeModel<D> {
    pub shape: usize,
    pub links: Seq<LinkModel>,
    pub data: D,
}

impl<D> NodeModel<D> {
    /// Whether the node holds a link to `t` in field `f` at position `p`.
    pub open spec fn has_link(self, t: usize, f: usize, p: usize) -> bool {
        f < self.links.len() && self.links[f as int].holds(t, p)
    }

    /// Whether the node holds a link to `t` in field `f`.
    pub open spec fn points_to(self, f: usize, t: usize) -> bool {
        f < self.links.len() && self.links[f as int].points_to(t)
    }

    /// The links of the node, as records `(target, field, position)`.
    pub open spec fn link_set(self) -> Set<(usize, usize, usize)> {
        Set::new(|r: (usize, usize, usize)| self.has_link(r.0, r.1, r.2))
    }

    /// The node with field `f` replaced.
    pub open spec fn with_field(self, f: usize, l: LinkModel) -> NodeModel<D> {
        if f < self.links.len() {
            NodeModel { shape: self.shape, links: self.links.update(f as int, l), data: self.data }
        } else {
            self
        }
    }

    /// The node after its link to `from` at `src` was pointed at `to`.
    pub open spec fn modified(self, src: Source, from: usize, to: usize) -> NodeModel<D> {
        if src.field < self.links.len() {
            self.with_field(src.field, self.links[src.field as int].modified(src.pos, from, to))
        } else {
            self
        }
    }

    /// The node with a link to `t` added to field `f`.
    pub open spec fn with_link(self, f: usize, t: usize) -> NodeModel<D> {
        if f < self.links.len() {
            self.with_field(f, self.links[f as int].with(t))
        } else {
            self
        }
    }

    /// The node with the link to `t` taken out of field `f`.
    pub open spec fn without_link(self, f: usize, t: usize) -> NodeModel<D> {
        if f < self.links.len() {
            self.with_field(f, self.links[f as int].without(t))
        } else {
            self
        }
    }

    /// The node with every link to `from` pointed at `to`, or removed where
    /// `to` is empty.
    pub open spec fn redirected(self, from: usize, to: usize) -> NodeModel<D> {
        NodeModel {
            shape: self.shape,
            links: Seq::new(self.links.len(), |f: int| self.links[f].redirected(from, to)),
            data: self.data,
        }
    }
}

impl<D> NodeModel<D> {
    /// The node with every link target renamed by `m`; a target that `m`
    /// does not rename is dropped.
    pub open spec fn renamed(self, m: Map<usize, usize>) -> NodeModel<D> {
        NodeModel {
            shape: self.shape,
            links: Seq::new(self.links.len(), |f: int| self.links[f].renamed(m)),
            data: self.data,
        }
    }

    /// Whether every position of every field can be named by a `usize`.
    pub open spec fn fits(self) -> bool {
        &&& self.links.len() <= usize::MAX
        &&& forall|f: int| 0 <= f < self.links.len() ==> (#[trigger] self.links[f]).fits()
    }

    /// What redirecting does to the links of a node: the links to `from`
    /// become links to `to`, all others stay.
    pub proof fn lemma_redirected(self, from: usize, to: usize, t: usize, f: usize, p: usize)
        requires
            from != 0,
            from != to,
        ensures
            self.redirected(from, to).has_link(t, f, p) <==> (t != from && self.has_link(t, f, p))
                || (t == to && to != 0 && self.has_link(from, f, p)),
    {
        if f < self.links.len() {
            self.links[f as int].lemma_redirected(from, to, t, p);
        }
    }

    /// Redirecting away from a target that the node does not point at
    /// changes nothing.
    pub proof fn lemma_redirected_absent(self, from: usize, to: usize)
        requires
            self.fits(),
            forall|f: usize, p: usize| !self.has_link(from, f, p),
        ensures
            self.redirected(from, to) == self,
    {
        assert forall|f: int| 0 <= f < self.links.len() implies self.links[f].redirected(from, to)
            == self.links[f] by {
            assert(self.links[f].fits());
            assert forall|p: usize| !self.links[f].holds(from, p) by {
                assert(!self.has_link(from, f as usize, p));
            }
            self.links[f].lemma_redirected_absent(from, to);
        }
        assert(self.redirected(from, to).links =~= self.links);
    }
}

impl<D> NodeModel<D> {
    /// The node with the link to `x` taken out of each field in `fields`.
    pub open spec fn without_links(self, fields: Set<usize>, x: usize) -> NodeModel<D> {
        NodeModel {
            shape: self.shape,
            links: Seq::new(
                self.links.len(),
                |f: int|
                    if fields.contains(f as usize) {
                        self.links[f].without(x)
                    } else {
                        self.links[f]
                    },
            ),
            data: self.data,
        }
    }

    /// Whether one of the fields in `fields` holds a link to `x`.
    pub open spec fn mirrored(self, fields: Set<usize>, x: usize) -> bool {
        exists|m: usize| fields.contains(m) && self.points_to(m, x)
    }

    /// The node after a link `x -> self` came into being whose mirror
    /// fields on this node are `fields`. Where there is no mirror field, or
    /// one of them already points back at `x`, nothing is to be done. Else
    /// there must be exactly one mirror field, and it must be able to take
    /// the link to `x`.
    pub open spec fn addition_synced(self, fields: Set<usize>, x: usize) -> Result<
        NodeModel<D>,
        SyncBlock,
    > {
        if fields =~= Set::empty() || self.mirrored(fields, x) {
            Ok(self)
        } else if exists|m: usize| is_sole(fields, m) {
            let m = choose|m: usize| is_sole(fields, m);
            if m < self.links.len() && self.links[m as int].add_conflict(x) is Some {
                Err(SyncBlock::Conflict(m, self.links[m as int].add_conflict(x)->0))
            } else {
                Ok(self.with_link(m, x))
            }
        } else {
            Err(SyncBlock::Ambiguous)
        }
    }

    /// The node after a link `x -> self` went away whose mirror fields on
    /// this node are `fields`: each mirror field loses its link to `x`.
    pub open spec fn removal_synced(self, fields: Set<usize>, x: usize) -> NodeModel<D> {
        self.without_links(fields, x)
    }

    /// Adding a link again whose mirror is in place changes nothing.
    pub proof fn lemma_readd_is_noop(self, fields: Set<usize>, x: usize)
        requires
            self.mirrored(fields, x),
        ensures
            self.addition_synced(fields, x) == Ok::<NodeModel<D>, SyncBlock>(self),
    {
    }

    /// Removing a link whose mirror is absent changes nothing.
    pub proof fn lemma_remove_absent_is_noop(self, fields: Set<usize>, x: usize)
        requires
            self.fits(),
            !self.mirrored(fields, x),
        ensures
            self.removal_synced(fields, x) == self,
    {
        self.lemma_without_absent(fields, x);
    }

    /// Taking out a link that no field holds changes nothing.
    pub proof fn lemma_without_absent(self, fields: Set<usize>, x: usize)
        requires
            self.fits(),
            !self.mirrored(fields, x),
        ensures
            self.without_links(fields, x) == self,
    {
        assert forall|f: int| 0 <= f < self.links.len() implies self.without_links(fields, x).links[f]
            == self.links[f] by {
            if fields.contains(f as usize) {
                assert(!self.points_to(f as usize, x));
                if self.links[f].can_remove(x) {
                    assert(self.links[f].holds(x, 0));
                }
            }
        }
        assert(self.without_links(fields, x).links =~= self.links);
    }

    /// What taking one link out does to the links of a node.
    pub proof fn lemma_without_link(self, m: usize, x: usize, t: usize, f: usize, p: usize)
        ensures
            self.without_link(m, x).has_link(t, f, p) <==> self.has_link(t, f, p) && !(m
                < self.links.len() && self.links[m as int].can_remove(x) && t == x && f == m && p
                == 0),
    {
        if m < self.links.len() && self.links[m as int].can_remove(x) {
            self.links[m as int].lemma_without(x, t, p);
        }
    }

    /// What adding one link does to the links of a node.
    pub proof fn lemma_with_link(self, m: usize, x: usize, t: usize, f: usize, p: usize)
        ensures
            self.with_link(m, x).has_link(t, f, p) <==> self.has_link(t, f, p) || (m
                < self.links.len() && self.links[m as int].can_add(x) && t == x && f == m && p
                == 0),
    {
        if m < self.links.len() && self.links[m as int].can_add(x) {
            self.links[m as int].lemma_with(x, t, p);
        }
    }
}

impl<D> View for Node<D> {
    type V = NodeModel<D>;

    open spec fn view(&self) -> NodeModel<D> {
        NodeModel {
            shape: self.shape,
            links: Seq::new(self.links@.len(), |f: int| self.links@[f]@),
            data: self.data,
        }
    }
}

impl<D> Node<D> {
    /// A node of the given shape with the given link fields and payload.
    pub fn new(shape: usize, links: Vec<Link>, data: D) -> (n: Node<D>)
        ensures
            n.shape == shape,
            n.links == links,
            n.data == data,
    {
        Node { shape, links, data }
    }

    /// A node whose link fields have the given forms and hold no links.
    pub fn with_fields(shape: usize, kinds: &Vec<LinkType>, data: D) -> (n: Node<D>)
        ensures
            n@.shape == shape,
            n@.data == data,
            n@.links.len() == kinds@.len(),
            forall|f: int| 0 <= f < kinds@.len() ==> n@.links[f] == LinkModel::empty_of(kinds@[f]),
    {
        let mut links: Vec<Link> = Vec::new();
        let mut i: usize = 0;
        while i < kinds.len()
            invariant
                i <= kinds.len(),
                links@.len() == i,
                forall|f: int| 0 <= f < i ==> links@[f]@ == LinkModel::empty_of(kinds@[f]),
            decreases kinds.len() - i,
        {
            links.push(Link::empty_of(kinds[i]));
            i = i + 1;
        }
        Node { shape, links, data }
    }

    /// The links of the node as records `(target, field, position)`, each
    /// once, field by field.
    pub fn link_records(&self) -> (v: Vec<(usize, usize, usize)>)
        ensures
            v@.no_duplicates(),
            v@.to_set() == self@.link_set(),
    {
        let mut v: Vec<(usize, usize, usize)> = Vec::new();
        let mut f: usize = 0;
        while f < self.links.len()
            invariant
                f <= self.links.len(),
                v@.no_duplicates(),
                forall|r: (usize, usize, usize)|
                    v@.contains(r) <==> r.1 < f && self@.has_link(r.0, r.1, r.2),
            decreases self.links.len() - f,
        {
            let part = self.links[f].records(f);
            let mut i: usize = 0;
            while i < part.len()
                invariant
                    i <= part.len(),
                    f < self.links.len(),
                    part@.no_duplicates(),
                    forall|r: (usize, usize, usize)|
                        part@.contains(r) <==> r.1 == f && self@.has_link(r.0, r.1, r.2),
                    v@.no_duplicates(),
                    forall|r: (usize, usize, usize)|
                        v@.contains(r) <==> (r.1 < f && self@.has_link(r.0, r.1, r.2)) || (
                        exists|j: int| 0 <= j < i && part@[j] == r),
                decreases part.len() - i,
            {
                let ghost before = v@;
                let rec = part[i];
                proof {
                    assert(part@.contains(rec));
                    if before.contains(rec) {
                        let j = choose|j: int| 0 <= j < i && part@[j] == rec;
                        assert(part@[j] == part@[i as int]);
                    }
                }
                v.push(rec);
                proof {
                    lemma_push_no_duplicates(before, rec);
                    assert forall|r: (usize, usize, usize)|
                        v@.contains(r) <==> (r.1 < f && self@.has_link(r.0, r.1, r.2)) || (
                        exists|j: int| 0 <= j < i + 1 && part@[j] == r) by {
                        assert(v@.to_set().contains(r) <==> before.to_set().insert(rec).contains(
                            r,
                        ));
                    }
                }
                i = i + 1;
            }
            proof {
                assert forall|r: (usize, usize, usize)|
                    v@.contains(r) <==> r.1 < f + 1 && self@.has_link(r.0, r.1, r.2) by {
                    if r.1 == f && self@.has_link(r.0, r.1, r.2) {
                        assert(part@.contains(r));
                        let j = choose|j: int| 0 <= j < part@.len() && part@[j] == r;
                        assert(0 <= j < i && part@[j] == r);
                    }
                    if v@.contains(r) && !(r.1 < f && self@.has_link(r.0, r.1, r.2)) {
                        let j = choose|j: int| 0 <= j < i && part@[j] == r;
                        assert(part@.contains(r));
                    }
                }
            }
            f = f + 1;
        }
        assert(v@.to_set() =~= self@.link_set());
        v
    }

    /// The links of the node with their places: the target of each link and
    /// where in the node it sits.
    pub fn iter_sources(&self) -> (v: Vec<(NodeIndex, Source)>)
        ensures
            v@.no_duplicates(),
            forall|t: usize, f: usize, p: usize|
                v@.contains((NodeIndex(t), Source { field: f, pos: p })) <==> self@.has_link(
                    t,
                    f,
                    p,
                ),
    {
        let recs = self.link_records();
        let v = wrap_records(&recs);
        proof {
            assert forall|t: usize, f: usize, p: usize|
                v@.contains((NodeIndex(t), Source { field: f, pos: p })) <==> self@.has_link(
                    t,
                    f,
                    p,
                ) by {
                assert(recs@.contains((t, f, p)) <==> recs@.to_set().contains((t, f, p)));
                assert(self@.link_set().contains((t, f, p)) <==> self@.has_link(t, f, p));
            }
        }
        v
    }

    /// The targets held by field `field`; none for a field that the node
    /// does not have.
    pub fn iter_links(&self, field: usize) -> (v: Vec<NodeIndex>)
        ensures
            forall|t: usize| t != 0 ==> (v@.contains(NodeIndex(t)) <==> self@.points_to(field, t)),
            field < self@.links.len() ==> self@.links[field as int].listed(v@),
            field >= self@.links.len() ==> v@.len() == 0,
    {
        if field < self.links.len() {
            self.links[field].targets()
        } else {
            Vec::new()
        }
    }

    /// Whether field `field` holds a link to `target`.
    pub fn contains_link(&self, field: usize, target: NodeIndex) -> (r: bool)
        ensures
            r == self@.points_to(field, target.0),
    {
        if field < self.links.len() {
            self.links[field].contains(target)
        } else {
            false
        }
    }

    /// Points the link to `from` that sits at `src` at `to`. A node that
    /// holds no such link stays as it is.
    pub fn modify_link(&mut self, src: Source, from: NodeIndex, to: NodeIndex) -> (r: ModifyResult)
        ensures
            final(self)@ == old(self)@.modified(src, from.0, to.0),
            r.removed == (from.0 != to.0 && old(self)@.has_link(from.0, src.field, src.pos)),
            r.added == (r.removed && to.0 != 0 && !old(self)@.has_link(to.0, src.field, src.pos)),
    {
        if src.field < self.links.len() {
            let r = self.links[src.field].modify(src.pos, from, to);
            assert(self@.links =~= old(self)@.modified(src, from.0, to.0).links);
            r
        } else {
            ModifyResult { added: false, removed: false }
        }
    }

    /// Adds a link to `target` to field `field`. Gives `true` where the link
    /// was added, `false` where nothing was to be done, and the reason where
    /// the field cannot take the link. A field that the node does not have
    /// takes nothing.
    pub fn add_link(&mut self, field: usize, target: NodeIndex) -> (r: Result<bool, LinkConflict>)
        ensures
            match r {
                Ok(added) => {
                    &&& added == (field < old(self)@.links.len() && old(self)@.links[field as int].can_add(
                        target.0,
                    ))
                    &&& field < old(self)@.links.len() ==> old(self)@.links[field as int].add_conflict(
                        target.0,
                    ) is None
                    &&& final(self)@ == old(self)@.with_link(field, target.0)
                },
                Err(e) => {
                    &&& field < old(self)@.links.len()
                    &&& old(self)@.links[field as int].add_conflict(target.0) == Some(e)
                    &&& final(self)@ == old(self)@
                },
            },
    {
        if field < self.links.len() {
            let r = self.links[field].add(target);
            assert(self@.links =~= if r is Ok {
                old(self)@.with_link(field, target.0).links
            } else {
                old(self)@.links
            });
            r
        } else {
            Ok(false)
        }
    }

    /// Takes the link to `target` out of field `field`, and says whether
    /// there was one to take.
    pub fn remove_link(&mut self, field: usize, target: NodeIndex) -> (r: bool)
        ensures
            r == (field < old(self)@.links.len() && old(self)@.links[field as int].can_remove(
                target.0,
            )),
            final(self)@ == old(self)@.without_link(field, target.0),
    {
        if field < self.links.len() {
            let r = self.links[field].remove(target);
            assert(self@.links =~= old(self)@.without_link(field, target.0).links);
            r
        } else {
            false
        }
    }

    /// Points every link to `from` at `to`, in all fields. An empty `to`
    /// removes the links. Nothing changes where `from` is empty or is `to`.
    pub fn redirect_all(&mut self, from: NodeIndex, to: NodeIndex)
        ensures
            final(self)@ == old(self)@.redirected(from.0, to.0),
            final(self)@.fits(),
    {
        let mut f: usize = 0;
        while f < self.links.len()
            invariant
                f <= self.links.len(),
                self.shape == old(self).shape,
                self.data == old(self).data,
                self.links@.len() == old(self).links@.len(),
                forall|g: int| 0 <= g < f ==> self.links@[g]@ == old(self).links@[g]@.redirected(
                    from.0,
                    to.0,
                ) && self.links@[g]@.fits(),
                forall|g: int| f <= g < self.links@.len() ==> self.links@[g] == old(self).links@[g],
            decreases self.links.len() - f,
        {
            self.links[f].redirect_all(from, to);
            f = f + 1;
        }
        assert(self@.links =~= old(self)@.redirected(from.0, to.0).links);
        assert(self.links.len() == self.links@.len());
    }

    /// Renames every link target by `map`; a target that `map` does not
    /// rename is dropped.
    pub fn rename(&mut self, map: &crate::ord_map::OrdMap<usize>)
        requires
            map.wf(),
        ensures
            final(self)@ == old(self)@.renamed(map.map()),
    {
        let mut f: usize = 0;
        while f < self.links.len()
            invariant
                f <= self.links.len(),
                map.wf(),
                self.shape == old(self).shape,
                self.data == old(self).data,
                self.links@.len() == old(self).links@.len(),
                forall|g: int| 0 <= g < f ==> self.links@[g]@ == old(self).links@[g]@.renamed(map.map()),
                forall|g: int| f <= g < self.links@.len() ==> self.links@[g] == old(self).links@[g],
            decreases self.links.len() - f,
        {
            self.links[f].rename(map);
            f = f + 1;
        }
        assert(self@.links =~= old(self)@.renamed(map.map()).links);
    }

    /// The positions of a stored node's fields can be named by a `usize`.
    pub proof fn lemma_fits(&self)
        ensures
            self@.fits(),
    {
        assert(self.links.len() == self.links@.len());
        assert forall|f: int| 0 <= f < self@.links.len() implies (#[trigger] self@.links[f]).fits() by {
            self.links@[f].lemma_fits();
        }
    }
}

/// Link records as pairs of an index and a place: a record `(a, f, p)`
/// becomes the index `a` with the place `(f, p)`.
pub fn wrap_records(recs: &Vec<(usize, usize, usize)>) -> (v: Vec<(NodeIndex, Source)>)
    requires
        recs@.no_duplicates(),
    ensures
        v@.no_duplicates(),
        v@.len() == recs@.len(),
        forall|a: usize, f: usize, p: usize|
            #[trigger] v@.contains((NodeIndex(a), Source { field: f, pos: p })) <==> recs@.contains(
                (a, f, p),
            ),
{
    let mut v: Vec<(NodeIndex, Source)> = Vec::new();
    let mut i: usize = 0;
    while i < recs.len()
        invariant
            i <= recs.len(),
            v@.len() == i,
            forall|j: int|
                0 <= j < i ==> v@[j] == (
                    NodeIndex(recs@[j].0),
                    Source { field: recs@[j].1, pos: recs@[j].2 },
                ),
        decreases recs.len() - i,
    {
        let r = recs[i];
        v.push((NodeIndex(r.0), Source { field: r.1, pos: r.2 }));
        i = i + 1;
    }
    proof {
        assert forall|a: int, b: int| 0 <= a < v@.len() && 0 <= b < v@.len() && a != b implies v@[a]
            != v@[b] by {
            assert(recs@[a] != recs@[b]);
        }
        assert forall|a: usize, f: usize, p: usize|
            #[trigger] v@.contains((NodeIndex(a), Source { field: f, pos: p })) <==> recs@.contains(
                (a, f, p),
            ) by {
            let item = (NodeIndex(a), Source { field: f, pos: p });
            if v@.contains(item) {
                let j = choose|j: int| 0 <= j < v@.len() && v@[j] == item;
                assert(recs@[j] == (a, f, p));
            }
            if recs@.contains((a, f, p)) {
                let j = choose|j: int| 0 <= j < recs@.len() && recs@[j] == (a, f, p);
                assert(v@[j] == item);
            }
        }
    }
    v
}

} // verus!
