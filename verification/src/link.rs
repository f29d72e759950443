//! Link fields: the outgoing references that a node holds.
//!
//! A node has a list of link fields. A field is a single index, a sequence of
//! indices, or a set of indices. A link is a non-empty index held by a field;
//! it is identified by its target, the number of the field and, for a
//! sequence, the position in it.

use vstd::prelude::*;
use std::collections::BTreeSet;
use std::collections::HashSet;
use crate::index::NodeIndex;
use crate::insertion_set::InsertionSet;

verus! {

broadcast use vstd::std_specs::hash::group_hash_axioms;

/// The four forms of a link field.
#[derive(Debug, Clone, Copy, PartialEq, Eq, Structural, Hash)]
pub enum LinkType {
    /// A single index, possibly empty.
    Point,
    /// An unordered set of indices.
    HSet,
    /// A set of indices that keeps the order in which they came.
    OSet,
    /// An ordered set of indices.
    BSet,
    /// A sequence of indices.
    Vec,
}

/// Where a link sits in its node: the number of the field and the position
/// within the field. The position is `0` except in a sequence.
#[derive(Debug, Clone, Copy, PartialEq, Eq, Structural, Hash, PartialOrd, Ord)]
pub struct Source {
    pub field: usize,
    pub pos: usize,
}

/// What changing one link did.
#[derive(Debug, Clone, Copy, PartialEq, Eq, Structural)]
pub struct ModifyResult {
    /// A link to the new target came into being.
    pub added: bool,
    /// The link to the old target is gone.
    pub removed: bool,
}

/// Why a link could not be added to a field.
#[derive(Debug, Clone, Copy, PartialEq, Eq, Structural)]
pub enum LinkConflict {
    /// The field is a single index and already points elsewhere.
    Occupied,
    /// The field is a sequence; links are not added to sequences.
    Sequence,
}

/// A link field.
#[derive(Debug)]
pub enum Link {
    Point(NodeIndex),
    HSet(HashSet<usize>),
    OSet(InsertionSet),
    BSet(BTreeSet<usize>),
    Vec(Vec<NodeIndex>),
}

/// A link field as a mathematical value.
pub enum LinkModel {
    Point(NodeIndex),
    HSet(Set<usize>),
    OSet(Set<usize>),
    BSet(Set<usize>),
    Vec(Seq<NodeIndex>),
}

impl LinkModel {
    /// The form of the field.
    pub open spec fn kind(self) -> LinkType {
        match self {
            LinkModel::Point(_) => LinkType::Point,
            LinkModel::HSet(_) => LinkType::HSet,
            LinkModel::OSet(_) => LinkType::OSet,
            LinkModel::BSet(_) => LinkType::BSet,
            LinkModel::Vec(_) => LinkType::Vec,
        }
    }

    /// Whether the field holds a link to `t` at position `p`.
    pub open spec fn holds(self, t: usize, p: usize) -> bool {
        t != 0 && match self {
            LinkModel::Point(c) => p == 0 && c.0 == t,
            LinkModel::HSet(s) => p == 0 && s.contains(t),
            LinkModel::OSet(s) => p == 0 && s.contains(t),
            LinkModel::BSet(s) => p == 0 && s.contains(t),
            LinkModel::Vec(v) => p < v.len() && v[p as int].0 == t,
        }
    }

    /// Whether `v` lists the targets that the field holds: the index of a
    /// single-index field unless it is empty, the members of a set, each
    /// once, the entries of a sequence in their order.
    pub open spec fn listed(self, v: Seq<NodeIndex>) -> bool {
        match self {
            LinkModel::Point(c) => v == if c.0 != 0 {
                seq![c]
            } else {
                Seq::<NodeIndex>::empty()
            },
            LinkModel::HSet(s) => v.no_duplicates() && forall|t: usize|
                v.contains(NodeIndex(t)) <==> s.contains(t),
            LinkModel::OSet(s) => v.no_duplicates() && forall|t: usize|
                v.contains(NodeIndex(t)) <==> s.contains(t),
            LinkModel::BSet(s) => v.no_duplicates() && forall|t: usize|
                v.contains(NodeIndex(t)) <==> s.contains(t),
            LinkModel::Vec(e) => v == e,
        }
    }

    /// Whether the field holds a link to `t` at any position.
    pub open spec fn points_to(self, t: usize) -> bool {
        exists|p: usize| self.holds(t, p)
    }

    /// The field after the link to `old` at position `p` was pointed at
    /// `new`. A field that holds no such link stays as it is, and so does
    /// every field when `old` is `new`. An empty `new` removes the link.
    pub open spec fn modified(self, p: usize, old: usize, new: usize) -> LinkModel {
        if old != new && self.holds(old, p) {
            match self {
                LinkModel::Point(_) => LinkModel::Point(NodeIndex(new)),
                LinkModel::HSet(s) => LinkModel::HSet(
                    if new != 0 {
                        s.remove(old).insert(new)
                    } else {
                        s.remove(old)
                    },
                ),
                LinkModel::OSet(s) => LinkModel::OSet(
                    if new != 0 {
                        s.remove(old).insert(new)
                    } else {
                        s.remove(old)
                    },
                ),
                LinkModel::BSet(s) => LinkModel::BSet(
                    if new != 0 {
                        s.remove(old).insert(new)
                    } else {
                        s.remove(old)
                    },
                ),
                LinkModel::Vec(v) => LinkModel::Vec(v.update(p as int, NodeIndex(new))),
            }
        } else {
            self
        }
    }

    /// The field with every link to `from` pointed at `to`, or removed where
    /// `to` is empty. Nothing changes where `from` is empty or is `to`.
    pub open spec fn redirected(self, from: usize, to: usize) -> LinkModel {
        if from == 0 || from == to {
            self
        } else {
            match self {
                LinkModel::Point(c) => if c.0 == from {
                    LinkModel::Point(NodeIndex(to))
                } else {
                    self
                },
                LinkModel::HSet(s) => if s.contains(from) {
                    LinkModel::HSet(
                        if to != 0 {
                            s.remove(from).insert(to)
                        } else {
                            s.remove(from)
                        },
                    )
                } else {
                    self
                },
                LinkModel::OSet(s) => if s.contains(from) {
                    LinkModel::OSet(
                        if to != 0 {
                            s.remove(from).insert(to)
                        } else {
                            s.remove(from)
                        },
                    )
                } else {
                    self
                },
                LinkModel::BSet(s) => if s.contains(from) {
                    LinkModel::BSet(
                        if to != 0 {
                            s.remove(from).insert(to)
                        } else {
                            s.remove(from)
                        },
                    )
                } else {
                    self
                },
                LinkModel::Vec(v) => LinkModel::Vec(
                    Seq::new(
                        v.len(),
                        |i: int|
                            if v[i].0 == from {
                                NodeIndex(to)
                            } else {
                                v[i]
                            },
                    ),
                ),
            }
        }
    }

    /// Whether a link to `t` can be added: `t` is not empty, and the field is
    /// an empty single index or a set that lacks `t`.
    pub open spec fn can_add(self, t: usize) -> bool {
        t != 0 && match self {
            LinkModel::Point(c) => c.0 == 0,
            LinkModel::HSet(s) => !s.contains(t),
            LinkModel::OSet(s) => !s.contains(t),
            LinkModel::BSet(s) => !s.contains(t),
            LinkModel::Vec(_) => false,
        }
    }

    /// Why a link to `t` cannot be added, if it neither can be added nor is
    /// there already.
    pub open spec fn add_conflict(self, t: usize) -> Option<LinkConflict> {
        if t == 0 || self.points_to(t) {
            None
        } else {
            match self {
                LinkModel::Point(c) => if c.0 != 0 {
                    Some(LinkConflict::Occupied)
                } else {
                    None
                },
                LinkModel::Vec(_) => Some(LinkConflict::Sequence),
                _ => None,
            }
        }
    }

    /// The field with a link to `t` added, where [`Self::can_add`] holds.
    pub open spec fn with(self, t: usize) -> LinkModel {
        if self.can_add(t) {
            match self {
                LinkModel::Point(_) => LinkModel::Point(NodeIndex(t)),
                LinkModel::HSet(s) => LinkModel::HSet(s.insert(t)),
                LinkModel::OSet(s) => LinkModel::OSet(s.insert(t)),
                LinkModel::BSet(s) => LinkModel::BSet(s.insert(t)),
                LinkModel::Vec(v) => LinkModel::Vec(v),
            }
        } else {
            self
        }
    }

    /// Whether a link to `t` can be taken out: the field is a single index
    /// or a set and holds the link.
    pub open spec fn can_remove(self, t: usize) -> bool {
        self.holds(t, 0) && self.kind() != LinkType::Vec
    }

    /// The field with the link to `t` taken out, where [`Self::can_remove`]
    /// holds.
    pub open spec fn without(self, t: usize) -> LinkModel {
        if self.can_remove(t) {
            match self {
                LinkModel::Point(_) => LinkModel::Point(NodeIndex(0)),
                LinkModel::HSet(s) => LinkModel::HSet(s.remove(t)),
                LinkModel::OSet(s) => LinkModel::OSet(s.remove(t)),
                LinkModel::BSet(s) => LinkModel::BSet(s.remove(t)),
                LinkModel::Vec(v) => LinkModel::Vec(v),
            }
        } else {
            self
        }
    }

    /// Outside a sequence, a link sits at position `0`.
    pub proof fn lemma_points_to(self, t: usize)
        requires
            self.kind() != LinkType::Vec,
        ensures
            self.points_to(t) <==> self.holds(t, 0),
    {
    }

    /// Adding a link puts exactly that link in.
    pub proof fn lemma_with(self, a: usize, t: usize, q: usize)
        requires
            self.can_add(a),
        ensures
            self.with(a).holds(t, q) <==> self.holds(t, q) || (t == a && q == 0),
    {
    }

    /// Taking a link out removes exactly that link.
    pub proof fn lemma_without(self, a: usize, t: usize, q: usize)
        requires
            self.can_remove(a),
        ensures
            self.without(a).holds(t, q) <==> self.holds(t, q) && !(t == a && q == 0),
    {
    }
}

impl View for Link {
    type V = LinkModel;

    open spec fn view(&self) -> LinkModel {
        match self {
            Link::Point(i) => LinkModel::Point(*i),
            Link::HSet(s) => LinkModel::HSet(s@),
            Link::OSet(s) => LinkModel::OSet(s@),
            Link::BSet(s) => LinkModel::BSet(s@),
            Link::Vec(v) => LinkModel::Vec(v@),
        }
    }
}

/// The items of an unordered set, in the order in which it yields them.
pub(crate) fn hset_items(s: &HashSet<usize>) -> (v: Vec<usize>)
    ensures
        v@.to_set() == s@,
        v@.no_duplicates(),
{
    let mut v: Vec<usize> = Vec::new();
    for x in it: s.iter()
        invariant
            v@ == it.seq().take(it.index()).unref(),
            it.seq().unref().to_set() == s@,
            it.seq().no_duplicates(),
            it.index() == it.seq().len() ==> v@ == it.seq().unref(),
    {
        v.push(*x);
        assert(it.seq().take(it.index() + 1) =~= it.seq().take(it.index()).push(x));
        assert(it.seq().take(it.seq().len() as int) =~= it.seq());
    }
    v
}

/// The items of an ordered set, in ascending order.
pub(crate) fn bset_items(s: &BTreeSet<usize>) -> (v: Vec<usize>)
    ensures
        v@.to_set() == s@,
        v@.no_duplicates(),
{
    let mut v: Vec<usize> = Vec::new();
    for x in it: s.iter()
        invariant
            v@ == it.seq().take(it.index()).unref(),
            it.seq().unref().to_set() == s@,
            it.seq().no_duplicates(),
            it.index() == it.seq().len() ==> v@ == it.seq().unref(),
    {
        v.push(*x);
        assert(it.seq().take(it.index() + 1) =~= it.seq().take(it.index()).push(x));
        assert(it.seq().take(it.seq().len() as int) =~= it.seq());
    }
    v
}

/// The new name of index `t` under the renaming `m`; the empty index for an
/// index that `m` does not rename.
pub open spec fn renamed_index(m: Map<usize, usize>, t: usize) -> usize {
    if m.contains_key(t) {
        m[t]
    } else {
        0
    }
}

impl LinkModel {
    /// The field with every target renamed by `m`. A target that `m` does
    /// not rename is dropped: a single index or an entry of a sequence
    /// becomes empty, a member of a set goes away.
    pub open spec fn renamed(self, m: Map<usize, usize>) -> LinkModel {
        match self {
            LinkModel::Point(c) => LinkModel::Point(NodeIndex(renamed_index(m, c.0))),
            LinkModel::HSet(s) => LinkModel::HSet(
                Set::new(|t: usize| exists|u: usize| s.contains(u) && m.contains_key(u) && m[u] == t),
            ),
            LinkModel::OSet(s) => LinkModel::OSet(
                Set::new(|t: usize| exists|u: usize| s.contains(u) && m.contains_key(u) && m[u] == t),
            ),
            LinkModel::BSet(s) => LinkModel::BSet(
                Set::new(|t: usize| exists|u: usize| s.contains(u) && m.contains_key(u) && m[u] == t),
            ),
            LinkModel::Vec(v) => LinkModel::Vec(
                Seq::new(v.len(), |i: int| NodeIndex(renamed_index(m, v[i].0))),
            ),
        }
    }
}

impl LinkModel {
    /// Whether every position of the field can be named by a `usize`.
    pub open spec fn fits(self) -> bool {
        self matches LinkModel::Vec(v) ==> v.len() <= usize::MAX
    }

    /// What redirecting does to the links of a field: the links to `from`
    /// become links to `to`, all others stay.
    pub proof fn lemma_redirected(self, from: usize, to: usize, t: usize, p: usize)
        requires
            from != 0,
            from != to,
        ensures
            self.redirected(from, to).holds(t, p) <==> (t != from && self.holds(t, p)) || (t == to
                && to != 0 && self.holds(from, p)),
    {
    }

    /// Redirecting away from a target that the field does not point at
    /// changes nothing.
    pub proof fn lemma_redirected_absent(self, from: usize, to: usize)
        requires
            self.fits(),
            forall|p: usize| !self.holds(from, p),
        ensures
            self.redirected(from, to) == self,
    {
        if from != 0 && from != to {
            match self {
                LinkModel::Point(c) => {
                    assert(!self.holds(from, 0));
                },
                LinkModel::HSet(s) => {
                    assert(!self.holds(from, 0));
                },
                LinkModel::OSet(s) => {
                    assert(!self.holds(from, 0));
                },
                LinkModel::BSet(s) => {
                    assert(!self.holds(from, 0));
                },
                LinkModel::Vec(v) => {
                    let w = Seq::new(
                        v.len(),
                        |i: int|
                            if v[i].0 == from {
                                NodeIndex(to)
                            } else {
                                v[i]
                            },
                    );
                    assert forall|i: int| 0 <= i < v.len() implies w[i] == v[i] by {
                        assert(!self.holds(from, i as usize));
                    }
                    assert(w =~= v);
                },
            }
        }
    }

    /// A field of the given form without links.
    pub open spec fn empty_of(kind: LinkType) -> LinkModel {
        match kind {
            LinkType::Point => LinkModel::Point(NodeIndex(0)),
            LinkType::HSet => LinkModel::HSet(Set::empty()),
            LinkType::OSet => LinkModel::OSet(Set::empty()),
            LinkType::BSet => LinkModel::BSet(Set::empty()),
            LinkType::Vec => LinkModel::Vec(Seq::empty()),
        }
    }
}

impl Link {
    /// The form of the field.
    pub fn kind(&self) -> (r: LinkType)
        ensures
            r == self@.kind(),
    {
        match self {
            Link::Point(_) => LinkType::Point,
            Link::HSet(_) => LinkType::HSet,
            Link::OSet(_) => LinkType::OSet,
            Link::BSet(_) => LinkType::BSet,
            Link::Vec(_) => LinkType::Vec,
        }
    }

    /// A field of the given form without links.
    pub fn empty_of(kind: LinkType) -> (r: Link)
        ensures
            r@ == LinkModel::empty_of(kind),
    {
        match kind {
            LinkType::Point => Link::Point(NodeIndex(0)),
            LinkType::HSet => Link::HSet(HashSet::new()),
            LinkType::OSet => Link::OSet(InsertionSet::new()),
            LinkType::BSet => Link::BSet(BTreeSet::new()),
            LinkType::Vec => Link::Vec(Vec::new()),
        }
    }

    /// A single index.
    pub fn point(target: NodeIndex) -> (r: Link)
        ensures
            r@ == LinkModel::Point(target),
    {
        Link::Point(target)
    }

    /// An unordered set with the given members.
    pub fn hset(members: &Vec<NodeIndex>) -> (r: Link)
        ensures
            r@ == LinkModel::HSet(Set::new(|t: usize| members@.contains(NodeIndex(t)))),
    {
        let mut s: HashSet<usize> = HashSet::new();
        let mut i: usize = 0;
        while i < members.len()
            invariant
                i <= members.len(),
                forall|t: usize| s@.contains(t) <==> exists|j: int| 0 <= j < i && members@[j] == NodeIndex(t),
            decreases members.len() - i,
        {
            s.insert(members[i].0);
            i = i + 1;
        }
        assert(s@ =~= Set::new(|t: usize| members@.contains(NodeIndex(t))));
        Link::HSet(s)
    }

    /// A set with the given members, in the order in which they are given.
    pub fn oset(members: &Vec<NodeIndex>) -> (r: Link)
        ensures
            r@ == LinkModel::OSet(Set::new(|t: usize| members@.contains(NodeIndex(t)))),
    {
        let mut s: InsertionSet = InsertionSet::new();
        let mut i: usize = 0;
        while i < members.len()
            invariant
                i <= members.len(),
                forall|t: usize| s@.contains(t) <==> exists|j: int| 0 <= j < i && members@[j] == NodeIndex(t),
            decreases members.len() - i,
        {
            s.insert(members[i].0);
            i = i + 1;
        }
        assert(s@ =~= Set::new(|t: usize| members@.contains(NodeIndex(t))));
        Link::OSet(s)
    }

    /// An ordered set with the given members.
    pub fn bset(members: &Vec<NodeIndex>) -> (r: Link)
        ensures
            r@ == LinkModel::BSet(Set::new(|t: usize| members@.contains(NodeIndex(t)))),
    {
        let mut s: BTreeSet<usize> = BTreeSet::new();
        let mut i: usize = 0;
        while i < members.len()
            invariant
                i <= members.len(),
                forall|t: usize| s@.contains(t) <==> exists|j: int| 0 <= j < i && members@[j] == NodeIndex(t),
            decreases members.len() - i,
        {
            s.insert(members[i].0);
            i = i + 1;
        }
        assert(s@ =~= Set::new(|t: usize| members@.contains(NodeIndex(t))));
        Link::BSet(s)
    }

    /// A sequence with the given entries.
    pub fn vec(entries: Vec<NodeIndex>) -> (r: Link)
        ensures
            r@ == LinkModel::Vec(entries@),
    {
        Link::Vec(entries)
    }

    /// Whether the field holds a link to `target`.
    pub fn contains(&self, target: NodeIndex) -> (r: bool)
        ensures
            r == self@.points_to(target.0),
    {
        if target.0 == 0 {
            return false;
        }
        proof {
            if self@.kind() != LinkType::Vec {
                self@.lemma_points_to(target.0);
            }
        }
        match self {
            Link::Point(c) => c.0 == target.0,
            Link::HSet(s) => s.contains(&target.0),
            Link::OSet(s) => s.contains(&target.0),
            Link::BSet(s) => s.contains(&target.0),
            Link::Vec(v) => {
                let mut i: usize = 0;
                while i < v.len()
                    invariant
                        i <= v.len(),
                        target.0 != 0,
                        *self == Link::Vec(*v),
                        forall|p: usize| p < i ==> !self@.holds(target.0, p),
                    decreases v.len() - i,
                {
                    if v[i].0 == target.0 {
                        assert(self@.holds(target.0, i));
                        return true;
                    }
                    i = i + 1;
                }
                false
            },
        }
    }

    /// The targets that the field holds: the index of a single-index field
    /// unless it is empty, the members of a set, the entries of a sequence.
    pub fn targets(&self) -> (v: Vec<NodeIndex>)
        ensures
            forall|t: usize| t != 0 ==> (v@.contains(NodeIndex(t)) <==> self@.points_to(t)),
            self@.listed(v@),
    {
        match self {
            Link::Point(c) => {
                let mut v: Vec<NodeIndex> = Vec::new();
                if c.0 != 0 {
                    v.push(*c);
                    assert(v@[0] == *c);
                    assert(v@ =~= seq![*c]);
                }
                proof {
                    assert forall|t: usize| t != 0 implies (v@.contains(NodeIndex(t))
                        <==> self@.points_to(t)) by {
                        self@.lemma_points_to(t);
                    }
                }
                v
            },
            Link::HSet(s) => {
                let items = hset_items(s);
                let v = wrap_indices(&items);
                proof {
                    assert forall|t: usize| v@.contains(NodeIndex(t)) <==> s@.contains(t) by {
                        lemma_wrapped(items@, v@, t);
                    }
                    assert forall|i: int, j: int| 0 <= i < j < v@.len() implies v@[i] != v@[j] by {
                        assert(items@[i] != items@[j]);
                    }
                    assert forall|t: usize| t != 0 implies (v@.contains(NodeIndex(t))
                        <==> self@.points_to(t)) by {
                        self@.lemma_points_to(t);
                        lemma_wrapped(items@, v@, t);
                    }
                }
                v
            },
            Link::OSet(s) => {
                let items = s.items();
                let v = wrap_indices(&items);
                proof {
                    assert forall|t: usize| v@.contains(NodeIndex(t)) <==> s@.contains(t) by {
                        lemma_wrapped(items@, v@, t);
                    }
                    assert forall|i: int, j: int| 0 <= i < j < v@.len() implies v@[i] != v@[j] by {
                        assert(items@[i] != items@[j]);
                    }
                    assert forall|t: usize| t != 0 implies (v@.contains(NodeIndex(t))
                        <==> self@.points_to(t)) by {
                        self@.lemma_points_to(t);
                        lemma_wrapped(items@, v@, t);
                    }
                }
                v
            },
            Link::BSet(s) => {
                let items = bset_items(s);
                let v = wrap_indices(&items);
                proof {
                    assert forall|t: usize| v@.contains(NodeIndex(t)) <==> s@.contains(t) by {
                        lemma_wrapped(items@, v@, t);
                    }
                    assert forall|i: int, j: int| 0 <= i < j < v@.len() implies v@[i] != v@[j] by {
                        assert(items@[i] != items@[j]);
                    }
                    assert forall|t: usize| t != 0 implies (v@.contains(NodeIndex(t))
                        <==> self@.points_to(t)) by {
                        self@.lemma_points_to(t);
                        lemma_wrapped(items@, v@, t);
                    }
                }
                v
            },
            Link::Vec(e) => {
                let mut v: Vec<NodeIndex> = Vec::new();
                let mut i: usize = 0;
                while i < e.len()
                    invariant
                        i <= e.len(),
                        v@ == e@.take(i as int),
                    decreases e.len() - i,
                {
                    v.push(e[i]);
                    assert(e@.take(i + 1) =~= e@.take(i as int).push(e@[i as int]));
                    i = i + 1;
                }
                assert(e@.take(e.len() as int) =~= e@);
                proof {
                    assert forall|t: usize| t != 0 implies (v@.contains(NodeIndex(t))
                        <==> self@.points_to(t)) by {
                        if v@.contains(NodeIndex(t)) {
                            let j = choose|j: int| 0 <= j < v@.len() && v@[j] == NodeIndex(t);
                            assert(self@.holds(t, j as usize));
                        }
                        if self@.points_to(t) {
                            let p = choose|p: usize| self@.holds(t, p);
                            assert(v@[p as int] == NodeIndex(t));
                        }
                    }
                }
                v
            },
        }
    }

    /// The links of the field as records `(target, field, position)`, for
    /// the field number given. Each link occurs once.
    pub fn records(&self, field: usize) -> (v: Vec<(usize, usize, usize)>)
        ensures
            v@.no_duplicates(),
            forall|r: (usize, usize, usize)|
                v@.contains(r) <==> r.1 == field && self@.holds(r.0, r.2),
    {
        match self {
            Link::Point(c) => {
                let mut v: Vec<(usize, usize, usize)> = Vec::new();
                if c.0 != 0 {
                    v.push((c.0, field, 0));
                    assert(v@[0] == (c.0, field, 0usize));
                }
                assert forall|r: (usize, usize, usize)|
                    v@.contains(r) <==> r.1 == field && self@.holds(r.0, r.2) by {
                    if r.1 == field && self@.holds(r.0, r.2) {
                        assert(v@[0] == r);
                    }
                }
                v
            },
            Link::HSet(s) => {
                let items = hset_items(s);
                set_records(&items, field)
            },
            Link::OSet(s) => {
                let items = s.items();
                set_records(&items, field)
            },
            Link::BSet(s) => {
                let items = bset_items(s);
                set_records(&items, field)
            },
            Link::Vec(e) => {
                let mut v: Vec<(usize, usize, usize)> = Vec::new();
                let mut i: usize = 0;
                while i < e.len()
                    invariant
                        i <= e.len(),
                        *self == Link::Vec(*e),
                        v@.no_duplicates(),
                        forall|r: (usize, usize, usize)|
                            v@.contains(r) <==> r.1 == field && r.2 < i && self@.holds(r.0, r.2),
                    decreases e.len() - i,
                {
                    if e[i].0 != 0 {
                        let ghost before = v@;
                        let rec = (e[i].0, field, i);
                        v.push(rec);
                        proof {
                            assert(!before.contains(rec));
                            crate::order_set::lemma_push_no_duplicates(before, rec);
                            assert forall|r: (usize, usize, usize)|
                                v@.contains(r) <==> r.1 == field && r.2 < i + 1 && self@.holds(
                                    r.0,
                                    r.2,
                                ) by {
                                assert(v@.to_set().contains(r) <==> before.to_set().insert(
                                    rec,
                                ).contains(r));
                            }
                        }
                    }
                    i = i + 1;
                }
                v
            },
        }
    }

    /// Points the link to `from` at position `pos` at `to`; see
    /// [`LinkModel::modified`]. The result tells whether the old link is gone
    /// and whether a new one came into being: a set that already had `to`
    /// gains nothing, and an empty `to` is no link.
    pub fn modify(&mut self, pos: usize, from: NodeIndex, to: NodeIndex) -> (r: ModifyResult)
        ensures
            final(self)@ == old(self)@.modified(pos, from.0, to.0),
            r.removed == (from.0 != to.0 && old(self)@.holds(from.0, pos)),
            r.added == (r.removed && to.0 != 0 && !old(self)@.holds(to.0, pos)),
    {
        if from.0 == to.0 || from.0 == 0 {
            return ModifyResult { added: false, removed: false };
        }
        match self {
            Link::Point(c) => {
                if pos == 0 && c.0 == from.0 {
                    *c = to;
                    ModifyResult { added: to.0 != 0, removed: true }
                } else {
                    ModifyResult { added: false, removed: false }
                }
            },
            Link::HSet(s) => {
                if pos == 0 && s.contains(&from.0) {
                    s.remove(&from.0);
                    let added = if to.0 != 0 {
                        s.insert(to.0)
                    } else {
                        false
                    };
                    ModifyResult { added, removed: true }
                } else {
                    ModifyResult { added: false, removed: false }
                }
            },
            Link::OSet(s) => {
                if pos == 0 && s.contains(&from.0) {
                    s.remove(&from.0);
                    let added = if to.0 != 0 {
                        s.insert(to.0)
                    } else {
                        false
                    };
                    ModifyResult { added, removed: true }
                } else {
                    ModifyResult { added: false, removed: false }
                }
            },
            Link::BSet(s) => {
                if pos == 0 && s.contains(&from.0) {
                    s.remove(&from.0);
                    let added = if to.0 != 0 {
                        s.insert(to.0)
                    } else {
                        false
                    };
                    ModifyResult { added, removed: true }
                } else {
                    ModifyResult { added: false, removed: false }
                }
            },
            Link::Vec(e) => {
                if pos < e.len() && e[pos].0 == from.0 {
                    e[pos] = to;
                    ModifyResult { added: to.0 != 0, removed: true }
                } else {
                    ModifyResult { added: false, removed: false }
                }
            },
        }
    }

    /// Points every link to `from` at `to`; see [`LinkModel::redirected`].
    pub fn redirect_all(&mut self, from: NodeIndex, to: NodeIndex)
        ensures
            final(self)@ == old(self)@.redirected(from.0, to.0),
            final(self)@.fits(),
    {
        proof {
            self.lemma_fits();
        }
        if from.0 == 0 || from.0 == to.0 {
            return ;
        }
        match self {
            Link::Point(c) => {
                if c.0 == from.0 {
                    *c = to;
                }
            },
            Link::HSet(s) => {
                if s.contains(&from.0) {
                    s.remove(&from.0);
                    if to.0 != 0 {
                        s.insert(to.0);
                    }
                }
            },
            Link::OSet(s) => {
                if s.contains(&from.0) {
                    s.remove(&from.0);
                    if to.0 != 0 {
                        s.insert(to.0);
                    }
                }
            },
            Link::BSet(s) => {
                if s.contains(&from.0) {
                    s.remove(&from.0);
                    if to.0 != 0 {
                        s.insert(to.0);
                    }
                }
            },
            Link::Vec(e) => {
                let ghost orig = e@;
                let mut i: usize = 0;
                while i < e.len()
                    invariant
                        i <= e.len(),
                        e@.len() == orig.len(),
                        forall|j: int|
                            0 <= j < i ==> e@[j] == (if orig[j].0 == from.0 {
                                to
                            } else {
                                orig[j]
                            }),
                        forall|j: int| i <= j < e@.len() ==> e@[j] == orig[j],
                    decreases e.len() - i,
                {
                    if e[i].0 == from.0 {
                        e[i] = to;
                    }
                    i = i + 1;
                }
                assert(e@ =~= Seq::new(
                    orig.len(),
                    |i: int|
                        if orig[i].0 == from.0 {
                            NodeIndex(to.0)
                        } else {
                            orig[i]
                        },
                ));
            },
        }
    }

    /// Renames every target by `map`; see [`LinkModel::renamed`].
    pub fn rename(&mut self, map: &crate::ord_map::OrdMap<usize>)
        requires
            map.wf(),
        ensures
            final(self)@ == old(self)@.renamed(map.map()),
    {
        let ghost goal = self@.renamed(map.map());
        match self {
            Link::Point(c) => {
                let to = match map.get(c.0) {
                    Some(n) => *n,
                    None => 0,
                };
                assert(to == renamed_index(map.map(), c.0));
                *c = NodeIndex(to);
            },
            Link::HSet(s) => {
                let items = hset_items(s);
                let mut out: HashSet<usize> = HashSet::new();
                let mut i: usize = 0;
                while i < items.len()
                    invariant
                        i <= items.len(),
                        map.wf(),
                        forall|t: usize|
                            out@.contains(t) <==> exists|j: int|
                                0 <= j < i && map.map().contains_key(items@[j]) && map.map()[items@[j]]
                                    == t,
                    decreases items.len() - i,
                {
                    match map.get(items[i]) {
                        Some(n) => {
                            out.insert(*n);
                        },
                        None => {},
                    }
                    i = i + 1;
                }
                proof {
                    let m = map.map();
                    let want = Set::new(
                        |t: usize| exists|u: usize| s@.contains(u) && m.contains_key(u) && m[u] == t,
                    );
                    assert forall|t: usize| out@.contains(t) <==> want.contains(t) by {
                        if out@.contains(t) {
                            let j = choose|j: int|
                                0 <= j < items@.len() && m.contains_key(items@[j]) && m[items@[j]]
                                    == t;
                            assert(items@.to_set().contains(items@[j]));
                        }
                        if want.contains(t) {
                            let u = choose|u: usize| s@.contains(u) && m.contains_key(u) && m[u] == t;
                            assert(items@.to_set().contains(u));
                            let j = choose|j: int| 0 <= j < items@.len() && items@[j] == u;
                        }
                    }
                    assert(out@ =~= want);
                    assert(out@ =~= goal->HSet_0);
                }
                *s = out;
            },
            Link::OSet(s) => {
                let items = s.items();
                let mut out: InsertionSet = InsertionSet::new();
                let mut i: usize = 0;
                while i < items.len()
                    invariant
                        i <= items.len(),
                        map.wf(),
                        forall|t: usize|
                            out@.contains(t) <==> exists|j: int|
                                0 <= j < i && map.map().contains_key(items@[j]) && map.map()[items@[j]]
                                    == t,
                    decreases items.len() - i,
                {
                    match map.get(items[i]) {
                        Some(n) => {
                            out.insert(*n);
                        },
                        None => {},
                    }
                    i = i + 1;
                }
                proof {
                    let m = map.map();
                    let want = Set::new(
                        |t: usize| exists|u: usize| s@.contains(u) && m.contains_key(u) && m[u] == t,
                    );
                    assert forall|t: usize| out@.contains(t) <==> want.contains(t) by {
                        if out@.contains(t) {
                            let j = choose|j: int|
                                0 <= j < items@.len() && m.contains_key(items@[j]) && m[items@[j]]
                                    == t;
                            assert(items@.to_set().contains(items@[j]));
                        }
                        if want.contains(t) {
                            let u = choose|u: usize| s@.contains(u) && m.contains_key(u) && m[u] == t;
                            assert(items@.to_set().contains(u));
                            let j = choose|j: int| 0 <= j < items@.len() && items@[j] == u;
                        }
                    }
                    assert(out@ =~= want);
                    assert(out@ =~= goal->OSet_0);
                }
                *s = out;
            },
            Link::BSet(s) => {
                let items = bset_items(s);
                let mut out: BTreeSet<usize> = BTreeSet::new();
                let mut i: usize = 0;
                while i < items.len()
                    invariant
                        i <= items.len(),
                        map.wf(),
                        forall|t: usize|
                            out@.contains(t) <==> exists|j: int|
                                0 <= j < i && map.map().contains_key(items@[j]) && map.map()[items@[j]]
                                    == t,
                    decreases items.len() - i,
                {
                    match map.get(items[i]) {
                        Some(n) => {
                            out.insert(*n);
                        },
                        None => {},
                    }
                    i = i + 1;
                }
                proof {
                    let m = map.map();
                    let want = Set::new(
                        |t: usize| exists|u: usize| s@.contains(u) && m.contains_key(u) && m[u] == t,
                    );
                    assert forall|t: usize| out@.contains(t) <==> want.contains(t) by {
                        if out@.contains(t) {
                            let j = choose|j: int|
                                0 <= j < items@.len() && m.contains_key(items@[j]) && m[items@[j]]
                                    == t;
                            assert(items@.to_set().contains(items@[j]));
                        }
                        if want.contains(t) {
                            let u = choose|u: usize| s@.contains(u) && m.contains_key(u) && m[u] == t;
                            assert(items@.to_set().contains(u));
                            let j = choose|j: int| 0 <= j < items@.len() && items@[j] == u;
                        }
                    }
                    assert(out@ =~= want);
                    assert(out@ =~= goal->BSet_0);
                }
                *s = out;
            },
            Link::Vec(e) => {
                let ghost orig = e@;
                let mut i: usize = 0;
                while i < e.len()
                    invariant
                        i <= e.len(),
                        map.wf(),
                        e@.len() == orig.len(),
                        forall|j: int|
                            0 <= j < i ==> e@[j] == NodeIndex(renamed_index(map.map(), orig[j].0)),
                        forall|j: int| i <= j < e@.len() ==> e@[j] == orig[j],
                    decreases e.len() - i,
                {
                    let to = match map.get(e[i].0) {
                        Some(n) => *n,
                        None => 0,
                    };
                    e[i] = NodeIndex(to);
                    i = i + 1;
                }
                assert(e@ =~= goal->Vec_0);
            },
        }
    }

    /// The positions of a stored field can be named by a `usize`.
    pub proof fn lemma_fits(&self)
        ensures
            self@.fits(),
    {
        if let Link::Vec(v) = self {
            assert(v.len() == v@.len());
        }
    }

    /// Adds a link to `target`; see [`LinkModel::with`]. Gives `true` where
    /// the link was added, `false` where it was there already or `target` is
    /// empty, and the reason where it cannot be added.
    pub fn add(&mut self, target: NodeIndex) -> (r: Result<bool, LinkConflict>)
        ensures
            match r {
                Ok(added) => {
                    &&& old(self)@.add_conflict(target.0) is None
                    &&& added == old(self)@.can_add(target.0)
                    &&& final(self)@ == old(self)@.with(target.0)
                },
                Err(e) => {
                    &&& old(self)@.add_conflict(target.0) == Some(e)
                    &&& final(self)@ == old(self)@
                },
            },
    {
        let present = self.contains(target);
        if target.0 == 0 || present {
            proof {
                if present && self@.kind() != LinkType::Vec {
                    self@.lemma_points_to(target.0);
                }
            }
            return Ok(false);
        }
        proof {
            if self@.kind() != LinkType::Vec {
                self@.lemma_points_to(target.0);
            }
        }
        match self {
            Link::Point(c) => {
                if c.0 == 0 {
                    *c = target;
                    Ok(true)
                } else {
                    Err(LinkConflict::Occupied)
                }
            },
            Link::HSet(s) => {
                s.insert(target.0);
                Ok(true)
            },
            Link::OSet(s) => {
                s.insert(target.0);
                Ok(true)
            },
            Link::BSet(s) => {
                s.insert(target.0);
                Ok(true)
            },
            Link::Vec(_) => Err(LinkConflict::Sequence),
        }
    }

    /// Takes the link to `target` out; see [`LinkModel::without`]. Gives
    /// `true` where a link was removed. A sequence is left as it is.
    pub fn remove(&mut self, target: NodeIndex) -> (r: bool)
        ensures
            r == old(self)@.can_remove(target.0),
            final(self)@ == old(self)@.without(target.0),
    {
        if target.0 == 0 {
            return false;
        }
        match self {
            Link::Point(c) => {
                if c.0 == target.0 {
                    *c = NodeIndex(0);
                    true
                } else {
                    false
                }
            },
            Link::HSet(s) => {
                let ghost before = s@;
                let r = s.remove(&target.0);
                assert(s@ =~= before.remove(target.0));
                assert(!r ==> s@ =~= before);
                r
            },
            Link::OSet(s) => {
                let ghost before = s@;
                let r = s.remove(&target.0);
                assert(s@ =~= before.remove(target.0));
                assert(!r ==> s@ =~= before);
                r
            },
            Link::BSet(s) => {
                let ghost before = s@;
                let r = s.remove(&target.0);
                assert(s@ =~= before.remove(target.0));
                assert(!r ==> s@ =~= before);
                r
            },
            Link::Vec(_) => false,
        }
    }
}

/// The same numbers, each wrapped as an index.
fn wrap_indices(items: &Vec<usize>) -> (v: Vec<NodeIndex>)
    ensures
        v@.len() == items@.len(),
        forall|i: int| 0 <= i < v@.len() ==> v@[i] == NodeIndex(items@[i]),
{
    let mut v: Vec<NodeIndex> = Vec::new();
    let mut i: usize = 0;
    while i < items.len()
        invariant
            i <= items.len(),
            v@.len() == i,
            forall|j: int| 0 <= j < i ==> v@[j] == NodeIndex(items@[j]),
        decreases items.len() - i,
    {
        v.push(NodeIndex(items[i]));
        i = i + 1;
    }
    v
}

proof fn lemma_wrapped(items: Seq<usize>, v: Seq<NodeIndex>, t: usize)
    requires
        v.len() == items.len(),
        forall|i: int| 0 <= i < v.len() ==> v[i] == NodeIndex(items[i]),
    ensures
        v.contains(NodeIndex(t)) <==> items.to_set().contains(t),
{
    if v.contains(NodeIndex(t)) {
        let j = choose|j: int| 0 <= j < v.len() && v[j] == NodeIndex(t);
        assert(items[j] == t);
        assert(items.contains(t));
    }
    if items.to_set().contains(t) {
        let j = choose|j: int| 0 <= j < items.len() && items[j] == t;
        assert(v[j] == NodeIndex(t));
    }
}

/// The records of a set field: one per non-empty member, at position `0`.
fn set_records(items: &Vec<usize>, field: usize) -> (v: Vec<(usize, usize, usize)>)
    requires
        items@.no_duplicates(),
    ensures
        v@.no_duplicates(),
        forall|r: (usize, usize, usize)|
            v@.contains(r) <==> r.1 == field && r.2 == 0 && r.0 != 0 && items@.contains(r.0),
{
    let mut v: Vec<(usize, usize, usize)> = Vec::new();
    let mut i: usize = 0;
    while i < items.len()
        invariant
            i <= items.len(),
            items@.no_duplicates(),
            v@.no_duplicates(),
            forall|r: (usize, usize, usize)|
                v@.contains(r) <==> r.1 == field && r.2 == 0 && r.0 != 0 && exists|j: int|
                    0 <= j < i && items@[j] == r.0,
        decreases items.len() - i,
    {
        if items[i] != 0 {
            let ghost before = v@;
            let rec = (items[i], field, 0usize);
            v.push(rec);
            proof {
                assert(!before.contains(rec));
                crate::order_set::lemma_push_no_duplicates(before, rec);
                assert forall|r: (usize, usize, usize)|
                    v@.contains(r) <==> r.1 == field && r.2 == 0 && r.0 != 0 && exists|j: int|
                        0 <= j < i + 1 && items@[j] == r.0 by {
                    assert(v@.to_set().contains(r) <==> before.to_set().insert(rec).contains(r));
                }
            }
        }
        i = i + 1;
    }
    v
}

} // verus!
