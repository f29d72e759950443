//! The static tables that describe node shapes: which link fields mirror
//! each other, which shapes a link may point at, and named groups of shapes
//! and of link fields.
//!
//! A link field is named by its tag: the pair of a shape and the number of
//! the field within nodes of that shape.

use vstd::prelude::*;
use crate::index::NodeIndex;
use crate::node::Node;

verus! {

/// A link's target has a shape that the link's declaration does not allow.
#[derive(Debug, PartialEq, Eq)]
pub struct LinkTypeError {
    /// The tag of the link: its shape and field.
    pub link: (usize, usize),
    /// The shapes that the declaration allows.
    pub expect: Vec<usize>,
    /// The shape of the node that the link points at.
    pub found: usize,
}

/// The declarations of a family of node shapes.
#[derive(Debug)]
pub struct Schema {
    bidirectional: Vec<((usize, usize), (usize, usize))>,
    link_types: Vec<((usize, usize), Vec<usize>)>,
    node_groups: Vec<(String, Vec<usize>)>,
    link_groups: Vec<(String, usize, Vec<usize>)>,
}

impl Schema {
    /// The declared bidirectional pairs of tags, in declaration order.
    pub closed spec fn pairs(&self) -> Seq<((usize, usize), (usize, usize))> {
        self.bidirectional@
    }

    /// The declared link types: a tag and the shapes that it may point at.
    pub closed spec fn constraints(&self) -> Seq<((usize, usize), Seq<usize>)> {
        Seq::new(self.link_types@.len(), |i: int| (self.link_types@[i].0, self.link_types@[i].1@))
    }

    /// The named groups of shapes.
    pub closed spec fn shape_groups(&self) -> Seq<(Seq<char>, Seq<usize>)> {
        Seq::new(
            self.node_groups@.len(),
            |i: int| (self.node_groups@[i].0@, self.node_groups@[i].1@),
        )
    }

    /// The named groups of link fields: a name, a shape, and fields of that
    /// shape.
    pub closed spec fn field_groups(&self) -> Seq<(Seq<char>, usize, Seq<usize>)> {
        Seq::new(
            self.link_groups@.len(),
            |i: int| (self.link_groups@[i].0@, self.link_groups@[i].1, self.link_groups@[i].2@),
        )
    }

    /// Whether field `m` of shape `to` is declared the mirror of field `f`
    /// of shape `from`, in either direction of some declared pair.
    pub open spec fn is_mirror(&self, from: usize, f: usize, to: usize, m: usize) -> bool {
        exists|i: int|
            0 <= i < self.pairs().len() && (#[trigger] self.pairs()[i] == ((from, f), (to, m))
                || self.pairs()[i] == ((to, m), (from, f)))
    }

    /// The fields of shape `to` that mirror field `f` of shape `from`.
    pub open spec fn mirrors(&self, from: usize, f: usize, to: usize) -> Set<usize> {
        Set::new(|m: usize| self.is_mirror(from, f, to, m))
    }

    /// Whether a link with tag `(shape, f)` may point at a node of shape
    /// `target`: every declaration for the tag lists `target`.
    pub open spec fn allows(&self, shape: usize, f: usize, target: usize) -> bool {
        forall|i: int|
            0 <= i < self.constraints().len() && (#[trigger] self.constraints()[i]).0 == (shape, f)
                ==> self.constraints()[i].1.contains(target)
    }

    /// Whether declaration `i` is the first for the tag `(shape, f)` that
    /// does not list `target`.
    pub open spec fn breaks_at(&self, shape: usize, f: usize, target: usize, i: int) -> bool {
        &&& 0 <= i < self.constraints().len()
        &&& self.constraints()[i].0 == (shape, f)
        &&& !self.constraints()[i].1.contains(target)
        &&& forall|j: int|
            0 <= j < i && (#[trigger] self.constraints()[j]).0 == (shape, f)
                ==> self.constraints()[j].1.contains(target)
    }

    /// Whether `e` is the error for a link with tag `(shape, f)` that points
    /// at a node of shape `target`: it names the tag, the shape found, and
    /// the shapes that the first declaration which the link breaks lists.
    pub open spec fn refuses(&self, shape: usize, f: usize, target: usize, e: LinkTypeError) -> bool {
        &&& e.link == (shape, f)
        &&& e.found == target
        &&& exists|i: int| #[trigger]
            self.breaks_at(shape, f, target, i) && e.expect@ == self.constraints()[i].1
    }

    /// Whether `shape` belongs to a group named `name`.
    pub open spec fn grouped(&self, shape: usize, name: Seq<char>) -> bool {
        exists|i: int|
            0 <= i < self.shape_groups().len() && (#[trigger] self.shape_groups()[i]).0 == name
                && self.shape_groups()[i].1.contains(shape)
    }

    /// Whether field `f` of `shape` belongs to a link group named `name`.
    pub open spec fn field_grouped(&self, shape: usize, f: usize, name: Seq<char>) -> bool {
        exists|i: int|
            0 <= i < self.field_groups().len() && (#[trigger] self.field_groups()[i]).0 == name
                && self.field_groups()[i].1 == shape && self.field_groups()[i].2.contains(f)
    }

    /// A schema without declarations.
    pub fn new() -> (s: Schema)
        ensures
            s.pairs().len() == 0,
            s.constraints().len() == 0,
            s.shape_groups().len() == 0,
            s.field_groups().len() == 0,
    {
        Schema {
            bidirectional: Vec::new(),
            link_types: Vec::new(),
            node_groups: Vec::new(),
            link_groups: Vec::new(),
        }
    }

    /// Declares that tags `a` and `b` mirror each other: a link `x -> y`
    /// under one is kept together with a link `y -> x` under the other.
    pub fn bidirectional(&mut self, a: (usize, usize), b: (usize, usize))
        ensures
            final(self).pairs() == old(self).pairs().push((a, b)),
            final(self).constraints() == old(self).constraints(),
            final(self).shape_groups() == old(self).shape_groups(),
            final(self).field_groups() == old(self).field_groups(),
    {
        self.bidirectional.push((a, b));
        assert(self.constraints() =~= old(self).constraints());
        assert(self.shape_groups() =~= old(self).shape_groups());
        assert(self.field_groups() =~= old(self).field_groups());
    }

    /// Declares that links with tag `link` point at nodes of the shapes in
    /// `targets` only.
    pub fn link_type(&mut self, link: (usize, usize), targets: Vec<usize>)
        ensures
            final(self).pairs() == old(self).pairs(),
            final(self).constraints() == old(self).constraints().push((link, targets@)),
            final(self).shape_groups() == old(self).shape_groups(),
            final(self).field_groups() == old(self).field_groups(),
    {
        self.link_types.push((link, targets));
        assert(self.constraints() =~= old(self).constraints().push((link, targets@)));
        assert(self.shape_groups() =~= old(self).shape_groups());
        assert(self.field_groups() =~= old(self).field_groups());
    }

    /// Names a group of shapes.
    pub fn group(&mut self, name: String, shapes: Vec<usize>)
        ensures
            final(self).pairs() == old(self).pairs(),
            final(self).constraints() == old(self).constraints(),
            final(self).shape_groups() == old(self).shape_groups().push((name@, shapes@)),
            final(self).field_groups() == old(self).field_groups(),
    {
        self.node_groups.push((name, shapes));
        assert(self.constraints() =~= old(self).constraints());
        assert(self.shape_groups() =~= old(self).shape_groups().push((name@, shapes@)));
        assert(self.field_groups() =~= old(self).field_groups());
    }

    /// Names a group of link fields of one shape.
    pub fn link_group(&mut self, name: String, shape: usize, fields: Vec<usize>)
        ensures
            final(self).pairs() == old(self).pairs(),
            final(self).constraints() == old(self).constraints(),
            final(self).shape_groups() == old(self).shape_groups(),
            final(self).field_groups() == old(self).field_groups().push((name@, shape, fields@)),
    {
        self.link_groups.push((name, shape, fields));
        assert(self.constraints() =~= old(self).constraints());
        assert(self.shape_groups() =~= old(self).shape_groups());
        assert(self.field_groups() =~= old(self).field_groups().push((name@, shape, fields@)));
    }

    /// The fields of shape `to` that mirror field `f` of shape `from`, each
    /// once, in the order of their first declaration.
    pub fn mirrors_of(&self, from: usize, f: usize, to: usize) -> (v: Vec<usize>)
        ensures
            v@.no_duplicates(),
            v@.to_set() == self.mirrors(from, f, to),
    {
        let mut v: Vec<usize> = Vec::new();
        let mut i: usize = 0;
        while i < self.bidirectional.len()
            invariant
                i <= self.bidirectional.len(),
                v@.no_duplicates(),
                forall|m: usize|
                    v@.contains(m) <==> exists|j: int|
                        0 <= j < i && (#[trigger] self.pairs()[j] == ((from, f), (to, m))
                            || self.pairs()[j] == ((to, m), (from, f))),
            decreases self.bidirectional.len() - i,
        {
            let (a, b) = self.bidirectional[i];
            let ghost before = v@;
            if a.0 == from && a.1 == f && b.0 == to {
                if !contains_usize(&v, b.1) {
                    v.push(b.1);
                    proof {
                        crate::order_set::lemma_push_no_duplicates(before, b.1);
                    }
                }
            }
            let ghost middle = v@;
            if b.0 == from && b.1 == f && a.0 == to {
                if !contains_usize(&v, a.1) {
                    v.push(a.1);
                    proof {
                        crate::order_set::lemma_push_no_duplicates(middle, a.1);
                    }
                }
            }
            proof {
                assert forall|m: usize|
                    v@.contains(m) <==> exists|j: int|
                        0 <= j < i + 1 && (#[trigger] self.pairs()[j] == ((from, f), (to, m))
                            || self.pairs()[j] == ((to, m), (from, f))) by {
                    let hit = self.pairs()[i as int] == ((from, f), (to, m)) || self.pairs()[i as int]
                        == ((to, m), (from, f));
                    assert(middle.contains(m) <==> before.contains(m) || (a.0 == from && a.1 == f
                        && b.0 == to && b.1 == m)) by {
                        if middle != before {
                            assert(middle.to_set().contains(m) <==> before.to_set().insert(
                                b.1,
                            ).contains(m));
                        }
                    }
                    assert(v@.contains(m) <==> middle.contains(m) || (b.0 == from && b.1 == f
                        && a.0 == to && a.1 == m)) by {
                        if v@ != middle {
                            assert(v@.to_set().contains(m) <==> middle.to_set().insert(
                                a.1,
                            ).contains(m));
                        }
                    }
                    if before.contains(m) {
                        let j = choose|j: int|
                            0 <= j < i && (#[trigger] self.pairs()[j] == ((from, f), (to, m))
                                || self.pairs()[j] == ((to, m), (from, f)));
                        assert(0 <= j < i + 1);
                    }
                    if hit {
                        assert(0 <= i < i + 1);
                    }
                    if exists|j: int|
                        0 <= j < i + 1 && (#[trigger] self.pairs()[j] == ((from, f), (to, m))
                            || self.pairs()[j] == ((to, m), (from, f))) {
                        let j = choose|j: int|
                            0 <= j < i + 1 && (#[trigger] self.pairs()[j] == ((from, f), (to, m))
                                || self.pairs()[j] == ((to, m), (from, f)));
                        if j < i {
                            assert(before.contains(m));
                        } else {
                            assert(hit);
                        }
                    }
                }
            }
            i = i + 1;
        }
        assert(v@.to_set() =~= self.mirrors(from, f, to));
        v
    }

    /// Checks a link with tag `(shape, f)` that points at a node of shape
    /// `target` against the declared link types. The error names the first
    /// declaration that does not list `target`.
    pub fn check_link_type(&self, target: usize, shape: usize, f: usize) -> (r: Result<
        (),
        LinkTypeError,
    >)
        ensures
            r is Ok <==> self.allows(shape, f, target),
            r matches Err(e) ==> self.refuses(shape, f, target, e),
    {
        let mut i: usize = 0;
        while i < self.link_types.len()
            invariant
                i <= self.link_types.len(),
                forall|j: int|
                    0 <= j < i && (#[trigger] self.constraints()[j]).0 == (shape, f)
                        ==> self.constraints()[j].1.contains(target),
            decreases self.link_types.len() - i,
        {
            let link = self.link_types[i].0;
            if link.0 == shape && link.1 == f {
                if !contains_usize(&self.link_types[i].1, target) {
                    let expect = copy_usizes(&self.link_types[i].1);
                    assert(self.constraints()[i as int] == ((shape, f), expect@));
                    assert(self.breaks_at(shape, f, target, i as int));
                    return Err(LinkTypeError { link: (shape, f), expect, found: target });
                }
            }
            i = i + 1;
        }
        Ok(())
    }

    /// Whether `shape` belongs to a group named `name`. An unknown name has
    /// no members.
    pub fn in_group(&self, shape: usize, name: &String) -> (r: bool)
        ensures
            r == self.grouped(shape, name@),
    {
        let mut i: usize = 0;
        while i < self.node_groups.len()
            invariant
                i <= self.node_groups.len(),
                forall|j: int|
                    0 <= j < i ==> !((#[trigger] self.shape_groups()[j]).0 == name@
                        && self.shape_groups()[j].1.contains(shape)),
            decreases self.node_groups.len() - i,
        {
            if same_text(&self.node_groups[i].0, name) {
                if contains_usize(&self.node_groups[i].1, shape) {
                    assert(self.shape_groups()[i as int].0 == name@);
                    return true;
                }
            }
            i = i + 1;
        }
        false
    }

    /// The targets that `node` holds in the fields of the link group named
    /// `name`: the fields in the order of the group, each with its targets.
    /// A target that is held by two fields is listed twice. An unknown name
    /// gives no target.
    pub fn get_links_by_group<D>(&self, node: &Node<D>, name: &String) -> (v: Vec<NodeIndex>)
        ensures
            forall|t: usize|
                t != 0 ==> (v@.contains(NodeIndex(t)) <==> exists|f: usize|
                    self.field_grouped(node@.shape, f, name@) && node@.points_to(f, t)),
    {
        let fields = self.fields_in_group(node.shape, name);
        let mut v: Vec<NodeIndex> = Vec::new();
        let mut k: usize = 0;
        while k < fields.len()
            invariant
                k <= fields.len(),
                forall|f: usize| fields@.contains(f) <==> self.field_grouped(node@.shape, f, name@),
                forall|t: usize|
                    t != 0 ==> (v@.contains(NodeIndex(t)) <==> exists|j: int|
                        0 <= j < k && node@.points_to(fields@[j], t)),
            decreases fields.len() - k,
        {
            let part = node.iter_links(fields[k]);
            let ghost before = v@;
            let mut i: usize = 0;
            while i < part.len()
                invariant
                    i <= part.len(),
                    v@ == before + part@.take(i as int),
                decreases part.len() - i,
            {
                v.push(part[i]);
                assert(part@.take(i + 1) =~= part@.take(i as int).push(part@[i as int]));
                assert(v@ =~= before + part@.take(i + 1));
                i = i + 1;
            }
            proof {
                assert(part@.take(part@.len() as int) =~= part@);
                assert forall|t: usize| t != 0 implies (v@.contains(NodeIndex(t)) <==> exists|j: int|
                    0 <= j < k + 1 && node@.points_to(fields@[j], t)) by {
                    let x = NodeIndex(t);
                    assert(v@.contains(x) <==> before.contains(x) || part@.contains(x)) by {
                        if v@.contains(x) {
                            let q = choose|q: int| 0 <= q < v@.len() && v@[q] == x;
                            if q < before.len() {
                                assert(before[q] == x);
                            } else {
                                assert(part@[q - before.len()] == x);
                            }
                        }
                        if before.contains(x) {
                            let q = choose|q: int| 0 <= q < before.len() && before[q] == x;
                            assert(v@[q] == x);
                        }
                        if part@.contains(x) {
                            let q = choose|q: int| 0 <= q < part@.len() && part@[q] == x;
                            assert(v@[before.len() + q] == x);
                        }
                    }
                    if before.contains(x) {
                        let j = choose|j: int| 0 <= j < k && node@.points_to(fields@[j], t);
                        assert(0 <= j < k + 1 && node@.points_to(fields@[j], t));
                    }
                    if part@.contains(x) {
                        assert(0 <= k < k + 1 && node@.points_to(fields@[k as int], t));
                    }
                    if exists|j: int| 0 <= j < k + 1 && node@.points_to(fields@[j], t) {
                        let j = choose|j: int| 0 <= j < k + 1 && node@.points_to(fields@[j], t);
                        if j < k {
                            assert(before.contains(x));
                        } else {
                            assert(part@.contains(x));
                        }
                    }
                }
            }
            k = k + 1;
        }
        proof {
            assert forall|t: usize| t != 0 implies (v@.contains(NodeIndex(t)) <==> exists|f: usize|
                self.field_grouped(node@.shape, f, name@) && node@.points_to(f, t)) by {
                if v@.contains(NodeIndex(t)) {
                    let j = choose|j: int| 0 <= j < fields@.len() && node@.points_to(fields@[j], t);
                    assert(fields@.contains(fields@[j]));
                }
                if exists|f: usize| self.field_grouped(node@.shape, f, name@) && node@.points_to(f, t) {
                    let f = choose|f: usize|
                        self.field_grouped(node@.shape, f, name@) && node@.points_to(f, t);
                    assert(fields@.contains(f));
                    let j = choose|j: int| 0 <= j < fields@.len() && fields@[j] == f;
                }
            }
        }
        v
    }

    /// The fields of `shape` that belong to a link group named `name`, each
    /// once. An unknown name has no members.
    pub fn fields_in_group(&self, shape: usize, name: &String) -> (v: Vec<usize>)
        ensures
            v@.no_duplicates(),
            forall|f: usize| v@.contains(f) <==> self.field_grouped(shape, f, name@),
    {
        let mut v: Vec<usize> = Vec::new();
        let mut i: usize = 0;
        while i < self.link_groups.len()
            invariant
                i <= self.link_groups.len(),
                v@.no_duplicates(),
                forall|f: usize|
                    v@.contains(f) <==> exists|j: int|
                        0 <= j < i && (#[trigger] self.field_groups()[j]).0 == name@
                            && self.field_groups()[j].1 == shape && self.field_groups()[j].2.contains(
                            f,
                        ),
            decreases self.link_groups.len() - i,
        {
            let ghost outer = v@;
            if self.link_groups[i].1 == shape && same_text(&self.link_groups[i].0, name) {
                push_missing(&mut v, &self.link_groups[i].2);
            }
            proof {
                let g = self.field_groups()[i as int];
                assert forall|f: usize|
                    v@.contains(f) <==> exists|j: int|
                        0 <= j < i + 1 && (#[trigger] self.field_groups()[j]).0 == name@
                            && self.field_groups()[j].1 == shape && self.field_groups()[j].2.contains(
                            f,
                        ) by {
                    let hit = g.0 == name@ && g.1 == shape && g.2.contains(f);
                    if outer.contains(f) {
                        let j = choose|j: int|
                            0 <= j < i && (#[trigger] self.field_groups()[j]).0 == name@
                                && self.field_groups()[j].1 == shape
                                && self.field_groups()[j].2.contains(f);
                        assert(0 <= j < i + 1);
                    }
                    if hit {
                        assert(0 <= i < i + 1);
                        let q = choose|q: int| 0 <= q < g.2.len() && g.2[q] == f;
                        assert(v@.contains(f));
                    }
                    if v@.contains(f) && !outer.contains(f) {
                        assert(hit);
                    }
                    if exists|j: int|
                        0 <= j < i + 1 && (#[trigger] self.field_groups()[j]).0 == name@
                            && self.field_groups()[j].1 == shape && self.field_groups()[j].2.contains(
                            f,
                        ) {
                        let j = choose|j: int|
                            0 <= j < i + 1 && (#[trigger] self.field_groups()[j]).0 == name@
                                && self.field_groups()[j].1 == shape
                                && self.field_groups()[j].2.contains(f);
                        if j < i {
                            assert(outer.contains(f));
                        } else {
                            assert(hit);
                        }
                    }
                }
            }
            i = i + 1;
        }
        v
    }
}

/// Appends to `v` the items of `items` that it lacks, each once.
pub(crate) fn push_missing(v: &mut Vec<usize>, items: &Vec<usize>)
    requires
        old(v)@.no_duplicates(),
    ensures
        final(v)@.no_duplicates(),
        forall|x: usize| final(v)@.contains(x) <==> old(v)@.contains(x) || items@.contains(x),
{
    let mut k: usize = 0;
    while k < items.len()
        invariant
            k <= items.len(),
            v@.no_duplicates(),
            forall|x: usize| v@.contains(x) <==> old(v)@.contains(x) || items@.take(k as int).contains(x),
        decreases items.len() - k,
    {
        let ghost before = v@;
        let item = items[k];
        if !contains_usize(v, item) {
            v.push(item);
            proof {
                crate::order_set::lemma_push_no_duplicates(before, item);
            }
        }
        proof {
            assert(items@.take(k + 1) =~= items@.take(k as int).push(item));
            assert forall|x: usize|
                v@.contains(x) <==> old(v)@.contains(x) || items@.take(k + 1).contains(x) by {
                assert(v@.contains(x) <==> before.contains(x) || x == item) by {
                    if v@ != before {
                        assert(v@.to_set().contains(x) <==> before.to_set().insert(item).contains(x));
                    }
                }
                assert(items@.take(k as int).push(item).contains(x) <==> items@.take(
                    k as int,
                ).contains(x) || x == item) by {
                    let t = items@.take(k as int);
                    if t.push(item).contains(x) {
                        let q = choose|q: int| 0 <= q < t.push(item).len() && t.push(item)[q] == x;
                        if q < t.len() {
                            assert(t[q] == x);
                        }
                    }
                    if t.contains(x) {
                        let q = choose|q: int| 0 <= q < t.len() && t[q] == x;
                        assert(t.push(item)[q] == x);
                    }
                    if x == item {
                        assert(t.push(item)[t.len() as int] == x);
                    }
                }
            }
        }
        k = k + 1;
    }
    assert(items@.take(items.len() as int) =~= items@);
}

/// Whether `x` occurs in `v`.
pub(crate) fn contains_usize(v: &Vec<usize>, x: usize) -> (r: bool)
    ensures
        r == v@.contains(x),
{
    let mut i: usize = 0;
    while i < v.len()
        invariant
            i <= v.len(),
            forall|j: int| 0 <= j < i ==> v@[j] != x,
        decreases v.len() - i,
    {
        if v[i] == x {
            return true;
        }
        i = i + 1;
    }
    false
}

/// A copy of `v`.
pub(crate) fn copy_usizes(v: &Vec<usize>) -> (r: Vec<usize>)
    ensures
        r@ == v@,
{
    let mut r: Vec<usize> = Vec::new();
    let mut i: usize = 0;
    while i < v.len()
        invariant
            i <= v.len(),
            r@ == v@.take(i as int),
        decreases v.len() - i,
    {
        r.push(v[i]);
        assert(v@.take(i + 1) =~= v@.take(i as int).push(v@[i as int]));
        i = i + 1;
    }
    assert(v@.take(v.len() as int) =~= v@);
    r
}

/// Whether two strings hold the same text.
pub(crate) fn same_text(a: &String, b: &String) -> (r: bool)
    ensures
        r == (a@ == b@),
{
    *a == *b
}

} // verus!
