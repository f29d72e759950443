//! User-supplied checks that a commit can run on what it changed.
//!
//! A check is a named closure. Node checks look at every node whose links
//! changed; link checks look at every link that came into being, or went
//! away.

use vstd::prelude::*;
use crate::index::NodeIndex;
use crate::node::Node;
use crate::schema::same_text;
use crate::text::{
    lemma_before_chain, lemma_before_either, lemma_not_before_itself, text_before, text_less,
};

verus! {

/// What a check says of a node or a link.
pub type CheckResult = Result<(), ()>;

/// A set of named checks.
///
/// `NC` is the type of the node checks, `LC` that of the link checks. A
/// caller that registers closures of several types boxes them.
pub struct GraphCheck<NC, LC> {
    pub(crate) node_checks: Vec<(String, NC)>,
    pub(crate) link_add_checks: Vec<(String, LC)>,
    pub(crate) link_remove_checks: Vec<(String, LC)>,
}

/// The names of a list of checks, in order.
pub open spec fn names<F>(list: Seq<(String, F)>) -> Seq<Seq<char>> {
    Seq::new(list.len(), |i: int| list[i].0@)
}

/// The closures of a list of checks, in order.
pub open spec fn funcs<F>(list: Seq<(String, F)>) -> Seq<F> {
    Seq::new(list.len(), |i: int| list[i].1)
}

/// Whether the names stand in ascending order. No name stands twice then.
pub open spec fn ascending(ns: Seq<Seq<char>>) -> bool {
    forall|i: int, j: int| 0 <= i < j < ns.len() ==> text_before(#[trigger] ns[i], #[trigger] ns[j])
}

/// Names in ascending order hold no name twice.
pub proof fn lemma_ascending_no_duplicates(ns: Seq<Seq<char>>)
    requires
        ascending(ns),
    ensures
        ns.no_duplicates(),
{
    assert forall|i: int, j: int| 0 <= i < ns.len() && 0 <= j < ns.len() && i != j implies ns[i]
        != ns[j] by {
        lemma_not_before_itself(ns[i]);
        if i < j {
            assert(text_before(ns[i], ns[j]));
        } else {
            assert(text_before(ns[j], ns[i]));
        }
    }
}

/// The place that `name` takes among the names `ns`: behind the names at
/// the head of `ns` that come before it.
pub open spec fn slot(ns: Seq<Seq<char>>, name: Seq<char>) -> int
    decreases ns.len(),
{
    if ns.len() == 0 || !text_before(ns[0], name) {
        0
    } else {
        1 + slot(ns.skip(1), name)
    }
}

/// The list `items` after `item` was put under `name`, where `ns` are the
/// names of the items: it replaces the item under that name, and under a
/// new name it takes the place that the name has in the order.
pub open spec fn put<T>(items: Seq<T>, ns: Seq<Seq<char>>, name: Seq<char>, item: T) -> Seq<T> {
    if ns.contains(name) {
        items.update(ns.index_of(name), item)
    } else {
        items.insert(slot(ns, name), item)
    }
}

/// The list `items` without the item at the place that `name` has in `ns`,
/// if it has one.
pub open spec fn without<T>(items: Seq<T>, ns: Seq<Seq<char>>, name: Seq<char>) -> Seq<T> {
    if ns.contains(name) {
        items.remove(ns.index_of(name))
    } else {
        items
    }
}

/// One step of [`slot`], `i` names into the list.
proof fn lemma_slot_step(ns: Seq<Seq<char>>, name: Seq<char>, i: int)
    requires
        0 <= i < ns.len(),
        text_before(ns[i], name),
    ensures
        slot(ns.skip(i), name) == 1 + slot(ns.skip(i + 1), name),
{
    assert(ns.skip(i)[0] == ns[i]);
    assert(ns.skip(i).skip(1) =~= ns.skip(i + 1));
}

/// Registers `func` under `name`: a check of that name is replaced where it
/// stands, a new name takes its place in the order of the names.
pub fn put_check<F>(list: &mut Vec<(String, F)>, name: String, func: F)
    requires
        ascending(names(old(list)@)),
    ensures
        ascending(names(final(list)@)),
        final(list)@ == put(old(list)@, names(old(list)@), name@, (name, func)),
        names(final(list)@) == put(names(old(list)@), names(old(list)@), name@, name@),
        funcs(final(list)@) == put(funcs(old(list)@), names(old(list)@), name@, func),
{
    let ghost before = list@;
    let ghost ns = names(before);
    proof {
        lemma_ascending_no_duplicates(ns);
        assert(ns.skip(0) =~= ns);
    }
    let mut i: usize = 0;
    while i < list.len() && text_less(&list[i].0, &name)
        invariant
            i <= list.len(),
            list@ == before,
            ns == names(before),
            forall|k: int| 0 <= k < i ==> text_before(#[trigger] ns[k], name@),
            slot(ns, name@) == i + slot(ns.skip(i as int), name@),
        decreases list.len() - i,
    {
        proof {
            assert(ns[i as int] == list@[i as int].0@);
            lemma_slot_step(ns, name@, i as int);
        }
        i = i + 1;
    }
    proof {
        if i < ns.len() {
            assert(ns[i as int] == list@[i as int].0@);
            assert(ns.skip(i as int)[0] == ns[i as int]);
        }
        assert(slot(ns, name@) == i);
    }
    if i < list.len() && same_text(&list[i].0, &name) {
        list[i] = (name, func);
        proof {
            assert(ns[i as int] == name@);
            assert(ns.contains(name@));
            let at = ns.index_of(name@);
            assert(ns[at] == name@);
            assert(at == i);
            assert(list@ =~= before.update(i as int, (name, func)));
            assert(names(list@) =~= ns.update(i as int, name@));
            assert(names(list@) =~= ns);
            assert(funcs(list@) =~= funcs(before).update(i as int, func));
        }
    } else {
        proof {
            assert forall|k: int| 0 <= k < ns.len() implies text_before(ns[k], name@)
                || text_before(name@, ns[k]) by {
                if k < i {
                } else {
                    assert(ns[i as int] != name@);
                    assert(!text_before(ns[i as int], name@));
                    lemma_before_either(ns[i as int], name@);
                    if k > i {
                        assert(text_before(ns[i as int], ns[k]));
                        lemma_before_chain(name@, ns[i as int], ns[k]);
                    }
                }
            }
            assert(!ns.contains(name@)) by {
                if ns.contains(name@) {
                    let k = choose|k: int| 0 <= k < ns.len() && ns[k] == name@;
                    lemma_not_before_itself(name@);
                }
            }
        }
        list.insert(i, (name, func));
        proof {
            let ms = names(list@);
            assert(ms =~= ns.insert(i as int, name@));
            assert(funcs(list@) =~= funcs(before).insert(i as int, func));
            assert forall|a: int, b: int| 0 <= a < b < ms.len() implies text_before(
                #[trigger] ms[a],
                #[trigger] ms[b],
            ) by {
                let sa = if a < i { a } else { a - 1 };
                let sb = if b < i { b } else { b - 1 };
                if a == i {
                    assert(ms[b] == ns[sb]);
                    assert(text_before(ns[sb], name@) || text_before(name@, ns[sb]));
                    if text_before(ns[sb], name@) {
                        assert(text_before(ns[i as int], name@) || sb == i) by {
                            if sb > i {
                                assert(text_before(ns[i as int], ns[sb]));
                                lemma_before_chain(ns[i as int], ns[sb], name@);
                            }
                        }
                    }
                } else if b == i {
                    assert(ms[a] == ns[sa]);
                } else {
                    assert(ms[a] == ns[sa] && ms[b] == ns[sb]);
                    assert(text_before(ns[sa], ns[sb]));
                }
            }
        }
    }
}

/// Takes the check named `name` out, if there is one. The checks after it
/// move up.
pub fn drop_check<F>(list: &mut Vec<(String, F)>, name: &String)
    requires
        ascending(names(old(list)@)),
    ensures
        ascending(names(final(list)@)),
        final(list)@ == without(old(list)@, names(old(list)@), name@),
        names(final(list)@) == without(names(old(list)@), names(old(list)@), name@),
        funcs(final(list)@) == without(funcs(old(list)@), names(old(list)@), name@),
{
    proof {
        lemma_ascending_no_duplicates(names(list@));
    }
    let mut i: usize = 0;
    while i < list.len()
        invariant
            i <= list.len(),
            *list == *old(list),
            ascending(names(list@)),
            names(list@).no_duplicates(),
            forall|j: int| 0 <= j < i ==> list@[j].0@ != name@,
        decreases list.len() - i,
    {
        if same_text(&list[i].0, name) {
            let ghost before = list@;
            let ghost ns = names(before);
            list.remove(i);
            proof {
                let ms = names(list@);
                assert(ns[i as int] == name@);
                assert(ns.contains(name@));
                let at = ns.index_of(name@);
                assert(ns[at] == name@);
                assert(at == i);
                assert(ms =~= ns.remove(i as int));
                assert(funcs(list@) =~= funcs(before).remove(i as int));
                assert forall|a: int, b: int| 0 <= a < b < ms.len() implies text_before(
                    #[trigger] ms[a],
                    #[trigger] ms[b],
                ) by {
                    let sa = if a < i { a } else { a + 1 };
                    let sb = if b < i { b } else { b + 1 };
                    assert(ms[a] == ns[sa] && ms[b] == ns[sb]);
                    assert(text_before(ns[sa], ns[sb]));
                }
            }
            return ;
        }
        i = i + 1;
    }
    proof {
        let ns = names(list@);
        assert(!ns.contains(name@)) by {
            if ns.contains(name@) {
                let j = choose|j: int| 0 <= j < ns.len() && ns[j] == name@;
                assert(list@[j].0@ == name@);
            }
        }
    }
}

impl<NC, LC> GraphCheck<NC, LC> {
    /// The names of the node checks, in the order in which they run.
    pub closed spec fn node_names(&self) -> Seq<Seq<char>> {
        names(self.node_checks@)
    }

    /// The names of the checks of added links, in the order in which they
    /// run.
    pub closed spec fn link_add_names(&self) -> Seq<Seq<char>> {
        names(self.link_add_checks@)
    }

    /// The names of the checks of removed links, in the order in which they
    /// run.
    pub closed spec fn link_remove_names(&self) -> Seq<Seq<char>> {
        names(self.link_remove_checks@)
    }

    /// The node checks, in the order in which they run.
    pub closed spec fn node_funcs(&self) -> Seq<NC> {
        funcs(self.node_checks@)
    }

    /// The checks of added links, in the order in which they run.
    pub closed spec fn link_add_funcs(&self) -> Seq<LC> {
        funcs(self.link_add_checks@)
    }

    /// The checks of removed links, in the order in which they run.
    pub closed spec fn link_remove_funcs(&self) -> Seq<LC> {
        funcs(self.link_remove_checks@)
    }

    /// What the accessors stand for, for the commit engine.
    pub(crate) proof fn lemma_parts(&self)
        ensures
            self.node_names() == names(self.node_checks@),
            self.link_add_names() == names(self.link_add_checks@),
            self.link_remove_names() == names(self.link_remove_checks@),
            self.node_funcs() == funcs(self.node_checks@),
            self.link_add_funcs() == funcs(self.link_add_checks@),
            self.link_remove_funcs() == funcs(self.link_remove_checks@),
    {
    }

    /// The checks of each kind stand in the ascending order of their
    /// names, so that no name is registered twice for one kind.
    pub open spec fn wf(&self) -> bool {
        &&& ascending(self.node_names())
        &&& ascending(self.link_add_names())
        &&& ascending(self.link_remove_names())
    }

    /// A set without checks.
    pub fn new() -> (c: Self)
        ensures
            c.wf(),
            c.node_names().len() == 0,
            c.link_add_names().len() == 0,
            c.link_remove_names().len() == 0,
            c.node_funcs().len() == 0,
            c.link_add_funcs().len() == 0,
            c.link_remove_funcs().len() == 0,
    {
        GraphCheck {
            node_checks: Vec::new(),
            link_add_checks: Vec::new(),
            link_remove_checks: Vec::new(),
        }
    }

    /// Registers a check that looks at every node whose links changed. A
    /// check of the same name is replaced.
    pub fn insert_node_check(&mut self, name: String, func: NC)
        requires
            old(self).wf(),
        ensures
            final(self).wf(),
            final(self).link_add_names() == old(self).link_add_names(),
            final(self).link_remove_names() == old(self).link_remove_names(),
            final(self).node_names() == put(
                old(self).node_names(),
                old(self).node_names(),
                name@,
                name@,
            ),
            final(self).node_funcs() == put(old(self).node_funcs(), old(self).node_names(), name@, func),
            final(self).link_add_funcs() == old(self).link_add_funcs(),
            final(self).link_remove_funcs() == old(self).link_remove_funcs(),
    {
        put_check(&mut self.node_checks, name, func);
    }

    /// Takes the node check of the given name out.
    pub fn remove_node_check(&mut self, name: &String)
        requires
            old(self).wf(),
        ensures
            final(self).wf(),
            final(self).link_add_names() == old(self).link_add_names(),
            final(self).link_remove_names() == old(self).link_remove_names(),
            final(self).node_names() == without(old(self).node_names(), old(self).node_names(), name@),
            final(self).node_funcs() == without(old(self).node_funcs(), old(self).node_names(), name@),
            final(self).link_add_funcs() == old(self).link_add_funcs(),
            final(self).link_remove_funcs() == old(self).link_remove_funcs(),
    {
        drop_check(&mut self.node_checks, name);
    }

    /// Registers a check that looks at every link that came into being. A
    /// check of the same name is replaced.
    pub fn insert_link_add_check(&mut self, name: String, func: LC)
        requires
            old(self).wf(),
        ensures
            final(self).wf(),
            final(self).node_names() == old(self).node_names(),
            final(self).link_remove_names() == old(self).link_remove_names(),
            final(self).link_add_names() == put(
                old(self).link_add_names(),
                old(self).link_add_names(),
                name@,
                name@,
            ),
            final(self).link_add_funcs() == put(old(self).link_add_funcs(), old(self).link_add_names(), name@, func),
            final(self).node_funcs() == old(self).node_funcs(),
            final(self).link_remove_funcs() == old(self).link_remove_funcs(),
    {
        put_check(&mut self.link_add_checks, name, func);
    }

    /// Takes the check of added links of the given name out.
    pub fn remove_link_add_check(&mut self, name: &String)
        requires
            old(self).wf(),
        ensures
            final(self).wf(),
            final(self).node_names() == old(self).node_names(),
            final(self).link_remove_names() == old(self).link_remove_names(),
            final(self).link_add_names() == without(old(self).link_add_names(), old(self).link_add_names(), name@),
            final(self).link_add_funcs() == without(old(self).link_add_funcs(), old(self).link_add_names(), name@),
            final(self).node_funcs() == old(self).node_funcs(),
            final(self).link_remove_funcs() == old(self).link_remove_funcs(),
    {
        drop_check(&mut self.link_add_checks, name);
    }

    /// Registers a check that looks at every link that went away. A check of
    /// the same name is replaced.
    pub fn insert_link_remove_check(&mut self, name: String, func: LC)
        requires
            old(self).wf(),
        ensures
            final(self).wf(),
            final(self).node_names() == old(self).node_names(),
            final(self).link_add_names() == old(self).link_add_names(),
            final(self).link_remove_names() == put(
                old(self).link_remove_names(),
                old(self).link_remove_names(),
                name@,
                name@,
            ),
            final(self).link_remove_funcs() == put(old(self).link_remove_funcs(), old(self).link_remove_names(), name@, func),
            final(self).node_funcs() == old(self).node_funcs(),
            final(self).link_add_funcs() == old(self).link_add_funcs(),
    {
        put_check(&mut self.link_remove_checks, name, func);
    }

    /// Takes the check of removed links of the given name out.
    pub fn remove_link_remove_check(&mut self, name: &String)
        requires
            old(self).wf(),
        ensures
            final(self).wf(),
            final(self).node_names() == old(self).node_names(),
            final(self).link_add_names() == old(self).link_add_names(),
            final(self).link_remove_names() == without(old(self).link_remove_names(), old(self).link_remove_names(), name@),
            final(self).link_remove_funcs() == without(old(self).link_remove_funcs(), old(self).link_remove_names(), name@),
            final(self).node_funcs() == old(self).node_funcs(),
            final(self).link_add_funcs() == old(self).link_add_funcs(),
    {
        drop_check(&mut self.link_remove_checks, name);
    }
}

} // verus!
