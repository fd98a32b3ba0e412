use vstd::prelude::*;
use crate::properties::{entries_map, PropertyMap};
use crate::referent::Ref;
use crate::variant::Variant;

verus! {

/// A detached node that can become a new `WeakDom`, or be inserted into one.
/// Its referent is fixed when it is created.
#[derive(Debug)]
pub struct InstanceBuilder {
    referent: Ref,
    name: String,
    class: String,
    properties: PropertyMap,
    children: Vec<InstanceBuilder>,
}

/// The referents of the tree of `b`, `b` first, in pre-order.
spec fn tree_refs(b: InstanceBuilder) -> Seq<Ref>
    decreases b, b.children@.len() + 1,
{
    seq![b.referent] + kids_refs(b, b.children@.len() as int)
}

/// The referents of the trees of the first `k` children of `b`, in pre-order.
spec fn kids_refs(b: InstanceBuilder, k: int) -> Seq<Ref>
    decreases b, k,
{
    if k <= 0 || k > b.children@.len() {
        Seq::empty()
    } else {
        kids_refs(b, k - 1) + tree_refs(b.children@[k - 1])
    }
}

/// The builders of the tree of `b`, `b` first, in pre-order.
spec fn tree_nodes(b: InstanceBuilder) -> Seq<InstanceBuilder>
    decreases b, b.children@.len() + 1,
{
    seq![b] + kids_nodes(b, b.children@.len() as int)
}

/// The builders of the trees of the first `k` children of `b`, in pre-order.
spec fn kids_nodes(b: InstanceBuilder, k: int) -> Seq<InstanceBuilder>
    decreases b, k,
{
    if k <= 0 || k > b.children@.len() {
        Seq::empty()
    } else {
        kids_nodes(b, k - 1) + tree_nodes(b.children@[k - 1])
    }
}

impl InstanceBuilder {
    pub closed spec fn spec_referent(&self) -> Ref {
        self.referent
    }

    pub closed spec fn spec_name(&self) -> Seq<char> {
        self.name@
    }

    pub closed spec fn spec_class(&self) -> Seq<char> {
        self.class@
    }

    pub closed spec fn spec_properties(&self) -> Map<Seq<char>, Variant> {
        self.properties@
    }

    pub closed spec fn spec_children(&self) -> Seq<InstanceBuilder> {
        self.children@
    }

    /// The referents of the tree below this builder, itself first, in
    /// pre-order.
    pub closed spec fn spec_tree_referents(&self) -> Seq<Ref> {
        tree_refs(*self)
    }

    /// The builders of the tree below this builder, itself first, in
    /// pre-order.
    pub closed spec fn spec_tree_builders(&self) -> Seq<InstanceBuilder> {
        tree_nodes(*self)
    }

    /// A builder of the given class, named after it, with a fresh referent,
    /// no properties and no children.
    pub fn new(class: &str) -> (r: InstanceBuilder)
        ensures
            !r.spec_referent().spec_is_none(),
            r.spec_class() == class@,
            r.spec_name() == class@,
            r.spec_properties() == Map::<Seq<char>, Variant>::empty(),
            r.spec_children() == Seq::<InstanceBuilder>::empty(),
    {
        InstanceBuilder {
            referent: Ref::new(),
            name: class.to_owned(),
            class: class.to_owned(),
            properties: PropertyMap::new(),
            children: Vec::new(),
        }
    }

    pub fn referent(&self) -> (r: Ref)
        ensures
            r == self.spec_referent(),
    {
        self.referent
    }

    pub fn with_name(self, name: &str) -> (r: InstanceBuilder)
        ensures
            r.spec_name() == name@,
            r.spec_referent() == self.spec_referent(),
            r.spec_class() == self.spec_class(),
            r.spec_properties() == self.spec_properties(),
            r.spec_children() == self.spec_children(),
    {
        let mut b = self;
        b.set_name(name);
        b
    }

    pub fn set_name(&mut self, name: &str)
        ensures
            final(self).spec_name() == name@,
            final(self).spec_referent() == old(self).spec_referent(),
            final(self).spec_class() == old(self).spec_class(),
            final(self).spec_properties() == old(self).spec_properties(),
            final(self).spec_children() == old(self).spec_children(),
    {
        self.name = name.to_owned();
    }

    pub fn with_property(self, key: &str, value: Variant) -> (r: InstanceBuilder)
        ensures
            r.spec_properties() == self.spec_properties().insert(key@, value),
            r.spec_referent() == self.spec_referent(),
            r.spec_name() == self.spec_name(),
            r.spec_class() == self.spec_class(),
            r.spec_children() == self.spec_children(),
    {
        let mut b = self;
        b.add_property(key, value);
        b
    }

    pub fn add_property(&mut self, key: &str, value: Variant)
        ensures
            final(self).spec_properties() == old(self).spec_properties().insert(key@, value),
            final(self).spec_referent() == old(self).spec_referent(),
            final(self).spec_name() == old(self).spec_name(),
            final(self).spec_class() == old(self).spec_class(),
            final(self).spec_children() == old(self).spec_children(),
    {
        self.properties.insert(key.to_owned(), value);
    }

    /// Adds the given properties in order: a later entry for a key wins over
    /// an earlier one and over the value the builder had.
    pub fn with_properties(self, props: Vec<(String, Variant)>) -> (r: InstanceBuilder)
        ensures
            r.spec_properties() == self.spec_properties().union_prefer_right(entries_map(props@)),
            r.spec_referent() == self.spec_referent(),
            r.spec_name() == self.spec_name(),
            r.spec_class() == self.spec_class(),
            r.spec_children() == self.spec_children(),
    {
        let mut b = self;
        b.add_properties(props);
        b
    }

    /// Adds the given properties in order: a later entry for a key wins over
    /// an earlier one and over the value the builder had.
    pub fn add_properties(&mut self, props: Vec<(String, Variant)>)
        ensures
            final(self).spec_properties() == old(self).spec_properties().union_prefer_right(
                entries_map(props@),
            ),
            final(self).spec_referent() == old(self).spec_referent(),
            final(self).spec_name() == old(self).spec_name(),
            final(self).spec_class() == old(self).spec_class(),
            final(self).spec_children() == old(self).spec_children(),
    {
        let ghost all = props@;
        let ghost base = self.properties@;
        let mut rest = props;
        let ghost mut done: int = 0;
        proof {
            assert(all.take(0) =~= Seq::<(String, Variant)>::empty());
            assert(base.union_prefer_right(entries_map(all.take(0))) =~= base);
        }
        while rest.len() > 0
            invariant
                0 <= done <= all.len(),
                rest@ == all.skip(done),
                self.properties@ == base.union_prefer_right(entries_map(all.take(done))),
                self.referent == old(self).referent,
                self.name == old(self).name,
                self.class == old(self).class,
                self.children == old(self).children,
            decreases rest@.len(),
        {
            let (key, value) = rest.remove(0);
            proof {
                assert(all.take(done + 1).drop_last() =~= all.take(done));
                assert(all[done] == (key, value));
                assert(base.union_prefer_right(entries_map(all.take(done + 1))) =~= base.union_prefer_right(
                    entries_map(all.take(done)),
                ).insert(key@, value));
            }
            self.properties.insert(key, value);
            proof {
                done = done + 1;
            }
            proof {
                assert(rest@ =~= all.skip(done));
            }
        }
        proof {
            assert(all.take(done) =~= all);
        }
    }

    pub fn with_child(self, child: InstanceBuilder) -> (r: InstanceBuilder)
        ensures
            r.spec_children() == self.spec_children().push(child),
            r.spec_referent() == self.spec_referent(),
            r.spec_name() == self.spec_name(),
            r.spec_class() == self.spec_class(),
            r.spec_properties() == self.spec_properties(),
    {
        let mut b = self;
        b.add_child(child);
        b
    }

    pub fn add_child(&mut self, child: InstanceBuilder)
        ensures
            final(self).spec_children() == old(self).spec_children().push(child),
            final(self).spec_referent() == old(self).spec_referent(),
            final(self).spec_name() == old(self).spec_name(),
            final(self).spec_class() == old(self).spec_class(),
            final(self).spec_properties() == old(self).spec_properties(),
    {
        self.children.push(child);
    }

    /// Appends the given children, in their order, after the existing ones.
    pub fn with_children(self, children: Vec<InstanceBuilder>) -> (r: InstanceBuilder)
        ensures
            r.spec_children() == self.spec_children() + children@,
            r.spec_referent() == self.spec_referent(),
            r.spec_name() == self.spec_name(),
            r.spec_class() == self.spec_class(),
            r.spec_properties() == self.spec_properties(),
    {
        let mut b = self;
        b.add_children(children);
        b
    }

    /// Appends the given children, in their order, after the existing ones.
    pub fn add_children(&mut self, children: Vec<InstanceBuilder>)
        ensures
            final(self).spec_children() == old(self).spec_children() + children@,
            final(self).spec_referent() == old(self).spec_referent(),
            final(self).spec_name() == old(self).spec_name(),
            final(self).spec_class() == old(self).spec_class(),
            final(self).spec_properties() == old(self).spec_properties(),
    {
        let mut children = children;
        self.children.append(&mut children);
    }
}

/// An instance held by a `WeakDom`. Its name, class and properties may be
/// changed freely; its place in the tree only through the `WeakDom`.
#[derive(Debug)]
pub struct Instance {
    referent: Ref,
    children: Vec<Ref>,
    parent: Ref,
    /// The instance's name, corresponding to the `Name` property.
    pub name: String,
    /// The instance's class, corresponding to the `ClassName` property.
    pub class: String,
    /// Any properties stored on the object that are not `Name` or `ClassName`.
    pub properties: PropertyMap,
}

impl Instance {
    pub closed spec fn spec_referent(&self) -> Ref {
        self.referent
    }

    pub closed spec fn spec_children(&self) -> Seq<Ref> {
        self.children@
    }

    pub closed spec fn spec_parent(&self) -> Ref {
        self.parent
    }

    pub closed spec fn spec_name(&self) -> Seq<char> {
        self.name@
    }

    pub closed spec fn spec_class(&self) -> Seq<char> {
        self.class@
    }

    pub closed spec fn spec_properties(&self) -> Map<Seq<char>, Variant> {
        self.properties@
    }

    /// This instance's referent; never the null one.
    pub fn referent(&self) -> (r: Ref)
        ensures
            r == self.spec_referent(),
    {
        self.referent
    }

    /// The referents of this instance's children, in order.
    pub fn children(&self) -> (r: &[Ref])
        ensures
            r@ == self.spec_children(),
    {
        self.children.as_slice()
    }

    /// The referent of this instance's parent, null for the root.
    pub fn parent(&self) -> (r: Ref)
        ensures
            r == self.spec_parent(),
    {
        self.parent
    }
}

} // verus!

verus! {

broadcast use {vstd::std_specs::hash::group_hash_axioms, vstd::std_specs::vec::group_vec_axioms};

/// The referents of the tree of `b` can join a graph whose live referents
/// are `taken`: no two are equal, none is null and none is taken.
pub open spec fn referents_fresh(b: InstanceBuilder, taken: Set<u128>) -> bool {
    let s = b.spec_tree_referents();
    &&& s.no_duplicates()
    &&& forall|i: int| 0 <= i < s.len() ==> (#[trigger] s[i]).id != 0 && !taken.contains(s[i].id)
}

impl WeakDom {
    /// The graph holds an instance for the builder `b`, with its referent,
    /// name, class and properties.
    pub open spec fn stores(&self, b: InstanceBuilder) -> bool {
        &&& self.contains(b.spec_referent())
        &&& self.node(b.spec_referent()).spec_referent() == b.spec_referent()
        &&& self.node(b.spec_referent()).spec_name() == b.spec_name()
        &&& self.node(b.spec_referent()).spec_class() == b.spec_class()
        &&& self.node(b.spec_referent()).spec_properties() == b.spec_properties()
    }
}

/// Why an operation on a `WeakDom` was refused. A refused operation leaves
/// the graph as it was.
#[derive(Clone, Copy, Debug, PartialEq, Eq, Structural)]
pub enum DomError {
    /// A referent names no instance of the graph.
    LookupError,
    /// The operation would break the tree's structure: a referent that is
    /// taken or null, a cycle, or a tree without its root.
    StructuralError,
}

/// A tree of instances, kept in an arena keyed by referent.
pub struct WeakDom {
    root: Ref,
    instances: std::collections::HashMap<u128, Instance>,
    depth: Ghost<Map<u128, nat>>,
}

/// Every node's links agree with the arena: its key is its referent, its
/// children are live and point back to it, and a node with a parent is
/// listed among that parent's children, one level below it.
pub closed spec fn links_consistent(n: Map<u128, Instance>, d: Map<u128, nat>) -> bool {
    &&& d.dom() == n.dom()
    &&& forall|k: u128| #[trigger] n.contains_key(k) ==> k != 0 && n[k].referent.id == k && n[k].children@.no_duplicates()
    &&& forall|k: u128| #[trigger] n.contains_key(k) && n[k].parent.id == 0 ==> d[k] == 0
    &&& forall|k: u128| #[trigger] n.contains_key(k) && n[k].parent.id != 0 ==> {
        &&& n.contains_key(n[k].parent.id)
        &&& n[n[k].parent.id].children@.contains(Ref { id: k })
        &&& d[k] == d[n[k].parent.id] + 1
    }
    &&& forall|k: u128, i: int| #[trigger] n.contains_key(k) && 0 <= i < n[k].children@.len() ==> {
        &&& n.contains_key((#[trigger] n[k].children@[i]).id)
        &&& n[n[k].children@[i].id].parent.id == k
    }
}

impl WeakDom {
    pub closed spec fn spec_root(&self) -> Ref {
        self.root
    }

    /// The live instances, by referent id.
    pub closed spec fn nodes(&self) -> Map<u128, Instance> {
        self.instances@
    }

    pub open spec fn contains(&self, r: Ref) -> bool {
        self.nodes().contains_key(r.id)
    }

    pub open spec fn node(&self, r: Ref) -> Instance {
        self.nodes()[r.id]
    }

    /// The graph is a tree: links are consistent, the root is live and is
    /// the one instance without a parent, and depths (root 0, child one
    /// below its parent) leave no room for a cycle.
    pub closed spec fn wf(&self) -> bool {
        &&& links_consistent(self.instances@, self.depth@)
        &&& self.instances@.contains_key(self.root.id)
        &&& self.instances@[self.root.id].parent.id == 0
        &&& forall|k: u128| #[trigger] self.instances@.contains_key(k) && self.instances@[k].parent.id == 0 ==> k == self.root.id
    }

    pub fn root_ref(&self) -> (r: Ref)
        ensures
            r == self.spec_root(),
    {
        self.root
    }

    pub fn root(&self) -> (r: &Instance)
        requires
            self.wf(),
        ensures
            self.contains(self.spec_root()),
            *r == self.node(self.spec_root()),
    {
        self.instances.get(&self.root.id).unwrap()
    }

    pub fn get_by_ref(&self, r: Ref) -> (o: Option<&Instance>)
        ensures
            match o {
                Some(i) => self.contains(r) && *i == self.node(r),
                None => !self.contains(r),
            },
    {
        self.instances.get(&r.id)
    }

}


/// One node of a builder tree laid out flat, in pre-order: `parent` is the
/// index of its parent's record, `None` for the tree's top.
struct FlatNode {
    referent: Ref,
    parent: Option<usize>,
    name: String,
    class: String,
    properties: PropertyMap,
}

/// The referents of the records whose parent is record `p`, in order.
spec fn children_of(s: Seq<FlatNode>, p: usize) -> Seq<Ref>
    decreases s.len(),
{
    if s.len() == 0 {
        Seq::empty()
    } else if s.last().parent == Some(p) {
        children_of(s.drop_last(), p).push(s.last().referent)
    } else {
        children_of(s.drop_last(), p)
    }
}

spec fn refs_of(s: Seq<FlatNode>) -> Seq<Ref> {
    s.map_values(|f: FlatNode| f.referent)
}

/// Each record holds what the builder at the same place holds.
spec fn recs_match(s: Seq<FlatNode>, t: Seq<InstanceBuilder>) -> bool {
    &&& s.len() == t.len()
    &&& forall|i: int| 0 <= i < s.len() ==> {
        &&& (#[trigger] s[i]).referent == t[i].referent
        &&& s[i].name@ == t[i].name@
        &&& s[i].class@ == t[i].class@
        &&& s[i].properties@ == t[i].properties@
    }
}

/// Every record's parent comes before it.
spec fn flat_ordered(s: Seq<FlatNode>) -> bool {
    forall|j: int| 0 <= j < s.len() && (#[trigger] s[j]).parent is Some ==> s[j].parent->0 < j
}

proof fn lemma_children_of_none(s: Seq<FlatNode>, p: usize)
    requires
        flat_ordered(s),
        s.len() <= p,
    ensures
        children_of(s, p) == Seq::<Ref>::empty(),
    decreases s.len(),
{
    if s.len() > 0 {
        assert(s.drop_last().len() <= p);
        assert(flat_ordered(s.drop_last())) by {
            assert forall|j: int| 0 <= j < s.drop_last().len() && (#[trigger] s.drop_last()[j]).parent is Some implies s.drop_last()[j].parent->0 < j by {
                assert(s[j] == s.drop_last()[j]);
            }
        }
        lemma_children_of_none(s.drop_last(), p);
        assert(s[s.len() - 1] == s.last());
    }
}

/// Records from `o` on that are not under record `q` add nothing to its
/// children.
proof fn lemma_children_of_block(s: Seq<FlatNode>, o: int, q: usize)
    requires
        0 <= o <= s.len(),
        forall|j: int| o <= j < s.len() ==> (#[trigger] s[j]).parent != Some(q),
    ensures
        children_of(s, q) == children_of(s.take(o), q),
    decreases s.len(),
{
    if s.len() > o {
        assert(s.last() == s[s.len() - 1]);
        lemma_children_of_block(s.drop_last(), o, q);
        assert(s.drop_last().take(o) =~= s.take(o));
    } else {
        assert(s.take(o) =~= s);
    }
}

/// Appends the tree of `b` to `out` in pre-order, its top record under
/// `parent`.
fn flatten(b: InstanceBuilder, parent: Option<usize>, out: &mut Vec<FlatNode>)
    requires
        flat_ordered(old(out)@),
        parent matches Some(p) ==> p < old(out)@.len(),
    ensures
        ({
            let o = old(out)@.len();
            let n = final(out)@;
            &&& n.len() > o
            &&& n.take(o as int) == old(out)@
            &&& flat_ordered(n)
            &&& n[o as int].referent == b.spec_referent()
            &&& n[o as int].parent == parent
            &&& n[o as int].name@ == b.spec_name()
            &&& n[o as int].class@ == b.spec_class()
            &&& n[o as int].properties@ == b.spec_properties()
            &&& forall|j: int| o < j < n.len() ==> (#[trigger] n[j]).parent is Some && o <= n[j].parent->0 < j
            &&& children_of(n, o as usize) == b.spec_children().map_values(|c: InstanceBuilder| c.spec_referent())
            &&& refs_of(n.skip(o as int)) == tree_refs(b)
            &&& recs_match(n.skip(o as int), tree_nodes(b))
        }),
    decreases b,
{
    let ghost gb = b;
    let ghost start = out@;
    let InstanceBuilder { referent, name, class, properties, children } = b;
    let o = out.len();
    out.push(FlatNode { referent, parent, name, class, properties });
    proof {
        assert(out@.take(o as int) =~= start);
        assert(out@.drop_last() == start);
        lemma_children_of_none(start, o);
        assert(flat_ordered(out@)) by {
            assert forall|j: int| 0 <= j < out@.len() && (#[trigger] out@[j]).parent is Some implies out@[j].parent->0 < j by {
                if j < o {
                    assert(out@[j] == start[j]);
                }
            }
        }
    }
    let ghost all = children@;
    let mut rest = children;
    let ghost mut k: int = 0;
    proof {
        assert(rest@ =~= all.skip(0));
        assert(all.take(0).map_values(|c: InstanceBuilder| c.spec_referent()) =~= Seq::<Ref>::empty());
        assert(refs_of(out@.skip(o as int)) =~= seq![gb.referent] + kids_refs(gb, 0));
        assert(seq![gb] + kids_nodes(gb, 0) =~= seq![gb]);
        assert(recs_match(out@.skip(o as int), seq![gb] + kids_nodes(gb, 0)));
    }
    while rest.len() > 0
        invariant
            0 <= k <= all.len(),
            gb == b,
            all == gb.spec_children(),
            rest@ == all.skip(k),
            o == start.len(),
            out@.len() > o,
            out@.take(o as int) == start,
            flat_ordered(out@),
            out@[o as int].referent == gb.spec_referent(),
            out@[o as int].parent == parent,
            out@[o as int].name@ == gb.spec_name(),
            out@[o as int].class@ == gb.spec_class(),
            out@[o as int].properties@ == gb.spec_properties(),
            forall|j: int| o < j < out@.len() ==> (#[trigger] out@[j]).parent is Some && o <= out@[j].parent->0 < j,
            children_of(out@, o) == all.take(k).map_values(|c: InstanceBuilder| c.spec_referent()),
            refs_of(out@.skip(o as int)) == seq![gb.referent] + kids_refs(gb, k),
            recs_match(out@.skip(o as int), seq![gb] + kids_nodes(gb, k)),
        decreases rest@.len(),
    {
        let c = rest.remove(0);
        proof {
            assert(c == all[k]);
            assert(decreases_to!(gb => gb.children));
            assert(decreases_to!(gb.children => gb.children@));
            assert(decreases_to!(gb.children@ => gb.children@[k]));
            assert(decreases_to!(gb => c));
        }
        let ghost before = out@;
        flatten(c, Some(o), out);
        proof {
            let n = out@;
            let o2 = before.len() as int;
            assert(n.take(o as int) =~= start) by {
                assert(n.take(o2) == before);
                assert(n.take(o as int) =~= before.take(o as int));
            }
            assert(n[o as int] == before[o as int]) by {
                assert(n.take(o2)[o as int] == n[o as int]);
            }
            assert forall|j: int| o < j < n.len() implies (#[trigger] n[j]).parent is Some && o <= n[j].parent->0 < j by {
                if j < o2 {
                    assert(n.take(o2)[j] == n[j]);
                    assert(before[j] == n[j]);
                }
            }
            // the children of record o gain exactly c's referent
            assert forall|j: int| o2 + 1 <= j < n.len() implies (#[trigger] n[j]).parent != Some(o) by {
                assert(o2 <= n[j].parent->0);
            }
            lemma_children_of_block(n, o2 + 1, o);
            assert(n.take(o2 + 1).drop_last() =~= before) by {
                assert(n.take(o2) == before);
            }
            assert(n.take(o2 + 1).last() == n[o2]);
            assert(children_of(n.take(o2 + 1), o) == children_of(before, o).push(c.spec_referent()));
            assert(all.take(k + 1).map_values(|c: InstanceBuilder| c.spec_referent()) =~= all.take(k).map_values(
                |c: InstanceBuilder| c.spec_referent(),
            ).push(c.spec_referent()));
            assert(refs_of(n.skip(o as int)) =~= refs_of(before.skip(o as int)) + refs_of(n.skip(o2))) by {
                assert(n.take(o2) == before);
            }
            assert(kids_refs(gb, k + 1) == kids_refs(gb, k) + tree_refs(c));
            assert(kids_nodes(gb, k + 1) == kids_nodes(gb, k) + tree_nodes(c));
            assert(recs_match(n.skip(o as int), seq![gb] + kids_nodes(gb, k + 1))) by {
                let a = before.skip(o as int);
                let bb = n.skip(o2);
                let x = seq![gb] + kids_nodes(gb, k);
                let y = tree_nodes(c);
                assert(n.skip(o as int) =~= a + bb) by {
                    assert(n.take(o2) == before);
                }
                assert(seq![gb] + kids_nodes(gb, k + 1) =~= x + y);
                assert forall|i: int| 0 <= i < (a + bb).len() implies {
                    &&& (#[trigger] (a + bb)[i]).referent == (x + y)[i].referent
                    &&& (a + bb)[i].name@ == (x + y)[i].name@
                    &&& (a + bb)[i].class@ == (x + y)[i].class@
                    &&& (a + bb)[i].properties@ == (x + y)[i].properties@
                } by {
                    if i < a.len() {
                        assert((a + bb)[i] == a[i]);
                        assert((x + y)[i] == x[i]);
                    } else {
                        assert((a + bb)[i] == bb[i - a.len()]);
                        assert((x + y)[i] == y[i - a.len()]);
                    }
                }
            }
            assert(refs_of(n.skip(o as int)) =~= seq![gb.referent] + kids_refs(gb, k + 1));
            k = k + 1;
            assert(rest@ =~= all.skip(k));
        }
    }
    proof {
        assert(all.take(k) =~= all);
    }
}


/// The records' referents are distinct, none is null and none is `taken`.
spec fn flat_fresh(s: Seq<FlatNode>, taken: Set<u128>) -> bool {
    &&& forall|i: int| 0 <= i < s.len() ==> (#[trigger] s[i]).referent.id != 0 && !taken.contains(s[i].referent.id)
    &&& forall|i: int, j: int| 0 <= i < s.len() && 0 <= j < s.len() && i != j ==> (#[trigger] s[i]).referent.id != (#[trigger] s[j]).referent.id
}

/// Adding a childless node `k` under `p` (or as a parentless node when `p`
/// is null) keeps the links consistent.
proof fn lemma_add_leaf(
    n: Map<u128, Instance>,
    d: Map<u128, nat>,
    n2: Map<u128, Instance>,
    d2: Map<u128, nat>,
    k: u128,
    p: u128,
)
    requires
        links_consistent(n, d),
        k != 0,
        !n.contains_key(k),
        p == 0 || n.contains_key(p),
        n2.dom() == n.dom().insert(k),
        n2[k].referent.id == k,
        n2[k].parent.id == p,
        n2[k].children@.len() == 0,
        d2 == d.insert(k, if p == 0 { 0 } else { d[p] + 1 }),
        forall|x: u128| #[trigger] n.contains_key(x) && x != p ==> n2[x] == n[x],
        p != 0 ==> n2[p].referent == n[p].referent && n2[p].parent == n[p].parent
            && n2[p].children@ == n[p].children@.push(Ref { id: k }),
    ensures
        links_consistent(n2, d2),
{
    assert(d2.dom() =~= n2.dom());
    assert forall|x: u128| #[trigger] n2.contains_key(x) implies x != 0 && n2[x].referent.id == x && n2[x].children@.no_duplicates() by {
        if x == p && p != 0 {
            assert(n.contains_key(p));
            assert(!n[p].children@.contains(Ref { id: k })) by {
                if n[p].children@.contains(Ref { id: k }) {
                    let i = choose|i: int| 0 <= i < n[p].children@.len() && n[p].children@[i] == Ref { id: k };
                    assert(n.contains_key(n[p].children@[i].id));
                }
            }
        }
    }
    assert forall|x: u128| #[trigger] n2.contains_key(x) && n2[x].parent.id != 0 implies {
        &&& n2.contains_key(n2[x].parent.id)
        &&& n2[n2[x].parent.id].children@.contains(Ref { id: x })
        &&& d2[x] == d2[n2[x].parent.id] + 1
    } by {
        if x == k {
            assert(n2[p].children@.last() == Ref { id: k });
        } else {
            assert(n.contains_key(x));
            let q = n[x].parent.id;
            assert(n.contains_key(q));
            assert(q != k);
            if q == p {
                assert(n[p].children@.contains(Ref { id: x }));
                let i = choose|i: int| 0 <= i < n[p].children@.len() && n[p].children@[i] == Ref { id: x };
                assert(n2[p].children@[i] == Ref { id: x });
            }
        }
    }
    assert forall|x: u128| #[trigger] n2.contains_key(x) && n2[x].parent.id == 0 implies d2[x] == 0 by {
        if x != k {
            assert(n.contains_key(x));
        }
    }
    assert forall|x: u128, i: int| #[trigger] n2.contains_key(x) && 0 <= i < n2[x].children@.len() implies {
        &&& n2.contains_key((#[trigger] n2[x].children@[i]).id)
        &&& n2[n2[x].children@[i].id].parent.id == x
    } by {
        if x == k {
        } else if x == p && p != 0 {
            if i < n[p].children@.len() {
                assert(n2[p].children@[i] == n[p].children@[i]);
                assert(n.contains_key(n[p].children@[i].id));
                assert(n[p].children@[i].id != k);
            }
        } else {
            assert(n.contains_key(x));
            assert(n.contains_key(n[x].children@[i].id));
            assert(n[x].children@[i].id != k);
        }
    }
}

impl WeakDom {
    /// Whether the records can join this graph.
    fn check_fresh(&self, flat: &Vec<FlatNode>) -> (ok: bool)
        ensures
            ok == flat_fresh(flat@, self.nodes().dom()),
    {
        let mut seen: std::collections::HashSet<u128> = std::collections::HashSet::new();
        let mut i: usize = 0;
        while i < flat.len()
            invariant
                i <= flat@.len(),
                seen@ == Set::new(|x: u128| exists|j: int| 0 <= j < i && (#[trigger] flat@[j]).referent.id == x),
                flat_fresh(flat@.take(i as int), self.nodes().dom()),
            decreases flat@.len() - i,
        {
            let id = flat[i].referent.id;
            if id == 0 || self.instances.contains_key(&id) || seen.contains(&id) {
                proof {
                    if id != 0 && !self.nodes().dom().contains(id) {
                        let j = choose|j: int| 0 <= j < i && (#[trigger] flat@[j]).referent.id == id;
                        assert(flat@[j].referent.id == flat@[i as int].referent.id);
                    }
                }
                return false;
            }
            let ghost seen_before = seen@;
            seen.insert(id);
            proof {
                let t = flat@.take(i as int + 1);
                assert forall|a: int, c: int| 0 <= a < t.len() && 0 <= c < t.len() && a != c implies (#[trigger] t[a]).referent.id != (#[trigger] t[c]).referent.id by {
                    if a == i {
                        assert(t[c] == flat@[c]);
                        assert(seen_before.contains(flat@[c].referent.id));
                    } else if c == i {
                        assert(t[a] == flat@[a]);
                        assert(seen_before.contains(flat@[a].referent.id));
                    } else {
                        assert(flat@.take(i as int)[a] == t[a]);
                        assert(flat@.take(i as int)[c] == t[c]);
                    }
                }
                assert forall|a: int| 0 <= a < t.len() implies (#[trigger] t[a]).referent.id != 0 && !self.nodes().dom().contains(t[a].referent.id) by {
                    if a < i {
                        assert(flat@.take(i as int)[a] == t[a]);
                    }
                }
                assert(seen@ =~= Set::new(|x: u128| exists|j: int| 0 <= j < i + 1 && (#[trigger] flat@[j]).referent.id == x));
            }
            i = i + 1;
        }
        proof {
            assert(flat@.take(i as int) =~= flat@);
        }
        true
    }
}



/// Records `0..j` are stored in `n`, each under its parent.
#[verifier::opaque]
spec fn records_stored(n: Map<u128, Instance>, fl: Seq<FlatNode>, j: int, at: Ref) -> bool {
    forall|i: int| 0 <= i < j ==> {
        let r = n[(#[trigger] fl[i]).referent.id];
        &&& n.contains_key(fl[i].referent.id)
        &&& r.referent == fl[i].referent
        &&& r.name@ == fl[i].name@
        &&& r.class@ == fl[i].class@
        &&& r.properties@ == fl[i].properties@
        &&& r.parent == (if i == 0 { at } else { fl[fl[i].parent->0 as int].referent })
        &&& r.children@ == children_of(fl.take(j), i as usize)
    }
}

/// The instance `at` is as it was, but for `extra` appended to its children.
spec fn anchor_kept(n: Map<u128, Instance>, n0: Map<u128, Instance>, at: Ref, extra: Seq<Ref>) -> bool {
    at.id != 0 ==> {
        let a = n[at.id];
        let a0 = n0[at.id];
        &&& a.referent == a0.referent
        &&& a.parent == a0.parent
        &&& a.name == a0.name
        &&& a.class == a0.class
        &&& a.properties == a0.properties
        &&& a.children@ == a0.children@ + extra
    }
}

/// The ids of records `0..j`.
spec fn record_ids(fl: Seq<FlatNode>, j: int) -> Set<u128> {
    Set::new(|x: u128| exists|i: int| 0 <= i < j && (#[trigger] fl[i]).referent.id == x)
}

#[verifier::opaque]
spec fn place_state(
    n: Map<u128, Instance>,
    d: Map<u128, nat>,
    n0: Map<u128, Instance>,
    fl: Seq<FlatNode>,
    j: int,
    at: Ref,
) -> bool {
    &&& 0 <= j <= fl.len()
    &&& fl.len() > 0
    &&& fl.len() <= usize::MAX
    &&& flat_ordered(fl)
    &&& fl[0].parent is None
    &&& forall|i: int| 0 < i < fl.len() ==> (#[trigger] fl[i]).parent is Some
    &&& flat_fresh(fl, n0.dom())
    &&& (at.id == 0 || n0.contains_key(at.id))
    &&& links_consistent(n, d)
    &&& n.dom() == n0.dom() + record_ids(fl, j)
    &&& forall|x: u128| #[trigger] n0.contains_key(x) && x != at.id ==> n[x] == n0[x]
    &&& anchor_kept(n, n0, at, if j == 0 { Seq::empty() } else { seq![fl[0].referent] })
    &&& records_stored(n, fl, j, at)
    &&& forall|x: u128| #[trigger] n.contains_key(x) && !n0.contains_key(x) && n[x].parent.id == 0 ==> x == fl[0].referent.id
}

/// Record `j` is not stored yet, and its parent is.
proof fn lemma_place_ready(n: Map<u128, Instance>, d: Map<u128, nat>, n0: Map<u128, Instance>, fl: Seq<FlatNode>, j: int, at: Ref)
    requires
        place_state(n, d, n0, fl, j, at),
        j < fl.len(),
    ensures
        !n.contains_key(fl[j].referent.id),
        fl[j].referent.id != 0,
        fl.len() <= usize::MAX,
        j == 0 ==> fl[j].parent is None,
        j > 0 ==> fl[j].parent is Some && fl[j].parent->0 < j,
        j == 0 ==> (at.id == 0 || n.contains_key(at.id)),
        j > 0 ==> n.contains_key(fl[fl[j].parent->0 as int].referent.id) && fl[fl[j].parent->0 as int].referent.id != 0,
{
    reveal(place_state);
    let k = fl[j].referent.id;
    if n.contains_key(k) && !n0.contains_key(k) {
        let i = choose|i: int| 0 <= i < j && (#[trigger] fl[i]).referent.id == k;
        assert(fl[i].referent.id != fl[j].referent.id);
    }
    if j > 0 {
        let pi = fl[j].parent->0 as int;
        assert(record_ids(fl, j).contains(fl[pi].referent.id));
    }
}

#[verifier::rlimit(100)]
#[verifier::spinoff_prover]
proof fn lemma_place_step(
    n: Map<u128, Instance>,
    d: Map<u128, nat>,
    n2: Map<u128, Instance>,
    d2: Map<u128, nat>,
    n0: Map<u128, Instance>,
    fl: Seq<FlatNode>,
    j: int,
    at: Ref,
    p: Ref,
)
    requires
        place_state(n, d, n0, fl, j, at),
        j < fl.len(),
        p == (if j == 0 { at } else { fl[fl[j].parent->0 as int].referent }),
        n2.dom() == n.dom().insert(fl[j].referent.id),
        n2[fl[j].referent.id].referent == fl[j].referent,
        n2[fl[j].referent.id].name@ == fl[j].name@,
        n2[fl[j].referent.id].class@ == fl[j].class@,
        n2[fl[j].referent.id].properties@ == fl[j].properties@,
        n2[fl[j].referent.id].parent == p,
        n2[fl[j].referent.id].children@.len() == 0,
        d2 == d.insert(fl[j].referent.id, if p.id == 0 { 0 } else { d[p.id] + 1 }),
        forall|x: u128| #[trigger] n.contains_key(x) && x != p.id ==> n2[x] == n[x],
        p.id != 0 ==> n2[p.id].referent == n[p.id].referent && n2[p.id].parent == n[p.id].parent
            && n2[p.id].name == n[p.id].name && n2[p.id].class == n[p.id].class
            && n2[p.id].properties == n[p.id].properties
            && n2[p.id].children@ == n[p.id].children@.push(fl[j].referent),
    ensures
        place_state(n2, d2, n0, fl, j + 1, at),
{
    reveal(place_state);
    let k = fl[j].referent.id;
    lemma_place_ready(n, d, n0, fl, j, at);
    lemma_add_leaf(n, d, n2, d2, k, p.id);
    let t = fl.take(j + 1);
    assert(t.drop_last() =~= fl.take(j));
    assert(t.last() == fl[j]);
    assert(n2.dom() =~= n0.dom() + record_ids(fl, j + 1)) by {
        assert(fl[j].referent.id == k);
    }
    reveal(records_stored);
    assert forall|i: int| 0 <= i < j + 1 implies {
        let r = n2[(#[trigger] fl[i]).referent.id];
        &&& n2.contains_key(fl[i].referent.id)
        &&& r.referent == fl[i].referent
        &&& r.name@ == fl[i].name@
        &&& r.class@ == fl[i].class@
        &&& r.properties@ == fl[i].properties@
        &&& r.parent == (if i == 0 { at } else { fl[fl[i].parent->0 as int].referent })
        &&& r.children@ == children_of(t, i as usize)
    } by {
        if i < j {
            assert(fl[i].referent.id != k);
            assert(record_ids(fl, j).contains(fl[i].referent.id));
            assert(!n0.contains_key(fl[i].referent.id));
            assert(fl[i].referent.id != at.id);
            if j > 0 && i == fl[j].parent->0 as int {
                assert(children_of(t, i as usize) == children_of(fl.take(j), i as usize).push(fl[j].referent));
            } else {
                if fl[i].referent.id == p.id {
                    assert(j > 0);
                    let pi = fl[j].parent->0 as int;
                    assert(fl[pi].referent.id == fl[i].referent.id);
                }
                assert(children_of(t, i as usize) == children_of(fl.take(j), i as usize));
            }
        } else {
            assert(flat_ordered(fl.take(j))) by {
                assert forall|a: int| 0 <= a < fl.take(j).len() && (#[trigger] fl.take(j)[a]).parent is Some implies fl.take(j)[a].parent->0 < a by {
                    assert(fl.take(j)[a] == fl[a]);
                }
            }
            lemma_children_of_none(fl.take(j), j as usize);
        }
    }
    assert forall|x: u128| #[trigger] n2.contains_key(x) && !n0.contains_key(x) && n2[x].parent.id == 0 implies x == fl[0].referent.id by {
        if x == k && j > 0 {
            let pi = fl[j].parent->0 as int;
            assert(fl[pi].referent.id != 0);
        }
        if x != k && x != p.id {
            assert(n.contains_key(x));
        }
        if x == p.id && x != k {
            assert(n.contains_key(x));
        }
    }
    if j > 0 && at.id != 0 {
        assert(p.id != at.id) by {
            let pi = fl[j].parent->0 as int;
            assert(record_ids(fl, j).contains(p.id));
        }
    }
    assert(anchor_kept(n2, n0, at, seq![fl[0].referent])) by {
        if at.id != 0 && j == 0 {
            assert(n0[at.id].children@ + Seq::<Ref>::empty() =~= n0[at.id].children@);
            assert(n0[at.id].children@ + seq![fl[0].referent] =~= n0[at.id].children@.push(fl[0].referent));
        }
    }
    assert forall|x: u128| #[trigger] n0.contains_key(x) && x != at.id implies n2[x] == n0[x] by {
        assert(n.contains_key(x));
        if x == p.id && j > 0 {
            let pi = fl[j].parent->0 as int;
            assert(record_ids(fl, j).contains(p.id));
        }
    }
    assert(links_consistent(n2, d2));
    assert(records_stored(n2, fl, j + 1, at));
}

impl WeakDom {
    /// Appends `c` to the children of the live instance `p`.
    fn push_child(&mut self, p: u128, c: Ref)
        requires
            old(self).instances@.contains_key(p),
        ensures
            final(self).instances@.dom() == old(self).instances@.dom(),
            forall|x: u128| #[trigger] old(self).instances@.contains_key(x) && x != p ==> final(self).instances@[x] == old(self).instances@[x],
            final(self).instances@[p].referent == old(self).instances@[p].referent,
            final(self).instances@[p].parent == old(self).instances@[p].parent,
            final(self).instances@[p].name == old(self).instances@[p].name,
            final(self).instances@[p].class == old(self).instances@[p].class,
            final(self).instances@[p].properties == old(self).instances@[p].properties,
            final(self).instances@[p].children@ == old(self).instances@[p].children@.push(c),
            final(self).root == old(self).root,
            final(self).depth == old(self).depth,
    {
        let mut inst = self.instances.remove(&p).unwrap();
        inst.children.push(c);
        self.instances.insert(p, inst);
        proof {
            assert(self.instances@.dom() =~= old(self).instances@.dom());
        }
    }

    /// Adds the records to the graph, the first under `at` (or without a
    /// parent where `at` is null), each other one under its parent's record.
    fn place(&mut self, flat: Vec<FlatNode>, at: Ref)
        requires
            place_state(old(self).instances@, old(self).depth@, old(self).instances@, flat@, 0, at),
        ensures
            place_state(final(self).instances@, final(self).depth@, old(self).instances@, flat@, flat@.len() as int, at),
            final(self).root == old(self).root,
    {
        let ghost fl = flat@;
        let ghost n0 = self.instances@;
        let mut refs: Vec<Ref> = Vec::new();
        let mut rest = flat;
        let mut j: usize = 0;
        proof {
            assert(rest@ =~= fl.skip(0));
        }
        while rest.len() > 0
            invariant
                j <= fl.len(),
                rest@ == fl.skip(j as int),
                refs@.len() == j,
                forall|i: int| 0 <= i < j ==> refs@[i] == (#[trigger] fl[i]).referent,
                place_state(self.instances@, self.depth@, n0, fl, j as int, at),
                self.root == old(self).root,
                n0 == old(self).instances@,
            decreases rest@.len(),
        {
            let rec = rest.remove(0);
            proof {
                assert(rec == fl[j as int]);
                lemma_place_ready(self.instances@, self.depth@, n0, fl, j as int, at);
            }
            let FlatNode { referent, parent, name, class, properties } = rec;
            let p_ref = match parent {
                Some(p) => refs[p],
                None => at,
            };
            let ghost n1 = self.instances@;
            let ghost d1 = self.depth@;
            proof {
                assert(referent == fl[j as int].referent);
                assert(p_ref.id == 0 || n1.contains_key(p_ref.id));
                assert(p_ref.id != referent.id);
            }
            let inst = Instance { referent, children: Vec::new(), parent: p_ref, name, class, properties };
            self.instances.insert(referent.id, inst);
            proof {
                assert(self.instances@[referent.id].referent == referent);
            }
            self.depth = Ghost(self.depth@.insert(referent.id, if p_ref.id == 0 { 0 } else { self.depth@[p_ref.id] + 1 }));
            let ghost mid = self.instances@;
            if p_ref.id != 0 {
                self.push_child(p_ref.id, referent);
                proof {
                    assert(mid.contains_key(referent.id));
                    assert(self.instances@[referent.id] == mid[referent.id]);
                }
            }
            refs.push(referent);
            proof {
                assert forall|x: u128| #[trigger] n1.contains_key(x) && x != p_ref.id implies self.instances@[x] == n1[x] by {
                    assert(mid.contains_key(x));
                    assert(x != referent.id);
                }
                lemma_place_step(n1, d1, self.instances@, self.depth@, n0, fl, j as int, at, p_ref);
            }
            j = j + 1;
            proof {
                assert(rest@ =~= fl.skip(j as int));
            }
        }
    }
}


proof fn lemma_place_start(n0: Map<u128, Instance>, d0: Map<u128, nat>, fl: Seq<FlatNode>, at: Ref)
    requires
        links_consistent(n0, d0),
        fl.len() > 0,
        fl.len() <= usize::MAX,
        flat_ordered(fl),
        fl[0].parent is None,
        forall|j: int| 0 < j < fl.len() ==> (#[trigger] fl[j]).parent is Some,
        flat_fresh(fl, n0.dom()),
        at.id == 0 || n0.contains_key(at.id),
    ensures
        place_state(n0, d0, n0, fl, 0, at),
{
    reveal(place_state);
    reveal(records_stored);
    assert(n0.dom() =~= n0.dom() + record_ids(fl, 0));
    assert(at.id != 0 ==> n0[at.id].children@ + Seq::<Ref>::empty() =~= n0[at.id].children@);
}

proof fn lemma_place_done(n: Map<u128, Instance>, d: Map<u128, nat>, n0: Map<u128, Instance>, fl: Seq<FlatNode>, at: Ref)
    requires
        place_state(n, d, n0, fl, fl.len() as int, at),
    ensures
        links_consistent(n, d),
        n.dom() == n0.dom() + record_ids(fl, fl.len() as int),
        forall|x: u128| #[trigger] n0.contains_key(x) && x != at.id ==> n[x] == n0[x],
        anchor_kept(n, n0, at, seq![fl[0].referent]),
        n.contains_key(fl[0].referent.id),
        n[fl[0].referent.id].referent == fl[0].referent,
        n[fl[0].referent.id].name@ == fl[0].name@,
        n[fl[0].referent.id].class@ == fl[0].class@,
        n[fl[0].referent.id].properties@ == fl[0].properties@,
        n[fl[0].referent.id].parent == at,
        n[fl[0].referent.id].children@ == children_of(fl, 0),
        forall|x: u128| #[trigger] n.contains_key(x) && !n0.contains_key(x) && n[x].parent.id == 0 ==> x == fl[0].referent.id,
        !n0.contains_key(fl[0].referent.id),
{
    reveal(place_state);
    reveal(records_stored);
    assert(fl.take(fl.len() as int) =~= fl);
}

proof fn lemma_fresh_iff(fl: Seq<FlatNode>, b: InstanceBuilder, taken: Set<u128>)
    requires
        refs_of(fl) == tree_refs(b),
    ensures
        flat_fresh(fl, taken) == referents_fresh(b, taken),
{
    let s = b.spec_tree_referents();
    assert(s == refs_of(fl));
    assert forall|i: int| 0 <= i < fl.len() implies s[i] == (#[trigger] fl[i]).referent by {}
    if flat_fresh(fl, taken) {
        assert forall|i: int, j: int| 0 <= i < s.len() && 0 <= j < s.len() && i != j implies s[i] != s[j] by {
            assert(fl[i].referent.id != fl[j].referent.id);
        }
    }
    if referents_fresh(b, taken) {
        assert forall|i: int, j: int| 0 <= i < fl.len() && 0 <= j < fl.len() && i != j implies (#[trigger] fl[i]).referent.id != (#[trigger] fl[j]).referent.id by {
            assert(s[i] != s[j]);
        }
        assert forall|i: int| 0 <= i < fl.len() implies (#[trigger] fl[i]).referent.id != 0 && !taken.contains(fl[i].referent.id) by {
            assert(s[i].id != 0);
        }
    }
}

/// Every builder of the tree is stored with its name, class and properties.
proof fn lemma_every_builder_stored(n: Map<u128, Instance>, d: Map<u128, nat>, n0: Map<u128, Instance>, fl: Seq<FlatNode>, at: Ref, b: InstanceBuilder)
    requires
        place_state(n, d, n0, fl, fl.len() as int, at),
        recs_match(fl, tree_nodes(b)),
    ensures
        forall|i: int| 0 <= i < tree_nodes(b).len() ==> {
            let bi = #[trigger] tree_nodes(b)[i];
            &&& n.contains_key(bi.referent.id)
            &&& n[bi.referent.id].referent == bi.referent
            &&& n[bi.referent.id].name@ == bi.name@
            &&& n[bi.referent.id].class@ == bi.class@
            &&& n[bi.referent.id].properties@ == bi.properties@
        },
{
    reveal(place_state);
    reveal(records_stored);
    assert forall|i: int| 0 <= i < tree_nodes(b).len() implies {
        let bi = #[trigger] tree_nodes(b)[i];
        &&& n.contains_key(bi.referent.id)
        &&& n[bi.referent.id].referent == bi.referent
        &&& n[bi.referent.id].name@ == bi.name@
        &&& n[bi.referent.id].class@ == bi.class@
        &&& n[bi.referent.id].properties@ == bi.properties@
    } by {
        assert(fl[i].referent == tree_nodes(b)[i].referent);
    }
}

proof fn lemma_live_are_tree(n: Map<u128, Instance>, n0: Map<u128, Instance>, fl: Seq<FlatNode>, b: InstanceBuilder)
    requires
        refs_of(fl) == tree_refs(b),
        n.dom() == n0.dom() + record_ids(fl, fl.len() as int),
    ensures
        forall|x: Ref| #[trigger] n.contains_key(x.id) <==> n0.contains_key(x.id) || b.spec_tree_referents().contains(x),
{
    let s = b.spec_tree_referents();
    assert(s == refs_of(fl));
    assert forall|x: Ref| #[trigger] n.contains_key(x.id) <==> n0.contains_key(x.id) || s.contains(x) by {
        if s.contains(x) {
            let i = choose|i: int| 0 <= i < s.len() && s[i] == x;
            assert(fl[i].referent == x);
            assert(record_ids(fl, fl.len() as int).contains(x.id));
        }
        if record_ids(fl, fl.len() as int).contains(x.id) {
            let i = choose|i: int| 0 <= i < fl.len() && (#[trigger] fl[i]).referent.id == x.id;
            assert(s[i] == fl[i].referent);
            assert(s[i] == x);
        }
    }
}

impl WeakDom {
    /// A graph made of the builder's tree: each builder becomes an instance
    /// with the builder's referent, and the builder at the top becomes the
    /// root. Fails when a referent occurs twice in the tree, or is null.
    pub fn new(builder: InstanceBuilder) -> (r: Result<WeakDom, DomError>)
        ensures
            match r {
                Ok(d) => {
                    &&& d.wf()
                    &&& d.spec_root() == builder.spec_referent()
                    &&& d.contains(d.spec_root())
                    &&& d.node(d.spec_root()).spec_name() == builder.spec_name()
                    &&& d.node(d.spec_root()).spec_class() == builder.spec_class()
                    &&& d.node(d.spec_root()).spec_properties() == builder.spec_properties()
                    &&& d.node(d.spec_root()).spec_parent().spec_is_none()
                    &&& d.node(d.spec_root()).spec_children() == builder.spec_children().map_values(
                        |c: InstanceBuilder| c.spec_referent(),
                    )
                },
                Err(e) => e == DomError::StructuralError,
            },
            r is Ok <==> referents_fresh(builder, Set::empty()),
            r matches Ok(d) ==> forall|x: Ref| #[trigger] d.contains(x) <==> builder.spec_tree_referents().contains(x),
            r matches Ok(d) ==> forall|i: int| 0 <= i < builder.spec_tree_builders().len()
                ==> d.stores(#[trigger] builder.spec_tree_builders()[i]),
    {
        let mut flat: Vec<FlatNode> = Vec::new();
        flatten(builder, None, &mut flat);
        proof {
            assert(flat@.skip(0) =~= flat@);
        }
        let root = flat[0].referent;
        let mut dom = WeakDom {
            root,
            instances: std::collections::HashMap::new(),
            depth: Ghost(Map::empty()),
        };
        proof {
            assert(dom.nodes().dom() =~= Set::<u128>::empty());
            lemma_fresh_iff(flat@, builder, Set::empty());
        }
        if !dom.check_fresh(&flat) {
            return Err(DomError::StructuralError);
        }
        let count = flat.len();
        let ghost fl = flat@;
        let ghost n0 = dom.instances@;
        proof {
            assert(links_consistent(n0, dom.depth@)) by {
                assert(dom.depth@.dom() =~= n0.dom());
            }
            assert(fl.len() <= usize::MAX);
            assert(fl.take(0) =~= Seq::<FlatNode>::empty());
            lemma_place_start(n0, dom.depth@, fl, Ref { id: 0 });
        }
        dom.place(flat, Ref::none());
        proof {
            lemma_place_done(dom.instances@, dom.depth@, n0, fl, Ref { id: 0 });
            assert forall|k: u128| #[trigger] dom.instances@.contains_key(k) && dom.instances@[k].parent.id == 0 implies k == dom.root.id by {
            }
            lemma_live_are_tree(dom.instances@, n0, fl, builder);
            lemma_every_builder_stored(dom.instances@, dom.depth@, n0, fl, Ref { id: 0 }, builder);
        }
        Ok(dom)
    }

    /// Adds the builder's tree under the instance `parent`, after its
    /// existing children, and returns the referent of the tree's top.
    #[verifier::rlimit(100)]
    #[verifier::spinoff_prover]
    pub fn insert(&mut self, parent: Ref, builder: InstanceBuilder) -> (r: Result<Ref, DomError>)
        requires
            old(self).wf(),
        ensures
            final(self).wf(),
            final(self).spec_root() == old(self).spec_root(),
            match r {
                Ok(id) => {
                    &&& old(self).contains(parent)
                    &&& id == builder.spec_referent()
                    &&& !old(self).contains(id)
                    &&& final(self).contains(id)
                    &&& final(self).node(id).spec_name() == builder.spec_name()
                    &&& final(self).node(id).spec_class() == builder.spec_class()
                    &&& final(self).node(id).spec_properties() == builder.spec_properties()
                    &&& final(self).node(id).spec_parent() == parent
                    &&& final(self).node(id).spec_children() == builder.spec_children().map_values(
                        |c: InstanceBuilder| c.spec_referent(),
                    )
                    &&& forall|x: Ref| #[trigger] final(self).contains(x) <==> old(self).contains(x) || builder.spec_tree_referents().contains(x)
                    &&& forall|i: int| 0 <= i < builder.spec_tree_builders().len()
                        ==> final(self).stores(#[trigger] builder.spec_tree_builders()[i])
                    &&& final(self).contains(parent)
                    &&& final(self).node(parent).spec_children() == old(self).node(parent).spec_children().push(id)
                    &&& final(self).node(parent).spec_parent() == old(self).node(parent).spec_parent()
                    &&& final(self).node(parent).spec_name() == old(self).node(parent).spec_name()
                    &&& final(self).node(parent).spec_class() == old(self).node(parent).spec_class()
                    &&& final(self).node(parent).spec_properties() == old(self).node(parent).spec_properties()
                    &&& forall|x: u128| #[trigger] old(self).nodes().contains_key(x) && x != parent.id
                        ==> final(self).nodes().contains_key(x) && final(self).nodes()[x] == old(self).nodes()[x]
                },
                Err(DomError::LookupError) => !old(self).contains(parent) && final(self).nodes() == old(self).nodes(),
                Err(DomError::StructuralError) => old(self).contains(parent)
                    && !referents_fresh(builder, old(self).nodes().dom())
                    && final(self).nodes() == old(self).nodes(),
            },
    {
        if !self.instances.contains_key(&parent.id) {
            return Err(DomError::LookupError);
        }
        let mut flat: Vec<FlatNode> = Vec::new();
        flatten(builder, None, &mut flat);
        proof {
            assert(flat@.skip(0) =~= flat@);
            lemma_fresh_iff(flat@, builder, self.nodes().dom());
        }
        if !self.check_fresh(&flat) {
            return Err(DomError::StructuralError);
        }
        let top = flat[0].referent;
        let count = flat.len();
        let ghost fl = flat@;
        let ghost n0 = self.instances@;
        proof {
            assert(fl.len() <= usize::MAX);
            assert(fl.take(0) =~= Seq::<FlatNode>::empty());
            lemma_place_start(n0, self.depth@, fl, parent);
        }
        self.place(flat, parent);
        proof {
            lemma_place_done(self.instances@, self.depth@, n0, fl, parent);
            lemma_live_are_tree(self.instances@, n0, fl, builder);
            lemma_every_builder_stored(self.instances@, self.depth@, n0, fl, parent, builder);
            assert(self.instances@.contains_key(self.root.id));
            assert forall|k: u128| #[trigger] self.instances@.contains_key(k) && self.instances@[k].parent.id == 0 implies k == self.root.id by {
                if !n0.contains_key(k) {
                    assert(k == fl[0].referent.id);
                } else if k != parent.id {
                    assert(n0[k].parent.id == 0);
                }
            }
            assert forall|x: u128| #[trigger] n0.contains_key(x) && x != parent.id implies self.instances@.contains_key(x) && self.instances@[x] == n0[x] by {
                assert((n0.dom() + record_ids(fl, fl.len() as int)).contains(x));
            }
            assert(self.instances@[parent.id].children@ == n0[parent.id].children@.push(fl[0].referent)) by {
                assert(n0[parent.id].children@ + seq![fl[0].referent] =~= n0[parent.id].children@.push(fl[0].referent));
            }
        }
        Ok(top)
    }
}


/// Going up `f` parent links from `x` leads to `a`.
spec fn nth_ancestor_is(n: Map<u128, Instance>, a: u128, x: u128, f: nat) -> bool
    decreases f,
{
    if f == 0 {
        x == a
    } else {
        nth_ancestor_is(n, a, n[x].parent.id, (f - 1) as nat)
    }
}

/// `x` is `a` or lies below it.
spec fn below(n: Map<u128, Instance>, d: Map<u128, nat>, x: u128, a: u128) -> bool {
    &&& n.contains_key(x)
    &&& n.contains_key(a)
    &&& d[x] >= d[a]
    &&& nth_ancestor_is(n, a, x, (d[x] - d[a]) as nat)
}

/// Below a node other than `a`, being below `a` is being below its parent.
proof fn lemma_below_step(n: Map<u128, Instance>, d: Map<u128, nat>, x: u128, a: u128)
    requires
        links_consistent(n, d),
        n.contains_key(x),
        n.contains_key(a),
        x != a,
        n[x].parent.id != 0,
    ensures
        below(n, d, x, a) == below(n, d, n[x].parent.id, a),
{
    let p = n[x].parent.id;
    assert(n.contains_key(p));
    if below(n, d, x, a) {
        assert(d[x] - d[a] != 0);
        assert(nth_ancestor_is(n, a, x, (d[x] - d[a]) as nat) == nth_ancestor_is(n, a, p, (d[x] - d[a] - 1) as nat));
    }
    if below(n, d, p, a) {
        assert(nth_ancestor_is(n, a, x, (d[x] - d[a]) as nat) == nth_ancestor_is(n, a, p, (d[p] - d[a]) as nat));
    }
}

proof fn lemma_below_parentless(n: Map<u128, Instance>, d: Map<u128, nat>, x: u128, a: u128)
    requires
        links_consistent(n, d),
        n.contains_key(x),
        n[x].parent.id == 0,
        below(n, d, x, a),
    ensures
        x == a,
{
    assert(d[x] == 0);
}

impl WeakDom {
    /// `x` is the instance `a` or lies below it.
    pub closed spec fn is_descendant(&self, x: Ref, a: Ref) -> bool {
        below(self.instances@, self.depth@, x.id, a.id)
    }

    /// Whether `x` is the instance `a` or lies below it, found by walking up
    /// from `x` to the root.
    fn descends_from(&self, x: Ref, a: Ref) -> (r: bool)
        requires
            self.wf(),
            self.contains(x),
            self.contains(a),
        ensures
            r == self.is_descendant(x, a),
    {
        let mut cur = x.id;
        while cur != a.id
            invariant
                self.wf(),
                self.instances@.contains_key(cur),
                self.instances@.contains_key(a.id),
                below(self.instances@, self.depth@, x.id, a.id) == below(self.instances@, self.depth@, cur, a.id),
            decreases self.depth@[cur],
        {
            let p = self.instances.get(&cur).unwrap().parent.id;
            if p == 0 {
                proof {
                    if below(self.instances@, self.depth@, cur, a.id) {
                        lemma_below_parentless(self.instances@, self.depth@, cur, a.id);
                    }
                }
                return false;
            }
            proof {
                lemma_below_step(self.instances@, self.depth@, cur, a.id);
            }
            cur = p;
        }
        proof {
            assert(nth_ancestor_is(self.instances@, a.id, cur, 0));
        }
        true
    }
}


/// The depths after the subtree of `node` is hung under `np`.
spec fn moved_depth(n: Map<u128, Instance>, d: Map<u128, nat>, node: u128, np: u128) -> Map<u128, nat> {
    Map::new(
        |k: u128| n.contains_key(k),
        |k: u128| if below(n, d, k, node) { (d[k] - d[node] + d[np] + 1) as nat } else { d[k] },
    )
}

#[verifier::rlimit(100)]
#[verifier::spinoff_prover]
proof fn lemma_move(n: Map<u128, Instance>, d: Map<u128, nat>, n2: Map<u128, Instance>, node: u128, op: u128, np: u128, i: int)
    requires
        links_consistent(n, d),
        n.contains_key(node),
        n.contains_key(np),
        n[node].parent.id == op,
        op != 0,
        !below(n, d, np, node),
        0 <= i < n[op].children@.len(),
        n[op].children@[i] == (Ref { id: node }),
        n2.dom() == n.dom(),
        forall|x: u128| #[trigger] n.contains_key(x) && x != node && x != op && x != np ==> n2[x] == n[x],
        n2[node].referent == n[node].referent,
        n2[node].children == n[node].children,
        n2[node].parent == (Ref { id: np }),
        n2[op].referent == n[op].referent,
        n2[op].parent == n[op].parent,
        op != np ==> n2[op].children@ == n[op].children@.remove(i),
        n2[np].referent == n[np].referent,
        n2[np].parent == n[np].parent,
        n2[np].children@ == (if op == np { n[op].children@.remove(i) } else { n[np].children@ }).push(Ref { id: node }),
    ensures
        links_consistent(n2, moved_depth(n, d, node, np)),
        forall|x: u128| #[trigger] n2.contains_key(x) && n2[x].parent.id == 0 ==> n[x].parent.id == 0,
{
    let d2 = moved_depth(n, d, node, np);
    assert(n.contains_key(op));
    assert(np != node);
    assert(d2.dom() =~= n2.dom());
    let base = if op == np { n[op].children@.remove(i) } else { n[np].children@ };
    assert(!base.contains(Ref { id: node })) by {
        if base.contains(Ref { id: node }) {
            let j = choose|j: int| 0 <= j < base.len() && base[j] == Ref { id: node };
            if op == np {
                if j < i {
                    assert(n[op].children@[j] == Ref { id: node });
                } else {
                    assert(n[op].children@[j + 1] == Ref { id: node });
                }
            } else {
                assert(n.contains_key(n[np].children@[j].id));
            }
        }
    }
    assert forall|x: u128| #[trigger] n2.contains_key(x) implies x != 0 && n2[x].referent.id == x && n2[x].children@.no_duplicates() by {
        assert(n.contains_key(x));
        if x == op && op != np {
            assert forall|a: int, c: int| 0 <= a < c < n2[op].children@.len() implies n2[op].children@[a] != n2[op].children@[c] by {
                let s = n[op].children@;
                let a2 = if a < i { a } else { a + 1 };
                let c2 = if c < i { c } else { c + 1 };
                assert(n2[op].children@[a] == s[a2]);
                assert(n2[op].children@[c] == s[c2]);
            }
        }
        if x == np {
            assert forall|a: int, c: int| 0 <= a < c < n2[np].children@.len() implies n2[np].children@[a] != n2[np].children@[c] by {
                if c == base.len() {
                    assert(base[a] != Ref { id: node }) by {
                        assert(base.contains(base[a]));
                    }
                } else if op == np {
                    let s = n[op].children@;
                    let a2 = if a < i { a } else { a + 1 };
                    let c2 = if c < i { c } else { c + 1 };
                    assert(base[a] == s[a2]);
                    assert(base[c] == s[c2]);
                }
            }
        }
    }
    assert forall|x: u128| #[trigger] n2.contains_key(x) && n2[x].parent.id == 0 implies d2[x] == 0 && n[x].parent.id == 0 by {
        assert(n.contains_key(x));
        if below(n, d, x, node) {
            lemma_below_parentless(n, d, x, node);
        }
    }
    assert forall|x: u128| #[trigger] n2.contains_key(x) && n2[x].parent.id != 0 implies {
        &&& n2.contains_key(n2[x].parent.id)
        &&& n2[n2[x].parent.id].children@.contains(Ref { id: x })
        &&& d2[x] == d2[n2[x].parent.id] + 1
    } by {
        assert(n.contains_key(x));
        if x == node {
            assert(n2[np].children@.last() == Ref { id: node });
            assert(n2[np].children@[n2[np].children@.len() - 1] == Ref { id: node });
        } else {
            let q = n[x].parent.id;
            assert(n.contains_key(q));
            assert(n[q].children@.contains(Ref { id: x }));
            let j = choose|j: int| 0 <= j < n[q].children@.len() && n[q].children@[j] == Ref { id: x };
            if q == op {
                assert(j != i);
                let j2 = if j < i { j } else { j - 1 };
                assert(n[op].children@.remove(i)[j2] == Ref { id: x });
                if op == np {
                    assert(n2[np].children@[j2] == Ref { id: x });
                } else {
                    assert(n2[op].children@[j2] == Ref { id: x });
                }
            } else if q == np {
                assert(n2[np].children@[j] == Ref { id: x });
            }
            lemma_below_step(n, d, x, node);
        }
    }
    assert forall|x: u128, k: int| #[trigger] n2.contains_key(x) && 0 <= k < n2[x].children@.len() implies {
        &&& n2.contains_key((#[trigger] n2[x].children@[k]).id)
        &&& n2[n2[x].children@[k].id].parent.id == x
    } by {
        assert(n.contains_key(x));
        let c = n2[x].children@[k];
        if x == np && k == base.len() {
        } else {
            let c_old_idx = if x == op || (x == np && op == np) {
                if k < i { k } else { k + 1 }
            } else {
                k
            };
            if x == op || (x == np && op == np) {
                assert(n[op].children@[c_old_idx] == c);
                if c.id == node {
                    assert(n[op].children@[i] == n[op].children@[c_old_idx]);
                }
            } else {
                assert(n[x].children@[k] == c);
                if c.id == node {
                    assert(n[node].parent.id == x);
                }
            }
            assert(n.contains_key(c.id));
        }
    }
}

impl WeakDom {
    /// Takes `c`, found at index `i`, out of the children of `p`.
    fn unlink_child(&mut self, p: u128, c: Ref) -> (i: usize)
        requires
            old(self).instances@.contains_key(p),
            old(self).instances@[p].children@.contains(c),
        ensures
            i < old(self).instances@[p].children@.len(),
            old(self).instances@[p].children@[i as int] == c,
            final(self).instances@.dom() == old(self).instances@.dom(),
            forall|x: u128| #[trigger] old(self).instances@.contains_key(x) && x != p ==> final(self).instances@[x] == old(self).instances@[x],
            final(self).instances@[p].referent == old(self).instances@[p].referent,
            final(self).instances@[p].parent == old(self).instances@[p].parent,
            final(self).instances@[p].name == old(self).instances@[p].name,
            final(self).instances@[p].class == old(self).instances@[p].class,
            final(self).instances@[p].properties == old(self).instances@[p].properties,
            final(self).instances@[p].children@ == old(self).instances@[p].children@.remove(i as int),
            final(self).root == old(self).root,
            final(self).depth == old(self).depth,
    {
        let mut inst = self.instances.remove(&p).unwrap();
        let mut i: usize = 0;
        while i < inst.children.len() && inst.children[i].id != c.id
            invariant
                i <= inst.children@.len(),
                inst == old(self).instances@[p],
                inst.children@.contains(c),
                forall|j: int| 0 <= j < i ==> inst.children@[j] != c,
            decreases inst.children@.len() - i,
        {
            i = i + 1;
        }
        proof {
            if i == inst.children@.len() {
                let j = choose|j: int| 0 <= j < inst.children@.len() && inst.children@[j] == c;
            }
        }
        inst.children.remove(i);
        self.instances.insert(p, inst);
        proof {
            assert(self.instances@.dom() =~= old(self).instances@.dom());
        }
        i
    }

    /// Points `node` at a new parent.
    fn set_parent(&mut self, node: u128, parent: Ref)
        requires
            old(self).instances@.contains_key(node),
        ensures
            final(self).instances@.dom() == old(self).instances@.dom(),
            forall|x: u128| #[trigger] old(self).instances@.contains_key(x) && x != node ==> final(self).instances@[x] == old(self).instances@[x],
            final(self).instances@[node].referent == old(self).instances@[node].referent,
            final(self).instances@[node].children == old(self).instances@[node].children,
            final(self).instances@[node].name == old(self).instances@[node].name,
            final(self).instances@[node].class == old(self).instances@[node].class,
            final(self).instances@[node].properties == old(self).instances@[node].properties,
            final(self).instances@[node].parent == parent,
            final(self).root == old(self).root,
            final(self).depth == old(self).depth,
    {
        let mut inst = self.instances.remove(&node).unwrap();
        inst.parent = parent;
        self.instances.insert(node, inst);
        proof {
            assert(self.instances@.dom() =~= old(self).instances@.dom());
        }
    }
}


impl WeakDom {
    /// Moves the instance `node`, with everything below it, to the end of
    /// the children of `new_parent`. Refused when either is not live, when
    /// `new_parent` is `node` or lies below it, and for the root.
    #[verifier::rlimit(100)]
    #[verifier::spinoff_prover]
    pub fn transfer_within(&mut self, node: Ref, new_parent: Ref) -> (r: Result<(), DomError>)
        requires
            old(self).wf(),
        ensures
            final(self).wf(),
            final(self).spec_root() == old(self).spec_root(),
            match r {
                Ok(()) => {
                    let op = old(self).node(node).spec_parent();
                    &&& old(self).contains(node)
                    &&& old(self).contains(new_parent)
                    &&& !old(self).is_descendant(new_parent, node)
                    &&& final(self).nodes().dom() == old(self).nodes().dom()
                    &&& final(self).node(node).spec_parent() == new_parent
                    &&& final(self).node(node).spec_children() == old(self).node(node).spec_children()
                    &&& final(self).node(node).spec_name() == old(self).node(node).spec_name()
                    &&& final(self).node(node).spec_class() == old(self).node(node).spec_class()
                    &&& final(self).node(node).spec_properties() == old(self).node(node).spec_properties()
                    &&& final(self).node(op).spec_name() == old(self).node(op).spec_name()
                    &&& final(self).node(op).spec_class() == old(self).node(op).spec_class()
                    &&& final(self).node(op).spec_properties() == old(self).node(op).spec_properties()
                    &&& final(self).node(op).spec_parent() == old(self).node(op).spec_parent()
                    &&& final(self).node(new_parent).spec_name() == old(self).node(new_parent).spec_name()
                    &&& final(self).node(new_parent).spec_class() == old(self).node(new_parent).spec_class()
                    &&& final(self).node(new_parent).spec_properties() == old(self).node(new_parent).spec_properties()
                    &&& final(self).node(new_parent).spec_parent() == old(self).node(new_parent).spec_parent()
                    &&& exists|i: int| {
                        &&& 0 <= i < old(self).node(op).spec_children().len()
                        &&& old(self).node(op).spec_children()[i] == node
                        &&& (op != new_parent ==> final(self).node(op).spec_children() == old(self).node(op).spec_children().remove(i))
                        &&& final(self).node(new_parent).spec_children() == (if op == new_parent {
                            old(self).node(op).spec_children().remove(i)
                        } else {
                            old(self).node(new_parent).spec_children()
                        }).push(node)
                    }
                    &&& forall|x: u128| #[trigger] old(self).nodes().contains_key(x) && x != node.id && x != op.id && x != new_parent.id
                        ==> final(self).nodes()[x] == old(self).nodes()[x]
                },
                Err(DomError::LookupError) => !(old(self).contains(node) && old(self).contains(new_parent))
                    && final(self).nodes() == old(self).nodes(),
                Err(DomError::StructuralError) => old(self).contains(node) && old(self).contains(new_parent)
                    && (old(self).is_descendant(new_parent, node) || node == old(self).spec_root())
                    && final(self).nodes() == old(self).nodes(),
            },
    {
        if !self.instances.contains_key(&node.id) || !self.instances.contains_key(&new_parent.id) {
            return Err(DomError::LookupError);
        }
        if self.descends_from(new_parent, node) {
            return Err(DomError::StructuralError);
        }
        let op = self.instances.get(&node.id).unwrap().parent;
        if op.id == 0 {
            return Err(DomError::StructuralError);
        }
        let ghost n = self.instances@;
        let ghost d = self.depth@;
        proof {
            assert(n[node.id].referent.id == node.id);
            assert(n[node.id].referent == node);
            assert(n.contains_key(op.id));
            assert(n[op.id].children@.contains(Ref { id: node.id }));
        }
        let i = self.unlink_child(op.id, node);
        let ghost na = self.instances@;
        self.set_parent(node.id, new_parent);
        let ghost nb = self.instances@;
        self.push_child(new_parent.id, node);
        self.depth = Ghost(moved_depth(n, d, node.id, new_parent.id));
        proof {
            let nc = self.instances@;
            assert(n[new_parent.id].referent == new_parent);
            assert(op.id != node.id);
            assert(new_parent.id != node.id) by {
                assert(nth_ancestor_is(n, node.id, node.id, 0));
            }
            assert(nc[node.id] == nb[node.id]);
            assert(nb[op.id] == na[op.id]);
            assert(n[op.id].children@ == old(self).node(op).spec_children());
            assert(old(self).node(op).spec_children()[i as int] == node);
            if op != new_parent {
                assert(nc[op.id] == nb[op.id]);
                assert(nb[new_parent.id] == na[new_parent.id]);
                assert(na[new_parent.id] == n[new_parent.id]);
            }
            assert forall|x: u128| #[trigger] n.contains_key(x) && x != node.id && x != op.id && x != new_parent.id implies nc[x] == n[x] by {
                assert(na.contains_key(x));
                assert(nb.contains_key(x));
            }
            assert(na[node.id] == n[node.id]);
            assert(nc[node.id].children == n[node.id].children);
            let ii = i as int;
            assert(0 <= ii < old(self).node(op).spec_children().len());
            assert(op != new_parent ==> nc[op.id].children@ == n[op.id].children@.remove(ii));
            assert(nc[new_parent.id].children@ == (if op == new_parent {
                n[op.id].children@.remove(ii)
            } else {
                n[new_parent.id].children@
            }).push(node));
            assert(nc[node.id].name == n[node.id].name);
            assert(nc[node.id].properties == n[node.id].properties);
            assert(nc[op.id].name == n[op.id].name && nc[op.id].class == n[op.id].class);
            assert(nc[op.id].properties == n[op.id].properties && nc[op.id].parent == n[op.id].parent);
            assert(nc[new_parent.id].name == n[new_parent.id].name && nc[new_parent.id].class == n[new_parent.id].class);
            assert(nc[new_parent.id].properties == n[new_parent.id].properties);
            assert(nc[new_parent.id].parent == n[new_parent.id].parent);
            let opr = old(self).node(node).spec_parent();
            assert(opr == op);
            assert(self.nodes().dom() == old(self).nodes().dom());
            assert(self.node(node).spec_parent() == new_parent);
            assert(self.node(node).spec_children() == old(self).node(node).spec_children());
            assert(!old(self).is_descendant(new_parent, node));
            assert(exists|i: int| {
                &&& 0 <= i < old(self).node(op).spec_children().len()
                &&& old(self).node(op).spec_children()[i] == node
                &&& (op != new_parent ==> self.node(op).spec_children() == old(self).node(op).spec_children().remove(i))
                &&& self.node(new_parent).spec_children() == (if op == new_parent {
                    old(self).node(op).spec_children().remove(i)
                } else {
                    old(self).node(new_parent).spec_children()
                }).push(node)
            }) by {
                assert(0 <= ii < old(self).node(op).spec_children().len());
            }
            lemma_move(n, d, self.instances@, node.id, op.id, new_parent.id, i as int);
            assert(self.root.id != node.id);
            assert forall|k: u128| #[trigger] self.instances@.contains_key(k) && self.instances@[k].parent.id == 0 implies k == self.root.id by {
                assert(n.contains_key(k));
            }
            assert(self.instances@[self.root.id].parent.id == 0) by {
                assert(n.contains_key(self.root.id));
            }
        }
        Ok(())
    }
}


proof fn lemma_nth_ancestor_unique(n: Map<u128, Instance>, a: u128, b: u128, x: u128, f: nat)
    requires
        nth_ancestor_is(n, a, x, f),
        nth_ancestor_is(n, b, x, f),
    ensures
        a == b,
    decreases f,
{
    if f > 0 {
        lemma_nth_ancestor_unique(n, a, b, n[x].parent.id, (f - 1) as nat);
    }
}

/// What lies below a child of `x` lies below `x`.
proof fn lemma_below_of_child(n: Map<u128, Instance>, d: Map<u128, nat>, y: u128, x: u128, c: u128)
    requires
        links_consistent(n, d),
        n.contains_key(x),
        n.contains_key(c),
        n[c].parent.id == x,
        x != 0,
        below(n, d, y, c),
    ensures
        below(n, d, y, x),
    decreases d[y],
{
    assert(d[c] == d[x] + 1);
    if y == c {
        lemma_below_step(n, d, c, x);
        assert(nth_ancestor_is(n, x, x, 0));
    } else {
        if n[y].parent.id == 0 {
            lemma_below_parentless(n, d, y, c);
        }
        lemma_below_step(n, d, y, c);
        let p = n[y].parent.id;
        assert(n.contains_key(p));
        lemma_below_of_child(n, d, p, x, c);
        lemma_below_step(n, d, y, x);
    }
}

/// What lies strictly below `x` lies below one of its children.
proof fn lemma_below_child(n: Map<u128, Instance>, d: Map<u128, nat>, y: u128, x: u128) -> (k: int)
    requires
        links_consistent(n, d),
        below(n, d, y, x),
        y != x,
    ensures
        0 <= k < n[x].children@.len(),
        below(n, d, y, n[x].children@[k].id),
    decreases d[y],
{
    if n[y].parent.id == 0 {
        lemma_below_parentless(n, d, y, x);
    }
    lemma_below_step(n, d, y, x);
    let p = n[y].parent.id;
    assert(n[p].children@.contains(Ref { id: y }));
    if p == x {
        let k = choose|k: int| 0 <= k < n[x].children@.len() && n[x].children@[k] == Ref { id: y };
        assert(nth_ancestor_is(n, y, y, 0));
        k
    } else {
        let k = lemma_below_child(n, d, p, x);
        let c = n[x].children@[k].id;
        assert(n.contains_key(c));
        if y == c {
            assert(n[c].parent.id == x);
        }
        lemma_below_step(n, d, y, c);
        k
    }
}

/// The ids of the subtrees below the children `0..k` of `x`.
spec fn below_children(n: Map<u128, Instance>, d: Map<u128, nat>, x: u128, k: int) -> Set<u128> {
    Set::new(|y: u128| exists|j: int| 0 <= j < k && below(n, d, y, (#[trigger] n[x].children@[j]).id))
}

spec fn subtree(n: Map<u128, Instance>, d: Map<u128, nat>, x: u128) -> Set<u128> {
    Set::new(|y: u128| below(n, d, y, x))
}

impl WeakDom {
    /// Removes `x` and everything below it, as the links of `g` show it.
    #[verifier::rlimit(100)]
    #[verifier::spinoff_prover]
    fn remove_subtree(&mut self, x: u128, Ghost(g): Ghost<Map<u128, Instance>>, Ghost(gd): Ghost<Map<u128, nat>>)
        requires
            links_consistent(g, gd),
            g.contains_key(x),
            forall|y: u128| #[trigger] below(g, gd, y, x) ==> old(self).instances@.contains_key(y) && old(self).instances@[y] == g[y],
        ensures
            final(self).instances@.dom() == old(self).instances@.dom() - subtree(g, gd, x),
            forall|y: u128| #[trigger] final(self).instances@.contains_key(y) ==> final(self).instances@[y] == old(self).instances@[y],
            final(self).root == old(self).root,
            final(self).depth == old(self).depth,
        decreases old(self).instances@.len(),
    {
        proof {
            assert(nth_ancestor_is(g, x, x, 0));
            assert(below(g, gd, x, x));
        }
        let ghost n0 = self.instances@;
        let inst = self.instances.remove(&x).unwrap();
        let ghost n1 = self.instances@;
        proof {
            assert(n1.dom() =~= n0.dom().remove(x));
            vstd::set::axiom_set_remove_len(n0.dom(), x);
        }
        let children = inst.children;
        let mut k: usize = 0;
        proof {
            assert(self.instances@.dom() =~= n1.dom() - below_children(g, gd, x, 0));
        }
        while k < children.len()
            invariant
                k <= children@.len(),
                children@ == g[x].children@,
                links_consistent(g, gd),
                g.contains_key(x),
                n1.dom() == n0.dom().remove(x),
                n1.len() < n0.len(),
                n0 == old(self).instances@,
                forall|y: u128| #[trigger] below(g, gd, y, x) ==> n0.contains_key(y) && n0[y] == g[y],
                self.instances@.dom() == n1.dom() - below_children(g, gd, x, k as int),
                forall|y: u128| #[trigger] self.instances@.contains_key(y) ==> self.instances@[y] == n0[y],
                self.root == old(self).root,
                self.depth == old(self).depth,
            decreases children@.len() - k,
        {
            let c = children[k].id;
            proof {
                assert(g.contains_key(c));
                vstd::set_lib::lemma_len_subset(self.instances@.dom(), n1.dom());
                assert forall|y: u128| #[trigger] below(g, gd, y, c) implies self.instances@.contains_key(y) && self.instances@[y] == g[y] by {
                    lemma_below_of_child(g, gd, y, x, c);
                    assert(y != x) by {
                        assert(gd[c] == gd[x] + 1);
                    }
                    if below_children(g, gd, x, k as int).contains(y) {
                        let j = choose|j: int| 0 <= j < k && below(g, gd, y, (#[trigger] g[x].children@[j]).id);
                        let cj = g[x].children@[j].id;
                        assert(gd[cj] == gd[x] + 1);
                        lemma_nth_ancestor_unique(g, cj, c, y, (gd[y] - gd[c]) as nat);
                        assert(g[x].children@[j] == g[x].children@[k as int]);
                    }
                    assert(!below_children(g, gd, x, k as int).contains(y));
                    assert(n0.contains_key(y) && n0[y] == g[y]);
                    assert(n1.dom().contains(y));
                    assert((n1.dom() - below_children(g, gd, x, k as int)).contains(y));
                    assert(self.instances@.contains_key(y));
                    assert(self.instances@[y] == n0[y]);
                }
            }
            self.remove_subtree(c, Ghost(g), Ghost(gd));
            proof {
                assert(self.instances@.dom() =~= n1.dom() - below_children(g, gd, x, k as int + 1)) by {
                    assert forall|y: u128| below_children(g, gd, x, k as int + 1).contains(y) implies below_children(g, gd, x, k as int).contains(y) || subtree(g, gd, c).contains(y) by {
                        let j = choose|j: int| 0 <= j < k + 1 && below(g, gd, y, (#[trigger] g[x].children@[j]).id);
                        if j < k {
                            assert(below(g, gd, y, g[x].children@[j].id));
                        }
                    }
                    assert forall|y: u128| subtree(g, gd, c).contains(y) implies below_children(g, gd, x, k as int + 1).contains(y) by {
                        assert(below(g, gd, y, g[x].children@[k as int].id));
                    }
                    assert forall|y: u128| below_children(g, gd, x, k as int).contains(y) implies below_children(g, gd, x, k as int + 1).contains(y) by {
                        let j = choose|j: int| 0 <= j < k && below(g, gd, y, (#[trigger] g[x].children@[j]).id);
                        assert(below(g, gd, y, g[x].children@[j].id));
                    }
                }
            }
            k = k + 1;
        }
        proof {
            assert(self.instances@.dom() =~= n0.dom() - subtree(g, gd, x)) by {
                assert forall|y: u128| subtree(g, gd, x).contains(y) && y != x implies below_children(g, gd, x, k as int).contains(y) by {
                    let j = lemma_below_child(g, gd, y, x);
                    assert(below(g, gd, y, g[x].children@[j].id));
                }
                assert forall|y: u128| below_children(g, gd, x, k as int).contains(y) implies subtree(g, gd, x).contains(y) by {
                    let j = choose|j: int| 0 <= j < k && below(g, gd, y, (#[trigger] g[x].children@[j]).id);
                    let cj = g[x].children@[j].id;
                    assert(g.contains_key(cj));
                    lemma_below_of_child(g, gd, y, x, cj);
                }
            }
        }
    }
}


#[verifier::rlimit(100)]
#[verifier::spinoff_prover]
proof fn lemma_destroy(n: Map<u128, Instance>, d: Map<u128, nat>, n2: Map<u128, Instance>, node: u128, op: u128, i: int)
    requires
        links_consistent(n, d),
        n.contains_key(node),
        n[node].parent.id == op,
        op != 0,
        0 <= i < n[op].children@.len(),
        n[op].children@[i] == (Ref { id: node }),
        n2.dom() == n.dom() - subtree(n, d, node),
        forall|y: u128| #[trigger] n2.contains_key(y) && y != op ==> n2[y] == n[y],
        n2[op].referent == n[op].referent,
        n2[op].parent == n[op].parent,
        n2[op].children@ == n[op].children@.remove(i),
    ensures
        links_consistent(n2, d.restrict(n2.dom())),
        n2.contains_key(op),
{
    let d2 = d.restrict(n2.dom());
    assert(n.contains_key(op));
    assert(d[node] == d[op] + 1);
    assert(!below(n, d, op, node));
    assert(n2.contains_key(op));
    assert(d2.dom() =~= n2.dom());
    assert forall|x: u128| #[trigger] n2.contains_key(x) implies x != 0 && n2[x].referent.id == x && n2[x].children@.no_duplicates() by {
        assert(n.contains_key(x));
        if x == op {
            assert forall|a: int, c: int| 0 <= a < c < n2[op].children@.len() implies n2[op].children@[a] != n2[op].children@[c] by {
                let s = n[op].children@;
                let a2 = if a < i { a } else { a + 1 };
                let c2 = if c < i { c } else { c + 1 };
                assert(n2[op].children@[a] == s[a2]);
                assert(n2[op].children@[c] == s[c2]);
            }
        }
    }
    assert forall|x: u128| #[trigger] n2.contains_key(x) && n2[x].parent.id == 0 implies d2[x] == 0 by {
        assert(n.contains_key(x));
    }
    assert forall|x: u128| #[trigger] n2.contains_key(x) && n2[x].parent.id != 0 implies {
        &&& n2.contains_key(n2[x].parent.id)
        &&& n2[n2[x].parent.id].children@.contains(Ref { id: x })
        &&& d2[x] == d2[n2[x].parent.id] + 1
    } by {
        assert(n.contains_key(x));
        assert(nth_ancestor_is(n, node, node, 0));
        assert(x != node);
        let q = n[x].parent.id;
        assert(n.contains_key(q));
        lemma_below_step(n, d, x, node);
        assert(n2.contains_key(q));
        assert(n[q].children@.contains(Ref { id: x }));
        if q == op {
            let j = choose|j: int| 0 <= j < n[q].children@.len() && n[q].children@[j] == Ref { id: x };
            assert(j != i);
            let j2 = if j < i { j } else { j - 1 };
            assert(n2[op].children@[j2] == Ref { id: x });
        }
    }
    assert forall|x: u128, k: int| #[trigger] n2.contains_key(x) && 0 <= k < n2[x].children@.len() implies {
        &&& n2.contains_key((#[trigger] n2[x].children@[k]).id)
        &&& n2[n2[x].children@[k].id].parent.id == x
    } by {
        assert(n.contains_key(x));
        let c = n2[x].children@[k];
        let k2 = if x == op { if k < i { k } else { k + 1 } } else { k };
        assert(n[x].children@[k2] == c);
        assert(n.contains_key(c.id));
        assert(n[c.id].parent.id == x);
        if below(n, d, c.id, node) {
            if c.id == node {
                assert(x == op);
                assert(n[op].children@[i] == n[op].children@[k2]);
                assert(n[op].children@.no_duplicates());
                assert(false);
            } else {
                lemma_below_step(n, d, c.id, node);
                assert(subtree(n, d, node).contains(x));
                assert(false);
            }
        }
        assert(!subtree(n, d, node).contains(c.id));
        assert(n2.contains_key(c.id));
        if c.id != op {
            assert(n2[c.id] == n[c.id]);
        }
    }
}

impl WeakDom {
    /// Removes the instance `node` and everything below it, and takes it
    /// out of its parent's children. Refused for a referent that is not
    /// live, and for the root.
    #[verifier::rlimit(100)]
    #[verifier::spinoff_prover]
    pub fn destroy(&mut self, node: Ref) -> (r: Result<(), DomError>)
        requires
            old(self).wf(),
        ensures
            final(self).wf(),
            final(self).spec_root() == old(self).spec_root(),
            match r {
                Ok(()) => {
                    let op = old(self).node(node).spec_parent();
                    &&& old(self).contains(node)
                    &&& node != old(self).spec_root()
                    &&& forall|x: Ref| #[trigger] final(self).contains(x) <==> old(self).contains(x) && !old(self).is_descendant(x, node)
                    &&& final(self).contains(op)
                    &&& exists|i: int| {
                        &&& 0 <= i < old(self).node(op).spec_children().len()
                        &&& old(self).node(op).spec_children()[i] == node
                        &&& final(self).node(op).spec_children() == old(self).node(op).spec_children().remove(i)
                    }
                    &&& forall|x: u128| #[trigger] final(self).nodes().contains_key(x) && x != op.id ==> final(self).nodes()[x] == old(self).nodes()[x]
                },
                Err(DomError::LookupError) => !old(self).contains(node) && final(self).nodes() == old(self).nodes(),
                Err(DomError::StructuralError) => node == old(self).spec_root() && final(self).nodes() == old(self).nodes(),
            },
    {
        if !self.instances.contains_key(&node.id) {
            return Err(DomError::LookupError);
        }
        let op = self.instances.get(&node.id).unwrap().parent;
        if op.id == 0 {
            proof {
                assert(self.instances@[node.id].referent == node);
            }
            return Err(DomError::StructuralError);
        }
        let ghost n = self.instances@;
        let ghost d = self.depth@;
        proof {
            assert(n[node.id].referent == node);
            assert(n.contains_key(op.id));
            assert(n[op.id].children@.contains(Ref { id: node.id }));
            assert(nth_ancestor_is(n, node.id, node.id, 0));
        }
        let i = self.unlink_child(op.id, node);
        let ghost na = self.instances@;
        proof {
            assert forall|y: u128| #[trigger] below(n, d, y, node.id) implies na.contains_key(y) && na[y] == n[y] by {
                if y == op.id {
                    assert(d[node.id] == d[op.id] + 1);
                }
            }
        }
        self.remove_subtree(node.id, Ghost(n), Ghost(d));
        proof {
            let n2 = self.instances@;
            assert(n2.contains_key(op.id)) by {
                assert(d[node.id] == d[op.id] + 1);
                assert(!below(n, d, op.id, node.id));
            }
            lemma_destroy(n, d, n2, node.id, op.id, i as int);
        }
        self.depth = Ghost(d.restrict(self.instances@.dom()));
        proof {
            let n2 = self.instances@;
            assert(self.root.id != node.id);
            assert(!below(n, d, self.root.id, node.id)) by {
                if below(n, d, self.root.id, node.id) {
                    lemma_below_parentless(n, d, self.root.id, node.id);
                }
            }
            assert(n2.contains_key(self.root.id));
            assert forall|k: u128| #[trigger] n2.contains_key(k) && n2[k].parent.id == 0 implies k == self.root.id by {
                assert(n.contains_key(k));
            }
            assert forall|x: Ref| #[trigger] self.contains(x) <==> old(self).contains(x) && !old(self).is_descendant(x, node) by {
                assert(subtree(n, d, node.id).contains(x.id) == below(n, d, x.id, node.id));
            }
            assert forall|x: u128| #[trigger] n2.contains_key(x) && x != op.id implies n2[x] == n[x] by {
                assert(na.contains_key(x));
            }
            let ii = i as int;
            assert(old(self).node(op).spec_children()[ii] == node);
            assert(exists|i: int| {
                &&& 0 <= i < old(self).node(op).spec_children().len()
                &&& old(self).node(op).spec_children()[i] == node
                &&& self.node(op).spec_children() == old(self).node(op).spec_children().remove(i)
            });
        }
        Ok(())
    }
}


proof fn lemma_below_root(n: Map<u128, Instance>, d: Map<u128, nat>, x: u128, root: u128)
    requires
        links_consistent(n, d),
        n.contains_key(x),
        n.contains_key(root),
        n[root].parent.id == 0,
        forall|k: u128| #[trigger] n.contains_key(k) && n[k].parent.id == 0 ==> k == root,
    ensures
        below(n, d, x, root),
    decreases d[x],
{
    if n[x].parent.id == 0 {
        assert(nth_ancestor_is(n, root, root, 0));
    } else {
        let p = n[x].parent.id;
        assert(n.contains_key(p));
        lemma_below_root(n, d, p, root);
        lemma_below_step(n, d, x, root);
    }
}

impl WeakDom {
    /// What a well-formed graph guarantees: the root is live and has no
    /// parent, and is the only such instance; each instance is filed under
    /// its own referent; parent and children links agree both ways; every
    /// instance lies below the root, so the links hold no cycle; and lying
    /// below an instance means being it or lying below it through one's
    /// parent.
    pub proof fn lemma_wf_facts(&self)
        requires
            self.wf(),
        ensures
            self.contains(self.spec_root()),
            self.node(self.spec_root()).spec_parent().spec_is_none(),
            forall|r: Ref| #[trigger] self.contains(r) ==> !r.spec_is_none() && self.node(r).spec_referent() == r,
            forall|r: Ref| #[trigger] self.contains(r) && self.node(r).spec_parent().spec_is_none() ==> r == self.spec_root(),
            forall|r: Ref| #[trigger] self.contains(r) && !self.node(r).spec_parent().spec_is_none() ==> {
                &&& self.contains(self.node(r).spec_parent())
                &&& self.node(self.node(r).spec_parent()).spec_children().contains(r)
            },
            forall|r: Ref, i: int| #[trigger] self.contains(r) && 0 <= i < self.node(r).spec_children().len() ==> {
                &&& self.contains(#[trigger] self.node(r).spec_children()[i])
                &&& self.node(self.node(r).spec_children()[i]).spec_parent() == r
            },
            forall|r: Ref| #[trigger] self.contains(r) ==> self.node(r).spec_children().no_duplicates(),
            forall|r: Ref| #[trigger] self.contains(r) ==> self.is_descendant(r, self.spec_root()),
            forall|r: Ref| #[trigger] self.contains(r) ==> self.is_descendant(r, r),
            forall|r: Ref, a: Ref| #[trigger] self.is_descendant(r, a) ==> self.contains(r) && self.contains(a),
            forall|r: Ref, a: Ref| self.contains(r) && self.contains(a) && r != a && !self.node(r).spec_parent().spec_is_none()
                ==> #[trigger] self.is_descendant(r, a) == self.is_descendant(self.node(r).spec_parent(), a),
            forall|r: Ref, a: Ref| self.contains(r) && self.node(r).spec_parent().spec_is_none() && #[trigger] self.is_descendant(r, a) ==> r == a,
    {
        let n = self.instances@;
        let d = self.depth@;
        assert forall|r: Ref| #[trigger] self.contains(r) implies !r.spec_is_none() && self.node(r).spec_referent() == r by {
            assert(n[r.id].referent.id == r.id);
        }
        assert forall|r: Ref| #[trigger] self.contains(r) && !self.node(r).spec_parent().spec_is_none() implies {
            &&& self.contains(self.node(r).spec_parent())
            &&& self.node(self.node(r).spec_parent()).spec_children().contains(r)
        } by {
            assert(n[r.id].referent.id == r.id);
            assert(Ref { id: r.id } == r);
        }
        assert forall|r: Ref, i: int| #[trigger] self.contains(r) && 0 <= i < self.node(r).spec_children().len() implies {
            &&& self.contains(#[trigger] self.node(r).spec_children()[i])
            &&& self.node(self.node(r).spec_children()[i]).spec_parent() == r
        } by {
            assert(n[r.id].referent.id == r.id);
            let c = n[r.id].children@[i];
            assert(n[c.id].parent.id == r.id);
        }
        assert forall|r: Ref| #[trigger] self.contains(r) implies self.is_descendant(r, self.spec_root()) by {
            lemma_below_root(n, d, r.id, self.root.id);
        }
        assert forall|r: Ref| #[trigger] self.contains(r) implies self.is_descendant(r, r) by {
            assert(nth_ancestor_is(n, r.id, r.id, 0));
        }
        assert forall|r: Ref, a: Ref| self.contains(r) && self.contains(a) && r != a && !self.node(r).spec_parent().spec_is_none()
            implies #[trigger] self.is_descendant(r, a) == self.is_descendant(self.node(r).spec_parent(), a) by {
            assert(n[r.id].referent.id == r.id);
            lemma_below_step(n, d, r.id, a.id);
        }
        assert forall|r: Ref, a: Ref| self.contains(r) && self.node(r).spec_parent().spec_is_none() && #[trigger] self.is_descendant(r, a) implies r == a by {
            lemma_below_parentless(n, d, r.id, a.id);
            assert(n[a.id].referent.id == a.id);
            assert(n[r.id].referent.id == r.id);
        }
    }
}


proof fn lemma_same_links(n: Map<u128, Instance>, n2: Map<u128, Instance>, d: Map<u128, nat>)
    requires
        links_consistent(n, d),
        n2.dom() == n.dom(),
        forall|x: u128| #[trigger] n2.contains_key(x) ==> n2[x].referent == n[x].referent
            && n2[x].parent == n[x].parent && n2[x].children == n[x].children,
    ensures
        links_consistent(n2, d),
{
    assert forall|x: u128| #[trigger] n2.contains_key(x) && n2[x].parent.id != 0 implies {
        &&& n2.contains_key(n2[x].parent.id)
        &&& n2[n2[x].parent.id].children@.contains(Ref { id: x })
        &&& d[x] == d[n2[x].parent.id] + 1
    } by {
        assert(n.contains_key(x));
        assert(n.contains_key(n[x].parent.id));
    }
    assert forall|x: u128, i: int| #[trigger] n2.contains_key(x) && 0 <= i < n2[x].children@.len() implies {
        &&& n2.contains_key((#[trigger] n2[x].children@[i]).id)
        &&& n2[n2[x].children@[i].id].parent.id == x
    } by {
        assert(n.contains_key(x));
        assert(n.contains_key(n[x].children@[i].id));
    }
}

impl WeakDom {
    /// Renames the instance `r`. Nothing else changes.
    pub fn set_name(&mut self, r: Ref, name: &str) -> (res: Result<(), DomError>)
        requires
            old(self).wf(),
        ensures
            final(self).wf(),
            final(self).spec_root() == old(self).spec_root(),
            final(self).nodes().dom() == old(self).nodes().dom(),
            forall|x: u128| #[trigger] old(self).nodes().contains_key(x) && x != r.id ==> final(self).nodes()[x] == old(self).nodes()[x],
            match res {
                Ok(()) => {
                    &&& old(self).contains(r)
                    &&& final(self).node(r).spec_name() == name@
                    &&& final(self).node(r).spec_class() == old(self).node(r).spec_class()
                    &&& final(self).node(r).spec_properties() == old(self).node(r).spec_properties()
                    &&& final(self).node(r).spec_referent() == old(self).node(r).spec_referent()
                    &&& final(self).node(r).spec_parent() == old(self).node(r).spec_parent()
                    &&& final(self).node(r).spec_children() == old(self).node(r).spec_children()
                },
                Err(e) => e == DomError::LookupError && !old(self).contains(r) && final(self).nodes() == old(self).nodes(),
            },
    {
        if !self.instances.contains_key(&r.id) {
            return Err(DomError::LookupError);
        }
        let mut inst = self.instances.remove(&r.id).unwrap();
        inst.name = name.to_owned();
        self.instances.insert(r.id, inst);
        proof {
            assert(self.instances@.dom() =~= old(self).instances@.dom());
            lemma_same_links(old(self).instances@, self.instances@, self.depth@);
            assert(self.instances@.contains_key(self.root.id));
        }
        Ok(())
    }

    /// Sets the property `key` of the instance `r` to `value`. Nothing else
    /// changes.
    pub fn set_property(&mut self, r: Ref, key: &str, value: Variant) -> (res: Result<(), DomError>)
        requires
            old(self).wf(),
        ensures
            final(self).wf(),
            final(self).spec_root() == old(self).spec_root(),
            final(self).nodes().dom() == old(self).nodes().dom(),
            forall|x: u128| #[trigger] old(self).nodes().contains_key(x) && x != r.id ==> final(self).nodes()[x] == old(self).nodes()[x],
            match res {
                Ok(()) => {
                    &&& old(self).contains(r)
                    &&& final(self).node(r).spec_properties() == old(self).node(r).spec_properties().insert(key@, value)
                    &&& final(self).node(r).spec_name() == old(self).node(r).spec_name()
                    &&& final(self).node(r).spec_class() == old(self).node(r).spec_class()
                    &&& final(self).node(r).spec_referent() == old(self).node(r).spec_referent()
                    &&& final(self).node(r).spec_parent() == old(self).node(r).spec_parent()
                    &&& final(self).node(r).spec_children() == old(self).node(r).spec_children()
                },
                Err(e) => e == DomError::LookupError && !old(self).contains(r) && final(self).nodes() == old(self).nodes(),
            },
    {
        if !self.instances.contains_key(&r.id) {
            return Err(DomError::LookupError);
        }
        let mut inst = self.instances.remove(&r.id).unwrap();
        inst.properties.insert(key.to_owned(), value);
        self.instances.insert(r.id, inst);
        proof {
            assert(self.instances@.dom() =~= old(self).instances@.dom());
            lemma_same_links(old(self).instances@, self.instances@, self.depth@);
            assert(self.instances@.contains_key(self.root.id));
        }
        Ok(())
    }
}

} // verus!
