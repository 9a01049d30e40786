//! A tree of instances, kept in a `WeakDom`.

use std::collections::HashMap;
use rbx_dom_weak::WeakDom;
use vstd::prelude::*;
use vstd::std_specs::hash::*;
use vstd::string::StringExecFns;

use crate::name_map::{lemma_taken, NameMap};
use crate::text::slash_joined;
use crate::variant::{Property, PropertyView};

verus! {

/// `rbx_dom_weak::WeakDom`, nothing of which is seen but through the wrappers
/// below.
#[verifier::external_type_specification]
#[verifier::external_body]
pub struct ExWeakDom(WeakDom);

/// The place of an instance in a tree, its name and its class. Referents are
/// numbers, 0 for none.
pub struct NodeView {
    pub parent: u128,
    pub name: Seq<char>,
    pub class: Seq<char>,
    pub children: Seq<u128>,
}

/// The instances that a `WeakDom` holds, by their referents.
pub uninterp spec fn dom_instances(dom: WeakDom) -> Map<u128, NodeView>;

/// The referent of the root instance of a `WeakDom`.
pub uninterp spec fn dom_root(dom: WeakDom) -> u128;

/// The place of an instance in a tree, its name and its class.
#[derive(Debug)]
pub struct Node {
    pub parent: u128,
    pub name: String,
    pub class: String,
    pub children: Vec<u128>,
}

impl DeepView for Node {
    type V = NodeView;

    open spec fn deep_view(&self) -> NodeView {
        NodeView {
            parent: self.parent,
            name: self.name@,
            class: self.class@,
            children: self.children@,
        }
    }
}

/// `rbx_dom_weak::WeakDom::root_ref` returns the referent of the root. A
/// referent is handed over as the number that its hexadecimal form gives.
#[verifier::external_body]
fn weak_dom_root(dom: &WeakDom) -> (root: u128)
    ensures
        root == dom_root(*dom),
{
    u128::from_str_radix(&dom.root_ref().to_string(), 16).unwrap_or(0)
}

/// `rbx_dom_weak::WeakDom::get_by_ref` returns the instance with a referent,
/// and `None` where there is no such instance. Its parent, name, class and
/// children are handed over as plain values.
#[verifier::external_body]
fn weak_dom_get(dom: &WeakDom, id: u128) -> (node: Option<Node>)
    ensures
        match node {
            Some(node) => dom_instances(*dom).contains_key(id) && node.deep_view()
                == dom_instances(*dom)[id],
            None => !dom_instances(*dom).contains_key(id),
        },
{
    let number = |text: String| u128::from_str_radix(&text, 16).unwrap_or(0);
    let instance = dom.get_by_ref(format!("{id:032x}").parse().ok()?)?;
    Some(Node {
        parent: number(instance.parent().to_string()),
        name: instance.name.clone(),
        class: instance.class.to_string(),
        children: instance.children().iter().map(|id| number(id.to_string())).collect(),
    })
}

/// `rbx_dom_weak::WeakDom::destroy` removes an instance and all that is below
/// it, and takes the instance out of the children of its parent. Of instances
/// that are not below the root nothing is said. It is only called on an
/// instance below the root of a tree, on which it does not panic.
#[verifier::external_body]
fn weak_dom_destroy(dom: &mut WeakDom, id: u128)
    requires
        exists|depth: Map<u128, usize>| #[trigger]
            is_tree(dom_instances(*old(dom)), dom_root(*old(dom)), depth) && depth.contains_key(id),
        id != dom_root(*old(dom)),
    ensures
        dom_root(*final(dom)) == dom_root(*old(dom)),
        forall|depth: Map<u128, usize>| #[trigger]
            is_tree(dom_instances(*old(dom)), dom_root(*old(dom)), depth) ==> is_pruned(
                dom_instances(*old(dom)),
                depth,
                id,
                dom_instances(*final(dom)),
            ),
{
    if let Ok(referent) = format!("{id:032x}").parse() {
        dom.destroy(referent);
    }
}

/// Whether `after` is what is left of a tree when an instance and all that is
/// below it are removed.
pub open spec fn is_pruned(
    nodes: Map<u128, NodeView>,
    depth: Map<u128, usize>,
    id: u128,
    after: Map<u128, NodeView>,
) -> bool {
    forall|other: u128| #[trigger]
        depth.contains_key(other) ==> if is_under(nodes, depth, other, id) {
            !after.contains_key(other)
        } else {
            after.contains_key(other) && after[other] == pruned_node(nodes, id, other)
        }
}

/// A list without the places where `id` stands.
pub open spec fn without(ids: Seq<u128>, id: u128) -> Seq<u128> {
    ids.filter(|other: u128| other != id)
}

/// An instance of a tree after another has been removed from it.
pub open spec fn pruned_node(nodes: Map<u128, NodeView>, id: u128, other: u128) -> NodeView {
    if other == nodes[id].parent {
        NodeView { children: without(nodes[other].children, id), ..nodes[other] }
    } else {
        nodes[other]
    }
}

/// Whether the instances with a depth are the tree below `root`: each has the
/// depth of its parent plus one, is listed once by its parent, and all that it
/// lists belong to the tree.
pub open spec fn is_tree(nodes: Map<u128, NodeView>, root: u128, depth: Map<u128, usize>) -> bool {
    &&& depth.contains_key(root)
    &&& depth[root] == 0
    &&& !depth.contains_key(0)
    &&& forall|id: u128| #[trigger] depth.contains_key(id) ==> nodes.contains_key(id)
    &&& !depth.contains_key(nodes[root].parent)
    &&& forall|id: u128| #[trigger]
        depth.contains_key(id) ==> nodes[id].children.no_duplicates()
    &&& forall|id: u128, i: int|
        depth.contains_key(id) && 0 <= i < nodes[id].children.len() ==> is_below(
            nodes,
            depth,
            id,
            #[trigger] nodes[id].children[i],
        )
    &&& forall|id: u128| #[trigger]
        depth.contains_key(id) && id != root ==> is_below(nodes, depth, nodes[id].parent, id)
            && depth.contains_key(nodes[id].parent) && nodes[nodes[id].parent].children.contains(id)
}

/// Whether `child` is in the tree, one step below its parent `id`.
pub open spec fn is_below(
    nodes: Map<u128, NodeView>,
    depth: Map<u128, usize>,
    id: u128,
    child: u128,
) -> bool {
    &&& depth.contains_key(child)
    &&& depth[child] == depth[id] + 1
    &&& nodes[child].parent == id
}

/// A `WeakDom` whose instances below the root form a tree, with the values of
/// their properties. Instances that are not below the root, which
/// `WeakDom::from_raw` asks its callers not to make, are not seen.
pub struct Dom {
    inner: WeakDom,
    depth: HashMap<u128, usize>,
    properties: HashMap<u128, NameMap<Property>>,
    nothing: NameMap<Property>,
}

impl View for Dom {
    type V = Map<u128, NodeView>;

    /// The instances of the tree.
    closed spec fn view(&self) -> Map<u128, NodeView> {
        dom_instances(self.inner).restrict(self.depth@.dom())
    }
}

impl Dom {
    #[verifier::type_invariant]
    spec fn well_formed(self) -> bool {
        &&& is_tree(dom_instances(self.inner), dom_root(self.inner), self.depth@)
        &&& self.nothing@ == Map::<Seq<char>, PropertyView>::empty()
    }

    /// The referent of the root.
    pub closed spec fn root(self) -> u128 {
        dom_root(self.inner)
    }

    /// How far each instance is from the root.
    pub closed spec fn depths(self) -> Map<u128, usize> {
        self.depth@
    }

    /// The properties of an instance.
    pub closed spec fn properties_of(self, id: u128) -> Map<Seq<char>, PropertyView> {
        if self.properties@.contains_key(id) {
            self.properties@[id]@
        } else {
            Map::empty()
        }
    }
}

/// An instance of a tree.
#[derive(Debug)]
pub struct Instance<'a> {
    pub referent: u128,
    pub parent: u128,
    pub name: String,
    pub class: String,
    pub children: Vec<u128>,
    pub properties: &'a NameMap<Property>,
}

impl<'a> Instance<'a> {
    /// The place of the instance in its tree, its name and its class.
    pub open spec fn node(self) -> NodeView {
        NodeView {
            parent: self.parent,
            name: self.name@,
            class: self.class@,
            children: self.children@,
        }
    }
}

/// Whether an instance is the one with a referent in a tree.
pub open spec fn is_instance_of(instance: Instance, dom: Dom, id: u128) -> bool {
    &&& instance.referent == id
    &&& dom@.contains_key(id)
    &&& instance.node() == dom@[id]
    &&& instance.properties@ == dom.properties_of(id)
}

impl Dom {
    /// The instances of a tree are those with a depth.
    proof fn lemma_view(self)
        requires
            self.well_formed(),
        ensures
            is_tree(self@, self.root(), self.depths()),
            self@.dom() == self.depths().dom(),
            forall|id: u128| #[trigger]
                self@.contains_key(id) ==> self@[id] == dom_instances(self.inner)[id],
    {
    }

    /// The referent of the root.
    pub fn root_ref(&self) -> (root: u128)
        ensures
            root == self.root(),
            is_tree(self@, self.root(), self.depths()),
            self@.dom() == self.depths().dom(),
    {
        proof {
            use_type_invariant(self);
            self.lemma_view();
        }
        weak_dom_root(&self.inner)
    }

    /// The instance with a referent.
    pub fn get_by_ref(&self, id: u128) -> (instance: Option<Instance<'_>>)
        ensures
            match instance {
                Some(instance) => is_instance_of(instance, *self, id),
                None => !self@.contains_key(id),
            },
    {
        broadcast use group_hash_axioms;

        proof {
            use_type_invariant(self);
            self.lemma_view();
        }
        if !self.depth.contains_key(&id) {
            return None;
        }
        match weak_dom_get(&self.inner, id) {
            Some(node) => {
                let properties = match self.properties.get(&id) {
                    Some(properties) => properties,
                    None => &self.nothing,
                };
                Some(
                    Instance {
                        referent: id,
                        parent: node.parent,
                        name: node.name,
                        class: node.class,
                        children: node.children,
                        properties,
                    },
                )
            },
            None => None,
        }
    }
}

proof fn lemma_filtered(ids: Seq<u128>, id: u128)
    requires
        ids.no_duplicates(),
    ensures
        without(ids, id).no_duplicates(),
        forall|x: u128| #[trigger] without(ids, id).contains(x) <==> x != id && ids.contains(x),
    decreases ids.len(),
{
    reveal(Seq::filter);
    let out = without(ids, id);
    if ids.len() > 0 {
        let front = ids.drop_last();
        lemma_filtered(front, id);
        let part = without(front, id);
        assert forall|x: u128| #[trigger] out.contains(x) <==> x != id && ids.contains(x) by {
            if ids.contains(x) && x != ids.last() {
                let i = ids.index_of(x);
            }
            if part.contains(x) {
                let i = part.index_of(x);
                let j = front.index_of(x);
            }
            if out.contains(x) && (out == part || x != ids.last()) {
                let i = out.index_of(x);
            }
        }
        if ids.last() != id {
            assert forall|i: int, j: int|
                0 <= i < out.len() && 0 <= j < out.len() && i != j implies out[i] != out[j] by {
                if i < part.len() {
                    assert(part.contains(part[i]));
                }
                if j < part.len() {
                    assert(part.contains(part[j]));
                }
            }
        }
    }
}

/// Where an instance stands depends on the instances of the tree alone.
proof fn lemma_under_same(
    nodes: Map<u128, NodeView>,
    others: Map<u128, NodeView>,
    depth: Map<u128, usize>,
    id: u128,
    top: u128,
)
    requires
        forall|id: u128| #[trigger] depth.contains_key(id) ==> nodes[id] == others[id],
    ensures
        is_under(nodes, depth, id, top) == is_under(others, depth, id, top),
    decreases depth[id],
{
    if depth.contains_key(id) && depth.contains_key(nodes[id].parent) && depth[nodes[id].parent]
        < depth[id] {
        lemma_under_same(nodes, others, depth, nodes[id].parent, top);
    }
}

/// The depths of what is left of a tree when an instance and all that is below
/// it are removed.
pub open spec fn pruned_depths(
    nodes: Map<u128, NodeView>,
    depth: Map<u128, usize>,
    id: u128,
) -> Map<u128, usize> {
    Map::new(
        |other: u128| depth.contains_key(other) && !is_under(nodes, depth, other, id),
        |other: u128| depth[other],
    )
}

/// What is left of a tree when an instance and all that is below it are removed
/// is a tree.
proof fn lemma_pruned(
    nodes: Map<u128, NodeView>,
    root: u128,
    depth: Map<u128, usize>,
    id: u128,
    after: Map<u128, NodeView>,
)
    requires
        is_tree(nodes, root, depth),
        depth.contains_key(id),
        id != root,
        is_pruned(nodes, depth, id, after),
    ensures
        is_tree(after, root, pruned_depths(nodes, depth, id)),
{
    let left = pruned_depths(nodes, depth, id);
    let parent = nodes[id].parent;
    assert(is_below(nodes, depth, parent, id));
    assert(!is_under(nodes, depth, root, id));
    assert(left.contains_key(root));
    assert forall|other: u128| #[trigger] left.contains_key(other) implies after.contains_key(other)
        && after[other].children.no_duplicates() by {
        assert(depth.contains_key(other));
        lemma_filtered(nodes[other].children, id);
    }
    assert forall|other: u128, i: int|
        left.contains_key(other) && 0 <= i < after[other].children.len() implies is_below(
        after,
        left,
        other,
        #[trigger] after[other].children[i],
    ) by {
        assert(depth.contains_key(other));
        lemma_filtered(nodes[other].children, id);
        let child = after[other].children[i];
        assert(after[other].children.contains(child));
        let k = nodes[other].children.index_of(child);
        assert(is_below(nodes, depth, other, nodes[other].children[k]));
        assert(child != id);
        assert(!is_under(nodes, depth, child, id));
        assert(left.contains_key(child));
        assert(depth.contains_key(child));
    }
    assert forall|other: u128| #[trigger] left.contains_key(other) && other
        != root implies is_below(after, left, after[other].parent, other) && left.contains_key(
        after[other].parent,
    ) && after[after[other].parent].children.contains(other) by {
        assert(depth.contains_key(other));
        let above = nodes[other].parent;
        assert(is_below(nodes, depth, above, other));
        assert(!is_under(nodes, depth, above, id));
        assert(left.contains_key(above));
        assert(depth.contains_key(above));
        lemma_filtered(nodes[above].children, id);
    }
}

impl Dom {
    /// The tree without an instance and all that is below it.
    pub fn destroy(self, id: u128) -> (dom: Dom)
        requires
            self@.contains_key(id),
            id != self.root(),
        ensures
            dom.root() == self.root(),
            dom.depths() == pruned_depths(self@, self.depths(), id),
            dom@.dom() == dom.depths().dom(),
            forall|other: u128| #[trigger]
                dom@.contains_key(other) ==> dom@[other] == pruned_node(self@, id, other)
                    && dom.properties_of(other) == self.properties_of(other),
    {
        broadcast use group_hash_axioms;

        proof {
            use_type_invariant(&self);
            self.lemma_view();
        }
        let ghost nodes = dom_instances(self.inner);
        let ghost root = dom_root(self.inner);
        let ghost depth_before = self.depth@;
        let ghost view = self@;
        let gone = descendants(&self, id);
        proof {
            lemma_descendants(self, id, gone@);
            assert forall|other: u128|
                #[trigger] gone@.contains(other) <==> is_under(nodes, depth_before, other, id) by {
                lemma_under_same(nodes, view, depth_before, other, id);
            }
        }
        let mut inner = self.inner;
        let mut depth = self.depth;
        weak_dom_destroy(&mut inner, id);
        let mut i: usize = 0;
        while i < gone.len()
            invariant
                i <= gone@.len(),
                forall|other: u128| #[trigger]
                    depth@.contains_key(other) <==> depth_before.contains_key(other)
                        && !gone@.take(i as int).contains(other),
                forall|other: u128| #[trigger]
                    depth@.contains_key(other) ==> depth@[other] == depth_before[other],
            decreases gone@.len() - i,
        {
            broadcast use group_hash_axioms;

            proof {
                lemma_taken(gone@, i as int);
            }
            depth.remove(&gone[i]);
            i += 1;
        }
        proof {
            assert(gone@.take(i as int) =~= gone@);
            lemma_pruned(nodes, root, depth_before, id, dom_instances(inner));
            assert(depth@ =~= pruned_depths(nodes, depth_before, id));
        }
        let dom = Dom { inner, depth, properties: self.properties, nothing: self.nothing };
        proof {
            dom.lemma_view();
        }
        dom
    }
}

/// The names of the instances from the root down to the given one; none where
/// it is not in the tree.
pub open spec fn names_to(
    nodes: Map<u128, NodeView>,
    depth: Map<u128, usize>,
    id: u128,
) -> Seq<Seq<char>>
    decreases depth[id],
{
    if !nodes.contains_key(id) {
        Seq::empty()
    } else if nodes.contains_key(nodes[id].parent) && depth[nodes[id].parent] < depth[id] {
        names_to(nodes, depth, nodes[id].parent).push(nodes[id].name)
    } else {
        seq![nodes[id].name]
    }
}

/// The path of an instance is that of its parent, a slash, and its name.
pub proof fn lemma_path_of_child(dom: Dom, id: u128)
    requires
        is_tree(dom@, dom.root(), dom.depths()),
        dom@.dom() == dom.depths().dom(),
        dom@.contains_key(id),
        id != dom.root(),
    ensures
        slash_joined(names_to(dom@, dom.depths(), id)) == slash_joined(
            names_to(dom@, dom.depths(), dom@[id].parent),
        ) + seq!['/'] + dom@[id].name,
{
    let above = names_to(dom@, dom.depths(), dom@[id].parent);
    assert(names_to(dom@, dom.depths(), id).drop_last() =~= above);
}

/// The path of an instance: the names from the root down to it, with slashes
/// between them.
pub fn get_inst_path(dom: &Dom, referent: u128) -> (path: String)
    ensures
        path@ == slash_joined(names_to(dom@, dom.depths(), referent)),
{
    let root: u128 = dom.root_ref();
    let ghost nodes = dom@;
    let ghost depth = dom.depths();
    let mut names: Vec<String> = Vec::new();
    let mut at: u128 = referent;
    loop
        invariant
            nodes == dom@,
            depth == dom.depths(),
            is_tree(nodes, root, depth),
            nodes.dom() == depth.dom(),
            names_to(nodes, depth, referent) == names_to(nodes, depth, at)
                + names.deep_view().reverse(),
        ensures
            names_to(nodes, depth, referent) == names.deep_view().reverse(),
        decreases
            if nodes.contains_key(at) {
                depth[at] + 1
            } else {
                0
            },
    {
        let instance = match dom.get_by_ref(at) {
            Some(instance) => instance,
            None => {
                break;
            },
        };
        names.push(instance.name);
        at = instance.parent;
    }
    let ghost parts = names.deep_view().reverse();
    let mut path = String::new();
    let mut left: usize = names.len();
    while left > 0
        invariant
            left <= names@.len(),
            parts == names.deep_view().reverse(),
            path@ == slash_joined(parts.take(names@.len() - left)),
        decreases left,
    {
        proof {
            let n = names@.len() - left;
            assert(parts.take(n + 1).drop_last() =~= parts.take(n));
        }
        if left < names.len() {
            path.append("/");
            proof {
                reveal_strlit("/");
            }
        }
        left -= 1;
        path.append(names[left].as_str());
    }
    proof {
        assert(parts.take(names@.len() - left) =~= parts);
    }
    path
}

/// The children of some instances, in the order of these.
pub open spec fn children_of(nodes: Map<u128, NodeView>, ids: Seq<u128>) -> Seq<u128>
    decreases ids.len(),
{
    if ids.len() == 0 {
        Seq::empty()
    } else {
        children_of(nodes, ids.drop_last()) + nodes[ids.last()].children
    }
}

/// Whether a list of instances holds `top` and what is below it, level by
/// level: `top` comes first, then the children of the first, then those of the
/// second, and so on.
pub open spec fn by_levels(nodes: Map<u128, NodeView>, top: u128, list: Seq<u128>) -> bool {
    &&& list == seq![top] + children_of(nodes, list)
    &&& forall|j: int| 0 <= j < list.len() ==> nodes.contains_key(#[trigger] list[j])
}

/// Whether an instance of a tree is `top` or below it.
pub open spec fn is_under(
    nodes: Map<u128, NodeView>,
    depth: Map<u128, usize>,
    id: u128,
    top: u128,
) -> bool
    decreases depth[id],
{
    &&& depth.contains_key(id)
    &&& id == top || (depth.contains_key(nodes[id].parent) && depth[nodes[id].parent] < depth[id]
        && is_under(nodes, depth, nodes[id].parent, top))
}

/// [`descendants`] lists every instance at or below the given one, and no
/// other; it lists none twice; and it lists all children before their parents.
pub proof fn lemma_descendants(dom: Dom, top: u128, ordered: Seq<u128>)
    requires
        is_tree(dom@, dom.root(), dom.depths()),
        dom@.dom() == dom.depths().dom(),
        by_levels(dom@, top, ordered.reverse()),
    ensures
        ordered.no_duplicates(),
        forall|id: u128| #[trigger]
            ordered.contains(id) <==> is_under(dom@, dom.depths(), id, top),
        forall|c: int, p: int|
            #![trigger ordered[c], ordered[p]]
            0 <= c < ordered.len() && 0 <= p < ordered.len()
                && dom@[ordered[p]].children.contains(ordered[c]) ==> c < p,
{
    let list = ordered.reverse();
    let nodes = dom@;
    let depth = dom.depths();
    let n = ordered.len() as int;
    lemma_levels(nodes, dom.root(), depth, top, list);
    assert forall|id: u128| #[trigger]
        ordered.contains(id) <==> is_under(nodes, depth, id, top) by {
        if ordered.contains(id) {
            let i = ordered.index_of(id);
            assert(list[n - 1 - i] == id);
        }
        if list.contains(id) {
            let i = list.index_of(id);
        }
    }
    assert forall|c: int, p: int|
        #![trigger ordered[c], ordered[p]]
        0 <= c < n && 0 <= p < n && nodes[ordered[p]].children.contains(ordered[c]) implies c
        < p by {
        assert(list[n - 1 - c] == ordered[c]);
        assert(list[n - 1 - p] == ordered[p]);
    }
    assert(ordered.no_duplicates()) by {
        assert forall|i: int, j: int| 0 <= i < n && 0 <= j < n && i != j implies ordered[i]
            != ordered[j] by {
            assert(list[n - 1 - i] == ordered[i]);
            assert(list[n - 1 - j] == ordered[j]);
        }
    }
}

/// Among the children of `ids`, those of the one at `i` stand together, behind
/// those of the ones before it.
proof fn lemma_family(nodes: Map<u128, NodeView>, ids: Seq<u128>, i: int, j: int)
    requires
        0 <= i < j <= ids.len(),
    ensures
        children_of(nodes, ids.take(i)).len() + nodes[ids[i]].children.len() <= children_of(
            nodes,
            ids.take(j),
        ).len(),
        forall|m: int|
            0 <= m < nodes[ids[i]].children.len() ==> children_of(
                nodes,
                ids.take(j),
            )[children_of(nodes, ids.take(i)).len() + m] == #[trigger] nodes[ids[i]].children[m],
    decreases j - i,
{
    assert(ids.take(j).drop_last() =~= ids.take(j - 1));
    if j > i + 1 {
        lemma_family(nodes, ids, i, j - 1);
    }
}

/// Each child of some instances is the child of one of them.
proof fn lemma_origin(nodes: Map<u128, NodeView>, ids: Seq<u128>, k: int) -> (at: (int, int))
    requires
        0 <= k < children_of(nodes, ids).len(),
    ensures
        0 <= at.0 < ids.len(),
        0 <= at.1 < nodes[ids[at.0]].children.len(),
        k == children_of(nodes, ids.take(at.0)).len() + at.1,
        children_of(nodes, ids)[k] == nodes[ids[at.0]].children[at.1],
    decreases ids.len(),
{
    let n = ids.len() as int;
    let front = ids.drop_last();
    let len = children_of(nodes, front).len() as int;
    if k < len {
        let at = lemma_origin(nodes, front, k);
        assert(front.take(at.0) =~= ids.take(at.0));
        at
    } else {
        (n - 1, k - len)
    }
}

/// In a list by levels, a parent stands before its child.
proof fn lemma_parent_first(
    nodes: Map<u128, NodeView>,
    root: u128,
    depth: Map<u128, usize>,
    top: u128,
    list: Seq<u128>,
    j: int,
) -> (at: (int, int))
    requires
        is_tree(nodes, root, depth),
        nodes.dom() == depth.dom(),
        by_levels(nodes, top, list),
        0 < j < list.len(),
    ensures
        0 <= at.0 < j,
        0 <= at.1 < nodes[list[at.0]].children.len(),
        j == children_of(nodes, list.take(at.0)).len() + at.1 + 1,
        list[j] == nodes[list[at.0]].children[at.1],
        is_below(nodes, depth, list[at.0], list[j]),
    decreases depth[list[j]],
{
    let at = lemma_origin(nodes, list, j - 1);
    let i = at.0;
    assert(list[j] == children_of(nodes, list)[j - 1]);
    assert(nodes.contains_key(list[i]));
    assert(depth.dom().contains(list[i]));
    assert(depth.contains_key(list[i]));
    assert(is_below(nodes, depth, list[i], nodes[list[i]].children[at.1]));
    if i >= j {
        let up = lemma_parent_first(nodes, root, depth, top, list, i);
        assert(up.0 < i);
        lemma_family(nodes, list, up.0, i);
        assert(false);
    }
    at
}

proof fn lemma_levels(
    nodes: Map<u128, NodeView>,
    root: u128,
    depth: Map<u128, usize>,
    top: u128,
    list: Seq<u128>,
)
    requires
        is_tree(nodes, root, depth),
        nodes.dom() == depth.dom(),
        by_levels(nodes, top, list),
    ensures
        list.no_duplicates(),
        forall|id: u128| #[trigger] list.contains(id) <==> is_under(nodes, depth, id, top),
        forall|c: int, p: int|
            #![trigger list[c], list[p]]
            0 <= c < list.len() && 0 <= p < list.len() && nodes[list[p]].children.contains(list[c])
                ==> p < c,
{
    assert forall|i: int, j: int| 0 <= i < j < list.len() implies list[i] != list[j] by {
        lemma_distinct(nodes, root, depth, top, list, i, j);
    }
    assert forall|id: u128| #[trigger] list.contains(id) implies is_under(
        nodes,
        depth,
        id,
        top,
    ) by {
        lemma_listed(nodes, root, depth, top, list, list.index_of(id));
    }
    assert forall|id: u128| is_under(nodes, depth, id, top) implies #[trigger] list.contains(
        id,
    ) by {
        lemma_lists(nodes, root, depth, top, list, id);
    }
    assert forall|c: int, p: int|
        #![trigger list[c], list[p]]
        0 <= c < list.len() && 0 <= p < list.len() && nodes[list[p]].children.contains(
            list[c],
        ) implies p < c by {
        if c == 0 {
            lemma_listed(nodes, root, depth, top, list, p);
            lemma_under_depth(nodes, depth, list[p], top);
        } else {
            let at = lemma_parent_first(nodes, root, depth, top, list, c);
        }
    }
}

proof fn lemma_under_depth(
    nodes: Map<u128, NodeView>,
    depth: Map<u128, usize>,
    id: u128,
    top: u128,
)
    requires
        is_under(nodes, depth, id, top),
    ensures
        depth.contains_key(top),
        depth[top] <= depth[id],
    decreases depth[id],
{
    if id != top {
        lemma_under_depth(nodes, depth, nodes[id].parent, top);
    }
}

proof fn lemma_distinct(
    nodes: Map<u128, NodeView>,
    root: u128,
    depth: Map<u128, usize>,
    top: u128,
    list: Seq<u128>,
    i: int,
    j: int,
)
    requires
        is_tree(nodes, root, depth),
        nodes.dom() == depth.dom(),
        by_levels(nodes, top, list),
        0 <= i < j < list.len(),
    ensures
        list[i] != list[j],
    decreases j,
{
    let b = lemma_parent_first(nodes, root, depth, top, list, j);
    if list[i] == list[j] {
        if i == 0 {
            lemma_listed(nodes, root, depth, top, list, b.0);
            lemma_under_depth(nodes, depth, list[b.0], top);
        } else {
            let a = lemma_parent_first(nodes, root, depth, top, list, i);
            if a.0 < b.0 {
                lemma_distinct(nodes, root, depth, top, list, a.0, b.0);
            } else if b.0 < a.0 {
                lemma_distinct(nodes, root, depth, top, list, b.0, a.0);
            }
        }
    }
}

proof fn lemma_listed(
    nodes: Map<u128, NodeView>,
    root: u128,
    depth: Map<u128, usize>,
    top: u128,
    list: Seq<u128>,
    j: int,
)
    requires
        is_tree(nodes, root, depth),
        nodes.dom() == depth.dom(),
        by_levels(nodes, top, list),
        0 <= j < list.len(),
    ensures
        is_under(nodes, depth, list[j], top),
    decreases j,
{
    if j > 0 {
        let at = lemma_parent_first(nodes, root, depth, top, list, j);
        lemma_listed(nodes, root, depth, top, list, at.0);
    }
}

proof fn lemma_lists(
    nodes: Map<u128, NodeView>,
    root: u128,
    depth: Map<u128, usize>,
    top: u128,
    list: Seq<u128>,
    id: u128,
)
    requires
        is_tree(nodes, root, depth),
        nodes.dom() == depth.dom(),
        by_levels(nodes, top, list),
        is_under(nodes, depth, id, top),
    ensures
        list.contains(id),
    decreases depth[id],
{
    if id == top {
        assert(list[0] == top);
    } else {
        let parent = nodes[id].parent;
        lemma_lists(nodes, root, depth, top, list, parent);
        let i = list.index_of(parent);
        let m = nodes[parent].children.index_of(id);
        lemma_family(nodes, list, i, list.len() as int);
        assert(list.take(list.len() as int) =~= list);
        let k = children_of(nodes, list.take(i)).len() + m;
        assert(list[k + 1] == id);
    }
}

/// Produces a list of the instances at and below `root_ref` such that all
/// children come before their parents.
pub fn descendants(dom: &Dom, root_ref: u128) -> (ordered: Vec<u128>)
    requires
        dom@.contains_key(root_ref),
    ensures
        by_levels(dom@, root_ref, ordered@.reverse()),
{
    let _root: u128 = dom.root_ref();
    let mut order: Vec<u128> = Vec::new();
    order.push(root_ref);
    let mut done: usize = 0;
    while done < order.len()
        invariant
            done <= order@.len(),
            is_tree(dom@, dom.root(), dom.depths()),
            dom@.dom() == dom.depths().dom(),
            order@ == seq![root_ref] + children_of(dom@, order@.take(done as int)),
            forall|j: int| 0 <= j < order@.len() ==> dom@.contains_key(#[trigger] order@[j]),
        decreases usize::MAX - done,
    {
        let id: u128 = order[done];
        let ghost before = order@;
        if let Some(instance) = dom.get_by_ref(id) {
            let mut i: usize = 0;
            while i < instance.children.len()
                invariant
                    i <= instance.children@.len(),
                    instance.children@ == dom@[id].children,
                    dom@.contains_key(id),
                    is_tree(dom@, dom.root(), dom.depths()),
                    dom@.dom() == dom.depths().dom(),
                    order@ == before + dom@[id].children.take(i as int),
                    forall|j: int|
                        0 <= j < order@.len() ==> dom@.contains_key(#[trigger] order@[j]),
                decreases instance.children@.len() - i,
            {
                order.push(instance.children[i]);
                i += 1;
            }
            proof {
                assert(order@.take(done + 1).drop_last() =~= before.take(done as int));
                assert(order@.take(done + 1).last() == id);
            }
        }
        done += 1;
    }
    proof {
        assert(order@.take(done as int) =~= order@);
    }
    let mut ordered: Vec<u128> = Vec::new();
    let mut left: usize = order.len();
    while left > 0
        invariant
            left <= order@.len(),
            ordered@.len() == order@.len() - left,
            forall|j: int|
                0 <= j < ordered@.len() ==> #[trigger] ordered@[j] == order@[order@.len() - 1 - j],
        decreases left,
    {
        left -= 1;
        ordered.push(order[left]);
    }
    assert(ordered@.reverse() =~= order@);
    ordered
}

/// What is known of the tree after some instances have been visited: those of
/// `order` before `done`, and the first `kids` children of the one at `done`.
spec fn explored(
    nodes: Map<u128, NodeView>,
    root: u128,
    depth: Map<u128, usize>,
    order: Seq<u128>,
    done: int,
    kids: int,
) -> bool {
    &&& order.len() > 0
    &&& order[0] == root
    &&& root != 0
    &&& depth[root] == 0
    &&& order.no_duplicates()
    &&& forall|id: u128| #[trigger] depth.contains_key(id) <==> order.contains(id)
    &&& forall|j: int|
        0 <= j < order.len() ==> depth.contains_key(#[trigger] order[j]) && depth[order[j]] <= j
            && nodes.contains_key(order[j]) && order[j] != 0 && (j > 0 ==> has_place(
            nodes,
            depth,
            order,
            done,
            kids,
            j,
        ))
    &&& forall|i: int, k: int|
        0 <= i < done && i < order.len() && 0 <= k < nodes[order[i]].children.len() ==> is_below(
            nodes,
            depth,
            order[i],
            #[trigger] nodes[order[i]].children[k],
        )
    &&& forall|i: int|
        0 <= i < done && i < order.len() ==> nodes[#[trigger] order[i]].children.no_duplicates()
    &&& done < order.len() ==> forall|k: int|
        0 <= k < kids ==> is_below(
            nodes,
            depth,
            order[done],
            #[trigger] nodes[order[done]].children[k],
        )
    &&& done < order.len() ==> nodes[order[done]].children.take(kids).no_duplicates()
    &&& forall|other: Map<u128, usize>, j: int| #[trigger]
        is_tree(nodes, root, other) && 0 <= j < order.len() ==> other.contains_key(
            #[trigger] order[j],
        ) && other[order[j]] == depth[order[j]]
}

/// Whether the instance at `j` is below one that was visited before it.
spec fn has_place(
    nodes: Map<u128, NodeView>,
    depth: Map<u128, usize>,
    order: Seq<u128>,
    done: int,
    kids: int,
    j: int,
) -> bool {
    exists|i: int| placed(nodes, depth, order, done, kids, j, i)
}

spec fn placed(
    nodes: Map<u128, NodeView>,
    depth: Map<u128, usize>,
    order: Seq<u128>,
    done: int,
    kids: int,
    j: int,
    i: int,
) -> bool {
    &&& 0 <= i < order.len()
    &&& i <= done
    &&& nodes[order[j]].parent == order[i]
    &&& depth[order[j]] == depth[order[i]] + 1
    &&& nodes[order[i]].children.contains(order[j])
    &&& i == done ==> nodes[order[i]].children.take(kids).contains(order[j])
}

impl Dom {
    /// The tree below the root of a `WeakDom`, whose instances have the given
    /// properties, or `None` where the instances below the root are no tree:
    /// where one is missing, is listed twice or names another parent.
    pub fn new(inner: WeakDom, properties: HashMap<u128, NameMap<Property>>) -> (dom: Option<Dom>)
        ensures
            match dom {
                Some(dom) => {
                    &&& is_tree(dom_instances(inner), dom_root(inner), dom.depths())
                    &&& dom.root() == dom_root(inner)
                    &&& dom@ == dom_instances(inner).restrict(dom.depths().dom())
                    &&& forall|id: u128| #[trigger]
                        dom.properties_of(id) == if properties@.contains_key(id) {
                            properties@[id]@
                        } else {
                            Map::empty()
                        }
                },
                None => forall|depth: Map<u128, usize>|
                    !#[trigger] is_tree(dom_instances(inner), dom_root(inner), depth),
            },
    {
        broadcast use group_hash_axioms;

        let ghost nodes = dom_instances(inner);
        let root: u128 = weak_dom_root(&inner);
        let root_parent: u128 = match weak_dom_get(&inner, root) {
            Some(node) => node.parent,
            None => {
                return None;
            },
        };
        if root == 0 {
            return None;
        }
        let mut order: Vec<u128> = Vec::new();
        let mut depth: HashMap<u128, usize> = HashMap::new();
        order.push(root);
        depth.insert(root, 0);
        let mut done: usize = 0;
        proof {
            assert(nodes[order@[0]].children.take(0).no_duplicates());
            assert(order@ =~= seq![root]);
            assert(order@.contains(order@[0]));
        }
        while done < order.len()
            invariant
                done <= order@.len(),
                nodes == dom_instances(inner),
                root == dom_root(inner),
                explored(nodes, root, depth@, order@, done as int, 0),
            decreases usize::MAX - done,
        {
            broadcast use group_hash_axioms;

            let id: u128 = order[done];
            let below: usize = match depth.get(&id) {
                Some(depth) => *depth,
                None => 0,
            };
            let node = match weak_dom_get(&inner, id) {
                Some(node) => node,
                None => {
                    return None;
                },
            };
            let mut kids: usize = 0;
            while kids < node.children.len()
                invariant
                    done < order@.len(),
                    kids <= node.children@.len(),
                    nodes == dom_instances(inner),
                    root == dom_root(inner),
                    id == order@[done as int],
                    node.deep_view() == nodes[id],
                    below == depth@[id],
                    explored(nodes, root, depth@, order@, done as int, kids as int),
                decreases node.children@.len() - kids,
            {
                broadcast use group_hash_axioms;

                let child: u128 = node.children[kids];
                let fits = match weak_dom_get(&inner, child) {
                    Some(found) => found.parent == id,
                    None => false,
                };
                if child == 0 || !fits || depth.contains_key(&child) {
                    proof {
                        assert forall|other: Map<u128, usize>|
                            !#[trigger] is_tree(nodes, root, other) by {
                            lemma_no_tree(
                                nodes,
                                root,
                                depth@,
                                order@,
                                done as int,
                                kids as int,
                                other,
                            );
                        }
                    }
                    return None;
                }
                let ghost before = (depth@, order@);
                order.push(child);
                let _seen: usize = order.len();
                assert(before.0.contains_key(before.1[done as int]));
                depth.insert(child, below + 1);
                proof {
                    lemma_child(
                        nodes,
                        root,
                        before.0,
                        before.1,
                        done as int,
                        kids as int,
                        depth@,
                        order@,
                    );
                }
                kids += 1;
            }
            proof {
                lemma_next(nodes, root, depth@, order@, done as int);
            }
            done += 1;
        }
        if depth.contains_key(&root_parent) {
            proof {
                assert forall|other: Map<u128, usize>| !#[trigger] is_tree(nodes, root, other) by {
                    if is_tree(nodes, root, other) {
                        assert(order@.contains(root_parent));
                        let j = order@.index_of(root_parent);
                        assert(other.contains_key(order@[j]));
                    }
                }
            }
            return None;
        }
        proof {
            lemma_all_explored(nodes, root, depth@, order@);
        }
        Some(Dom { inner, depth, properties, nothing: NameMap::new() })
    }
}

proof fn lemma_no_tree(
    nodes: Map<u128, NodeView>,
    root: u128,
    depth: Map<u128, usize>,
    order: Seq<u128>,
    done: int,
    kids: int,
    other: Map<u128, usize>,
)
    requires
        explored(nodes, root, depth, order, done, kids),
        0 <= done < order.len(),
        0 <= kids < nodes[order[done]].children.len(),
        ({
            let child = nodes[order[done]].children[kids];
            child == 0 || !nodes.contains_key(child) || nodes[child].parent != order[done]
                || depth.contains_key(child)
        }),
    ensures
        !is_tree(nodes, root, other),
{
    if is_tree(nodes, root, other) {
        let id = order[done];
        let list = nodes[id].children;
        let child = list[kids];
        assert(other.contains_key(id));
        assert(is_below(nodes, other, id, child));
        let j = order.index_of(child);
        assert(order[j] == child);
        if j == 0 {
            assert(other[root] == 0);
        } else {
            assert(has_place(nodes, depth, order, done, kids, j));
            let i = choose|i: int| placed(nodes, depth, order, done, kids, j, i);
            assert(i == done);
            assert(list.take(kids).contains(child));
            let k = list.take(kids).index_of(child);
            assert(list[k] == list[kids]);
        }
        assert(false);
    }
}

proof fn lemma_child(
    nodes: Map<u128, NodeView>,
    root: u128,
    depth: Map<u128, usize>,
    order: Seq<u128>,
    done: int,
    kids: int,
    depth_after: Map<u128, usize>,
    order_after: Seq<u128>,
)
    requires
        explored(nodes, root, depth, order, done, kids),
        0 <= done < order.len() < usize::MAX,
        0 <= kids < nodes[order[done]].children.len(),
        ({
            let child = nodes[order[done]].children[kids];
            &&& child != 0
            &&& nodes.contains_key(child)
            &&& nodes[child].parent == order[done]
            &&& !depth.contains_key(child)
            &&& order_after == order.push(child)
            &&& depth_after == depth.insert(child, (depth[order[done]] + 1) as usize)
        }),
    ensures
        explored(nodes, root, depth_after, order_after, done, kids + 1),
{
    let id = order[done];
    let list = nodes[id].children;
    let child = list[kids];
    let n = order.len() as int;
    assert(depth[id] <= done);
    assert(order_after[n] == child);
    assert forall|j: int| 0 <= j < n implies #[trigger] order_after[j] == order[j] && order[j]
        != child by {
        assert(depth.contains_key(order[j]));
    }
    assert forall|key: u128| #[trigger]
        depth_after.contains_key(key) <==> order_after.contains(key) by {
        if depth.contains_key(key) {
            let j = order.index_of(key);
            assert(order_after[j] == key);
        }
        if order_after.contains(key) && key != child {
            let j = order_after.index_of(key);
            assert(order[j] == key);
            assert(order.contains(key));
        }
    }
    assert forall|j: int|
        0 <= j < order_after.len() implies depth_after.contains_key(#[trigger] order_after[j])
        && depth_after[order_after[j]] <= j && nodes.contains_key(order_after[j])
        && order_after[j] != 0 && (j > 0 ==> has_place(
        nodes,
        depth_after,
        order_after,
        done,
        kids + 1,
        j,
    )) by {
        if j == 0 {
            assert(order[0] == root);
        } else if j == n {
            assert(list.take(kids + 1)[kids] == child);
            assert(placed(nodes, depth_after, order_after, done, kids + 1, j, done));
        } else {
            assert(depth.contains_key(order[j]));
            let i = choose|i: int| placed(nodes, depth, order, done, kids, j, i);
            if i == done {
                let k = list.take(kids).index_of(order[j]);
                assert(list.take(kids + 1)[k] == order[j]);
            }
            assert(placed(nodes, depth_after, order_after, done, kids + 1, j, i));
        }
    }
    assert forall|k: int| 0 <= k < kids + 1 implies is_below(
        nodes,
        depth_after,
        id,
        #[trigger] list[k],
    ) by {
        if k < kids {
            assert(is_below(nodes, depth, id, list[k]));
        }
    }
    let taken = list.take(kids + 1);
    assert(taken.no_duplicates()) by {
        assert forall|a: int, b: int|
            0 <= a < taken.len() && 0 <= b < taken.len() && a != b implies taken[a] != taken[b] by {
            if a < kids && b < kids {
                assert(list.take(kids)[a] == list[a]);
                assert(list.take(kids)[b] == list[b]);
            } else if a < kids {
                assert(is_below(nodes, depth, id, list[a]));
            } else {
                assert(is_below(nodes, depth, id, list[b]));
            }
        }
    }
    assert forall|other: Map<u128, usize>, j: int| #[trigger]
        is_tree(nodes, root, other) && 0 <= j < order_after.len() implies other.contains_key(
        #[trigger] order_after[j],
    ) && other[order_after[j]] == depth_after[order_after[j]] by {
        if j == n {
            assert(other.contains_key(order[done]));
            assert(is_below(nodes, other, id, list[kids]));
        } else {
            assert(other.contains_key(order[j]));
        }
    }
    assert forall|i: int, k: int|
        0 <= i < done && i < order_after.len() && 0 <= k
            < nodes[order_after[i]].children.len() implies is_below(
        nodes,
        depth_after,
        order_after[i],
        #[trigger] nodes[order_after[i]].children[k],
    ) by {
        assert(is_below(nodes, depth, order[i], nodes[order[i]].children[k]));
    }
}

proof fn lemma_next(
    nodes: Map<u128, NodeView>,
    root: u128,
    depth: Map<u128, usize>,
    order: Seq<u128>,
    done: int,
)
    requires
        0 <= done < order.len(),
        explored(nodes, root, depth, order, done, nodes[order[done]].children.len() as int),
    ensures
        explored(nodes, root, depth, order, done + 1, 0),
{
    let list = nodes[order[done]].children;
    let kids = list.len() as int;
    assert(list.take(kids) =~= list);
    assert forall|j: int| 0 <= j < order.len() implies depth.contains_key(#[trigger] order[j])
        && depth[order[j]] <= j && nodes.contains_key(order[j]) && order[j] != 0 && (j > 0
        ==> has_place(nodes, depth, order, done + 1, 0, j)) by {
        assert(depth.contains_key(order[j]));
        if j > 0 {
            let i = choose|i: int| placed(nodes, depth, order, done, kids, j, i);
            assert(placed(nodes, depth, order, done + 1, 0, j, i));
        }
    }
    if done + 1 < order.len() {
        assert(nodes[order[done + 1]].children.take(0).no_duplicates());
    }
}

proof fn lemma_all_explored(
    nodes: Map<u128, NodeView>,
    root: u128,
    depth: Map<u128, usize>,
    order: Seq<u128>,
)
    requires
        explored(nodes, root, depth, order, order.len() as int, 0),
        !depth.contains_key(nodes[root].parent),
    ensures
        is_tree(nodes, root, depth),
{
    let n = order.len() as int;
    assert(order.contains(order[0]));
    assert forall|id: u128| #[trigger] depth.contains_key(id) implies nodes.contains_key(id)
        && nodes[id].children.no_duplicates() by {
        let j = order.index_of(id);
        assert(order[j] == id);
    }
    assert forall|id: u128, i: int|
        depth.contains_key(id) && 0 <= i < nodes[id].children.len() implies is_below(
        nodes,
        depth,
        id,
        #[trigger] nodes[id].children[i],
    ) by {
        let j = order.index_of(id);
        assert(is_below(nodes, depth, order[j], nodes[order[j]].children[i]));
    }
    assert forall|id: u128| #[trigger] depth.contains_key(id) && id != root implies is_below(
        nodes,
        depth,
        nodes[id].parent,
        id,
    ) && depth.contains_key(nodes[id].parent) && nodes[nodes[id].parent].children.contains(id) by {
        let j = order.index_of(id);
        assert(has_place(nodes, depth, order, n, 0, j));
        let i = choose|i: int| placed(nodes, depth, order, n, 0, j, i);
        assert(order.contains(order[i]));
    }
}

} // verus!
