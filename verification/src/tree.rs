//! The tree of instances that stands for what is on the file system.

use std::collections::HashMap;
use vstd::prelude::*;
use vstd::std_specs::hash::*;

use crate::dom::Dom;
use crate::instance::{blank_metadata, InstanceMetadata, MetadataView};
use crate::name_map::NameMap;
use crate::variant::{values_of, Property, PropertyView, VariantView};

verus! {

/// An instance with its metadata.
#[derive(Debug)]
pub struct InstanceWithMeta<'a> {
    pub id: u128,
    pub parent: u128,
    pub name: String,
    pub class_name: String,
    pub children: Vec<u128>,
    pub properties: &'a NameMap<Property>,
    pub metadata: &'a InstanceMetadata,
}

/// What an [`InstanceWithMeta`] holds, but for its referent.
pub struct TreeInstanceView {
    pub parent: u128,
    pub name: Seq<char>,
    pub class_name: Seq<char>,
    pub children: Seq<u128>,
    pub properties: Map<Seq<char>, PropertyView>,
    pub metadata: MetadataView,
}

impl TreeInstanceView {
    /// The values of the properties.
    pub open spec fn values(self) -> Map<Seq<char>, VariantView> {
        values_of(self.properties)
    }
}

impl<'a> View for InstanceWithMeta<'a> {
    type V = TreeInstanceView;

    open spec fn view(&self) -> TreeInstanceView {
        TreeInstanceView {
            parent: self.parent,
            name: self.name@,
            class_name: self.class_name@,
            children: self.children@,
            properties: self.properties@,
            metadata: self.metadata.deep_view(),
        }
    }
}

/// A tree of instances with their metadata, some of which have an identifier
/// that the user has given to them.
pub struct RojoTree {
    inner: Dom,
    metadata: HashMap<u128, InstanceMetadata>,
    blank: InstanceMetadata,
    specified_ids: NameMap<u128>,
}

/// What a [`RojoTree`] holds.
pub struct TreeView {
    pub root: u128,
    pub instances: Map<u128, TreeInstanceView>,
    pub specified: Map<Seq<char>, u128>,
}

impl TreeView {
    /// Whether the root and the children of each instance are in the tree, and
    /// the root is nobody's child.
    pub open spec fn closed_below(self) -> bool {
        &&& self.instances.contains_key(self.root)
        &&& forall|id: u128, i: int|
            self.instances.contains_key(id) && 0 <= i < self.instances[id].children.len()
                ==> self.instances.contains_key(#[trigger] self.instances[id].children[i])
                && self.instances[id].children[i] != self.root
    }
}

/// Whether each child of an instance is one step deeper, names it as its parent,
/// and is listed once.
pub open spec fn is_layered(tree: TreeView, depth: Map<u128, usize>) -> bool {
    &&& forall|id: u128, i: int|
        tree.instances.contains_key(id) && 0 <= i < tree.instances[id].children.len()
            ==> is_layer_below(tree, depth, id, #[trigger] tree.instances[id].children[i])
    &&& forall|id: u128| #[trigger]
        tree.instances.contains_key(id) ==> tree.instances[id].children.no_duplicates()
}

/// Whether `child` is in the tree, one step below its parent `id`.
pub open spec fn is_layer_below(
    tree: TreeView,
    depth: Map<u128, usize>,
    id: u128,
    child: u128,
) -> bool {
    &&& tree.instances.contains_key(child)
    &&& depth[child] == depth[id] + 1
    &&& tree.instances[child].parent == id
}

impl View for RojoTree {
    type V = TreeView;

    open spec fn view(&self) -> TreeView {
        TreeView {
            root: self.dom().root(),
            instances: Map::new(
                |id: u128| self.dom()@.contains_key(id),
                |id: u128|
                    TreeInstanceView {
                        parent: self.dom()@[id].parent,
                        name: self.dom()@[id].name,
                        class_name: self.dom()@[id].class,
                        children: self.dom()@[id].children,
                        properties: self.dom().properties_of(id),
                        metadata: self.metadata_of(id),
                    },
            ),
            specified: self.specified(),
        }
    }
}

impl RojoTree {
    #[verifier::type_invariant]
    spec fn well_formed(self) -> bool {
        self.blank.deep_view() == blank_metadata()
    }

    /// The tree without its metadata.
    pub closed spec fn dom(self) -> Dom {
        self.inner
    }

    /// The metadata of an instance.
    pub closed spec fn metadata_of(self, id: u128) -> MetadataView {
        if self.metadata@.contains_key(id) {
            self.metadata@[id].deep_view()
        } else {
            blank_metadata()
        }
    }

    /// The instances to which the user has given an identifier.
    pub closed spec fn specified(self) -> Map<Seq<char>, u128> {
        self.specified_ids@
    }

    /// A tree whose instances have the given metadata, blank where there is
    /// none, and the given identifiers.
    pub fn new(
        inner: Dom,
        metadata: HashMap<u128, InstanceMetadata>,
        specified_ids: NameMap<u128>,
    ) -> (tree: RojoTree)
        ensures
            tree.dom() == inner,
            tree.specified() == specified_ids@,
            forall|id: u128| #[trigger]
                tree.metadata_of(id) == if metadata@.contains_key(id) {
                    metadata@[id].deep_view()
                } else {
                    blank_metadata()
                },
    {
        RojoTree { inner, metadata, blank: InstanceMetadata::new(), specified_ids }
    }

    /// The tree without its metadata.
    pub fn inner(&self) -> (inner: &Dom)
        ensures
            *inner == self.dom(),
    {
        &self.inner
    }

    /// The referent of the root.
    pub fn get_root_id(&self) -> (root: u128)
        ensures
            root == self@.root,
            self@.closed_below(),
            is_layered(self@, self.dom().depths()),
    {
        let root: u128 = self.inner.root_ref();
        root
    }

    /// The instance with a referent.
    pub fn get_instance(&self, id: u128) -> (instance: Option<InstanceWithMeta<'_>>)
        ensures
            match instance {
                Some(instance) => instance.id == id && self@.instances.contains_key(id)
                    && instance@ == self@.instances[id],
                None => !self@.instances.contains_key(id),
            },
    {
        broadcast use group_hash_axioms;

        proof {
            use_type_invariant(self);
        }
        match self.inner.get_by_ref(id) {
            Some(instance) => {
                let metadata = match self.metadata.get(&id) {
                    Some(metadata) => metadata,
                    None => &self.blank,
                };
                Some(
                    InstanceWithMeta {
                        id,
                        parent: instance.parent,
                        name: instance.name,
                        class_name: instance.class,
                        children: instance.children,
                        properties: instance.properties,
                        metadata,
                    },
                )
            },
            None => None,
        }
    }

    /// The instance to which the user has given an identifier.
    pub fn get_specified_id(&self, specified: &str) -> (id: Option<u128>)
        ensures
            id == if self@.specified.contains_key(specified@) {
                Some(self@.specified[specified@])
            } else {
                None
            },
    {
        match self.specified_ids.get(specified) {
            Some(id) => Some(*id),
            None => None,
        }
    }
}

} // verus!
