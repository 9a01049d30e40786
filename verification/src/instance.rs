//! Snapshots of instances, their metadata, and patches made of them.

use vstd::prelude::*;

use crate::middleware::Middleware;
use crate::name_map::NameMap;
use crate::plain::Plain;
use crate::sync_rule::{SyncRule, SyncRuleView};
use crate::variant::{Variant, VariantView};

verus! {

/// What a project sets for the instances under it.
#[derive(Debug)]
pub struct InstanceContext {
    /// The sync rules that the user has written.
    pub sync_rules: Vec<SyncRule>,
    /// A number for all other settings: equal for equal settings.
    pub settings: u64,
}

/// What an [`InstanceContext`] holds.
pub struct ContextView {
    pub sync_rules: Seq<SyncRuleView>,
    pub settings: u64,
}

impl DeepView for InstanceContext {
    type V = ContextView;

    open spec fn deep_view(&self) -> ContextView {
        ContextView { sync_rules: self.sync_rules.deep_view(), settings: self.settings }
    }
}

impl Plain for InstanceContext {
    fn same(&self, other: &Self) -> (same: bool) {
        self.settings == other.settings && self.sync_rules.same(&other.sync_rules)
    }

    fn duplicate(&self) -> (copy: Self) {
        InstanceContext { sync_rules: self.sync_rules.duplicate(), settings: self.settings }
    }
}

/// Where an instance comes from and how it is to be handled.
#[derive(Debug)]
pub struct InstanceMetadata {
    /// The path that brought the instance into being.
    pub instigating_source: Option<String>,
    /// The paths that matter to the instance.
    pub relevant_paths: Vec<String>,
    pub context: InstanceContext,
    /// The identifier that the user has given to the instance.
    pub specified_id: Option<String>,
    pub middleware: Option<Middleware>,
    /// A number for all other settings: equal for equal settings.
    pub settings: u64,
}

/// What an [`InstanceMetadata`] holds.
pub struct MetadataView {
    pub instigating_source: Option<Seq<char>>,
    pub relevant_paths: Seq<Seq<char>>,
    pub context: ContextView,
    pub specified_id: Option<Seq<char>>,
    pub middleware: Option<Middleware>,
    pub settings: u64,
}

impl DeepView for InstanceMetadata {
    type V = MetadataView;

    open spec fn deep_view(&self) -> MetadataView {
        MetadataView {
            instigating_source: self.instigating_source.deep_view(),
            relevant_paths: self.relevant_paths.deep_view(),
            context: self.context.deep_view(),
            specified_id: self.specified_id.deep_view(),
            middleware: self.middleware,
            settings: self.settings,
        }
    }
}

impl Plain for InstanceMetadata {
    fn same(&self, other: &Self) -> (same: bool) {
        self.instigating_source.same(&other.instigating_source)
            && self.relevant_paths.same(&other.relevant_paths) && self.context.same(&other.context)
            && self.specified_id.same(&other.specified_id) && self.middleware.same(
            &other.middleware,
        ) && self.settings == other.settings
    }

    fn duplicate(&self) -> (copy: Self) {
        InstanceMetadata {
            instigating_source: self.instigating_source.duplicate(),
            relevant_paths: self.relevant_paths.duplicate(),
            context: self.context.duplicate(),
            specified_id: self.specified_id.duplicate(),
            middleware: self.middleware,
            settings: self.settings,
        }
    }
}

/// The metadata of an instance of which nothing is known.
pub open spec fn blank_metadata() -> MetadataView {
    MetadataView {
        instigating_source: None,
        relevant_paths: Seq::empty(),
        context: ContextView { sync_rules: Seq::empty(), settings: 0 },
        specified_id: None,
        middleware: None,
        settings: 0,
    }
}

impl InstanceMetadata {
    /// The metadata of an instance of which nothing is known.
    pub fn new() -> (metadata: InstanceMetadata)
        ensures
            metadata.deep_view() == blank_metadata(),
    {
        let metadata = InstanceMetadata {
            instigating_source: None,
            relevant_paths: Vec::new(),
            context: InstanceContext { sync_rules: Vec::new(), settings: 0 },
            specified_id: None,
            middleware: None,
            settings: 0,
        };
        assert(metadata.deep_view().relevant_paths =~= Seq::<Seq<char>>::empty());
        assert(metadata.deep_view().context.sync_rules =~= Seq::<SyncRuleView>::empty());
        metadata
    }
}

/// A description of an instance and its descendants, not tied to a tree.
#[derive(Debug)]
pub struct InstanceSnapshot {
    /// A referent by which other properties of the snapshot may point to the
    /// instance, or 0 for none.
    pub snapshot_id: u128,
    pub metadata: InstanceMetadata,
    pub name: String,
    pub class_name: String,
    pub properties: NameMap<Variant>,
    pub children: Vec<InstanceSnapshot>,
}

/// What an [`InstanceSnapshot`] holds.
pub struct SnapshotView {
    pub snapshot_id: u128,
    pub metadata: MetadataView,
    pub name: Seq<char>,
    pub class_name: Seq<char>,
    pub properties: Map<Seq<char>, VariantView>,
    pub children: Seq<SnapshotView>,
}

impl InstanceSnapshot {
    /// What the snapshot holds.
    pub open spec fn contents(self) -> SnapshotView
        decreases self,
    {
        SnapshotView {
            snapshot_id: self.snapshot_id,
            metadata: self.metadata.deep_view(),
            name: self.name@,
            class_name: self.class_name@,
            properties: self.properties@,
            children: Seq::new(
                self.children@.len(),
                |i: int|
                    if 0 <= i < self.children@.len() {
                        self.children@[i].contents()
                    } else {
                        arbitrary()
                    },
            ),
        }
    }

    /// The children of what a snapshot holds are what its children hold.
    pub proof fn lemma_children(self)
        ensures
            self.contents().children == self.children.deep_view(),
            self.contents().children.len() == self.children@.len(),
            forall|i: int|
                0 <= i < self.children@.len() ==> #[trigger] self.contents().children[i]
                    == self.children@[i].contents(),
    {
    }
}

impl DeepView for InstanceSnapshot {
    type V = SnapshotView;

    open spec fn deep_view(&self) -> SnapshotView {
        self.contents()
    }
}

/// An instance to be added under a parent.
#[derive(Debug)]
pub struct PatchAdd {
    pub parent_id: u128,
    pub instance: InstanceSnapshot,
}

/// What a [`PatchAdd`] holds.
pub struct AddView {
    pub parent_id: u128,
    pub instance: SnapshotView,
}

impl DeepView for PatchAdd {
    type V = AddView;

    open spec fn deep_view(&self) -> AddView {
        AddView { parent_id: self.parent_id, instance: self.instance.contents() }
    }
}

/// Changes of an instance. Fields that are `None` do not change; a property
/// that changes to `None` is removed.
#[derive(Debug)]
pub struct PatchUpdate {
    pub id: u128,
    pub changed_name: Option<String>,
    pub changed_class_name: Option<String>,
    pub changed_properties: NameMap<Option<Variant>>,
    pub changed_metadata: Option<InstanceMetadata>,
}

/// What a [`PatchUpdate`] holds.
pub struct UpdateView {
    pub id: u128,
    pub changed_name: Option<Seq<char>>,
    pub changed_class_name: Option<Seq<char>>,
    pub changed_properties: Map<Seq<char>, Option<VariantView>>,
    pub changed_metadata: Option<MetadataView>,
}

impl DeepView for PatchUpdate {
    type V = UpdateView;

    open spec fn deep_view(&self) -> UpdateView {
        UpdateView {
            id: self.id,
            changed_name: self.changed_name.deep_view(),
            changed_class_name: self.changed_class_name.deep_view(),
            changed_properties: self.changed_properties@,
            changed_metadata: self.changed_metadata.deep_view(),
        }
    }
}

/// Instances to be removed, added and changed.
#[derive(Debug)]
pub struct PatchSet {
    pub removed_instances: Vec<u128>,
    pub added_instances: Vec<PatchAdd>,
    pub updated_instances: Vec<PatchUpdate>,
}

/// What a [`PatchSet`] holds.
pub struct PatchView {
    pub removed: Seq<u128>,
    pub added: Seq<AddView>,
    pub updated: Seq<UpdateView>,
}

impl DeepView for PatchSet {
    type V = PatchView;

    open spec fn deep_view(&self) -> PatchView {
        PatchView {
            removed: self.removed_instances@,
            added: self.added_instances.deep_view(),
            updated: self.updated_instances.deep_view(),
        }
    }
}

/// The patch set that changes nothing.
pub open spec fn empty_patch() -> PatchView {
    PatchView { removed: Seq::empty(), added: Seq::empty(), updated: Seq::empty() }
}

impl PatchSet {
    /// A patch set that changes nothing.
    pub fn new() -> (patch: PatchSet)
        ensures
            patch.deep_view() == empty_patch(),
    {
        let patch = PatchSet {
            removed_instances: Vec::new(),
            added_instances: Vec::new(),
            updated_instances: Vec::new(),
        };
        assert(patch.added_instances.deep_view() =~= Seq::<AddView>::empty());
        assert(patch.updated_instances.deep_view() =~= Seq::<UpdateView>::empty());
        patch
    }
}

} // verus!
