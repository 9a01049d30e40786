//! Views show all that values hold: two values with the same view hold the same.

use vstd::prelude::*;

use crate::dom::{is_instance_of, is_tree, names_to, Dom, Instance};
use crate::fs_snapshot::FsSnapshot;
use crate::instance::{empty_patch, InstanceMetadata, InstanceSnapshot, PatchSet};
use crate::json_model::JsonModel;
use crate::name_map::entry;
use crate::sync_rule::SyncRule;
use crate::syncback_snapshot::{SyncbackData, SyncbackRules};
use crate::text::slash_joined;
use crate::tree::{InstanceWithMeta, RojoTree};
use crate::unresolved::{verdict_view, Unresolved};
use crate::variant::{
    values_of, AttributeValue, AttributeView, Property, PropertyView, Variant, VariantView,
};
use crate::variant_eq::Closeness;
use crate::vfs_snapshot::{plan_view, ReadError, ReadTask};

verus! {

/// The view of a value shows its type and all that it holds.
pub proof fn lemma_values_are_shown(value: Variant)
    ensures
        match value {
            Variant::Ref(referent) => value.deep_view() == VariantView::Ref(referent),
            Variant::Bool(flag) => value.deep_view() == VariantView::Bool(flag),
            Variant::String(text) => value.deep_view() == VariantView::String(text@),
            Variant::BinaryString(bytes) => value.deep_view() == VariantView::BinaryString(bytes@),
            Variant::Attributes(attributes) => value.deep_view() == VariantView::Attributes(
                attributes@,
            ),
            Variant::SharedString(number) => value.deep_view() == VariantView::SharedString(number),
            Variant::Opaque(number) => value.deep_view() == VariantView::Opaque(number),
        },
{
    if let Variant::BinaryString(bytes) = value {
        assert(bytes.deep_view() =~= bytes@);
    }
}

/// The view of an attribute shows its type and all that it holds.
pub proof fn lemma_attributes_are_shown(value: AttributeValue)
    ensures
        match value {
            AttributeValue::String(text) => value.deep_view() == AttributeView::String(text@),
            AttributeValue::BinaryString(bytes) => value.deep_view()
                == AttributeView::BinaryString(bytes@),
            AttributeValue::Opaque(number) => value.deep_view() == AttributeView::Opaque(number),
        },
{
    if let AttributeValue::BinaryString(bytes) = value {
        assert(bytes.deep_view() =~= bytes@);
    }
}

/// The view of a property shows its value and whether that is at its default.
pub proof fn lemma_properties_are_shown(
    property: Property,
    properties: Map<Seq<char>, PropertyView>,
    name: Seq<char>,
)
    ensures
        property.deep_view().value == property.value.deep_view(),
        property.deep_view().at_default == property.at_default,
        values_of(properties).contains_key(name) <==> properties.contains_key(name),
        properties.contains_key(name) ==> values_of(properties)[name] == properties[name].value,
{
}

/// The view of metadata shows all of them.
pub proof fn lemma_metadata_are_shown(metadata: InstanceMetadata)
    ensures
        ({
            let view = metadata.deep_view();
            &&& match metadata.instigating_source {
                Some(path) => view.instigating_source == Some(path@),
                None => view.instigating_source is None,
            }
            &&& view.relevant_paths.len() == metadata.relevant_paths@.len()
            &&& forall|i: int|
                0 <= i < metadata.relevant_paths@.len() ==> #[trigger] view.relevant_paths[i]
                    == metadata.relevant_paths@[i]@
            &&& match metadata.specified_id {
                Some(id) => view.specified_id == Some(id@),
                None => view.specified_id is None,
            }
            &&& view.middleware == metadata.middleware
            &&& view.settings == metadata.settings
            &&& view.context.settings == metadata.context.settings
            &&& view.context.sync_rules.len() == metadata.context.sync_rules@.len()
            &&& forall|i: int|
                0 <= i < metadata.context.sync_rules@.len() ==> (
                #[trigger] view.context.sync_rules[i])
                    == metadata.context.sync_rules@[i].deep_view()
        }),
{
}

/// The view of a sync rule shows all of it.
pub proof fn lemma_sync_rules_are_shown(rule: SyncRule)
    ensures
        ({
            let view = rule.deep_view();
            &&& view.middleware == rule.middleware
            &&& view.pattern == rule.pattern.deep_view()
            &&& match rule.exclude {
                Some(exclude) => view.exclude == Some(exclude.deep_view()),
                None => view.exclude is None,
            }
            &&& match rule.suffix {
                Some(suffix) => view.suffix == Some(suffix@),
                None => view.suffix is None,
            }
            &&& view.base_path == rule.base_path@
        }),
{
}

/// The view of a snapshot shows all of it, at every depth.
pub proof fn lemma_snapshots_are_shown(snapshot: InstanceSnapshot)
    ensures
        ({
            let view = snapshot.deep_view();
            &&& view.snapshot_id == snapshot.snapshot_id
            &&& view.metadata == snapshot.metadata.deep_view()
            &&& view.name == snapshot.name@
            &&& view.class_name == snapshot.class_name@
            &&& view.properties == snapshot.properties@
            &&& view.children.len() == snapshot.children@.len()
            &&& forall|i: int|
                0 <= i < snapshot.children@.len() ==> #[trigger] view.children[i]
                    == snapshot.children@[i].deep_view()
        }),
{
}

/// The view of a patch set shows all of it.
pub proof fn lemma_patches_are_shown(patch: PatchSet)
    ensures
        ({
            let view = patch.deep_view();
            &&& view.removed == patch.removed_instances@
            &&& view.added.len() == patch.added_instances@.len()
            &&& forall|i: int|
                0 <= i < patch.added_instances@.len() ==> {
                    let add = patch.added_instances@[i];
                    &&& (#[trigger] view.added[i]).parent_id == add.parent_id
                    &&& view.added[i].instance == add.instance.deep_view()
                }
            &&& view.updated.len() == patch.updated_instances@.len()
            &&& forall|i: int|
                0 <= i < patch.updated_instances@.len() ==> {
                    let update = patch.updated_instances@[i];
                    &&& (#[trigger] view.updated[i]).id == update.id
                    &&& view.updated[i].changed_properties == update.changed_properties@
                    &&& match update.changed_name {
                        Some(name) => view.updated[i].changed_name == Some(name@),
                        None => view.updated[i].changed_name is None,
                    }
                    &&& match update.changed_class_name {
                        Some(class) => view.updated[i].changed_class_name == Some(class@),
                        None => view.updated[i].changed_class_name is None,
                    }
                    &&& match update.changed_metadata {
                        Some(metadata) => view.updated[i].changed_metadata == Some(
                            metadata.deep_view(),
                        ),
                        None => view.updated[i].changed_metadata is None,
                    }
                }
        }),
        empty_patch().removed.len() == 0,
        empty_patch().added.len() == 0,
        empty_patch().updated.len() == 0,
{
}

/// The view of a model shows all of it, at every depth.
pub proof fn lemma_models_are_shown(model: JsonModel)
    ensures
        ({
            let view = model.deep_view();
            &&& match model.name {
                Some(name) => view.name == Some(name@),
                None => view.name is None,
            }
            &&& view.class_name == model.class_name@
            &&& match model.id {
                Some(id) => view.id == Some(id@),
                None => view.id is None,
            }
            &&& view.properties == model.properties@
            &&& view.attributes == model.attributes@
            &&& view.children.len() == model.children@.len()
            &&& forall|i: int|
                0 <= i < model.children@.len() ==> #[trigger] view.children[i]
                    == model.children@[i].deep_view()
        }),
{
}

/// The view of an unresolved value shows what it resolves to, or why it does not, and
/// that of a comparison its result or why it failed.
pub proof fn lemma_outcomes_are_shown<V: DeepView>(
    value: Unresolved<V>,
    verdict: Result<bool, String>,
    plan: Result<Option<ReadTask>, ReadError>,
)
    ensures
        match value.resolved {
            Ok(resolved) => value.deep_view() == Ok::<V::V, Seq<char>>(resolved.deep_view()),
            Err(reason) => value.deep_view() == Err::<V::V, Seq<char>>(reason@),
        },
        match verdict {
            Ok(yes) => verdict_view(verdict) == Ok::<bool, Seq<char>>(yes),
            Err(reason) => verdict_view(verdict) == Err::<bool, Seq<char>>(reason@),
        },
        match plan {
            Ok(Some(task)) => plan_view(plan) matches Ok(Some(view)) && view.middleware
                == task.middleware && view.path == task.path@ && view.name == task.name@,
            Ok(None) => plan_view(plan) matches Ok(None),
            Err(error) => plan_view(plan) matches Err(view) && view == error,
        },
{
}

/// The view of an instance shows all of it but for its referent.
pub proof fn lemma_instances_are_shown(instance: InstanceWithMeta)
    ensures
        instance@.parent == instance.parent,
        instance@.name == instance.name@,
        instance@.class_name == instance.class_name@,
        instance@.children == instance.children@,
        instance@.properties == instance.properties@,
        instance@.metadata == instance.metadata.deep_view(),
{
}

/// The view of a tree shows its instances as they stand in the tree that it is made
/// of, with their metadata, and the identifiers that the user has given.
pub proof fn lemma_trees_are_shown(tree: RojoTree, id: u128)
    ensures
        tree@.root == tree.dom().root(),
        tree@.specified == tree.specified(),
        tree@.instances.contains_key(id) <==> tree.dom()@.contains_key(id),
        tree@.instances.contains_key(id) ==> {
            let instance = tree@.instances[id];
            let node = tree.dom()@[id];
            &&& instance.parent == node.parent
            &&& instance.name == node.name
            &&& instance.class_name == node.class
            &&& instance.children == node.children
            &&& instance.properties == tree.dom().properties_of(id)
            &&& instance.metadata == tree.metadata_of(id)
        },
{
}

/// An instance that is found under a referent has that referent, and the place, the
/// name, the class, the children and the properties that the tree gives it.
pub proof fn lemma_found_instances_are_shown(instance: Instance, dom: Dom, id: u128)
    requires
        is_instance_of(instance, dom, id),
    ensures
        instance.referent == id,
        dom@.contains_key(id),
        dom@[id].parent == instance.parent,
        dom@[id].name == instance.name@,
        dom@[id].class == instance.class@,
        dom@[id].children == instance.children@,
        dom.properties_of(id) == instance.properties@,
{
}

/// The path of the root is its name, and what is not in a tree has no path.
pub proof fn lemma_path_of_root(dom: Dom, id: u128)
    requires
        is_tree(dom@, dom.root(), dom.depths()),
        dom@.dom() == dom.depths().dom(),
    ensures
        slash_joined(names_to(dom@, dom.depths(), dom.root())) == dom@[dom.root()].name,
        !dom@.contains_key(id) ==> slash_joined(names_to(dom@, dom.depths(), id)) == Seq::<
            char,
        >::empty(),
{
    let root = dom.root();
    assert(!dom.depths().dom().contains(dom@[root].parent));
    assert(dom.depths().dom().contains(root));
}

/// The view of the rules of a project shows all of them.
pub proof fn lemma_rules_are_shown(rules: SyncbackRules)
    ensures
        ({
            let view = rules.deep_view();
            &&& view.ignore_trees.len() == rules.ignore_trees@.len()
            &&& forall|i: int|
                0 <= i < rules.ignore_trees@.len() ==> #[trigger] view.ignore_trees[i]
                    == rules.ignore_trees@[i]@
            &&& view.ignore_paths.len() == rules.ignore_paths@.len()
            &&& forall|i: int|
                0 <= i < rules.ignore_paths@.len() ==> #[trigger] view.ignore_paths[i]
                    == rules.ignore_paths@[i].deep_view()
            &&& view.ignore_properties == rules.ignore_properties@
            &&& view.sync_current_camera == rules.sync_current_camera
            &&& view.sync_unscriptable == rules.sync_unscriptable
        }),
{
}

/// What a project says of syncback is known wherever it says anything.
pub proof fn lemma_rules_are_known<'sync>(data: SyncbackData<'sync>)
    ensures
        match data.syncback_rules {
            Some(rules) => data.rules() == Some(rules.deep_view()),
            None => data.rules() is None,
        },
{
}

/// The view of changes to a file system shows the files with their contents and the
/// paths, in whatever order they came.
pub proof fn lemma_changes_are_shown(changes: FsSnapshot, path: Seq<char>)
    ensures
        changes.deep_view().added_files == changes.added_files@,
        changes.deep_view().added_dirs.contains(path) <==> changes.added_dirs.deep_view().contains(
            path,
        ),
        changes.deep_view().removed_files.contains(path)
            <==> changes.removed_files.deep_view().contains(path),
        changes.deep_view().removed_dirs.contains(path)
            <==> changes.removed_dirs.deep_view().contains(path),
{
}

/// The pairs that are close are those that are listed.
pub proof fn lemma_close_pairs_are_shown(close: Closeness, pair: (u64, u64))
    ensures
        close@.contains(pair) <==> close.pairs@.contains(pair),
{
}

/// What stands under a key is found there, and nothing is found under another.
pub proof fn lemma_entries_are_found<K, V>(map: Map<K, V>, key: K)
    ensures
        match entry(map, key) {
            Some(value) => map.contains_key(key) && map[key] == value,
            None => !map.contains_key(key),
        },
{
}

} // verus!
