//! Computes a roughly minimal patch set from a tree of instances and a snapshot
//! of what it should become.

use std::collections::HashMap;
use vstd::prelude::*;
use vstd::std_specs::hash::*;
use vstd::utf8::{decode_utf8, valid_utf8};

use crate::instance::{
    empty_patch, AddView, InstanceSnapshot, PatchAdd, PatchSet, PatchUpdate, PatchView,
    SnapshotView, UpdateView,
};
use crate::name_map::{entry, lemma_all_taken, lemma_same_entries, lemma_taken, NameMap};
use crate::plain::Plain;
use crate::text::{same_text, strip_prefix, utf8_text};
use crate::tree::{InstanceWithMeta, RojoTree, TreeInstanceView, TreeView};
use crate::variant::{AttributeValue, AttributeView, Variant, VariantView};

verus! {

/// The attributes among some properties.
pub open spec fn attributes_in(properties: Map<Seq<char>, VariantView>) -> Map<
    Seq<char>,
    AttributeView,
> {
    match entry(properties, "Attributes"@) {
        Some(VariantView::Attributes(attributes)) => attributes,
        _ => Map::empty(),
    }
}

/// The identifier that an attribute holds: a string, or bytes that are one.
pub open spec fn pointed_id(value: AttributeView) -> Option<Seq<char>> {
    match value {
        AttributeView::String(text) => Some(text),
        AttributeView::BinaryString(bytes) => if valid_utf8(bytes) {
            Some(decode_utf8(bytes))
        } else {
            None
        },
        AttributeView::Opaque(_) => None,
    }
}

/// What the name of an attribute starts with that points a property to the
/// instance with an identifier.
pub open spec fn pointer_prefix() -> Seq<char> {
    "Rojo_Target_"@
}

/// The properties that attributes point to the instances with an identifier:
/// `None` where no instance has the identifier.
pub open spec fn ref_properties(
    properties: Map<Seq<char>, VariantView>,
    specified: Map<Seq<char>, u128>,
) -> Map<Seq<char>, Option<VariantView>> {
    let attributes = attributes_in(properties);
    Map::new(
        |name: Seq<char>|
            attributes.contains_key(pointer_prefix() + name) && pointed_id(
                attributes[pointer_prefix() + name],
            ) is Some,
        |name: Seq<char>| pointed_ref(attributes[pointer_prefix() + name], specified),
    )
}

/// The instance to which an attribute points.
pub open spec fn pointed_ref(value: AttributeView, specified: Map<Seq<char>, u128>) -> Option<
    VariantView,
> {
    match pointed_id(value) {
        Some(id) => match entry(specified, id) {
            Some(target) => Some(VariantView::Ref(target)),
            None => None,
        },
        None => None,
    }
}

proof fn lemma_prefix_kept(a: Seq<char>, b: Seq<char>)
    ensures
        pointer_prefix() + a == pointer_prefix() + b ==> a == b,
{
    let n = pointer_prefix().len() as int;
    assert((pointer_prefix() + b).skip(n) =~= b);
}

/// The properties that the attributes of a snapshot point to instances of the
/// tree. An attribute that holds no string is passed over.
fn compute_ref_properties(snapshot: &InstanceSnapshot, tree: &RojoTree) -> (map: NameMap<
    Option<Variant>,
>)
    ensures
        map@ == ref_properties(snapshot.properties@, tree@.specified),
{
    let ghost wanted = ref_properties(snapshot.properties@, tree@.specified);
    let mut map: NameMap<Option<Variant>> = NameMap::new();
    let attributes = match snapshot.properties.get("Attributes") {
        Some(Variant::Attributes(attributes)) => attributes,
        _ => {
            return map;
        },
    };
    let len: usize = attributes.len();
    let mut i: usize = 0;
    while i < len
        invariant
            i <= len,
            len == attributes.names().len(),
            attributes@.dom() == attributes.names().to_set(),
            attributes@ == attributes_in(snapshot.properties@),
            wanted == ref_properties(snapshot.properties@, tree@.specified),
            forall|name: Seq<char>| #[trigger]
                map@.contains_key(name) <==> wanted.contains_key(name) && attributes.names().take(
                    i as int,
                ).contains(pointer_prefix() + name),
            forall|name: Seq<char>| #[trigger]
                map@.contains_key(name) ==> map@[name] == wanted[name],
        decreases len - i,
    {
        let ghost names = attributes.names();
        let ghost before = map@;
        let attr_name = attributes.name_at(i);
        let attr_value = attributes.value_at(i);
        if let Some(prop_name) = strip_prefix(attr_name.as_str(), "Rojo_Target_") {
            assert(names[i as int].skip(pointer_prefix().len() as int) =~= prop_name@);
            let id = match attr_value {
                AttributeValue::String(text) => Some(text.clone()),
                AttributeValue::BinaryString(bytes) => {
                    assert(bytes.deep_view() =~= bytes@);
                    utf8_text(bytes.as_slice())
                },
                AttributeValue::Opaque(_) => None,
            };
            if let Some(id) = id {
                let target = match tree.get_specified_id(id.as_str()) {
                    Some(target) => Some(Variant::Ref(target)),
                    None => None,
                };
                map.insert(prop_name.to_owned(), target);
            }
        }
        proof {
            lemma_ref_step(names, wanted, before, map@, i as int, attributes@, tree@.specified);
        }
        i += 1;
    }
    assert(attributes.names().take(i as int) =~= attributes.names());
    map
}

proof fn lemma_ref_step(
    names: Seq<Seq<char>>,
    wanted: Map<Seq<char>, Option<VariantView>>,
    before: Map<Seq<char>, Option<VariantView>>,
    after: Map<Seq<char>, Option<VariantView>>,
    i: int,
    attributes: Map<Seq<char>, AttributeView>,
    specified: Map<Seq<char>, u128>,
)
    requires
        0 <= i < names.len(),
        attributes.contains_key(names[i]),
        wanted == Map::new(
            |name: Seq<char>|
                attributes.contains_key(pointer_prefix() + name) && pointed_id(
                    attributes[pointer_prefix() + name],
                ) is Some,
            |name: Seq<char>| pointed_ref(attributes[pointer_prefix() + name], specified),
        ),
        forall|name: Seq<char>| #[trigger]
            before.contains_key(name) <==> wanted.contains_key(name) && names.take(i).contains(
                pointer_prefix() + name,
            ),
        forall|name: Seq<char>| #[trigger]
            before.contains_key(name) ==> before[name] == wanted[name],
        pointer_prefix().is_prefix_of(names[i]) && pointed_id(attributes[names[i]]) is Some ==> ({
            let name = names[i].skip(pointer_prefix().len() as int);
            after == before.insert(name, pointed_ref(attributes[names[i]], specified))
        }),
        !(pointer_prefix().is_prefix_of(names[i]) && pointed_id(attributes[names[i]]) is Some)
            ==> after == before,
    ensures
        forall|name: Seq<char>| #[trigger]
            after.contains_key(name) <==> wanted.contains_key(name) && names.take(i + 1).contains(
                pointer_prefix() + name,
            ),
        forall|name: Seq<char>| #[trigger]
            after.contains_key(name) ==> after[name] == wanted[name],
{
    let prefix = pointer_prefix();
    let here = names[i].skip(prefix.len() as int);
    let taken = names.take(i + 1);
    assert(taken[i] == names[i]);
    if prefix.is_prefix_of(names[i]) {
        assert(prefix + here =~= names[i]);
    }
    assert forall|name: Seq<char>| #[trigger]
        after.contains_key(name) <==> wanted.contains_key(name) && taken.contains(
        prefix + name,
    ) by {
        lemma_prefix_kept(name, here);
    }
}

/// The properties that an instance should have: those of the snapshot, but for
/// those that attributes point to instances.
pub open spec fn desired_properties(
    properties: Map<Seq<char>, VariantView>,
    specified: Map<Seq<char>, u128>,
) -> Map<Seq<char>, VariantView> {
    let refs = ref_properties(properties, specified);
    Map::new(
        |name: Seq<char>|
            if refs.contains_key(name) {
                refs[name] is Some
            } else {
                properties.contains_key(name)
            },
        |name: Seq<char>|
            if refs.contains_key(name) {
                refs[name]->0
            } else {
                properties[name]
            },
    )
}

/// What has to change for `have` to become `want`: each differing entry, and
/// `None` for one that has to go.
pub open spec fn difference(
    have: Map<Seq<char>, VariantView>,
    want: Map<Seq<char>, VariantView>,
) -> Map<Seq<char>, Option<VariantView>> {
    Map::new(
        |name: Seq<char>| entry(have, name) != entry(want, name),
        |name: Seq<char>| entry(want, name),
    )
}

/// Whether instances of a class have a pivot that may need migration.
pub open spec fn has_pivot(class_name: Seq<char>) -> bool {
    ||| class_name == "Model"@
    ||| class_name == "Actor"@
    ||| class_name == "Tool"@
    ||| class_name == "HopperBin"@
    ||| class_name == "Flag"@
    ||| class_name == "WorldModel"@
    ||| class_name == "Workspace"@
    ||| class_name == "Status"@
}

/// The changes of properties with `NeedsPivotMigration` looked after: for a
/// class with a pivot it never is removed, and is set to `false` unless it is
/// there and changes to a boolean.
pub open spec fn with_migration(
    class_name: Seq<char>,
    have: Map<Seq<char>, VariantView>,
    changed: Map<Seq<char>, Option<VariantView>>,
) -> Map<Seq<char>, Option<VariantView>> {
    let name = "NeedsPivotMigration"@;
    if !has_pivot(class_name) {
        changed
    } else if !have.contains_key(name) {
        changed.insert(name, Some(VariantView::Bool(false)))
    } else {
        match entry(changed, name) {
            Some(Some(VariantView::Bool(_))) => changed,
            Some(None) => changed.remove(name),
            _ => changed.insert(name, Some(VariantView::Bool(false))),
        }
    }
}

/// `None` where `want` is what is there already.
pub open spec fn if_changed<T>(have: T, want: T) -> Option<T> {
    if have == want {
        None
    } else {
        Some(want)
    }
}

/// The changes that make an instance what a snapshot describes, leaving
/// children aside.
pub open spec fn update_for(
    snapshot: SnapshotView,
    instance: TreeInstanceView,
    id: u128,
    specified: Map<Seq<char>, u128>,
) -> UpdateView {
    UpdateView {
        id,
        changed_name: if_changed(instance.name, snapshot.name),
        changed_class_name: if_changed(instance.class_name, snapshot.class_name),
        changed_properties: with_migration(
            snapshot.class_name,
            instance.values(),
            difference(
                instance.values(),
                desired_properties(snapshot.properties, specified),
            ),
        ),
        changed_metadata: if_changed(instance.metadata, snapshot.metadata),
    }
}

/// Whether an update changes nothing.
pub open spec fn changes_nothing(update: UpdateView) -> bool {
    &&& update.changed_name is None
    &&& update.changed_class_name is None
    &&& update.changed_properties == Map::<Seq<char>, Option<VariantView>>::empty()
    &&& update.changed_metadata is None
}

fn needs_pivot(class_name: &str) -> (yes: bool)
    ensures
        yes == has_pivot(class_name@),
{
    same_text(class_name, "Model") || same_text(class_name, "Actor") || same_text(
        class_name,
        "Tool",
    ) || same_text(class_name, "HopperBin") || same_text(class_name, "Flag") || same_text(
        class_name,
        "WorldModel",
    ) || same_text(class_name, "Workspace") || same_text(class_name, "Status")
}

/// The differences between the properties of an instance and those that it
/// should have.
fn changed_properties_of(
    snapshot: &InstanceSnapshot,
    instance: &InstanceWithMeta,
    tree: &RojoTree,
) -> (changed: NameMap<Option<Variant>>)
    ensures
        changed@ == difference(
            instance@.values(),
            desired_properties(snapshot.properties@, tree@.specified),
        ),
{
    let ghost have = instance@.values();
    let ghost want = snapshot.properties@;
    let attribute_refs = compute_ref_properties(snapshot, tree);
    let ghost refs = attribute_refs@;
    let mut changed: NameMap<Option<Variant>> = NameMap::new();

    let len: usize = snapshot.properties.len();
    let mut i: usize = 0;
    while i < len
        invariant
            i <= len,
            len == snapshot.properties.names().len(),
            have == instance@.values(),
            want == snapshot.properties@,
            forall|name: Seq<char>| #[trigger]
                entry(changed@, name) == if snapshot.properties.names().take(i as int).contains(
                    name,
                ) {
                    if_changed(entry(have, name), Some(want[name]))
                } else {
                    None
                },
        decreases len - i,
    {
        let ghost before = changed@;
        proof {
            lemma_taken(snapshot.properties.names(), i as int);
        }
        let name = snapshot.properties.name_at(i);
        let value = snapshot.properties.value_at(i);
        let differs = match instance.properties.get(name.as_str()) {
            Some(property) => !property.value.same(value),
            None => true,
        };
        if differs {
            changed.insert(name.clone(), Some(value.duplicate()));
        }
        proof {
            assert forall|other: Seq<char>| #[trigger] entry(changed@, other)
                == if snapshot.properties.names().take(i + 1).contains(other) {
                if_changed(entry(have, other), Some(want[other]))
            } else {
                None
            } by {
                assert(other != name@ ==> entry(changed@, other) == entry(before, other));
            }
        }
        i += 1;
    }
    proof {
        lemma_all_taken(snapshot.properties.names(), i as int);
    }

    let len: usize = instance.properties.len();
    let mut i: usize = 0;
    while i < len
        invariant
            i <= len,
            len == instance.properties.names().len(),
            have == instance@.values(),
            want == snapshot.properties@,
            forall|name: Seq<char>| #[trigger]
                entry(changed@, name) == if want.contains_key(name)
                    || instance.properties.names().take(i as int).contains(name) {
                    if_changed(entry(have, name), entry(want, name))
                } else {
                    None
                },
        decreases len - i,
    {
        let ghost before = changed@;
        proof {
            lemma_taken(instance.properties.names(), i as int);
        }
        let name = instance.properties.name_at(i);
        if !snapshot.properties.contains_key(name.as_str()) {
            changed.insert(name.clone(), None);
        }
        proof {
            assert forall|other: Seq<char>| #[trigger] entry(changed@, other)
                == if want.contains_key(other) || instance.properties.names().take(
                i + 1,
            ).contains(other) {
                if_changed(entry(have, other), entry(want, other))
            } else {
                None
            } by {
                assert(other != name@ ==> entry(changed@, other) == entry(before, other));
            }
        }
        i += 1;
    }
    proof {
        lemma_all_taken(instance.properties.names(), i as int);
    }

    let len: usize = attribute_refs.len();
    let mut i: usize = 0;
    while i < len
        invariant
            i <= len,
            len == attribute_refs.names().len(),
            have == instance@.values(),
            refs == attribute_refs@,
            forall|name: Seq<char>| #[trigger]
                entry(changed@, name) == if_changed(
                    entry(have, name),
                    if attribute_refs.names().take(i as int).contains(name) {
                        refs[name]
                    } else {
                        entry(want, name)
                    },
                ),
        decreases len - i,
    {
        let ghost before = changed@;
        proof {
            lemma_taken(attribute_refs.names(), i as int);
        }
        let name = attribute_refs.name_at(i);
        let ref_value = attribute_refs.value_at(i);
        let differs = match (ref_value, instance.properties.get(name.as_str())) {
            (Some(referent), Some(property)) => !referent.same(&property.value),
            (None, None) => false,
            _ => true,
        };
        if differs {
            changed.insert(name.clone(), ref_value.duplicate());
        } else {
            changed.remove(name.as_str());
        }
        proof {
            assert forall|other: Seq<char>| #[trigger] entry(changed@, other) == if_changed(
                entry(have, other),
                if attribute_refs.names().take(i + 1).contains(other) {
                    refs[other]
                } else {
                    entry(want, other)
                },
            ) by {
                assert(other != name@ ==> entry(changed@, other) == entry(before, other));
            }
        }
        i += 1;
    }
    proof {
        lemma_all_taken(attribute_refs.names(), i as int);
        let desired = desired_properties(want, tree@.specified);
        let target = difference(have, desired);
        lemma_same_entries(changed@, target);
    }
    changed
}

/// A patch with one more update, unless that changes nothing.
pub open spec fn with_update(patch: PatchView, update: UpdateView) -> PatchView {
    if changes_nothing(update) {
        patch
    } else {
        PatchView { updated: patch.updated.push(update), ..patch }
    }
}

/// Adds to a patch what makes an instance what a snapshot describes, leaving
/// children aside.
fn compute_property_patches(
    snapshot: &InstanceSnapshot,
    instance: &InstanceWithMeta,
    patch_set: &mut PatchSet,
    tree: &RojoTree,
)
    ensures
        final(patch_set).deep_view() == with_update(
            old(patch_set).deep_view(),
            update_for(snapshot.contents(), instance@, instance.id, tree@.specified),
        ),
{
    let mut changed_properties = changed_properties_of(snapshot, instance, tree);

    let changed_name = if snapshot.name.same(&instance.name) {
        None
    } else {
        Some(snapshot.name.duplicate())
    };

    let changed_class_name = if snapshot.class_name.same(&instance.class_name) {
        None
    } else {
        Some(snapshot.class_name.duplicate())
    };

    let changed_metadata = if snapshot.metadata.same(instance.metadata) {
        None
    } else {
        Some(snapshot.metadata.duplicate())
    };

    if needs_pivot(snapshot.class_name.as_str()) {
        let name = "NeedsPivotMigration";
        let there = instance.properties.contains_key(name);
        let change = changed_properties.get(name);
        let goes = there && matches!(change, Some(None));
        let stays = there && matches!(change, Some(Some(Variant::Bool(_))));
        if goes {
            changed_properties.remove(name);
        } else if !stays {
            changed_properties.insert(name.to_owned(), Some(Variant::Bool(false)));
        }
    }
    let update = PatchUpdate {
        id: instance.id,
        changed_name,
        changed_class_name,
        changed_properties,
        changed_metadata,
    };
    if update.changed_properties.is_empty() && update.changed_name.is_none()
        && update.changed_class_name.is_none() && update.changed_metadata.is_none() {
        return ;
    }
    let ghost before = patch_set.updated_instances.deep_view();
    patch_set.updated_instances.push(update);
    assert(patch_set.updated_instances.deep_view() =~= before.push(update.deep_view()));
}

/// Whether an instance of the tree has the name and the class of a snapshot.
pub open spec fn alike(snapshot: SnapshotView, instance: TreeInstanceView) -> bool {
    snapshot.name == instance.name && snapshot.class_name == instance.class_name
}

/// The first of the instances `ids`, from `i` on, that is not taken and has the
/// name and the class of a snapshot.
pub open spec fn first_alike(
    snapshot: SnapshotView,
    tree: TreeView,
    ids: Seq<u128>,
    taken: Seq<Option<int>>,
    i: int,
) -> Option<int>
    decreases ids.len() - i,
{
    if i >= ids.len() {
        None
    } else if !taken.contains(Some(i)) && alike(snapshot, tree.instances[ids[i]]) {
        Some(i)
    } else {
        first_alike(snapshot, tree, ids, taken, i + 1)
    }
}

/// For each of some snapshots the place among `ids` of the instance that it
/// describes: the first that no earlier snapshot has taken and that has its name
/// and class.
pub open spec fn pairing(snapshots: Seq<SnapshotView>, tree: TreeView, ids: Seq<u128>) -> Seq<
    Option<int>,
>
    decreases snapshots.len(),
{
    if snapshots.len() == 0 {
        Seq::empty()
    } else {
        let taken = pairing(snapshots.drop_last(), tree, ids);
        taken.push(first_alike(snapshots.last(), tree, ids, taken, 0))
    }
}

/// The first `n` of some instances without those that are taken.
pub open spec fn untaken(ids: Seq<u128>, taken: Seq<Option<int>>, n: int) -> Seq<u128>
    decreases n,
{
    if n <= 0 {
        Seq::empty()
    } else if taken.contains(Some(n - 1)) {
        untaken(ids, taken, n - 1)
    } else {
        untaken(ids, taken, n - 1).push(ids[n - 1])
    }
}

/// Two patches, one after the other.
pub open spec fn both(first: PatchView, second: PatchView) -> PatchView {
    PatchView {
        removed: first.removed + second.removed,
        added: first.added + second.added,
        updated: first.updated + second.updated,
    }
}

/// The patch that makes the instance `id`, and all that is below it, what a
/// snapshot describes. References are still those of the snapshot.
pub open spec fn raw_patch(snapshot: SnapshotView, tree: TreeView, id: u128) -> PatchView
    decreases snapshot, 1int, 0int,
{
    let ids = tree.instances[id].children;
    let taken = pairing(snapshot.children, tree, ids);
    let own = with_update(
        empty_patch(),
        update_for(snapshot, tree.instances[id], id, tree.specified),
    );
    let below = children_patch(snapshot, tree, id, snapshot.children.len() as int);
    both(
        own,
        PatchView { removed: below.removed + untaken(ids, taken, ids.len() as int), ..below },
    )
}

/// The patches for the first `n` children of a snapshot: what is paired with an
/// instance changes that instance, what is not is added.
pub open spec fn children_patch(
    snapshot: SnapshotView,
    tree: TreeView,
    id: u128,
    n: int,
) -> PatchView
    decreases snapshot, 0int, n,
{
    if n <= 0 || n > snapshot.children.len() {
        empty_patch()
    } else {
        let child = snapshot.children[n - 1];
        let ids = tree.instances[id].children;
        both(
            children_patch(snapshot, tree, id, n - 1),
            match pairing(snapshot.children, tree, ids)[n - 1] {
                Some(i) => raw_patch(child, tree, ids[i]),
                None => PatchView {
                    added: seq![AddView { parent_id: id, instance: child }],
                    ..empty_patch()
                },
            },
        )
    }
}

/// The instances of the tree that the parts of a snapshot with an identifier of
/// their own describe, on top of those in `known`.
pub open spec fn known_ids(
    snapshot: SnapshotView,
    tree: TreeView,
    id: u128,
    known: Map<u128, u128>,
) -> Map<u128, u128>
    decreases snapshot, 1int, 0int,
{
    let own = if snapshot.snapshot_id != 0 {
        known.insert(snapshot.snapshot_id, id)
    } else {
        known
    };
    known_below(snapshot, tree, id, own, snapshot.children.len() as int)
}

/// [`known_ids`] for the first `n` children of a snapshot.
pub open spec fn known_below(
    snapshot: SnapshotView,
    tree: TreeView,
    id: u128,
    known: Map<u128, u128>,
    n: int,
) -> Map<u128, u128>
    decreases snapshot, 0int, n,
{
    if n <= 0 || n > snapshot.children.len() {
        known
    } else {
        let ids = tree.instances[id].children;
        let before = known_below(snapshot, tree, id, known, n - 1);
        match pairing(snapshot.children, tree, ids)[n - 1] {
            Some(i) => known_ids(snapshot.children[n - 1], tree, ids[i], before),
            None => before,
        }
    }
}

/// The instances of the tree by the identifiers that a snapshot gives to the
/// parts that describe them.
struct ComputePatchContext {
    snapshot_id_to_instance_id: HashMap<u128, u128>,
}

/// The pairing of some snapshots does not depend on those that follow.
pub proof fn lemma_pairing(snapshots: Seq<SnapshotView>, tree: TreeView, ids: Seq<u128>, k: int)
    requires
        0 <= k <= snapshots.len(),
    ensures
        pairing(snapshots, tree, ids).len() == snapshots.len(),
        pairing(snapshots, tree, ids).take(k) == pairing(snapshots.take(k), tree, ids),
        k < snapshots.len() ==> pairing(snapshots, tree, ids)[k] == first_alike(
            snapshots[k],
            tree,
            ids,
            pairing(snapshots.take(k), tree, ids),
            0,
        ),
    decreases snapshots.len() - k + snapshots.len(),
{
    if snapshots.len() > 0 {
        let front = snapshots.drop_last();
        if k == snapshots.len() {
            lemma_pairing(front, tree, ids, front.len() as int);
            assert(snapshots.take(k) =~= snapshots);
        } else {
            lemma_pairing(front, tree, ids, k);
            assert(front.take(k) =~= snapshots.take(k));
        }
    }
}

/// What [`first_alike`] finds is free and alike, and nothing before it is.
pub proof fn lemma_first_alike(
    snapshot: SnapshotView,
    tree: TreeView,
    ids: Seq<u128>,
    taken: Seq<Option<int>>,
    i: int,
)
    requires
        0 <= i,
    ensures
        match first_alike(snapshot, tree, ids, taken, i) {
            Some(j) => i <= j < ids.len() && !taken.contains(Some(j)) && alike(
                snapshot,
                tree.instances[ids[j]],
            ) && forall|m: int|
                i <= m < j && !(#[trigger] taken.contains(Some(m))) ==> !alike(
                    snapshot,
                    tree.instances[ids[m]],
                ),
            None => forall|m: int|
                i <= m < ids.len() && !(#[trigger] taken.contains(Some(m))) ==> !alike(
                    snapshot,
                    tree.instances[ids[m]],
                ),
        },
    decreases ids.len() - i,
{
    if i < ids.len() && !(!taken.contains(Some(i)) && alike(snapshot, tree.instances[ids[i]])) {
        lemma_first_alike(snapshot, tree, ids, taken, i + 1);
    }
}

/// The first instance that is free and has the name and the class of a
/// snapshot.
fn find_alike(
    snapshot: &InstanceSnapshot,
    tree: &RojoTree,
    ids: &Vec<u128>,
    paired: &Vec<bool>,
    taken: Ghost<Seq<Option<int>>>,
) -> (found: Option<usize>)
    requires
        tree@.closed_below(),
        forall|i: int| 0 <= i < ids@.len() ==> tree@.instances.contains_key(#[trigger] ids@[i]),
        paired@.len() == ids@.len(),
        forall|i: int| 0 <= i < ids@.len() ==> #[trigger] paired@[i] == taken@.contains(Some(i)),
    ensures
        match found {
            Some(i) => first_alike(snapshot.contents(), tree@, ids@, taken@, 0) == Some(i as int),
            None => first_alike(snapshot.contents(), tree@, ids@, taken@, 0) is None,
        },
{
    let mut i: usize = 0;
    while i < ids.len()
        invariant
            i <= ids@.len(),
            forall|i: int| 0 <= i < ids@.len() ==> tree@.instances.contains_key(#[trigger] ids@[i]),
            paired@.len() == ids@.len(),
            forall|i: int|
                0 <= i < ids@.len() ==> #[trigger] paired@[i] == taken@.contains(Some(i)),
            first_alike(snapshot.contents(), tree@, ids@, taken@, 0) == first_alike(
                snapshot.contents(),
                tree@,
                ids@,
                taken@,
                i as int,
            ),
        decreases ids@.len() - i,
    {
        if !paired[i] {
            if let Some(instance) = tree.get_instance(ids[i]) {
                if snapshot.name.same(&instance.name) && snapshot.class_name.same(
                    &instance.class_name,
                ) {
                    return Some(i);
                }
            }
        }
        i += 1;
    }
    None
}

/// Adds to a patch what makes the instance `id`, and all that is below it, what
/// a snapshot describes.
fn compute_patch_set_internal(
    context: &mut ComputePatchContext,
    snapshot: InstanceSnapshot,
    tree: &RojoTree,
    id: u128,
    patch_set: &mut PatchSet,
)
    requires
        tree@.instances.contains_key(id),
    ensures
        final(patch_set).deep_view() == both(
            old(patch_set).deep_view(),
            raw_patch(snapshot.contents(), tree@, id),
        ),
        final(context).snapshot_id_to_instance_id@ == known_ids(
            snapshot.contents(),
            tree@,
            id,
            old(context).snapshot_id_to_instance_id@,
        ),
    decreases snapshot, 1int,
{
    broadcast use group_hash_axioms;

    if snapshot.snapshot_id != 0 {
        context.snapshot_id_to_instance_id.insert(snapshot.snapshot_id, id);
    }
    let ghost before = patch_set.deep_view();
    if let Some(instance) = tree.get_instance(id) {
        compute_property_patches(&snapshot, &instance, patch_set, tree);
    }
    let ghost middle = patch_set.deep_view();
    compute_children_patches(context, snapshot, tree, id, patch_set);
    proof {
        let update = update_for(snapshot.contents(), tree@.instances[id], id, tree@.specified);
        let own = with_update(empty_patch(), update);
        assert(middle.updated =~= both(before, own).updated);
        lemma_both_associates(before, own, children_of_patch(snapshot.contents(), tree@, id));
    }
}

/// The part of a patch that concerns what is below an instance.
spec fn children_of_patch(snapshot: SnapshotView, tree: TreeView, id: u128) -> PatchView {
    let ids = tree.instances[id].children;
    let below = children_patch(snapshot, tree, id, snapshot.children.len() as int);
    PatchView {
        removed: below.removed + untaken(
            ids,
            pairing(snapshot.children, tree, ids),
            ids.len() as int,
        ),
        ..below
    }
}

proof fn lemma_both_associates(a: PatchView, b: PatchView, c: PatchView)
    ensures
        both(both(a, b), c) == both(a, both(b, c)),
{
    assert(both(both(a, b), c).removed =~= both(a, both(b, c)).removed);
    assert(both(both(a, b), c).added =~= both(a, both(b, c)).added);
    assert(both(both(a, b), c).updated =~= both(a, both(b, c)).updated);
}

proof fn lemma_both_empty(a: PatchView)
    ensures
        both(a, empty_patch()) == a,
        both(empty_patch(), a) == a,
{
}

/// Adds to a patch what makes the children of the instance `id`, and all that
/// is below them, what a snapshot describes.
fn compute_children_patches(
    context: &mut ComputePatchContext,
    snapshot: InstanceSnapshot,
    tree: &RojoTree,
    id: u128,
    patch_set: &mut PatchSet,
)
    requires
        tree@.instances.contains_key(id),
    ensures
        final(patch_set).deep_view() == both(
            old(patch_set).deep_view(),
            children_of_patch(snapshot.contents(), tree@, id),
        ),
        final(context).snapshot_id_to_instance_id@ == known_below(
            snapshot.contents(),
            tree@,
            id,
            old(context).snapshot_id_to_instance_id@,
            snapshot.contents().children.len() as int,
        ),
    decreases snapshot, 0int,
{
    let _root: u128 = tree.get_root_id();
    let ghost view = snapshot.contents();
    let ghost kids = snapshot.children@;
    let ghost before = patch_set.deep_view();
    let ghost known = context.snapshot_id_to_instance_id@;
    proof {
        snapshot.lemma_children();
    }
    let ids: Vec<u128> = match tree.get_instance(id) {
        Some(instance) => instance.children,
        None => Vec::new(),
    };
    let mut paired: Vec<bool> = Vec::new();
    while paired.len() < ids.len()
        invariant
            paired@.len() <= ids@.len(),
            forall|i: int| 0 <= i < paired@.len() ==> !#[trigger] paired@[i],
        decreases ids@.len() - paired@.len(),
    {
        paired.push(false);
    }

    let mut children = snapshot.children;
    let mut rest: Vec<InstanceSnapshot> = Vec::new();
    while children.len() > 0
        invariant
            children@.len() + rest@.len() == kids.len(),
            children@ == kids.take(children@.len() as int),
            forall|i: int|
                0 <= i < rest@.len() ==> #[trigger] rest@[i] == kids[kids.len() - 1 - i],
        decreases children@.len(),
    {
        if let Some(child) = children.pop() {
            rest.push(child);
        }
    }

    let ghost mut k: int = 0;
    proof {
        lemma_both_empty(before);
    }
    while rest.len() > 0
        invariant
            0 <= k,
            k + rest@.len() == kids.len(),
            kids == snapshot.children@,
            view == snapshot.contents(),
            view.children.len() == kids.len(),
            forall|i: int|
                0 <= i < kids.len() ==> #[trigger] view.children[i] == kids[i].contents(),
            forall|i: int|
                0 <= i < rest@.len() ==> #[trigger] rest@[i] == kids[kids.len() - 1 - i],
            tree@.closed_below(),
            tree@.instances.contains_key(id),
            ids@ == tree@.instances[id].children,
            paired@.len() == ids@.len(),
            forall|i: int|
                0 <= i < ids@.len() ==> #[trigger] paired@[i] == pairing(
                    view.children.take(k),
                    tree@,
                    ids@,
                ).contains(Some(i)),
            patch_set.deep_view() == both(before, children_patch(view, tree@, id, k)),
            context.snapshot_id_to_instance_id@ == known_below(view, tree@, id, known, k),
        decreases rest@.len(),
    {
        let ghost taken = pairing(view.children.take(k), tree@, ids@);
        proof {
            lemma_pairing(view.children, tree@, ids@, k);
            lemma_first_alike(view.children[k], tree@, ids@, taken, 0);
        }
        if let Some(child) = rest.pop() {
            let found = find_alike(&child, tree, &ids, &paired, Ghost(taken));
            proof {
                let more = pairing(view.children.take(k + 1), tree@, ids@);
                assert(view.children.take(k + 1).drop_last() =~= view.children.take(k));
                assert forall|i: int| #[trigger] more.contains(Some(i)) <==> taken.contains(Some(i))
                    || first_alike(view.children[k], tree@, ids@, taken, 0) == Some(i) by {
                    if taken.contains(Some(i)) {
                        let m = taken.index_of(Some(i));
                        assert(more[m] == Some(i));
                    }
                    assert(more[taken.len() as int] == first_alike(
                        view.children[k],
                        tree@,
                        ids@,
                        taken,
                        0,
                    ));
                }
            }
            match found {
                Some(i) => {
                    paired.set(i, true);
                    compute_patch_set_internal(context, child, tree, ids[i], patch_set);
                    proof {
                        lemma_both_associates(
                            before,
                            children_patch(view, tree@, id, k),
                            raw_patch(view.children[k], tree@, ids@[i as int]),
                        );
                    }
                },
                None => {
                    let ghost added = patch_set.added_instances.deep_view();
                    let addition = PatchAdd { parent_id: id, instance: child };
                    patch_set.added_instances.push(addition);
                    proof {
                        let one = PatchView {
                            added: seq![addition.deep_view()],
                            ..empty_patch()
                        };
                        assert(patch_set.added_instances.deep_view() =~= added
                            + seq![addition.deep_view()]);
                        lemma_both_associates(before, children_patch(view, tree@, id, k), one);
                    }
                },
            }
            proof {
                k = k + 1;
            }
        }
    }

    let ghost taken = pairing(view.children, tree@, ids@);
    let ghost below = children_patch(view, tree@, id, k);
    proof {
        assert(view.children.take(k) =~= view.children);
    }
    let mut i: usize = 0;
    while i < ids.len()
        invariant
            i <= ids@.len(),
            paired@.len() == ids@.len(),
            forall|i: int|
                0 <= i < ids@.len() ==> #[trigger] paired@[i] == taken.contains(Some(i)),
            patch_set.removed_instances@ == before.removed + below.removed + untaken(
                ids@,
                taken,
                i as int,
            ),
            patch_set.added_instances.deep_view() == before.added + below.added,
            patch_set.updated_instances.deep_view() == before.updated + below.updated,
        decreases ids@.len() - i,
    {
        if !paired[i] {
            patch_set.removed_instances.push(ids[i]);
        }
        i += 1;
    }
    proof {
        assert(patch_set.deep_view().removed =~= both(
            before,
            children_of_patch(view, tree@, id),
        ).removed);
    }
}

/// A value with the reference that it holds turned from a part of a snapshot to
/// the instance that the part describes.
pub open spec fn relinked(value: VariantView, known: Map<u128, u128>) -> VariantView {
    match value {
        VariantView::Ref(referent) => if known.contains_key(referent) {
            VariantView::Ref(known[referent])
        } else {
            value
        },
        _ => value,
    }
}

/// [`relinked`] for a value that may not be there.
pub open spec fn relinked_option(
    value: Option<VariantView>,
    known: Map<u128, u128>,
) -> Option<VariantView> {
    match value {
        Some(value) => Some(relinked(value, known)),
        None => None,
    }
}

/// An update whose references are turned to instances.
pub open spec fn relinked_update(update: UpdateView, known: Map<u128, u128>) -> UpdateView {
    UpdateView {
        changed_properties: update.changed_properties.map_values(
            |value: Option<VariantView>| relinked_option(value, known),
        ),
        ..update
    }
}

/// A snapshot whose references are turned to instances.
pub open spec fn relinked_snapshot(
    snapshot: SnapshotView,
    known: Map<u128, u128>,
) -> SnapshotView
    decreases snapshot,
{
    SnapshotView {
        properties: snapshot.properties.map_values(|value: VariantView| relinked(value, known)),
        children: Seq::new(
            snapshot.children.len(),
            |i: int|
                if 0 <= i < snapshot.children.len() {
                    relinked_snapshot(snapshot.children[i], known)
                } else {
                    arbitrary()
                },
        ),
        ..snapshot
    }
}

/// A patch whose references are turned to instances.
pub open spec fn relinked_patch(patch: PatchView, known: Map<u128, u128>) -> PatchView {
    PatchView {
        added: patch.added.map_values(
            |add: AddView|
                AddView { instance: relinked_snapshot(add.instance, known), ..add },
        ),
        updated: patch.updated.map_values(|update: UpdateView| relinked_update(update, known)),
        ..patch
    }
}

/// The patch that turns the instance `id` of a tree, and all that is below it,
/// into what a snapshot describes. No snapshot describes that the instance is
/// gone; the root never goes.
pub open spec fn patch_for(snapshot: Option<SnapshotView>, tree: TreeView, id: u128) -> PatchView {
    match snapshot {
        Some(snapshot) => relinked_patch(
            raw_patch(snapshot, tree, id),
            known_ids(snapshot, tree, id, Map::empty()),
        ),
        None => if id != tree.root {
            PatchView { removed: seq![id], ..empty_patch() }
        } else {
            empty_patch()
        },
    }
}

impl ComputePatchContext {
    /// Turns the reference that a value holds, if any, from a part of a snapshot
    /// to the instance that the part describes. `None` where the value stays as
    /// it is.
    fn rewritten(&self, value: &Variant) -> (rewritten: Option<Variant>)
        ensures
            match rewritten {
                Some(rewritten) => rewritten.deep_view() == relinked(
                    value.deep_view(),
                    self.snapshot_id_to_instance_id@,
                ),
                None => value.deep_view() == relinked(
                    value.deep_view(),
                    self.snapshot_id_to_instance_id@,
                ),
            },
    {
        broadcast use group_hash_axioms;

        match value {
            Variant::Ref(referent) => match self.snapshot_id_to_instance_id.get(referent) {
                Some(instance_ref) => Some(Variant::Ref(*instance_ref)),
                None => None,
            },
            _ => None,
        }
    }
}

/// Turns the references in the changes of properties from parts of a snapshot
/// to instances.
fn rewrite_refs_in_changes(context: &ComputePatchContext, changes: &mut NameMap<Option<Variant>>)
    ensures
        final(changes)@ == old(changes)@.map_values(
            |value: Option<VariantView>|
                relinked_option(value, context.snapshot_id_to_instance_id@),
        ),
{
    let ghost known = context.snapshot_id_to_instance_id@;
    let ghost before = changes@;
    let ghost names = changes.names();
    let len: usize = changes.len();
    let mut i: usize = 0;
    while i < len
        invariant
            i <= len,
            len == names.len(),
            names.no_duplicates(),
            before.dom() == names.to_set(),
            changes.names() == names,
            changes@.dom() == before.dom(),
            known == context.snapshot_id_to_instance_id@,
            forall|j: int|
                0 <= j < len ==> changes@[#[trigger] names[j]] == if j < i {
                    relinked_option(before[names[j]], known)
                } else {
                    before[names[j]]
                },
        decreases len - i,
    {
        if let Some(value) = changes.value_at(i) {
            if let Some(rewritten) = context.rewritten(value) {
                changes.set_value_at(i, Some(rewritten));
            }
        }
        i += 1;
    }
}

/// Turns the references in properties from parts of a snapshot to instances.
fn rewrite_refs_in_properties(context: &ComputePatchContext, properties: &mut NameMap<Variant>)
    ensures
        final(properties)@ == old(properties)@.map_values(
            |value: VariantView| relinked(value, context.snapshot_id_to_instance_id@),
        ),
{
    let ghost known = context.snapshot_id_to_instance_id@;
    let ghost before = properties@;
    let ghost names = properties.names();
    let len: usize = properties.len();
    let mut i: usize = 0;
    while i < len
        invariant
            i <= len,
            len == names.len(),
            names.no_duplicates(),
            before.dom() == names.to_set(),
            properties.names() == names,
            properties@.dom() == before.dom(),
            known == context.snapshot_id_to_instance_id@,
            forall|j: int|
                0 <= j < len ==> properties@[#[trigger] names[j]] == if j < i {
                    relinked(before[names[j]], known)
                } else {
                    before[names[j]]
                },
        decreases len - i,
    {
        if let Some(rewritten) = context.rewritten(properties.value_at(i)) {
            properties.set_value_at(i, rewritten);
        }
        i += 1;
    }
}

/// Turns the references in updates from parts of a snapshot to instances.
fn rewrite_refs_in_updates(context: &ComputePatchContext, updates: &mut Vec<PatchUpdate>)
    ensures
        final(updates).deep_view() == old(updates).deep_view().map_values(
            |update: UpdateView| relinked_update(update, context.snapshot_id_to_instance_id@),
        ),
{
    let ghost known = context.snapshot_id_to_instance_id@;
    let ghost before = updates@;
    let mut i: usize = 0;
    while i < updates.len()
        invariant
            i <= updates@.len(),
            updates@.len() == before.len(),
            known == context.snapshot_id_to_instance_id@,
            forall|j: int|
                0 <= j < before.len() ==> (#[trigger] updates@[j]).deep_view() == if j < i {
                    relinked_update(before[j].deep_view(), known)
                } else {
                    before[j].deep_view()
                },
        decreases updates@.len() - i,
    {
        rewrite_refs_in_changes(context, &mut updates[i].changed_properties);
        i += 1;
    }
}

/// Turns the references in additions from parts of a snapshot to instances.
fn rewrite_refs_in_additions(context: &ComputePatchContext, additions: &mut Vec<PatchAdd>)
    ensures
        final(additions).deep_view() == old(additions).deep_view().map_values(
            |add: AddView|
                AddView {
                    instance: relinked_snapshot(add.instance, context.snapshot_id_to_instance_id@),
                    ..add
                },
        ),
{
    let ghost known = context.snapshot_id_to_instance_id@;
    let ghost before = additions@;
    let mut i: usize = 0;
    while i < additions.len()
        invariant
            i <= additions@.len(),
            additions@.len() == before.len(),
            known == context.snapshot_id_to_instance_id@,
            forall|j: int|
                0 <= j < before.len() ==> (#[trigger] additions@[j]).parent_id
                    == before[j].parent_id,
            forall|j: int|
                0 <= j < before.len() ==> (#[trigger] additions@[j]).instance.contents() == if j
                    < i {
                    relinked_snapshot(before[j].instance.contents(), known)
                } else {
                    before[j].instance.contents()
                },
        decreases additions@.len() - i,
    {
        rewrite_refs_in_snapshot(context, &mut additions[i].instance);
        i += 1;
    }
}

/// Turns the references in a snapshot from its parts to instances.
fn rewrite_refs_in_snapshot(context: &ComputePatchContext, snapshot: &mut InstanceSnapshot)
    ensures
        final(snapshot).contents() == relinked_snapshot(
            old(snapshot).contents(),
            context.snapshot_id_to_instance_id@,
        ),
    decreases *old(snapshot),
{
    let ghost known = context.snapshot_id_to_instance_id@;
    let ghost before = *snapshot;
    rewrite_refs_in_properties(context, &mut snapshot.properties);
    let mut i: usize = 0;
    while i < snapshot.children.len()
        invariant
            i <= snapshot.children@.len(),
            snapshot.children@.len() == before.children@.len(),
            before == *old(snapshot),
            known == context.snapshot_id_to_instance_id@,
            snapshot.snapshot_id == before.snapshot_id,
            snapshot.metadata == before.metadata,
            snapshot.name == before.name,
            snapshot.class_name == before.class_name,
            snapshot.properties@ == before.properties@.map_values(
                |value: VariantView| relinked(value, known),
            ),
            forall|j: int|
                i <= j < before.children@.len() ==> #[trigger] snapshot.children@[j]
                    == before.children@[j],
            forall|j: int|
                0 <= j < i ==> (#[trigger] snapshot.children@[j]).contents() == relinked_snapshot(
                    before.children@[j].contents(),
                    known,
                ),
        decreases snapshot.children@.len() - i,
    {
        rewrite_refs_in_snapshot(context, &mut snapshot.children[i]);
        i += 1;
    }
    proof {
        before.lemma_children();
        snapshot.lemma_children();
        assert(snapshot.contents().children =~= relinked_snapshot(
            before.contents(),
            known,
        ).children);
    }
}

/// The patch set that turns the instance `id` of a tree, and all that is below
/// it, into what a snapshot describes.
pub fn compute_patch_set(snapshot: Option<InstanceSnapshot>, tree: &RojoTree, id: u128) -> (patch:
    PatchSet)
    requires
        snapshot is Some ==> tree@.instances.contains_key(id),
    ensures
        patch.deep_view() == patch_for(snapshot.deep_view(), tree@, id),
{
    broadcast use group_hash_axioms;

    let mut patch_set = PatchSet::new();
    if let Some(snapshot) = snapshot {
        let mut context = ComputePatchContext { snapshot_id_to_instance_id: HashMap::new() };
        compute_patch_set_internal(&mut context, snapshot, tree, id, &mut patch_set);
        proof {
            lemma_both_empty(raw_patch(snapshot.contents(), tree@, id));
        }
        rewrite_refs_in_updates(&context, &mut patch_set.updated_instances);
        rewrite_refs_in_additions(&context, &mut patch_set.added_instances);
    } else if id != tree.get_root_id() {
        patch_set.removed_instances.push(id);
    }
    patch_set
}

} // verus!
