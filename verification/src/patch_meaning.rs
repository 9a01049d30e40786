//! What a patch says of each instance, property by property and child by child.

use vstd::prelude::*;
use vstd::utf8::{decode_utf8, valid_utf8};

use crate::instance::{AddView, PatchView, SnapshotView, UpdateView};
use crate::patch_compute::{
    children_patch, known_below, known_ids, lemma_first_alike, lemma_pairing, pairing, patch_for,
    raw_patch, relinked_patch, relinked_snapshot, untaken, update_for,
};
use crate::patch_reach::{lemma_patch_reaches_snapshot, reaches};
use crate::tree::{is_layered, TreeInstanceView, TreeView};
use crate::variant::{AttributeView, VariantView};

verus! {

/// Whether a value is another one whose reference, if it holds one that is in
/// `known`, is replaced by what stands there.
pub open spec fn value_turned(
    after: VariantView,
    before: VariantView,
    known: Map<u128, u128>,
) -> bool {
    match before {
        VariantView::Ref(referent) => if known.contains_key(referent) {
            after == VariantView::Ref(known[referent])
        } else {
            after == before
        },
        _ => after == before,
    }
}

/// Whether a snapshot agrees with another at every depth, but for references that
/// are in `known`.
pub open spec fn snapshot_turned(
    after: SnapshotView,
    before: SnapshotView,
    known: Map<u128, u128>,
) -> bool
    decreases before,
{
    &&& after.snapshot_id == before.snapshot_id
    &&& after.metadata == before.metadata
    &&& after.name == before.name
    &&& after.class_name == before.class_name
    &&& forall|name: Seq<char>| #[trigger]
        after.properties.contains_key(name) <==> before.properties.contains_key(name)
    &&& forall|name: Seq<char>| #[trigger]
        before.properties.contains_key(name) ==> value_turned(
            after.properties[name],
            before.properties[name],
            known,
        )
    &&& after.children.len() == before.children.len()
    &&& forall|i: int|
        0 <= i < before.children.len() ==> snapshot_turned(
            after.children[i],
            #[trigger] before.children[i],
            known,
        )
}

/// Turning references keeps the shape of a snapshot: at every depth the
/// identifier, the metadata, the name, the class, the number and the order of the
/// children and all properties stay, but for references that are turned.
pub proof fn lemma_turning_keeps_shape(snapshot: SnapshotView, known: Map<u128, u128>)
    ensures
        snapshot_turned(relinked_snapshot(snapshot, known), snapshot, known),
    decreases snapshot,
{
    let after = relinked_snapshot(snapshot, known);
    assert forall|i: int| 0 <= i < snapshot.children.len() implies snapshot_turned(
        after.children[i],
        #[trigger] snapshot.children[i],
        known,
    ) by {
        lemma_turning_keeps_shape(snapshot.children[i], known);
    }
}

/// Turning the references of a patch keeps all else of it: what is removed, where
/// instances are added and all that they hold at every depth, and which instances
/// are changed and how.
pub proof fn lemma_turning_keeps_patch(patch: PatchView, known: Map<u128, u128>)
    ensures
        ({
            let after = relinked_patch(patch, known);
            &&& after.removed == patch.removed
            &&& after.added.len() == patch.added.len()
            &&& after.updated.len() == patch.updated.len()
            &&& forall|i: int|
                0 <= i < patch.added.len() ==> {
                    &&& (#[trigger] after.added[i]).parent_id == patch.added[i].parent_id
                    &&& snapshot_turned(after.added[i].instance, patch.added[i].instance, known)
                }
            &&& forall|i: int|
                0 <= i < patch.updated.len() ==> update_turned(
                    #[trigger] after.updated[i],
                    patch.updated[i],
                    known,
                )
        }),
{
    let after = relinked_patch(patch, known);
    assert forall|i: int| 0 <= i < patch.added.len() implies (#[trigger] after.added[i]).parent_id
        == patch.added[i].parent_id && snapshot_turned(
        after.added[i].instance,
        patch.added[i].instance,
        known,
    ) by {
        lemma_turning_keeps_shape(patch.added[i].instance, known);
    }
}

/// Whether an update agrees with another, but for references that are in `known`.
pub open spec fn update_turned(
    after: UpdateView,
    before: UpdateView,
    known: Map<u128, u128>,
) -> bool {
    &&& after.id == before.id
    &&& after.changed_name == before.changed_name
    &&& after.changed_class_name == before.changed_class_name
    &&& after.changed_metadata == before.changed_metadata
    &&& forall|name: Seq<char>| #[trigger]
        after.changed_properties.contains_key(name) <==> before.changed_properties.contains_key(
            name,
        )
    &&& forall|name: Seq<char>| #[trigger]
        before.changed_properties.contains_key(name) ==> match before.changed_properties[name] {
            Some(value) => after.changed_properties[name] matches Some(turned) && value_turned(
                turned,
                value,
                known,
            ),
            None => after.changed_properties[name] is None,
        }
}

/// Whether a snapshot is below another, at any depth.
pub open spec fn is_part(part: SnapshotView, whole: SnapshotView) -> bool
    decreases whole,
{
    exists|k: int|
        0 <= k < whole.children.len() && (part == #[trigger] whole.children[k] || is_part(
            part,
            whole.children[k],
        ))
}

/// Whether a patch adds a part of a snapshot under an instance: the part itself,
/// with all that is below it, up to references.
pub open spec fn adds_part(
    patch: PatchView,
    known: Map<u128, u128>,
    part: SnapshotView,
    id: u128,
) -> bool {
    exists|a: AddView| #[trigger]
        patch.added.contains(a) && a.parent_id == id && snapshot_turned(a.instance, part, known)
}

/// Whether a snapshot is a part of another, up to references.
pub open spec fn comes_from(
    added: SnapshotView,
    whole: SnapshotView,
    known: Map<u128, u128>,
) -> bool {
    exists|part: SnapshotView| #[trigger]
        is_part(part, whole) && snapshot_turned(added, part, known)
}

/// Whether a patch adds each part of a snapshot that describes no instance, with
/// all that is below it: the part itself, up to references, under the instance
/// that the snapshot above it describes.
pub open spec fn adds_whole_parts(
    patch: PatchView,
    known: Map<u128, u128>,
    snapshot: SnapshotView,
    tree: TreeView,
    id: u128,
) -> bool
    decreases snapshot,
{
    let ids = tree.instances[id].children;
    let taken = pairing(snapshot.children, tree, ids);
    forall|k: int|
        #![trigger snapshot.children[k]]
        0 <= k < snapshot.children.len() ==> match taken[k] {
            Some(m) => adds_whole_parts(patch, known, snapshot.children[k], tree, ids[m]),
            None => adds_part(patch, known, snapshot.children[k], id),
        }
}

/// Every part of a snapshot that describes no instance is added whole, and all
/// that is added is such a part: at every depth it has the names, the classes, the
/// metadata, the children and the properties of the part, up to references.
pub proof fn lemma_parts_are_added_whole(
    snapshot: SnapshotView,
    tree: TreeView,
    depth: Map<u128, usize>,
    id: u128,
)
    requires
        is_layered(tree, depth),
        tree.instances.contains_key(id),
    ensures
        ({
            let known = known_ids(snapshot, tree, id, Map::empty());
            let patch = patch_for(Some(snapshot), tree, id);
            &&& adds_whole_parts(patch, known, snapshot, tree, id)
            &&& forall|i: int|
                0 <= i < patch.added.len() ==> comes_from(
                    (#[trigger] patch.added[i]).instance,
                    snapshot,
                    known,
                )
        }),
{
    let known = known_ids(snapshot, tree, id, Map::empty());
    let raw = raw_patch(snapshot, tree, id);
    let patch = patch_for(Some(snapshot), tree, id);
    lemma_patch_reaches_snapshot(snapshot, tree, depth, id);
    lemma_reached_parts(patch, known, snapshot, tree, id);
    lemma_added_are_parts(snapshot, tree, id);
    lemma_turning_keeps_patch(raw, known);
    assert forall|i: int| 0 <= i < patch.added.len() implies comes_from(
        (#[trigger] patch.added[i]).instance,
        snapshot,
        known,
    ) by {
        assert(is_part(raw.added[i].instance, snapshot));
    }
}

proof fn lemma_reached_parts(
    patch: PatchView,
    known: Map<u128, u128>,
    snapshot: SnapshotView,
    tree: TreeView,
    id: u128,
)
    requires
        reaches(patch, known, snapshot, tree, id),
    ensures
        adds_whole_parts(patch, known, snapshot, tree, id),
    decreases snapshot,
{
    let ids = tree.instances[id].children;
    let taken = pairing(snapshot.children, tree, ids);
    assert forall|k: int|
        #![trigger snapshot.children[k]]
        0 <= k < snapshot.children.len() implies match taken[k] {
        Some(m) => adds_whole_parts(patch, known, snapshot.children[k], tree, ids[m]),
        None => adds_part(patch, known, snapshot.children[k], id),
    } by {
        match taken[k] {
            Some(m) => {
                lemma_reached_parts(patch, known, snapshot.children[k], tree, ids[m]);
            },
            None => {
                let turned = relinked_snapshot(snapshot.children[k], known);
                lemma_turning_keeps_shape(snapshot.children[k], known);
                assert(patch.added.contains(AddView { parent_id: id, instance: turned }));
            },
        }
    }
}

proof fn lemma_added_are_parts(snapshot: SnapshotView, tree: TreeView, id: u128)
    ensures
        forall|i: int|
            0 <= i < raw_patch(snapshot, tree, id).added.len() ==> is_part(
                (#[trigger] raw_patch(snapshot, tree, id).added[i]).instance,
                snapshot,
            ),
    decreases snapshot, 1int, 0int,
{
    let n = snapshot.children.len() as int;
    lemma_children_added_are_parts(snapshot, tree, id, n);
    assert(raw_patch(snapshot, tree, id).added =~= children_patch(snapshot, tree, id, n).added);
}

proof fn lemma_children_added_are_parts(snapshot: SnapshotView, tree: TreeView, id: u128, n: int)
    requires
        0 <= n <= snapshot.children.len(),
    ensures
        forall|i: int|
            0 <= i < children_patch(snapshot, tree, id, n).added.len() ==> is_part(
                (#[trigger] children_patch(snapshot, tree, id, n).added[i]).instance,
                snapshot,
            ),
    decreases snapshot, 0int, n,
{
    if n > 0 {
        let ids = tree.instances[id].children;
        let child = snapshot.children[n - 1];
        let before = children_patch(snapshot, tree, id, n - 1).added;
        let after = children_patch(snapshot, tree, id, n).added;
        lemma_children_added_are_parts(snapshot, tree, id, n - 1);
        match pairing(snapshot.children, tree, ids)[n - 1] {
            Some(m) => {
                let inner = raw_patch(child, tree, ids[m]).added;
                lemma_added_are_parts(child, tree, ids[m]);
                assert forall|i: int| 0 <= i < after.len() implies is_part(
                    (#[trigger] after[i]).instance,
                    snapshot,
                ) by {
                    if i < before.len() {
                        assert(after[i] == before[i]);
                    } else {
                        assert(after[i] == inner[i - before.len()]);
                        assert(is_part(after[i].instance, snapshot.children[n - 1]));
                    }
                }
            },
            None => {
                assert forall|i: int| 0 <= i < after.len() implies is_part(
                    (#[trigger] after[i]).instance,
                    snapshot,
                ) by {
                    if i < before.len() {
                        assert(after[i] == before[i]);
                    } else {
                        assert(after[i].instance == snapshot.children[n - 1]);
                    }
                }
            },
        }
    }
}

/// The identifier to which an attribute among some properties points a property:
/// that of the attribute whose name is `Rojo_Target_` and the name of the property
/// behind it, where it holds a string, or bytes that are one.
pub open spec fn target_of(properties: Map<Seq<char>, VariantView>, name: Seq<char>) -> Option<
    Seq<char>,
> {
    let pointer = "Rojo_Target_"@ + name;
    if !properties.contains_key("Attributes"@) {
        None
    } else {
        match properties["Attributes"@] {
            VariantView::Attributes(attributes) => if attributes.contains_key(pointer) {
                match attributes[pointer] {
                    AttributeView::String(text) => Some(text),
                    AttributeView::BinaryString(bytes) => if valid_utf8(bytes) {
                        Some(decode_utf8(bytes))
                    } else {
                        None
                    },
                    AttributeView::Opaque(_) => None,
                }
            } else {
                None
            },
            _ => None,
        }
    }
}

/// The value that a property of an instance has, if it has the property.
pub open spec fn held(instance: TreeInstanceView, name: Seq<char>) -> Option<VariantView> {
    if instance.properties.contains_key(name) {
        Some(instance.properties[name].value)
    } else {
        None
    }
}

/// The value that a property of an instance has after an update.
pub open spec fn held_after(
    instance: TreeInstanceView,
    update: UpdateView,
    name: Seq<char>,
) -> Option<VariantView> {
    if update.changed_properties.contains_key(name) {
        update.changed_properties[name]
    } else {
        held(instance, name)
    }
}

/// The classes whose `NeedsPivotMigration` every update looks after.
pub open spec fn migrates(class: Seq<char>) -> bool {
    ||| class == "Actor"@
    ||| class == "Flag"@
    ||| class == "HopperBin"@
    ||| class == "Model"@
    ||| class == "Status"@
    ||| class == "Tool"@
    ||| class == "WorldModel"@
    ||| class == "Workspace"@
}

/// After an update an instance has each property that its snapshot gives, with the
/// value that the snapshot gives, and no other; but a property that an attribute
/// of the snapshot points to an instance refers to that instance, and goes where
/// there is none. What the update names really changes.
pub proof fn lemma_update_gives_each_property(
    snapshot: SnapshotView,
    instance: TreeInstanceView,
    id: u128,
    specified: Map<Seq<char>, u128>,
    name: Seq<char>,
)
    requires
        !migrates(snapshot.class_name) || name != "NeedsPivotMigration"@,
    ensures
        ({
            let update = update_for(snapshot, instance, id, specified);
            let after = held_after(instance, update, name);
            &&& match target_of(snapshot.properties, name) {
                Some(target) => if specified.contains_key(target) {
                    after == Some(VariantView::Ref(specified[target]))
                } else {
                    after is None
                },
                None => if snapshot.properties.contains_key(name) {
                    after == Some(snapshot.properties[name])
                } else {
                    after is None
                },
            }
            &&& update.changed_properties.contains_key(name) ==> after != held(instance, name)
        }),
{
}

/// The `NeedsPivotMigration` of an instance whose class has a pivot: one without
/// it gets `false`, it is never removed, and where the snapshot gives another
/// boolean it becomes that; in all other cases it becomes `false`.
pub proof fn lemma_update_looks_after_migration(
    snapshot: SnapshotView,
    instance: TreeInstanceView,
    id: u128,
    specified: Map<Seq<char>, u128>,
)
    requires
        migrates(snapshot.class_name),
        target_of(snapshot.properties, "NeedsPivotMigration"@) is None,
    ensures
        ({
            let name = "NeedsPivotMigration"@;
            let update = update_for(snapshot, instance, id, specified);
            let after = held_after(instance, update, name);
            match held(instance, name) {
                None => update.changed_properties.contains_key(name) && after == Some(
                    VariantView::Bool(false),
                ),
                Some(have) => if !snapshot.properties.contains_key(name) {
                    !update.changed_properties.contains_key(name) && after == Some(have)
                } else {
                    &&& update.changed_properties.contains_key(name)
                    &&& match snapshot.properties[name] {
                        VariantView::Bool(flag) => after == Some(
                            VariantView::Bool(flag && have != VariantView::Bool(true)),
                        ),
                        _ => after == Some(VariantView::Bool(false)),
                    }
                },
            }
        }),
{
}

/// An update names the instance that it is for, and gives it the name, the class
/// and the metadata of its snapshot; it speaks of those only that differ.
pub proof fn lemma_update_gives_name_and_class(
    snapshot: SnapshotView,
    instance: TreeInstanceView,
    id: u128,
    specified: Map<Seq<char>, u128>,
)
    ensures
        ({
            let update = update_for(snapshot, instance, id, specified);
            &&& update.id == id
            &&& match update.changed_name {
                Some(name) => name == snapshot.name && name != instance.name,
                None => snapshot.name == instance.name,
            }
            &&& match update.changed_class_name {
                Some(class) => class == snapshot.class_name && class != instance.class_name,
                None => snapshot.class_name == instance.class_name,
            }
            &&& match update.changed_metadata {
                Some(metadata) => metadata == snapshot.metadata && metadata != instance.metadata,
                None => snapshot.metadata == instance.metadata,
            }
        }),
{
}

/// Each child of a snapshot, in order, is paired with the first child of the
/// instance that has its name and its class and that no earlier one is paired
/// with, and goes without one only where there is none.
pub proof fn lemma_children_are_paired_in_order(
    snapshots: Seq<SnapshotView>,
    tree: TreeView,
    ids: Seq<u128>,
    k: int,
)
    requires
        0 <= k < snapshots.len(),
    ensures
        ({
            let all = pairing(snapshots, tree, ids);
            let fits = |m: int|
                tree.instances[ids[m]].name == snapshots[k].name
                    && tree.instances[ids[m]].class_name == snapshots[k].class_name;
            let free = |m: int| forall|l: int| 0 <= l < k ==> #[trigger] all[l] != Some(m);
            &&& all.len() == snapshots.len()
            &&& match all[k] {
                Some(i) => {
                    &&& 0 <= i < ids.len()
                    &&& fits(i)
                    &&& free(i)
                    &&& forall|m: int| 0 <= m < i && #[trigger] fits(m) ==> !free(m)
                },
                None => forall|m: int| 0 <= m < ids.len() && #[trigger] fits(m) ==> !free(m),
            }
        }),
{
    let all = pairing(snapshots, tree, ids);
    let taken = all.take(k);
    lemma_pairing(snapshots, tree, ids, k);
    lemma_first_alike(snapshots[k], tree, ids, taken, 0);
    let fits = |m: int|
        tree.instances[ids[m]].name == snapshots[k].name && tree.instances[ids[m]].class_name
            == snapshots[k].class_name;
    let free = |m: int| forall|l: int| 0 <= l < k ==> #[trigger] all[l] != Some(m);
    assert forall|m: int| #[trigger] taken.contains(Some(m)) == !free(m) by {
        if taken.contains(Some(m)) {
            let l = taken.index_of(Some(m));
            assert(all[l] == Some(m));
        }
        if !free(m) {
            let l = choose|l: int| 0 <= l < k && #[trigger] all[l] == Some(m);
            assert(taken[l] == Some(m));
        }
    }
    match all[k] {
        Some(i) => {
            assert(!taken.contains(Some(i)));
            assert forall|m: int| 0 <= m < i && #[trigger] fits(m) implies !free(m) by {
                if !taken.contains(Some(m)) {
                    assert(false);
                }
            }
        },
        None => {
            assert forall|m: int| 0 <= m < ids.len() && #[trigger] fits(m) implies !free(m) by {
                if !taken.contains(Some(m)) {
                    assert(false);
                }
            }
        },
    }
}

/// Without a snapshot an instance is removed, and nothing else; the root stays.
pub proof fn lemma_nothing_removes_the_instance(tree: TreeView, id: u128)
    ensures
        ({
            let patch = patch_for(None, tree, id);
            &&& patch.added.len() == 0
            &&& patch.updated.len() == 0
            &&& id != tree.root ==> patch.removed == seq![id]
            &&& id == tree.root ==> patch.removed.len() == 0
        }),
{
}

/// Whether the part of a snapshot with an identifier describes an instance: the
/// snapshot itself describes the instance `id`, and a child that is paired with a
/// child of the instance describes that one.
pub open spec fn describes(
    snapshot: SnapshotView,
    tree: TreeView,
    id: u128,
    key: u128,
    at: u128,
) -> bool
    decreases snapshot,
{
    let ids = tree.instances[id].children;
    let taken = pairing(snapshot.children, tree, ids);
    ||| snapshot.snapshot_id == key && at == id
    ||| exists|k: int|
        0 <= k < snapshot.children.len() && (taken[k] matches Some(m) && describes(
            #[trigger] snapshot.children[k],
            tree,
            ids[m],
            key,
            at,
        ))
}

/// The references of a patch are turned to instances by the identifiers of the
/// parts of the snapshot: each part that has one and describes an instance is
/// known, and what is known under an identifier is an instance that a part with
/// the identifier describes.
pub proof fn lemma_known_ids_are_those_of_parts(snapshot: SnapshotView, tree: TreeView, id: u128)
    ensures
        ({
            let known = known_ids(snapshot, tree, id, Map::empty());
            &&& forall|key: u128| #[trigger]
                known.contains_key(key) ==> key != 0 && describes(
                    snapshot,
                    tree,
                    id,
                    key,
                    known[key],
                )
            &&& forall|key: u128, at: u128|
                key != 0 && #[trigger] describes(snapshot, tree, id, key, at)
                    ==> known.contains_key(key)
        }),
{
    lemma_known_of(snapshot, tree, id, Map::empty());
}

proof fn lemma_known_of(snapshot: SnapshotView, tree: TreeView, id: u128, known: Map<u128, u128>)
    ensures
        ({
            let after = known_ids(snapshot, tree, id, known);
            &&& forall|key: u128| #[trigger]
                after.contains_key(key) ==> (known.contains_key(key) && known[key] == after[key])
                    || (key != 0 && describes(snapshot, tree, id, key, after[key]))
            &&& forall|key: u128| #[trigger] known.contains_key(key) ==> after.contains_key(key)
            &&& forall|key: u128, at: u128|
                key != 0 && #[trigger] describes(snapshot, tree, id, key, at)
                    ==> after.contains_key(key)
        }),
    decreases snapshot, 1int, 0int,
{
    let own = if snapshot.snapshot_id != 0 {
        known.insert(snapshot.snapshot_id, id)
    } else {
        known
    };
    let n = snapshot.children.len() as int;
    let after = known_ids(snapshot, tree, id, known);
    let ids = tree.instances[id].children;
    let taken = pairing(snapshot.children, tree, ids);
    lemma_known_of_children(snapshot, tree, id, own, n);
    assert(after == known_below(snapshot, tree, id, own, n));
    assert forall|key: u128| #[trigger] known.contains_key(key) implies after.contains_key(key) by {
        assert(own.contains_key(key));
    }
    assert forall|key: u128| #[trigger] after.contains_key(key) implies (known.contains_key(key)
        && known[key] == after[key]) || (key != 0 && describes(
        snapshot,
        tree,
        id,
        key,
        after[key],
    )) by {
        if !(own.contains_key(key) && own[key] == after[key]) {
            let k = choose|k: int|
                0 <= k < n && described_by_child(snapshot, tree, id, key, after[key], k);
            assert(describes(snapshot.children[k], tree, ids[taken[k]->0], key, after[key]));
        }
    }
    assert forall|key: u128, at: u128|
        key != 0 && #[trigger] describes(snapshot, tree, id, key, at) implies after.contains_key(
        key,
    ) by {
        if snapshot.snapshot_id == key {
            assert(own.contains_key(key));
        } else {
            let k = choose|k: int|
                0 <= k < snapshot.children.len() && (taken[k] matches Some(m) && describes(
                    #[trigger] snapshot.children[k],
                    tree,
                    ids[m],
                    key,
                    at,
                ));
            assert(described_by_child(snapshot, tree, id, key, at, k));
        }
    }
}

/// Whether the `k`-th child of a snapshot, or a part below it, with an identifier
/// describes an instance.
spec fn described_by_child(
    snapshot: SnapshotView,
    tree: TreeView,
    id: u128,
    key: u128,
    at: u128,
    k: int,
) -> bool {
    let ids = tree.instances[id].children;
    0 <= k < snapshot.children.len() && (pairing(snapshot.children, tree, ids)[k] matches Some(m)
        && describes(snapshot.children[k], tree, ids[m], key, at))
}

proof fn lemma_known_of_children(
    snapshot: SnapshotView,
    tree: TreeView,
    id: u128,
    known: Map<u128, u128>,
    n: int,
)
    requires
        0 <= n <= snapshot.children.len(),
    ensures
        ({
            let after = known_below(snapshot, tree, id, known, n);
            &&& forall|key: u128| #[trigger]
                after.contains_key(key) ==> (known.contains_key(key) && known[key] == after[key])
                    || (key != 0 && exists|k: int|
                    0 <= k < n && described_by_child(snapshot, tree, id, key, after[key], k))
            &&& forall|key: u128| #[trigger] known.contains_key(key) ==> after.contains_key(key)
            &&& forall|key: u128, at: u128, k: int|
                0 <= k < n && key != 0 && #[trigger] described_by_child(
                    snapshot,
                    tree,
                    id,
                    key,
                    at,
                    k,
                ) ==> after.contains_key(key)
        }),
    decreases snapshot, 0int, n,
{
    if n > 0 {
        let ids = tree.instances[id].children;
        let taken = pairing(snapshot.children, tree, ids);
        let before = known_below(snapshot, tree, id, known, n - 1);
        let after = known_below(snapshot, tree, id, known, n);
        let child = snapshot.children[n - 1];
        lemma_known_of_children(snapshot, tree, id, known, n - 1);
        match taken[n - 1] {
            Some(m) => {
                lemma_known_of(child, tree, ids[m], before);
                assert(after == known_ids(child, tree, ids[m], before));
                assert forall|key: u128| #[trigger] after.contains_key(key) implies (
                known.contains_key(key) && known[key] == after[key]) || (key != 0 && exists|k: int|
                    0 <= k < n && described_by_child(snapshot, tree, id, key, after[key], k)) by {
                    if before.contains_key(key) && before[key] == after[key] {
                        if !(known.contains_key(key) && known[key] == after[key]) {
                            let k = choose|k: int|
                                0 <= k < n - 1 && described_by_child(
                                    snapshot,
                                    tree,
                                    id,
                                    key,
                                    before[key],
                                    k,
                                );
                            assert(described_by_child(snapshot, tree, id, key, after[key], k));
                        }
                    } else {
                        assert(described_by_child(snapshot, tree, id, key, after[key], n - 1));
                    }
                }
                assert forall|key: u128| #[trigger] known.contains_key(key) implies
                    after.contains_key(key) by {
                    assert(before.contains_key(key));
                }
                assert forall|key: u128, at: u128, k: int|
                    0 <= k < n && key != 0 && #[trigger] described_by_child(
                        snapshot,
                        tree,
                        id,
                        key,
                        at,
                        k,
                    ) implies after.contains_key(key) by {
                    if k < n - 1 {
                        assert(before.contains_key(key));
                    } else {
                        assert(describes(child, tree, ids[m], key, at));
                    }
                }
            },
            None => {},
        }
    }
}

/// What is removed of the children of an instance is listed in their order.
pub proof fn lemma_left_over_keep_their_order(ids: Seq<u128>, taken: Seq<Option<int>>, n: int)
    requires
        0 <= n <= ids.len(),
    ensures
        exists|at: Seq<int>| #[trigger] picks(untaken(ids, taken, n), ids, at, n),
    decreases n,
{
    if n == 0 {
        assert(picks(untaken(ids, taken, n), ids, Seq::empty(), n));
    } else {
        lemma_left_over_keep_their_order(ids, taken, n - 1);
        let before = choose|at: Seq<int>| #[trigger]
            picks(untaken(ids, taken, n - 1), ids, at, n - 1);
        if taken.contains(Some(n - 1)) {
            assert(picks(untaken(ids, taken, n), ids, before, n));
        } else {
            assert(picks(untaken(ids, taken, n), ids, before.push(n - 1), n));
        }
    }
}

/// Whether a list holds what stands at some places, in increasing order, of the
/// first `n` of another.
pub open spec fn picks(list: Seq<u128>, ids: Seq<u128>, at: Seq<int>, n: int) -> bool {
    &&& list.len() == at.len()
    &&& forall|i: int|
        0 <= i < at.len() ==> 0 <= #[trigger] at[i] < n && at[i] < ids.len() && list[i]
            == ids[at[i]]
    &&& forall|i: int, j: int| 0 <= i < j < at.len() ==> #[trigger] at[i] < #[trigger] at[j]
}

/// A patch is made in order: the update of an instance comes before what is below it;
/// what the children of the snapshot ask for comes child by child; and the children of
/// the instance that are left over are removed behind all that is removed below.
pub proof fn lemma_patch_is_made_in_order(snapshot: SnapshotView, tree: TreeView, id: u128, k: int)
    requires
        0 <= k < snapshot.children.len(),
    ensures
        ({
            let ids = tree.instances[id].children;
            let taken = pairing(snapshot.children, tree, ids);
            let n = snapshot.children.len() as int;
            let whole = raw_patch(snapshot, tree, id);
            let below = children_patch(snapshot, tree, id, n);
            let before = children_patch(snapshot, tree, id, k);
            let after = children_patch(snapshot, tree, id, k + 1);
            &&& whole.added == below.added
            &&& whole.removed == below.removed + untaken(ids, taken, ids.len() as int)
            &&& whole.updated == below.updated || (exists|own: UpdateView|
                own.id == id && whole.updated == #[trigger] (seq![own] + below.updated))
            &&& match taken[k] {
                Some(m) => {
                    let inner = raw_patch(snapshot.children[k], tree, ids[m]);
                    &&& after.added == before.added + inner.added
                    &&& after.removed == before.removed + inner.removed
                    &&& after.updated == before.updated + inner.updated
                },
                None => {
                    &&& after.added == before.added + seq![
                        AddView { parent_id: id, instance: snapshot.children[k] },
                    ]
                    &&& after.removed == before.removed
                    &&& after.updated == before.updated
                },
            }
        }),
{
    let n = snapshot.children.len() as int;
    let below = children_patch(snapshot, tree, id, n);
    let whole = raw_patch(snapshot, tree, id);
    let own = update_for(snapshot, tree.instances[id], id, tree.specified);
    assert(whole.added =~= below.added);
    assert(whole.updated =~= below.updated || whole.updated =~= seq![own] + below.updated);
}

/// Where several parts of a snapshot have the same identifier, the last child that has it,
/// or has a part with it, counts.
pub proof fn lemma_last_part_counts(
    snapshot: SnapshotView,
    tree: TreeView,
    id: u128,
    k: int,
    key: u128,
)
    requires
        0 <= k < snapshot.children.len(),
        ({
            let ids = tree.instances[id].children;
            let taken = pairing(snapshot.children, tree, ids);
            &&& taken[k] matches Some(m) && known_ids(
                snapshot.children[k],
                tree,
                ids[m],
                Map::empty(),
            ).contains_key(key)
            &&& forall|l: int|
                k < l < snapshot.children.len() ==> (taken[l] matches Some(m) ==> !known_ids(
                    #[trigger] snapshot.children[l],
                    tree,
                    ids[m],
                    Map::empty(),
                ).contains_key(key))
        }),
    ensures
        ({
            let ids = tree.instances[id].children;
            let m = pairing(snapshot.children, tree, ids)[k]->0;
            let known = known_ids(snapshot, tree, id, Map::empty());
            &&& known.contains_key(key)
            &&& known[key] == known_ids(
                snapshot.children[k],
                tree,
                ids[m],
                Map::empty(),
            )[key]
        }),
{
    let own = if snapshot.snapshot_id != 0 {
        Map::empty().insert(snapshot.snapshot_id, id)
    } else {
        Map::empty()
    };
    lemma_last_child_counts(snapshot, tree, id, own, k, key, snapshot.children.len() as int);
}

proof fn lemma_last_child_counts(
    snapshot: SnapshotView,
    tree: TreeView,
    id: u128,
    known: Map<u128, u128>,
    k: int,
    key: u128,
    n: int,
)
    requires
        0 <= k < n <= snapshot.children.len(),
        ({
            let ids = tree.instances[id].children;
            let taken = pairing(snapshot.children, tree, ids);
            &&& taken[k] matches Some(m) && known_ids(
                snapshot.children[k],
                tree,
                ids[m],
                Map::empty(),
            ).contains_key(key)
            &&& forall|l: int|
                k < l < snapshot.children.len() ==> (taken[l] matches Some(m) ==> !known_ids(
                    #[trigger] snapshot.children[l],
                    tree,
                    ids[m],
                    Map::empty(),
                ).contains_key(key))
        }),
    ensures
        ({
            let ids = tree.instances[id].children;
            let m = pairing(snapshot.children, tree, ids)[k]->0;
            let after = known_below(snapshot, tree, id, known, n);
            &&& after.contains_key(key)
            &&& after[key] == known_ids(snapshot.children[k], tree, ids[m], Map::empty())[key]
        }),
    decreases n,
{
    let ids = tree.instances[id].children;
    let taken = pairing(snapshot.children, tree, ids);
    let before = known_below(snapshot, tree, id, known, n - 1);
    let child = snapshot.children[n - 1];
    if k < n - 1 {
        lemma_last_child_counts(snapshot, tree, id, known, k, key, n - 1);
    }
    if let Some(m) = taken[n - 1] {
        lemma_known_on_top(child, tree, ids[m], before);
    }
}

/// What a snapshot makes known comes on top of what is known already.
proof fn lemma_known_on_top(
    snapshot: SnapshotView,
    tree: TreeView,
    id: u128,
    known: Map<u128, u128>,
)
    ensures
        known_ids(snapshot, tree, id, known) == known.union_prefer_right(
            known_ids(snapshot, tree, id, Map::empty()),
        ),
    decreases snapshot, 1int, 0int,
{
    let n = snapshot.children.len() as int;
    let none = Map::<u128, u128>::empty();
    let own = if snapshot.snapshot_id != 0 {
        known.insert(snapshot.snapshot_id, id)
    } else {
        known
    };
    let alone = if snapshot.snapshot_id != 0 {
        none.insert(snapshot.snapshot_id, id)
    } else {
        none
    };
    lemma_known_below_on_top(snapshot, tree, id, own, n);
    lemma_known_below_on_top(snapshot, tree, id, alone, n);
    let below = known_below(snapshot, tree, id, none, n);
    assert(own.union_prefer_right(below) =~= known.union_prefer_right(
        alone.union_prefer_right(below),
    ));
}

proof fn lemma_known_below_on_top(
    snapshot: SnapshotView,
    tree: TreeView,
    id: u128,
    known: Map<u128, u128>,
    n: int,
)
    requires
        0 <= n <= snapshot.children.len(),
    ensures
        known_below(snapshot, tree, id, known, n) == known.union_prefer_right(
            known_below(snapshot, tree, id, Map::empty(), n),
        ),
    decreases snapshot, 0int, n,
{
    let none = Map::<u128, u128>::empty();
    if n > 0 {
        let ids = tree.instances[id].children;
        let child = snapshot.children[n - 1];
        let before = known_below(snapshot, tree, id, known, n - 1);
        let alone = known_below(snapshot, tree, id, none, n - 1);
        lemma_known_below_on_top(snapshot, tree, id, known, n - 1);
        if let Some(m) = pairing(snapshot.children, tree, ids)[n - 1] {
            lemma_known_on_top(child, tree, ids[m], before);
            lemma_known_on_top(child, tree, ids[m], alone);
            let inner = known_ids(child, tree, ids[m], none);
            assert(before.union_prefer_right(inner) =~= known.union_prefer_right(
                alone.union_prefer_right(inner),
            ));
        }
    } else {
        assert(known.union_prefer_right(none) =~= known);
    }
}

} // verus!
