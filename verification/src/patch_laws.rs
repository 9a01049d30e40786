//! What holds of every patch that is computed from a snapshot and a tree.

use vstd::prelude::*;

use crate::instance::{empty_patch, AddView, PatchView, SnapshotView};
use crate::name_map::entry;
use crate::patch_compute::{
    alike, both, changes_nothing, children_patch, desired_properties, first_alike, has_pivot,
    known_below, known_ids, lemma_first_alike, lemma_pairing, pairing, patch_for, raw_patch,
    untaken, update_for, with_update,
};
use crate::tree::{is_layered, TreeInstanceView, TreeView};
use crate::variant::VariantView;

verus! {

/// Properties after changes have been made to them.
pub open spec fn after_changes(
    have: Map<Seq<char>, VariantView>,
    changed: Map<Seq<char>, Option<VariantView>>,
) -> Map<Seq<char>, VariantView> {
    Map::new(
        |name: Seq<char>|
            if changed.contains_key(name) {
                changed[name] is Some
            } else {
                have.contains_key(name)
            },
        |name: Seq<char>|
            if changed.contains_key(name) {
                changed[name]->0
            } else {
                have[name]
            },
    )
}

/// The changes of an update give an instance the properties that its snapshot
/// asks for. For a class with a pivot this holds but for `NeedsPivotMigration`,
/// which is there in any case.
pub proof fn lemma_update_reaches_snapshot(
    snapshot: SnapshotView,
    instance: TreeInstanceView,
    id: u128,
    specified: Map<Seq<char>, u128>,
)
    ensures
        ({
            let desired = desired_properties(snapshot.properties, specified);
            let update = update_for(snapshot, instance, id, specified);
            let after = after_changes(instance.values(), update.changed_properties);
            &&& !has_pivot(snapshot.class_name) ==> after == desired
            &&& has_pivot(snapshot.class_name) ==> after.contains_key("NeedsPivotMigration"@)
            &&& forall|name: Seq<char>|
                name != "NeedsPivotMigration"@ ==> entry(after, name) == #[trigger] entry(
                    desired,
                    name,
                )
        }),
{
}

/// An update of a class without a pivot names only properties that really
/// change.
pub proof fn lemma_update_is_minimal(
    snapshot: SnapshotView,
    instance: TreeInstanceView,
    id: u128,
    specified: Map<Seq<char>, u128>,
    name: Seq<char>,
)
    requires
        !has_pivot(snapshot.class_name),
        update_for(snapshot, instance, id, specified).changed_properties.contains_key(name),
    ensures
        entry(instance.values(), name) != update_for(
            snapshot,
            instance,
            id,
            specified,
        ).changed_properties[name],
{
}

/// Children are paired one to one: no instance is taken by two snapshots, each
/// pair agrees in name and class, and a snapshot goes without an instance only
/// where all that are like it are taken by snapshots before it.
pub proof fn lemma_pairing_is_greedy(snapshots: Seq<SnapshotView>, tree: TreeView, ids: Seq<u128>)
    ensures
        pairing(snapshots, tree, ids).len() == snapshots.len(),
        forall|k: int, l: int|
            #![trigger pairing(snapshots, tree, ids)[k], pairing(snapshots, tree, ids)[l]]
            0 <= k < l < snapshots.len() && pairing(snapshots, tree, ids)[k] is Some ==> pairing(
                snapshots,
                tree,
                ids,
            )[k] != pairing(snapshots, tree, ids)[l],
        forall|k: int|
            0 <= k < snapshots.len() ==> match #[trigger] pairing(snapshots, tree, ids)[k] {
                Some(i) => 0 <= i < ids.len() && alike(snapshots[k], tree.instances[ids[i]]),
                None => forall|other: int|
                    #![trigger ids[other]]
                    0 <= other < ids.len() && alike(snapshots[k], tree.instances[ids[other]])
                        ==> pairing(snapshots, tree, ids).take(k).contains(Some(other)),
            },
{
    let all = pairing(snapshots, tree, ids);
    lemma_pairing(snapshots, tree, ids, 0);
    assert forall|k: int, l: int|
        #![trigger all[k], all[l]]
        0 <= k < l < snapshots.len() && all[k] is Some implies all[k] != all[l] by {
        lemma_pairing(snapshots, tree, ids, l);
        let taken = all.take(l);
        lemma_first_alike(snapshots[l], tree, ids, taken, 0);
        assert(taken[k] == all[k]);
    }
    assert forall|k: int| 0 <= k < snapshots.len() implies match #[trigger] all[k] {
        Some(i) => 0 <= i < ids.len() && alike(snapshots[k], tree.instances[ids[i]]),
        None => forall|other: int|
            #![trigger ids[other]]
            0 <= other < ids.len() && alike(snapshots[k], tree.instances[ids[other]])
                ==> all.take(k).contains(Some(other)),
    } by {
        lemma_pairing(snapshots, tree, ids, k);
        let taken = all.take(k);
        lemma_first_alike(snapshots[k], tree, ids, taken, 0);
    }
}

/// A child of an instance is removed exactly if no snapshot is paired with it.
pub proof fn lemma_unpaired_are_removed(ids: Seq<u128>, taken: Seq<Option<int>>, n: int, i: int)
    requires
        ids.no_duplicates(),
        0 <= i < n <= ids.len(),
    ensures
        untaken(ids, taken, n).contains(ids[i]) <==> !taken.contains(Some(i)),
    decreases n,
{
    let front = untaken(ids, taken, n - 1);
    let list = untaken(ids, taken, n);
    lemma_untaken_within(ids, taken, n - 1);
    if i < n - 1 {
        lemma_unpaired_are_removed(ids, taken, n - 1, i);
        if front.contains(ids[i]) {
            let k = front.index_of(ids[i]);
            assert(list[k] == ids[i]);
        }
    } else {
        if !taken.contains(Some(i)) {
            assert(list[front.len() as int] == ids[i]);
        }
    }
}

/// Only children that are listed can be left over.
pub(crate) proof fn lemma_untaken_within(ids: Seq<u128>, taken: Seq<Option<int>>, n: int)
    requires
        n <= ids.len(),
    ensures
        forall|k: int|
            #![trigger untaken(ids, taken, n)[k]]
            0 <= k < untaken(ids, taken, n).len() ==> exists|j: int|
                0 <= j < n && ids[j] == untaken(ids, taken, n)[k],
    decreases n,
{
    if n > 0 {
        lemma_untaken_within(ids, taken, n - 1);
        let front = untaken(ids, taken, n - 1);
        let list = untaken(ids, taken, n);
        assert forall|k: int| #![trigger list[k]] 0 <= k < list.len() implies exists|j: int|
            0 <= j < n && ids[j] == list[k] by {
            if k < front.len() {
                assert(list[k] == front[k]);
                let j = choose|j: int| 0 <= j < n - 1 && ids[j] == front[k];
                assert(ids[j] == list[k]);
            } else {
                assert(ids[n - 1] == list[k]);
            }
        }
    }
}

/// Whether a snapshot describes an instance, and all that is below it, as they
/// are. No class with a pivot is among them: an update always looks after its
/// `NeedsPivotMigration`.
pub open spec fn mirrors(snapshot: SnapshotView, tree: TreeView, id: u128) -> bool
    decreases snapshot,
{
    let instance = tree.instances[id];
    &&& !has_pivot(snapshot.class_name)
    &&& snapshot.name == instance.name
    &&& snapshot.class_name == instance.class_name
    &&& snapshot.metadata == instance.metadata
    &&& desired_properties(snapshot.properties, tree.specified) == instance.values()
    &&& snapshot.children.len() == instance.children.len()
    &&& forall|i: int|
        0 <= i < snapshot.children.len() ==> mirrors(
            #[trigger] snapshot.children[i],
            tree,
            instance.children[i],
        )
}

/// A snapshot that describes a tree as it is gives an empty patch.
pub proof fn lemma_mirror_needs_no_patch(snapshot: SnapshotView, tree: TreeView, id: u128)
    requires
        mirrors(snapshot, tree, id),
    ensures
        patch_for(Some(snapshot), tree, id) == empty_patch(),
{
    lemma_mirror(snapshot, tree, id);
    let patch = patch_for(Some(snapshot), tree, id);
    assert(patch.added =~= empty_patch().added);
    assert(patch.updated =~= empty_patch().updated);
}

pub(crate) proof fn lemma_mirror(snapshot: SnapshotView, tree: TreeView, id: u128)
    requires
        mirrors(snapshot, tree, id),
    ensures
        raw_patch(snapshot, tree, id) == empty_patch(),
    decreases snapshot, 1int, 0int,
{
    let instance = tree.instances[id];
    let ids = instance.children;
    let n = snapshot.children.len() as int;
    let update = update_for(snapshot, instance, id, tree.specified);
    assert(update.changed_properties =~= Map::empty());
    lemma_mirror_children(snapshot, tree, id, n);
    lemma_mirror_pairing(snapshot, tree, id, n);
    assert(snapshot.children.take(n) =~= snapshot.children);
    let taken = pairing(snapshot.children, tree, ids);
    lemma_all_paired(ids, taken, n);
}

pub(crate) proof fn lemma_all_paired(ids: Seq<u128>, taken: Seq<Option<int>>, n: int)
    requires
        n <= ids.len(),
        forall|i: int| 0 <= i < n ==> #[trigger] taken.contains(Some(i)),
    ensures
        untaken(ids, taken, n) == Seq::<u128>::empty(),
    decreases n,
{
    if n > 0 {
        lemma_all_paired(ids, taken, n - 1);
    }
}

proof fn lemma_mirror_children(snapshot: SnapshotView, tree: TreeView, id: u128, n: int)
    requires
        mirrors(snapshot, tree, id),
        0 <= n <= snapshot.children.len(),
    ensures
        children_patch(snapshot, tree, id, n) == empty_patch(),
    decreases snapshot, 0int, n,
{
    if n > 0 {
        let ids = tree.instances[id].children;
        lemma_mirror_children(snapshot, tree, id, n - 1);
        lemma_mirror_pairing(snapshot, tree, id, n);
        lemma_pairing(snapshot.children, tree, ids, n);
        assert(pairing(snapshot.children, tree, ids).take(n)[n - 1] == pairing(
            snapshot.children,
            tree,
            ids,
        )[n - 1]);
        lemma_mirror(snapshot.children[n - 1], tree, ids[n - 1]);
    }
}

/// Where a snapshot describes an instance as it is, each child is paired with
/// the instance at its own place.
proof fn lemma_mirror_pairing(snapshot: SnapshotView, tree: TreeView, id: u128, k: int)
    requires
        mirrors(snapshot, tree, id),
        0 <= k <= snapshot.children.len(),
    ensures
        pairing(snapshot.children.take(k), tree, tree.instances[id].children).len() == k,
        forall|i: int|
            0 <= i < k ==> #[trigger] pairing(
                snapshot.children.take(k),
                tree,
                tree.instances[id].children,
            )[i] == Some(i),
        forall|i: int|
            #[trigger] pairing(
                snapshot.children.take(k),
                tree,
                tree.instances[id].children,
            ).contains(Some(i)) <==> 0 <= i < k,
    decreases k,
{
    let ids = tree.instances[id].children;
    let all = pairing(snapshot.children.take(k), tree, ids);
    if k > 0 {
        let child = snapshot.children[k - 1];
        let taken = pairing(snapshot.children.take(k - 1), tree, ids);
        lemma_mirror_pairing(snapshot, tree, id, k - 1);
        assert(snapshot.children.take(k).drop_last() =~= snapshot.children.take(k - 1));
        assert(mirrors(child, tree, ids[k - 1]));
        lemma_first_alike(child, tree, ids, taken, 0);
        match first_alike(child, tree, ids, taken, 0) {
            Some(j) => {
                assert(!taken.contains(Some(k - 1)));
            },
            None => {
                assert(!taken.contains(Some(k - 1)));
            },
        }
    }
    assert forall|i: int| #[trigger] all.contains(Some(i)) <==> 0 <= i < k by {
        if 0 <= i < k {
            assert(all[i] == Some(i));
        }
    }
}

/// Whether a patch speaks of instances of a tree only, and leaves the root in
/// place.
pub open spec fn stays_within(patch: PatchView, tree: TreeView) -> bool {
    &&& forall|i: int|
        0 <= i < patch.removed.len() ==> tree.instances.contains_key(#[trigger] patch.removed[i])
            && patch.removed[i] != tree.root
    &&& forall|i: int|
        0 <= i < patch.added.len() ==> tree.instances.contains_key(
            (#[trigger] patch.added[i]).parent_id,
        )
    &&& forall|i: int|
        0 <= i < patch.updated.len() ==> tree.instances.contains_key(
            (#[trigger] patch.updated[i]).id,
        )
}

/// A patch removes instances of the tree only, and never the root; it adds
/// instances under instances of the tree only; and it changes instances of the
/// tree only.
pub proof fn lemma_patch_stays_within(snapshot: Option<SnapshotView>, tree: TreeView, id: u128)
    requires
        tree.closed_below(),
        tree.instances.contains_key(id),
    ensures
        stays_within(patch_for(snapshot, tree, id), tree),
{
    if let Some(snapshot) = snapshot {
        lemma_raw_within(snapshot, tree, id);
    }
}

proof fn lemma_raw_within(snapshot: SnapshotView, tree: TreeView, id: u128)
    requires
        tree.closed_below(),
        tree.instances.contains_key(id),
    ensures
        stays_within(raw_patch(snapshot, tree, id), tree),
    decreases snapshot, 1int, 0int,
{
    let ids = tree.instances[id].children;
    let n = snapshot.children.len() as int;
    let taken = pairing(snapshot.children, tree, ids);
    lemma_children_within(snapshot, tree, id, n);
    lemma_untaken_within(ids, taken, ids.len() as int);
}

proof fn lemma_children_within(snapshot: SnapshotView, tree: TreeView, id: u128, n: int)
    requires
        tree.closed_below(),
        tree.instances.contains_key(id),
        0 <= n <= snapshot.children.len(),
    ensures
        stays_within(children_patch(snapshot, tree, id, n), tree),
    decreases snapshot, 0int, n,
{
    if n > 0 {
        let ids = tree.instances[id].children;
        lemma_children_within(snapshot, tree, id, n - 1);
        lemma_pairing_is_greedy(snapshot.children, tree, ids);
        if let Some(i) = pairing(snapshot.children, tree, ids)[n - 1] {
            lemma_raw_within(snapshot.children[n - 1], tree, ids[i]);
        }
    }
}

/// Every identifier that a snapshot gives to a part that describes an instance
/// of the tree stands for an instance of the tree. The one of the snapshot
/// itself is among them.
pub proof fn lemma_known_ids_are_instances(
    snapshot: SnapshotView,
    tree: TreeView,
    id: u128,
    known: Map<u128, u128>,
)
    requires
        tree.closed_below(),
        tree.instances.contains_key(id),
        forall|key: u128| #[trigger]
            known.contains_key(key) ==> key != 0 && tree.instances.contains_key(known[key]),
    ensures
        forall|key: u128| #[trigger]
            known_ids(snapshot, tree, id, known).contains_key(key) ==> key != 0
                && tree.instances.contains_key(known_ids(snapshot, tree, id, known)[key]),
        forall|key: u128| #[trigger]
            known.contains_key(key) ==> known_ids(snapshot, tree, id, known).contains_key(key),
        snapshot.snapshot_id != 0 ==> known_ids(snapshot, tree, id, known).contains_key(
            snapshot.snapshot_id,
        ),
    decreases snapshot, 1int, 0int,
{
    let own = if snapshot.snapshot_id != 0 {
        known.insert(snapshot.snapshot_id, id)
    } else {
        known
    };
    let n = snapshot.children.len() as int;
    lemma_known_below(snapshot, tree, id, own, n);
    assert(known_ids(snapshot, tree, id, known) == known_below(snapshot, tree, id, own, n));
    if snapshot.snapshot_id != 0 {
        assert(own.contains_key(snapshot.snapshot_id));
    }
    assert forall|key: u128| #[trigger] known.contains_key(key) implies known_ids(
        snapshot,
        tree,
        id,
        known,
    ).contains_key(key) by {
        assert(own.contains_key(key));
    }
}

proof fn lemma_known_below(
    snapshot: SnapshotView,
    tree: TreeView,
    id: u128,
    known: Map<u128, u128>,
    n: int,
)
    requires
        tree.closed_below(),
        tree.instances.contains_key(id),
        0 <= n <= snapshot.children.len(),
        forall|key: u128| #[trigger]
            known.contains_key(key) ==> key != 0 && tree.instances.contains_key(known[key]),
    ensures
        forall|key: u128| #[trigger]
            known_below(snapshot, tree, id, known, n).contains_key(key) ==> key != 0
                && tree.instances.contains_key(known_below(snapshot, tree, id, known, n)[key]),
        forall|key: u128| #[trigger]
            known.contains_key(key) ==> known_below(snapshot, tree, id, known, n).contains_key(
                key,
            ),
    decreases snapshot, 0int, n,
{
    if n > 0 {
        let ids = tree.instances[id].children;
        let before = known_below(snapshot, tree, id, known, n - 1);
        lemma_known_below(snapshot, tree, id, known, n - 1);
        lemma_pairing_is_greedy(snapshot.children, tree, ids);
        match pairing(snapshot.children, tree, ids)[n - 1] {
            Some(i) => {
                let child = snapshot.children[n - 1];
                lemma_known_ids_are_instances(child, tree, ids[i], before);
                assert(known_below(snapshot, tree, id, known, n) == known_ids(
                    child,
                    tree,
                    ids[i],
                    before,
                ));
            },
            None => {},
        }
    }
}

/// In a patch, a change to a property that refers to a part of the snapshot
/// refers to the instance that the part describes, wherever there is one; all
/// other changes are kept as they are.
pub proof fn lemma_refs_are_rewritten(
    snapshot: SnapshotView,
    tree: TreeView,
    id: u128,
    i: int,
    name: Seq<char>,
)
    requires
        0 <= i < raw_patch(snapshot, tree, id).updated.len(),
        raw_patch(snapshot, tree, id).updated[i].changed_properties.contains_key(name),
    ensures
        ({
            let known = known_ids(snapshot, tree, id, Map::empty());
            let raw = raw_patch(snapshot, tree, id).updated[i];
            let update = patch_for(Some(snapshot), tree, id).updated[i];
            &&& update.changed_properties.contains_key(name)
            &&& update.changed_properties[name] == match raw.changed_properties[name] {
                Some(VariantView::Ref(referent)) => if known.contains_key(referent) {
                    Some(VariantView::Ref(known[referent]))
                } else {
                    Some(VariantView::Ref(referent))
                },
                other => other,
            }
        }),
{
}

/// In a patch, a property of an added instance that refers to a part of the
/// snapshot refers to the instance that the part describes, wherever there is
/// one; all other properties are kept as they are.
pub proof fn lemma_added_refs_are_rewritten(
    snapshot: SnapshotView,
    tree: TreeView,
    id: u128,
    i: int,
    name: Seq<char>,
)
    requires
        0 <= i < raw_patch(snapshot, tree, id).added.len(),
        raw_patch(snapshot, tree, id).added[i].instance.properties.contains_key(name),
    ensures
        ({
            let known = known_ids(snapshot, tree, id, Map::empty());
            let raw = raw_patch(snapshot, tree, id).added[i].instance;
            let added = patch_for(Some(snapshot), tree, id).added[i].instance;
            &&& added.properties.contains_key(name)
            &&& added.properties[name] == match raw.properties[name] {
                VariantView::Ref(referent) => if known.contains_key(referent) {
                    VariantView::Ref(known[referent])
                } else {
                    VariantView::Ref(referent)
                },
                other => other,
            }
        }),
{
}

/// Every child of a snapshot that is paired with no instance is added under the
/// instance that the snapshot describes, and every child of that instance that
/// is paired with no snapshot is removed.
pub proof fn lemma_children_are_accounted_for(snapshot: SnapshotView, tree: TreeView, id: u128)
    ensures
        forall|k: int|
            #![trigger snapshot.children[k]]
            0 <= k < snapshot.children.len() && pairing(
                snapshot.children,
                tree,
                tree.instances[id].children,
            )[k] is None ==> raw_patch(snapshot, tree, id).added.contains(
                AddView { parent_id: id, instance: snapshot.children[k] },
            ),
        forall|i: int|
            #![trigger tree.instances[id].children[i]]
            0 <= i < tree.instances[id].children.len() && !pairing(
                snapshot.children,
                tree,
                tree.instances[id].children,
            ).contains(Some(i)) ==> patch_for(Some(snapshot), tree, id).removed.contains(
                tree.instances[id].children[i],
            ),
{
    let ids = tree.instances[id].children;
    let taken = pairing(snapshot.children, tree, ids);
    let n = snapshot.children.len() as int;
    let raw = raw_patch(snapshot, tree, id);
    let below = children_patch(snapshot, tree, id, n);
    assert forall|k: int|
        #![trigger snapshot.children[k]]
        0 <= k < n && taken[k] is None implies raw.added.contains(
        AddView { parent_id: id, instance: snapshot.children[k] },
    ) by {
        lemma_child_added(snapshot, tree, id, k, n);
    }
    assert forall|i: int|
        #![trigger ids[i]]
        0 <= i < ids.len() && !taken.contains(Some(i)) implies raw.removed.contains(ids[i]) by {
        let left = untaken(ids, taken, ids.len() as int);
        lemma_left_over(ids, taken, ids.len() as int, i);
        let m = left.index_of(ids[i]);
        assert(raw.removed[below.removed.len() + m] == ids[i]);
    }
}

proof fn lemma_child_added(snapshot: SnapshotView, tree: TreeView, id: u128, k: int, n: int)
    requires
        0 <= k < n <= snapshot.children.len(),
        pairing(snapshot.children, tree, tree.instances[id].children)[k] is None,
    ensures
        children_patch(snapshot, tree, id, n).added.contains(
            AddView { parent_id: id, instance: snapshot.children[k] },
        ),
    decreases n,
{
    let add = AddView { parent_id: id, instance: snapshot.children[k] };
    let before = children_patch(snapshot, tree, id, n - 1).added;
    let after = children_patch(snapshot, tree, id, n).added;
    if k == n - 1 {
        assert(after[before.len() as int] == add);
    } else {
        lemma_child_added(snapshot, tree, id, k, n - 1);
        let m = before.index_of(add);
        assert(after[m] == add);
    }
}

pub(crate) proof fn lemma_left_over(ids: Seq<u128>, taken: Seq<Option<int>>, n: int, i: int)
    requires
        0 <= i < n <= ids.len(),
        !taken.contains(Some(i)),
    ensures
        untaken(ids, taken, n).contains(ids[i]),
    decreases n,
{
    let front = untaken(ids, taken, n - 1);
    let list = untaken(ids, taken, n);
    if i == n - 1 {
        assert(list[front.len() as int] == ids[i]);
    } else {
        lemma_left_over(ids, taken, n - 1, i);
        let k = front.index_of(ids[i]);
        assert(list[k] == ids[i]);
    }
}

/// No update of a patch changes nothing.
pub proof fn lemma_updates_change_something(snapshot: SnapshotView, tree: TreeView, id: u128)
    ensures
        forall|i: int|
            0 <= i < patch_for(Some(snapshot), tree, id).updated.len() ==> !changes_nothing(
                #[trigger] patch_for(Some(snapshot), tree, id).updated[i],
            ),
{
    let raw = raw_patch(snapshot, tree, id);
    let patch = patch_for(Some(snapshot), tree, id);
    lemma_raw_updates_change(snapshot, tree, id);
    assert forall|i: int| 0 <= i < patch.updated.len() implies !changes_nothing(
        #[trigger] patch.updated[i],
    ) by {
        let update = raw.updated[i];
        if patch.updated[i].changed_properties == Map::<Seq<char>, Option<VariantView>>::empty() {
            assert(update.changed_properties =~= Map::empty());
        }
    }
}

proof fn lemma_raw_updates_change(snapshot: SnapshotView, tree: TreeView, id: u128)
    ensures
        forall|i: int|
            0 <= i < raw_patch(snapshot, tree, id).updated.len() ==> !changes_nothing(
                #[trigger] raw_patch(snapshot, tree, id).updated[i],
            ),
    decreases snapshot, 1int, 0int,
{
    let n = snapshot.children.len() as int;
    let update = update_for(snapshot, tree.instances[id], id, tree.specified);
    let own = with_update(empty_patch(), update).updated;
    let below = children_patch(snapshot, tree, id, n).updated;
    lemma_children_updates_change(snapshot, tree, id, n);
    assert(raw_patch(snapshot, tree, id).updated == own + below);
}

proof fn lemma_children_updates_change(snapshot: SnapshotView, tree: TreeView, id: u128, n: int)
    requires
        0 <= n <= snapshot.children.len(),
    ensures
        forall|i: int|
            0 <= i < children_patch(snapshot, tree, id, n).updated.len() ==> !changes_nothing(
                #[trigger] children_patch(snapshot, tree, id, n).updated[i],
            ),
    decreases snapshot, 0int, n,
{
    if n > 0 {
        let ids = tree.instances[id].children;
        let before = children_patch(snapshot, tree, id, n - 1).updated;
        let after = children_patch(snapshot, tree, id, n).updated;
        lemma_children_updates_change(snapshot, tree, id, n - 1);
        match pairing(snapshot.children, tree, ids)[n - 1] {
            Some(i) => {
                let child = snapshot.children[n - 1];
                lemma_raw_updates_change(child, tree, ids[i]);
                assert(after == before + raw_patch(child, tree, ids[i]).updated);
            },
            None => {},
        }
    }
}

/// Whether an instance is `top` or below it.
pub open spec fn is_within(
    tree: TreeView,
    depth: Map<u128, usize>,
    id: u128,
    top: u128,
) -> bool
    decreases depth[id],
{
    &&& tree.instances.contains_key(id)
    &&& id == top || (depth[tree.instances[id].parent] < depth[id] && is_within(
        tree,
        depth,
        tree.instances[id].parent,
        top,
    ))
}

/// Whether a patch never speaks of an instance twice in one way, and speaks in no
/// other way of an instance that it removes, or of one below it.
pub open spec fn is_consistent(patch: PatchView, tree: TreeView, depth: Map<u128, usize>) -> bool {
    &&& forall|i: int, j: int|
        0 <= i < j < patch.updated.len() ==> (#[trigger] patch.updated[i]).id != (
        #[trigger] patch.updated[j]).id
    &&& patch.removed.no_duplicates()
    &&& forall|i: int, j: int|
        0 <= i < patch.updated.len() && 0 <= j < patch.removed.len() ==> !is_within(
            tree,
            depth,
            (#[trigger] patch.updated[i]).id,
            #[trigger] patch.removed[j],
        )
    &&& forall|i: int, j: int|
        0 <= i < patch.added.len() && 0 <= j < patch.removed.len() ==> !is_within(
            tree,
            depth,
            (#[trigger] patch.added[i]).parent_id,
            #[trigger] patch.removed[j],
        )
}

/// A patch updates and removes each instance at most once, and neither updates
/// nor adds to an instance that it removes, or to one below it.
pub proof fn lemma_patch_is_consistent(
    snapshot: SnapshotView,
    tree: TreeView,
    depth: Map<u128, usize>,
    id: u128,
)
    requires
        is_layered(tree, depth),
        tree.instances.contains_key(id),
    ensures
        is_consistent(patch_for(Some(snapshot), tree, id), tree, depth),
{
    lemma_raw_consistent(snapshot, tree, depth, id);
}

pub(crate) proof fn lemma_within_depth(tree: TreeView, depth: Map<u128, usize>, id: u128, top: u128)
    requires
        is_within(tree, depth, id, top),
    ensures
        depth[top] <= depth[id],
        id != top ==> depth[top] < depth[id],
    decreases depth[id],
{
    if id != top {
        lemma_within_depth(tree, depth, tree.instances[id].parent, top);
    }
}

pub(crate) proof fn lemma_within_chain(
    tree: TreeView,
    depth: Map<u128, usize>,
    id: u128,
    middle: u128,
    top: u128,
)
    requires
        is_within(tree, depth, id, middle),
        is_within(tree, depth, middle, top),
    ensures
        is_within(tree, depth, id, top),
    decreases depth[id],
{
    if id != middle {
        lemma_within_chain(tree, depth, tree.instances[id].parent, middle, top);
    }
}

/// Nothing is below two instances of the same depth.
pub(crate) proof fn lemma_apart(tree: TreeView, depth: Map<u128, usize>, id: u128, a: u128, b: u128)
    requires
        is_within(tree, depth, id, a),
        is_within(tree, depth, id, b),
        depth[a] == depth[b],
    ensures
        a == b,
    decreases depth[id],
{
    if id == a {
        lemma_within_depth(tree, depth, id, b);
    } else if id == b {
        lemma_within_depth(tree, depth, id, a);
    } else {
        lemma_apart(tree, depth, tree.instances[id].parent, a, b);
    }
}

/// Whether what a patch speaks of is within `top`, and what it removes is below
/// it.
pub(crate) open spec fn stays_below(
    patch: PatchView,
    tree: TreeView,
    depth: Map<u128, usize>,
    top: u128,
) -> bool {
    &&& forall|i: int|
        0 <= i < patch.updated.len() ==> is_within(
            tree,
            depth,
            (#[trigger] patch.updated[i]).id,
            top,
        )
    &&& forall|i: int|
        0 <= i < patch.added.len() ==> is_within(
            tree,
            depth,
            (#[trigger] patch.added[i]).parent_id,
            top,
        )
    &&& forall|i: int|
        0 <= i < patch.removed.len() ==> is_within(tree, depth, #[trigger] patch.removed[i], top)
            && patch.removed[i] != top
}

/// Whether an instance is within one of those that the first `n` of some
/// snapshots are paired with.
spec fn within_paired(
    tree: TreeView,
    depth: Map<u128, usize>,
    ids: Seq<u128>,
    taken: Seq<Option<int>>,
    n: int,
    id: u128,
) -> bool {
    exists|k: int| within_pair(tree, depth, ids, taken, n, id, k)
}

spec fn within_pair(
    tree: TreeView,
    depth: Map<u128, usize>,
    ids: Seq<u128>,
    taken: Seq<Option<int>>,
    n: int,
    id: u128,
    k: int,
) -> bool {
    0 <= k < n && (taken[k] matches Some(m) && is_within(tree, depth, id, ids[m]))
}

/// [`stays_below`] for what the first `n` children of a snapshot give.
spec fn stays_below_paired(
    patch: PatchView,
    tree: TreeView,
    depth: Map<u128, usize>,
    top: u128,
    taken: Seq<Option<int>>,
    n: int,
) -> bool {
    let ids = tree.instances[top].children;
    &&& forall|i: int|
        0 <= i < patch.updated.len() ==> within_paired(
            tree,
            depth,
            ids,
            taken,
            n,
            (#[trigger] patch.updated[i]).id,
        )
    &&& forall|i: int|
        0 <= i < patch.added.len() ==> (#[trigger] patch.added[i]).parent_id == top
            || within_paired(tree, depth, ids, taken, n, patch.added[i].parent_id)
    &&& forall|i: int|
        0 <= i < patch.removed.len() ==> within_paired(
            tree,
            depth,
            ids,
            taken,
            n,
            #[trigger] patch.removed[i],
        )
}

/// What is within a paired child is below the parent, and is not within another
/// child.
proof fn lemma_within_paired(
    tree: TreeView,
    depth: Map<u128, usize>,
    top: u128,
    taken: Seq<Option<int>>,
    n: int,
    id: u128,
    other: int,
)
    requires
        is_layered(tree, depth),
        tree.instances.contains_key(top),
        within_paired(tree, depth, tree.instances[top].children, taken, n, id),
        forall|k: int|
            0 <= k < n ==> (#[trigger] taken[k] matches Some(m) ==> 0 <= m
                < tree.instances[top].children.len() && m != other),
        0 <= other < tree.instances[top].children.len(),
    ensures
        is_within(tree, depth, id, top),
        id != top,
        !is_within(tree, depth, id, tree.instances[top].children[other]),
{
    let ids = tree.instances[top].children;
    let k = choose|k: int| within_pair(tree, depth, ids, taken, n, id, k);
    let m = taken[k]->0;
    assert(is_within(tree, depth, top, top));
    lemma_within_chain(tree, depth, id, ids[m], top);
    lemma_within_depth(tree, depth, id, ids[m]);
    if is_within(tree, depth, id, ids[other]) {
        lemma_apart(tree, depth, id, ids[m], ids[other]);
    }
}

/// Two consistent patches that do not speak of the same are consistent together.
proof fn lemma_both_consistent(
    a: PatchView,
    b: PatchView,
    tree: TreeView,
    depth: Map<u128, usize>,
)
    requires
        is_consistent(a, tree, depth),
        is_consistent(b, tree, depth),
        forall|i: int, j: int|
            0 <= i < a.updated.len() && 0 <= j < b.updated.len() ==> (#[trigger] a.updated[i]).id
                != (#[trigger] b.updated[j]).id,
        forall|i: int, j: int|
            0 <= i < a.removed.len() && 0 <= j < b.removed.len() ==> #[trigger] a.removed[i]
                != #[trigger] b.removed[j],
        forall|i: int, j: int|
            0 <= i < a.updated.len() && 0 <= j < b.removed.len() ==> !is_within(
                tree,
                depth,
                (#[trigger] a.updated[i]).id,
                #[trigger] b.removed[j],
            ),
        forall|i: int, j: int|
            0 <= i < b.updated.len() && 0 <= j < a.removed.len() ==> !is_within(
                tree,
                depth,
                (#[trigger] b.updated[i]).id,
                #[trigger] a.removed[j],
            ),
        forall|i: int, j: int|
            0 <= i < a.added.len() && 0 <= j < b.removed.len() ==> !is_within(
                tree,
                depth,
                (#[trigger] a.added[i]).parent_id,
                #[trigger] b.removed[j],
            ),
        forall|i: int, j: int|
            0 <= i < b.added.len() && 0 <= j < a.removed.len() ==> !is_within(
                tree,
                depth,
                (#[trigger] b.added[i]).parent_id,
                #[trigger] a.removed[j],
            ),
    ensures
        is_consistent(both(a, b), tree, depth),
{
    let c = both(a, b);
    let u = a.updated.len() as int;
    let r = a.removed.len() as int;
    assert forall|i: int, j: int|
        0 <= i < c.removed.len() && 0 <= j < c.removed.len() && i != j implies c.removed[i]
        != c.removed[j] by {}
    assert forall|i: int, j: int|
        0 <= i < c.updated.len() && 0 <= j < c.removed.len() implies !is_within(
        tree,
        depth,
        (#[trigger] c.updated[i]).id,
        #[trigger] c.removed[j],
    ) by {
        if i < u && j < r {
            assert(!is_within(tree, depth, a.updated[i].id, a.removed[j]));
        } else if i < u {
            assert(!is_within(tree, depth, a.updated[i].id, b.removed[j - r]));
        }
    }
    assert forall|i: int, j: int|
        0 <= i < c.added.len() && 0 <= j < c.removed.len() implies !is_within(
        tree,
        depth,
        (#[trigger] c.added[i]).parent_id,
        #[trigger] c.removed[j],
    ) by {}
}

/// What is within one child of an instance is not within what is within another.
proof fn lemma_across(
    tree: TreeView,
    depth: Map<u128, usize>,
    top: u128,
    taken: Seq<Option<int>>,
    n: int,
    id: u128,
    at: u128,
    other: int,
)
    requires
        is_layered(tree, depth),
        tree.instances.contains_key(top),
        within_paired(tree, depth, tree.instances[top].children, taken, n, at),
        forall|k: int|
            0 <= k < n ==> (#[trigger] taken[k] matches Some(m) ==> 0 <= m
                < tree.instances[top].children.len() && m != other),
        0 <= other < tree.instances[top].children.len(),
        is_within(tree, depth, id, tree.instances[top].children[other]),
    ensures
        !is_within(tree, depth, id, at),
{
    let ids = tree.instances[top].children;
    if is_within(tree, depth, id, at) {
        let k = choose|k: int| within_pair(tree, depth, ids, taken, n, at, k);
        let m = taken[k]->0;
        lemma_within_chain(tree, depth, id, at, ids[m]);
        lemma_apart(tree, depth, id, ids[m], ids[other]);
    }
}

/// An instance is not within what is below it.
proof fn lemma_not_within_below(tree: TreeView, depth: Map<u128, usize>, top: u128, id: u128)
    requires
        is_within(tree, depth, id, top),
        id != top,
    ensures
        !is_within(tree, depth, top, id),
{
    lemma_within_depth(tree, depth, id, top);
    if is_within(tree, depth, top, id) {
        lemma_within_depth(tree, depth, top, id);
    }
}

proof fn lemma_children_consistent(
    snapshot: SnapshotView,
    tree: TreeView,
    depth: Map<u128, usize>,
    id: u128,
    n: int,
)
    requires
        is_layered(tree, depth),
        tree.instances.contains_key(id),
        0 <= n <= snapshot.children.len(),
    ensures
        is_consistent(children_patch(snapshot, tree, id, n), tree, depth),
        stays_below_paired(
            children_patch(snapshot, tree, id, n),
            tree,
            depth,
            id,
            pairing(snapshot.children, tree, tree.instances[id].children),
            n,
        ),
    decreases snapshot, 0int, n,
{
    let ids = tree.instances[id].children;
    let taken = pairing(snapshot.children, tree, ids);
    if n > 0 {
        let before = n - 1;
        let child = snapshot.children[n - 1];
        let a = children_patch(snapshot, tree, id, n - 1);
        lemma_children_consistent(snapshot, tree, depth, id, n - 1);
        lemma_pairing_is_greedy(snapshot.children, tree, ids);
        let b = match taken[n - 1] {
            Some(m) => raw_patch(child, tree, ids[m]),
            None => PatchView {
                added: seq![AddView { parent_id: id, instance: child }],
                ..empty_patch()
            },
        };
        match taken[n - 1] {
            Some(m) => {
                lemma_raw_consistent(child, tree, depth, ids[m]);
                assert forall|x: u128| #[trigger]
                    within_paired(tree, depth, ids, taken, before, x) implies !is_within(
                    tree,
                    depth,
                    x,
                    ids[m],
                ) && is_within(tree, depth, x, id) && x != id by {
                    lemma_within_paired(tree, depth, id, taken, before, x, m);
                }
                assert forall|x: u128, at: u128|
                    within_paired(tree, depth, ids, taken, before, at) && is_within(
                        tree,
                        depth,
                        x,
                        ids[m],
                    ) implies !#[trigger] is_within(tree, depth, x, at) by {
                    lemma_across(tree, depth, id, taken, before, x, at, m);
                }
                assert forall|x: u128, at: u128|
                    within_paired(tree, depth, ids, taken, before, x) && is_within(
                        tree,
                        depth,
                        at,
                        ids[m],
                    ) implies !#[trigger] is_within(tree, depth, x, at) by {
                    if is_within(tree, depth, x, at) {
                        lemma_within_chain(tree, depth, x, at, ids[m]);
                    }
                }
                assert forall|at: u128| is_within(tree, depth, at, ids[m]) implies
                    !#[trigger] is_within(tree, depth, id, at) by {
                    lemma_within_depth(tree, depth, at, ids[m]);
                    if is_within(tree, depth, id, at) {
                        lemma_within_depth(tree, depth, id, at);
                    }
                }
                lemma_both_consistent(a, b, tree, depth);
                assert forall|x: u128| is_within(tree, depth, x, ids[m]) implies
                    #[trigger] within_paired(tree, depth, ids, taken, n, x) by {
                    assert(within_pair(tree, depth, ids, taken, n, x, n - 1));
                }
            },
            None => {
                assert forall|j: int| 0 <= j < a.removed.len() implies !is_within(
                    tree,
                    depth,
                    id,
                    #[trigger] a.removed[j],
                ) by {
                    lemma_paired_is_below(tree, depth, id, taken, before, a.removed[j]);
                    lemma_not_within_below(tree, depth, id, a.removed[j]);
                }
                lemma_both_consistent(a, b, tree, depth);
            },
        }
        assert forall|x: u128| within_paired(tree, depth, ids, taken, before, x) implies
            #[trigger] within_paired(tree, depth, ids, taken, n, x) by {
            lemma_paired_stays(tree, depth, ids, taken, before, n, x);
        }
    }
}

/// What is within a paired child stays so when more are paired.
proof fn lemma_paired_stays(
    tree: TreeView,
    depth: Map<u128, usize>,
    ids: Seq<u128>,
    taken: Seq<Option<int>>,
    n: int,
    more: int,
    id: u128,
)
    requires
        n <= more,
        within_paired(tree, depth, ids, taken, n, id),
    ensures
        within_paired(tree, depth, ids, taken, more, id),
{
    let k = choose|k: int| within_pair(tree, depth, ids, taken, n, id, k);
    assert(within_pair(tree, depth, ids, taken, more, id, k));
}

/// What is within a paired child is below the parent.
proof fn lemma_paired_is_below(
    tree: TreeView,
    depth: Map<u128, usize>,
    top: u128,
    taken: Seq<Option<int>>,
    n: int,
    id: u128,
)
    requires
        is_layered(tree, depth),
        tree.instances.contains_key(top),
        within_paired(tree, depth, tree.instances[top].children, taken, n, id),
        forall|k: int|
            0 <= k < n ==> (#[trigger] taken[k] matches Some(m) ==> 0 <= m
                < tree.instances[top].children.len()),
    ensures
        is_within(tree, depth, id, top),
        id != top,
{
    let ids = tree.instances[top].children;
    let k = choose|k: int| within_pair(tree, depth, ids, taken, n, id, k);
    let m = taken[k]->0;
    assert(is_within(tree, depth, top, top));
    lemma_within_chain(tree, depth, id, ids[m], top);
    lemma_within_depth(tree, depth, id, ids[m]);
}

pub(crate) proof fn lemma_raw_consistent(
    snapshot: SnapshotView,
    tree: TreeView,
    depth: Map<u128, usize>,
    id: u128,
)
    requires
        is_layered(tree, depth),
        tree.instances.contains_key(id),
    ensures
        is_consistent(raw_patch(snapshot, tree, id), tree, depth),
        stays_below(raw_patch(snapshot, tree, id), tree, depth, id),
    decreases snapshot, 1int, 0int,
{
    let ids = tree.instances[id].children;
    let n = snapshot.children.len() as int;
    let taken = pairing(snapshot.children, tree, ids);
    let below = children_patch(snapshot, tree, id, n);
    let left = untaken(ids, taken, ids.len() as int);
    let gone = PatchView { removed: left, ..empty_patch() };
    let update = update_for(snapshot, tree.instances[id], id, tree.specified);
    let own = with_update(empty_patch(), update);
    lemma_children_consistent(snapshot, tree, depth, id, n);
    lemma_pairing_is_greedy(snapshot.children, tree, ids);
    lemma_untaken_within(ids, taken, ids.len() as int);
    lemma_untaken_distinct(ids, taken, ids.len() as int);

    assert forall|j: int| 0 <= j < left.len() implies is_within(tree, depth, #[trigger] left[j], id)
        && left[j] != id && !is_within(tree, depth, id, left[j]) by {
        let m = choose|m: int| 0 <= m < ids.len() && ids[m] == left[j];
        assert(is_within(tree, depth, id, id));
        lemma_not_within_below(tree, depth, id, left[j]);
    }
    assert forall|x: u128, j: int|
        #![trigger within_paired(tree, depth, ids, taken, n, x), left[j]]
        within_paired(tree, depth, ids, taken, n, x) && 0 <= j < left.len() implies !is_within(
        tree,
        depth,
        x,
        left[j],
    ) by {
        let m = choose|m: int| 0 <= m < ids.len() && ids[m] == left[j];
        lemma_unpaired_are_removed(ids, taken, ids.len() as int, m);
        lemma_within_paired(tree, depth, id, taken, n, x, m);
    }
    lemma_both_consistent(below, gone, tree, depth);
    let rest = both(below, gone);
    assert forall|x: u128| #[trigger] within_paired(
        tree,
        depth,
        ids,
        taken,
        n,
        x,
    ) implies is_within(tree, depth, x, id) && x != id && !is_within(tree, depth, id, x) by {
        lemma_paired_is_below(tree, depth, id, taken, n, x);
        lemma_not_within_below(tree, depth, id, x);
    }
    lemma_both_consistent(own, rest, tree, depth);
}

proof fn lemma_untaken_distinct(ids: Seq<u128>, taken: Seq<Option<int>>, n: int)
    requires
        ids.no_duplicates(),
        n <= ids.len(),
    ensures
        untaken(ids, taken, n).no_duplicates(),
    decreases n,
{
    if n > 0 {
        lemma_untaken_distinct(ids, taken, n - 1);
        lemma_untaken_within(ids, taken, n - 1);
    }
}

} // verus!
