//! Carrying a patch out leaves nothing to change.

use vstd::prelude::*;

use crate::instance::{empty_patch, AddView, PatchView, SnapshotView, UpdateView};
use crate::name_map::{entry, lemma_same_entries};
use crate::patch_compute::{
    alike, attributes_in, both, children_patch, desired_properties, has_pivot, known_ids,
    lemma_first_alike, lemma_pairing, pairing, patch_for, pointer_prefix, raw_patch, ref_properties,
    relinked_snapshot, update_for,
};
use crate::patch_laws::{
    after_changes, is_within, lemma_all_paired, lemma_apart, lemma_mirror, lemma_pairing_is_greedy,
    lemma_raw_consistent, lemma_within_chain, lemma_within_depth, mirrors, stays_below,
};
use crate::patch_reach::{
    after_change, instance_reached, lemma_not_within_child, lemma_part_within,
    lemma_patch_reaches_snapshot, no_update, part, reaches, update_reaches,
};
use crate::tree::{is_layer_below, is_layered, TreeInstanceView, TreeView};

verus! {

/// The instances that additions put under an instance, in order.
pub open spec fn added_to(added: Seq<AddView>, id: u128) -> Seq<SnapshotView>
    decreases added.len(),
{
    if added.len() == 0 {
        Seq::empty()
    } else {
        let before = added_to(added.drop_last(), id);
        if added.last().parent_id == id {
            before.push(added.last().instance)
        } else {
            before
        }
    }
}

/// The referents of the instances that additions put under an instance, in order.
/// `fresh` holds the referent of each addition.
pub open spec fn new_children(added: Seq<AddView>, fresh: Seq<u128>, id: u128) -> Seq<u128>
    decreases added.len(),
{
    if added.len() == 0 {
        Seq::empty()
    } else {
        let before = new_children(added.drop_last(), fresh, id);
        if added.last().parent_id == id {
            before.push(fresh[added.len() - 1])
        } else {
            before
        }
    }
}

/// The first `n` of some children without those that are removed.
pub open spec fn kept_children(ids: Seq<u128>, removed: Seq<u128>, n: int) -> Seq<u128>
    decreases n,
{
    if n <= 0 {
        Seq::empty()
    } else if removed.contains(ids[n - 1]) {
        kept_children(ids, removed, n - 1)
    } else {
        kept_children(ids, removed, n - 1).push(ids[n - 1])
    }
}

/// What a patch says of an instance.
pub open spec fn said_of(patch: PatchView, id: u128) -> UpdateView {
    if exists|u: UpdateView| #[trigger] patch.updated.contains(u) && u.id == id {
        choose|u: UpdateView| #[trigger] patch.updated.contains(u) && u.id == id
    } else {
        no_update(id)
    }
}

/// Whether an instance is another after an update, leaving children aside.
pub open spec fn is_updated(
    after: TreeInstanceView,
    before: TreeInstanceView,
    update: UpdateView,
) -> bool {
    &&& after.name == after_change(before.name, update.changed_name)
    &&& after.class_name == after_change(before.class_name, update.changed_class_name)
    &&& after.metadata == after_change(before.metadata, update.changed_metadata)
    &&& after.values() == after_changes(before.values(), update.changed_properties)
}

/// Whether an instance, and all that is below it, is what a snapshot describes,
/// child by child.
pub open spec fn is_copy(snapshot: SnapshotView, tree: TreeView, id: u128) -> bool
    decreases snapshot,
{
    let instance = tree.instances[id];
    &&& tree.instances.contains_key(id)
    &&& instance.name == snapshot.name
    &&& instance.class_name == snapshot.class_name
    &&& instance.metadata == snapshot.metadata
    &&& instance.values() == snapshot.properties
    &&& instance.children.len() == snapshot.children.len()
    &&& forall|i: int|
        0 <= i < snapshot.children.len() ==> is_copy(
            #[trigger] snapshot.children[i],
            tree,
            instance.children[i],
        )
}

/// Whether an instance is neither removed by a patch nor below one that is.
pub open spec fn survives(
    patch: PatchView,
    tree: TreeView,
    depth: Map<u128, usize>,
    id: u128,
) -> bool {
    &&& tree.instances.contains_key(id)
    &&& forall|j: int|
        0 <= j < patch.removed.len() ==> !is_within(tree, depth, id, #[trigger] patch.removed[j])
}

/// Whether `after` is a tree after a patch has been carried out on it: the
/// instances that survive are updated, lose the children that are removed, and get
/// the instances that are added, in order, behind the others; what is removed is
/// gone. `fresh` holds the referents that the added instances get.
pub open spec fn is_applied(
    patch: PatchView,
    tree: TreeView,
    depth: Map<u128, usize>,
    fresh: Seq<u128>,
    after: TreeView,
) -> bool {
    &&& fresh.len() == patch.added.len()
    &&& forall|id: u128| #[trigger]
        survives(patch, tree, depth, id) ==> {
            let ids = tree.instances[id].children;
            &&& after.instances.contains_key(id)
            &&& is_updated(after.instances[id], tree.instances[id], said_of(patch, id))
            &&& after.instances[id].children == kept_children(
                ids,
                patch.removed,
                ids.len() as int,
            ) + new_children(patch.added, fresh, id)
        }
    &&& forall|i: int|
        0 <= i < patch.added.len() ==> is_copy(
            (#[trigger] patch.added[i]).instance,
            after,
            fresh[i],
        )
    &&& forall|j: int|
        0 <= j < patch.removed.len() ==> !after.instances.contains_key(#[trigger] patch.removed[j])
}

/// Whether a snapshot holds, at any depth, no reference, no attribute that points
/// a property to an instance, and no class with a pivot.
pub open spec fn is_plain(snapshot: SnapshotView) -> bool
    decreases snapshot,
{
    &&& !has_pivot(snapshot.class_name)
    &&& forall|name: Seq<char>| #[trigger]
        snapshot.properties.contains_key(name) ==> !(snapshot.properties[name] is Ref)
    &&& forall|name: Seq<char>| #[trigger]
        attributes_in(snapshot.properties).contains_key(name) ==> !pointer_prefix().is_prefix_of(
            name,
        )
    &&& forall|i: int|
        0 <= i < snapshot.children.len() ==> is_plain(#[trigger] snapshot.children[i])
}

/// Once the patch for a snapshot has been carried out, the patch for the same
/// snapshot is empty. The snapshot holds no references: a reference to a part of
/// the snapshot is written as one to an instance, and so differs from then on. It
/// has no class with a pivot, whose `NeedsPivotMigration` every patch looks after.
pub proof fn lemma_applied_patch_leaves_nothing(
    snapshot: SnapshotView,
    tree: TreeView,
    depth: Map<u128, usize>,
    id: u128,
    fresh: Seq<u128>,
    after: TreeView,
)
    requires
        is_plain(snapshot),
        is_layered(tree, depth),
        tree.instances.contains_key(id),
        is_applied(patch_for(Some(snapshot), tree, id), tree, depth, fresh, after),
    ensures
        patch_for(Some(snapshot), after, id) == empty_patch(),
{
    let raw = raw_patch(snapshot, tree, id);
    let patch = patch_for(Some(snapshot), tree, id);
    let known = known_ids(snapshot, tree, id, Map::empty());
    lemma_patch_reaches_snapshot(snapshot, tree, depth, id);
    lemma_raw_consistent(snapshot, tree, depth, id);
    lemma_added_are_plain(snapshot, tree, id);
    assert forall|i: int| 0 <= i < raw.added.len() implies #[trigger] patch.added[i]
        == raw.added[i] by {
        lemma_plain_relinked(raw.added[i].instance, known);
    }
    assert(patch.added =~= raw.added);
    lemma_in_order(raw.added, snapshot, tree, depth, id);
    assert(survives(patch, tree, depth, id)) by {
        assert forall|j: int| 0 <= j < patch.removed.len() implies !is_within(
            tree,
            depth,
            id,
            #[trigger] patch.removed[j],
        ) by {
            assert(stays_below(raw, tree, depth, id));
            let r = raw.removed[j];
            assert(is_within(tree, depth, r, id) && r != id);
            lemma_within_depth(tree, depth, r, id);
            if is_within(tree, depth, id, r) {
                lemma_within_depth(tree, depth, id, r);
            }
        }
    }
    lemma_settled(patch, known, snapshot, tree, depth, fresh, after, id);
    let again = patch_for(Some(snapshot), after, id);
    assert(again.added =~= empty_patch().added);
    assert(again.updated =~= empty_patch().updated);
}

/// A snapshot without references stays as it is when references are turned.
proof fn lemma_plain_relinked(snapshot: SnapshotView, known: Map<u128, u128>)
    requires
        is_plain(snapshot),
    ensures
        relinked_snapshot(snapshot, known) == snapshot,
    decreases snapshot,
{
    let linked = relinked_snapshot(snapshot, known);
    assert forall|i: int| 0 <= i < snapshot.children.len() implies #[trigger] linked.children[i]
        == snapshot.children[i] by {
        lemma_plain_relinked(snapshot.children[i], known);
    }
    assert(linked.children =~= snapshot.children);
    assert(linked.properties =~= snapshot.properties);
}

/// Whether all that is added is plain.
spec fn all_plain(added: Seq<AddView>) -> bool {
    forall|i: int| 0 <= i < added.len() ==> is_plain((#[trigger] added[i]).instance)
}

proof fn lemma_added_are_plain(snapshot: SnapshotView, tree: TreeView, id: u128)
    requires
        is_plain(snapshot),
    ensures
        all_plain(raw_patch(snapshot, tree, id).added),
    decreases snapshot, 1int, 0int,
{
    let n = snapshot.children.len() as int;
    lemma_children_added_are_plain(snapshot, tree, id, n);
    assert(raw_patch(snapshot, tree, id).added =~= children_patch(snapshot, tree, id, n).added);
}

proof fn lemma_children_added_are_plain(snapshot: SnapshotView, tree: TreeView, id: u128, n: int)
    requires
        is_plain(snapshot),
        0 <= n <= snapshot.children.len(),
    ensures
        all_plain(children_patch(snapshot, tree, id, n).added),
    decreases snapshot, 0int, n,
{
    if n > 0 {
        let before = children_patch(snapshot, tree, id, n - 1);
        let ids = tree.instances[id].children;
        let last = part(snapshot, tree, id, n - 1);
        lemma_children_added_are_plain(snapshot, tree, id, n - 1);
        assert(is_plain(snapshot.children[n - 1]));
        if let Some(m) = pairing(snapshot.children, tree, ids)[n - 1] {
            lemma_added_are_plain(snapshot.children[n - 1], tree, ids[m]);
        }
        assert(all_plain(last.added));
        assert(children_patch(snapshot, tree, id, n) == both(before, last));
    }
}

/// The first `n` of some snapshots without those that are paired.
spec fn unpaired(snapshots: Seq<SnapshotView>, taken: Seq<Option<int>>, n: int) -> Seq<
    SnapshotView,
>
    decreases n,
{
    if n <= 0 {
        Seq::empty()
    } else if taken[n - 1] is None {
        unpaired(snapshots, taken, n - 1).push(snapshots[n - 1])
    } else {
        unpaired(snapshots, taken, n - 1)
    }
}

/// Whether additions put the unpaired children of a snapshot, in order, under the
/// instance that it describes, and so on below it.
spec fn in_order(added: Seq<AddView>, snapshot: SnapshotView, tree: TreeView, id: u128) -> bool
    decreases snapshot,
{
    let ids = tree.instances[id].children;
    let taken = pairing(snapshot.children, tree, ids);
    &&& added_to(added, id) == unpaired(
        snapshot.children,
        taken,
        snapshot.children.len() as int,
    )
    &&& forall|k: int|
        #![trigger snapshot.children[k]]
        0 <= k < snapshot.children.len() ==> (taken[k] matches Some(m) ==> in_order(
            added,
            snapshot.children[k],
            tree,
            ids[m],
        ))
}

proof fn lemma_added_to_both(a: Seq<AddView>, b: Seq<AddView>, id: u128)
    ensures
        added_to(a + b, id) == added_to(a, id) + added_to(b, id),
    decreases b.len(),
{
    if b.len() == 0 {
        assert(a + b =~= a);
    } else {
        assert((a + b).drop_last() =~= a + b.drop_last());
        lemma_added_to_both(a, b.drop_last(), id);
    }
}

proof fn lemma_nothing_added_to(added: Seq<AddView>, id: u128)
    requires
        forall|i: int| 0 <= i < added.len() ==> (#[trigger] added[i]).parent_id != id,
    ensures
        added_to(added, id) == Seq::<SnapshotView>::empty(),
    decreases added.len(),
{
    if added.len() > 0 {
        lemma_nothing_added_to(added.drop_last(), id);
    }
}

/// Of what the first `n` children of a snapshot add, the instance itself gets
/// those that are unpaired.
proof fn lemma_added_here(
    snapshot: SnapshotView,
    tree: TreeView,
    depth: Map<u128, usize>,
    id: u128,
    n: int,
)
    requires
        is_layered(tree, depth),
        tree.instances.contains_key(id),
        0 <= n <= snapshot.children.len(),
    ensures
        added_to(children_patch(snapshot, tree, id, n).added, id) == unpaired(
            snapshot.children,
            pairing(snapshot.children, tree, tree.instances[id].children),
            n,
        ),
    decreases n,
{
    if n > 0 {
        let ids = tree.instances[id].children;
        let taken = pairing(snapshot.children, tree, ids);
        let before = children_patch(snapshot, tree, id, n - 1);
        let last = part(snapshot, tree, id, n - 1);
        lemma_added_here(snapshot, tree, depth, id, n - 1);
        lemma_part_within(snapshot, tree, depth, id, n - 1);
        assert(children_patch(snapshot, tree, id, n) == both(before, last));
        lemma_added_to_both(before.added, last.added, id);
        match taken[n - 1] {
            Some(m) => {
                assert forall|i: int| 0 <= i < last.added.len() implies (
                #[trigger] last.added[i]).parent_id != id by {
                    assert(last.added.contains(last.added[i]));
                    lemma_not_within_child(tree, depth, id, m);
                }
                lemma_nothing_added_to(last.added, id);
            },
            None => {
                let one = last.added;
                assert(one.drop_last() =~= Seq::<AddView>::empty());
                assert(added_to(one.drop_last(), id) =~= Seq::<SnapshotView>::empty());
                assert(added_to(one, id) =~= seq![snapshot.children[n - 1]]);
            },
        }
    }
}

/// Of what the first `n` children of a snapshot add, an instance within the one
/// that the `k`-th describes gets what the `k`-th adds to it.
proof fn lemma_added_below(
    snapshot: SnapshotView,
    tree: TreeView,
    depth: Map<u128, usize>,
    id: u128,
    k: int,
    m: int,
    at: u128,
    n: int,
)
    requires
        is_layered(tree, depth),
        tree.instances.contains_key(id),
        0 <= k < snapshot.children.len(),
        0 <= n <= snapshot.children.len(),
        pairing(snapshot.children, tree, tree.instances[id].children)[k] == Some(m),
        0 <= m < tree.instances[id].children.len(),
        is_within(tree, depth, at, tree.instances[id].children[m]),
    ensures
        added_to(children_patch(snapshot, tree, id, n).added, at) == if k < n {
            added_to(part(snapshot, tree, id, k).added, at)
        } else {
            Seq::empty()
        },
    decreases n,
{
    if n > 0 {
        let ids = tree.instances[id].children;
        let taken = pairing(snapshot.children, tree, ids);
        let before = children_patch(snapshot, tree, id, n - 1);
        let last = part(snapshot, tree, id, n - 1);
        lemma_added_below(snapshot, tree, depth, id, k, m, at, n - 1);
        assert(children_patch(snapshot, tree, id, n) == both(before, last));
        lemma_added_to_both(before.added, last.added, at);
        if n - 1 != k {
            lemma_part_within(snapshot, tree, depth, id, n - 1);
            lemma_pairing_is_greedy(snapshot.children, tree, ids);
            lemma_not_within_child(tree, depth, id, m);
            assert forall|i: int| 0 <= i < last.added.len() implies (
            #[trigger] last.added[i]).parent_id != at by {
                let a = last.added[i];
                assert(last.added.contains(a));
                if let Some(o) = taken[n - 1] {
                    if a.parent_id == at {
                        assert(is_layer_below(tree, depth, id, tree.instances[id].children[o]));
                        assert(is_layer_below(tree, depth, id, tree.instances[id].children[m]));
                        lemma_apart(tree, depth, at, ids[o], ids[m]);
                        assert(taken[n - 1] != taken[k]);
                        assert(ids[o] == ids[m]);
                    }
                }
            }
            lemma_nothing_added_to(last.added, at);
        }
        assert(added_to(before.added, at) + added_to(last.added, at) =~= if k < n {
            added_to(part(snapshot, tree, id, k).added, at)
        } else {
            Seq::empty()
        });
    } else {
        assert(added_to(empty_patch().added, at) =~= Seq::<SnapshotView>::empty());
    }
}

/// Additions that put within an instance what its patch adds there put it in
/// order.
proof fn lemma_in_order(
    added: Seq<AddView>,
    snapshot: SnapshotView,
    tree: TreeView,
    depth: Map<u128, usize>,
    id: u128,
)
    requires
        is_layered(tree, depth),
        tree.instances.contains_key(id),
        forall|at: u128|
            is_within(tree, depth, at, id) ==> #[trigger] added_to(added, at) == added_to(
                raw_patch(snapshot, tree, id).added,
                at,
            ),
    ensures
        in_order(added, snapshot, tree, id),
    decreases snapshot,
{
    let ids = tree.instances[id].children;
    let n = snapshot.children.len() as int;
    let taken = pairing(snapshot.children, tree, ids);
    let below = children_patch(snapshot, tree, id, n);
    assert(raw_patch(snapshot, tree, id).added =~= below.added);
    assert(is_within(tree, depth, id, id));
    assert(added_to(added, id) == added_to(below.added, id));
    lemma_added_here(snapshot, tree, depth, id, n);
    lemma_pairing_is_greedy(snapshot.children, tree, ids);
    assert forall|k: int|
        #![trigger snapshot.children[k]]
        0 <= k < n implies (taken[k] matches Some(m) ==> in_order(
        added,
        snapshot.children[k],
        tree,
        ids[m],
    )) by {
        if let Some(m) = taken[k] {
            lemma_not_within_child(tree, depth, id, m);
            assert forall|at: u128| is_within(tree, depth, at, ids[m]) implies
                #[trigger] added_to(added, at) == added_to(
                raw_patch(snapshot.children[k], tree, ids[m]).added,
                at,
            ) by {
                lemma_within_chain(tree, depth, at, ids[m], id);
                lemma_added_below(snapshot, tree, depth, id, k, m, at, n);
            }
            lemma_in_order(added, snapshot.children[k], tree, depth, ids[m]);
        }
    }
}

/// A child that is kept stands behind those before it that are kept.
proof fn lemma_kept_at(ids: Seq<u128>, removed: Seq<u128>, m: int, n: int)
    requires
        0 <= m < n <= ids.len(),
        !removed.contains(ids[m]),
    ensures
        kept_children(ids, removed, m).len() < kept_children(ids, removed, n).len(),
        kept_children(ids, removed, n)[kept_children(ids, removed, m).len() as int] == ids[m],
    decreases n,
{
    if m < n - 1 {
        lemma_kept_at(ids, removed, m, n - 1);
    }
}

/// Each place among the kept children is that of one of them.
proof fn lemma_kept_origin(ids: Seq<u128>, removed: Seq<u128>, n: int, p: int) -> (m: int)
    requires
        0 <= n <= ids.len(),
        0 <= p < kept_children(ids, removed, n).len(),
    ensures
        0 <= m < n,
        !removed.contains(ids[m]),
        kept_children(ids, removed, m).len() == p,
    decreases n,
{
    if p < kept_children(ids, removed, n - 1).len() {
        lemma_kept_origin(ids, removed, n - 1, p)
    } else {
        n - 1
    }
}

/// A snapshot that is unpaired stands behind those before it that are.
proof fn lemma_unpaired_at(
    snapshots: Seq<SnapshotView>,
    taken: Seq<Option<int>>,
    k: int,
    n: int,
)
    requires
        0 <= k < n <= snapshots.len(),
        taken[k] is None,
    ensures
        unpaired(snapshots, taken, k).len() < unpaired(snapshots, taken, n).len(),
        unpaired(snapshots, taken, n)[unpaired(snapshots, taken, k).len() as int] == snapshots[k],
    decreases n,
{
    if k < n - 1 {
        lemma_unpaired_at(snapshots, taken, k, n - 1);
    }
}

/// Each place among the unpaired snapshots is that of one of them.
proof fn lemma_unpaired_origin(
    snapshots: Seq<SnapshotView>,
    taken: Seq<Option<int>>,
    n: int,
    p: int,
) -> (k: int)
    requires
        0 <= n <= snapshots.len(),
        0 <= p < unpaired(snapshots, taken, n).len(),
    ensures
        0 <= k < n,
        taken[k] is None,
        unpaired(snapshots, taken, k).len() == p,
    decreases n,
{
    if p < unpaired(snapshots, taken, n - 1).len() {
        lemma_unpaired_origin(snapshots, taken, n - 1, p)
    } else {
        n - 1
    }
}

/// The new children of an instance are copies of what is added to it.
proof fn lemma_new_children(added: Seq<AddView>, fresh: Seq<u128>, id: u128, after: TreeView)
    requires
        added.len() <= fresh.len(),
        forall|i: int|
            0 <= i < added.len() ==> is_copy((#[trigger] added[i]).instance, after, fresh[i]),
    ensures
        new_children(added, fresh, id).len() == added_to(added, id).len(),
        forall|j: int|
            #![trigger new_children(added, fresh, id)[j]]
            0 <= j < added_to(added, id).len() ==> is_copy(
                added_to(added, id)[j],
                after,
                new_children(added, fresh, id)[j],
            ),
    decreases added.len(),
{
    if added.len() > 0 {
        lemma_new_children(added.drop_last(), fresh, id, after);
        let before = new_children(added.drop_last(), fresh, id);
        let all = new_children(added, fresh, id);
        assert(is_copy(added.last().instance, after, fresh[added.len() - 1]));
        assert forall|j: int| #![trigger all[j]] 0 <= j < added_to(added, id).len() implies is_copy(
            added_to(added, id)[j],
            after,
            all[j],
        ) by {
            if j < before.len() {
                assert(all[j] == before[j]);
            }
        }
    }
}

/// The place of the instance that a child of a snapshot describes, once a patch
/// has been carried out.
spec fn place(
    snapshots: Seq<SnapshotView>,
    taken: Seq<Option<int>>,
    ids: Seq<u128>,
    removed: Seq<u128>,
    k: int,
) -> int {
    match taken[k] {
        Some(m) => kept_children(ids, removed, m).len() as int,
        None => (kept_children(ids, removed, ids.len() as int).len() + unpaired(
            snapshots,
            taken,
            k,
        ).len()) as int,
    }
}

/// Whether snapshots and instances belong together: each snapshot has a place of
/// its own, where an instance like it stands, each instance stands at the place of
/// a snapshot, and of snapshots that are like each other the first has the first
/// place.
spec fn belong_together(
    snapshots: Seq<SnapshotView>,
    tree: TreeView,
    ids: Seq<u128>,
    places: Seq<int>,
) -> bool {
    &&& places.len() == snapshots.len()
    &&& forall|k: int|
        0 <= k < places.len() ==> 0 <= #[trigger] places[k] < ids.len() && alike(
            snapshots[k],
            tree.instances[ids[places[k]]],
        )
    &&& forall|p: int| 0 <= p < ids.len() ==> #[trigger] places.contains(p)
    &&& places.no_duplicates()
    &&& forall|k: int, l: int|
        #![trigger places[k], places[l]]
        0 <= k < l < places.len() && snapshots[k].name == snapshots[l].name
            && snapshots[k].class_name == snapshots[l].class_name ==> places[k] < places[l]
}

/// Snapshots and instances that belong together are paired.
proof fn lemma_pairs_together(
    snapshots: Seq<SnapshotView>,
    tree: TreeView,
    ids: Seq<u128>,
    places: Seq<int>,
    k: int,
)
    requires
        belong_together(snapshots, tree, ids, places),
        0 <= k <= snapshots.len(),
    ensures
        pairing(snapshots.take(k), tree, ids).len() == k,
        forall|i: int|
            0 <= i < k ==> #[trigger] pairing(snapshots.take(k), tree, ids)[i] == Some(places[i]),
    decreases k,
{
    if k > 0 {
        let at = k - 1;
        let snapshot = snapshots[at];
        let taken = pairing(snapshots.take(at), tree, ids);
        lemma_pairs_together(snapshots, tree, ids, places, at);
        assert(snapshots.take(k).drop_last() =~= snapshots.take(at));
        lemma_first_alike(snapshot, tree, ids, taken, 0);
        let own = places[at];
        assert(!taken.contains(Some(own))) by {
            if taken.contains(Some(own)) {
                let i = taken.index_of(Some(own));
                assert(places[i] == places[at]);
            }
        }
        assert forall|p: int| 0 <= p < own && !(#[trigger] taken.contains(Some(p))) implies !alike(
            snapshot,
            tree.instances[ids[p]],
        ) by {
            assert(places.contains(p));
            let l = places.index_of(p);
            assert(places[l] == p);
            if l < at {
                assert(taken[l] == Some(p));
                assert(taken.contains(Some(p)));
            } else if alike(snapshot, tree.instances[ids[p]]) {
                assert(places[at] == own);
                assert(l > at);
            }
        }
    }
}

/// Once a patch has been carried out, the children of a snapshot and those of the
/// instance that it describes belong together.
proof fn lemma_belong_after(
    patch: PatchView,
    known: Map<u128, u128>,
    snapshot: SnapshotView,
    tree: TreeView,
    depth: Map<u128, usize>,
    fresh: Seq<u128>,
    after: TreeView,
    id: u128,
) -> (places: Seq<int>)
    requires
        is_layered(tree, depth),
        reaches(patch, known, snapshot, tree, id),
        in_order(patch.added, snapshot, tree, id),
        is_applied(patch, tree, depth, fresh, after),
        survives(patch, tree, depth, id),
    ensures
        belong_together(snapshot.children, after, after.instances[id].children, places),
        forall|k: int|
            #![trigger places[k]]
            0 <= k < snapshot.children.len() ==> match pairing(
                snapshot.children,
                tree,
                tree.instances[id].children,
            )[k] {
                Some(m) => 0 <= m < tree.instances[id].children.len()
                    && after.instances[id].children[places[k]] == tree.instances[id].children[m]
                    && survives(patch, tree, depth, tree.instances[id].children[m]),
                None => is_copy(
                    snapshot.children[k],
                    after,
                    after.instances[id].children[places[k]],
                ),
            },
{
    let snapshots = snapshot.children;
    let n = snapshots.len() as int;
    let ids = tree.instances[id].children;
    let len = ids.len() as int;
    let removed = patch.removed;
    let taken = pairing(snapshots, tree, ids);
    let kept = kept_children(ids, removed, len);
    let extra = new_children(patch.added, fresh, id);
    let kids = after.instances[id].children;
    let places = Seq::new(n as nat, |k: int| place(snapshots, taken, ids, removed, k));
    lemma_pairing_is_greedy(snapshots, tree, ids);
    lemma_new_children(patch.added, fresh, id, after);
    assert(kids == kept + extra);
    assert(added_to(patch.added, id) == unpaired(snapshots, taken, n));

    assert forall|k: int|
        #![trigger places[k]]
        0 <= k < n implies 0 <= places[k] < kids.len() && (match taken[k] {
        Some(m) => 0 <= m < len && !removed.contains(ids[m]) && places[k] < kept.len()
            && kids[places[k]] == ids[m] && survives(patch, tree, depth, ids[m]),
        None => is_copy(snapshots[k], after, kids[places[k]]),
    }) by {
        match taken[k] {
            Some(m) => {
                assert(taken.contains(Some(m))) by {
                    assert(taken[k] == Some(m));
                }
                lemma_kept_at(ids, removed, m, len);
                assert(survives(patch, tree, depth, ids[m])) by {
                    assert(is_layer_below(tree, depth, id, tree.instances[id].children[m]));
                    assert forall|j: int| 0 <= j < removed.len() implies !is_within(
                        tree,
                        depth,
                        ids[m],
                        #[trigger] removed[j],
                    ) by {
                        assert(!is_within(tree, depth, id, removed[j]));
                        assert(removed.contains(removed[j]));
                    }
                }
            },
            None => {
                lemma_unpaired_at(snapshots, taken, k, n);
                let j = unpaired(snapshots, taken, k).len() as int;
                assert(kids[places[k]] == extra[j]);
                assert(is_copy(added_to(patch.added, id)[j], after, extra[j]));
            },
        }
    }
    assert forall|k: int| 0 <= k < n implies alike(
        snapshots[k],
        after.instances[kids[#[trigger] places[k]]],
    ) by {
        if let Some(m) = taken[k] {
            assert(reaches(patch, known, snapshots[k], tree, ids[m]));
            lemma_said(patch, known, snapshots[k], tree, ids[m]);
            assert(survives(patch, tree, depth, ids[m]));
        }
    }
    assert forall|p: int| 0 <= p < kids.len() implies #[trigger] places.contains(p) by {
        if p < kept.len() {
            let m = lemma_kept_origin(ids, removed, len, p);
            assert(taken.contains(Some(m)));
            let k = taken.index_of(Some(m));
            assert(places[k] == p);
        } else {
            let k = lemma_unpaired_origin(snapshots, taken, n, p - kept.len());
            assert(places[k] == p);
        }
    }
    assert forall|k: int, l: int|
        #![trigger places[k], places[l]]
        0 <= k < n && 0 <= l < n && k != l implies places[k] != places[l] by {
        match (taken[k], taken[l]) {
            (Some(a), Some(b)) => {
                assert(a != b) by {
                    if k < l {
                        assert(taken[k] != taken[l]);
                    } else {
                        assert(taken[l] != taken[k]);
                    }
                }
                if a < b {
                    lemma_kept_at(ids, removed, a, b);
                } else {
                    lemma_kept_at(ids, removed, b, a);
                }
            },
            (None, None) => {
                if k < l {
                    lemma_unpaired_at(snapshots, taken, k, l);
                } else {
                    lemma_unpaired_at(snapshots, taken, l, k);
                }
            },
            _ => {},
        }
    }
    assert forall|k: int, l: int|
        #![trigger places[k], places[l]]
        0 <= k < l < n && snapshots[k].name == snapshots[l].name && snapshots[k].class_name
            == snapshots[l].class_name implies places[k] < places[l] by {
        lemma_pairing(snapshots, tree, ids, k);
        let earlier = pairing(snapshots.take(k), tree, ids);
        lemma_first_alike(snapshots[k], tree, ids, earlier, 0);
        assert(taken.take(k) == earlier);
        if let Some(b) = taken[l] {
            assert(alike(snapshots[l], tree.instances[ids[b]]));
            assert(!earlier.contains(Some(b))) by {
                if earlier.contains(Some(b)) {
                    let i = earlier.index_of(Some(b));
                    assert(taken[i] == Some(b));
                    assert(taken[i] != taken[l]);
                }
            }
            match taken[k] {
                Some(a) => {
                    assert(taken[k] != taken[l]);
                    assert(a < b);
                    lemma_kept_at(ids, removed, a, b);
                },
                None => {},
            }
        } else if taken[k] is None {
            lemma_unpaired_at(snapshots, taken, k, l);
        }
    }
    places
}

/// What a patch that reaches a snapshot says of an instance makes it what the
/// snapshot describes, leaving children aside.
proof fn lemma_said(
    patch: PatchView,
    known: Map<u128, u128>,
    snapshot: SnapshotView,
    tree: TreeView,
    id: u128,
)
    requires
        instance_reached(patch, known, snapshot, tree, id),
    ensures
        update_reaches(
            tree.instances[id],
            said_of(patch, id),
            snapshot,
            tree.specified,
            known,
        ),
{
    if exists|u: UpdateView| #[trigger] patch.updated.contains(u) && u.id == id {
        let said = said_of(patch, id);
        assert(patch.updated.contains(said) && said.id == id);
    }
}

/// A plain snapshot asks for the properties that it holds.
proof fn lemma_plain_desired(snapshot: SnapshotView, specified: Map<Seq<char>, u128>)
    requires
        is_plain(snapshot),
    ensures
        desired_properties(snapshot.properties, specified) == snapshot.properties,
{
    let refs = ref_properties(snapshot.properties, specified);
    assert forall|name: Seq<char>| !#[trigger] refs.contains_key(name) by {
        let whole = pointer_prefix() + name;
        assert(whole.subrange(0, pointer_prefix().len() as int) =~= pointer_prefix());
        assert(pointer_prefix().is_prefix_of(whole));
    }
    assert(desired_properties(snapshot.properties, specified) =~= snapshot.properties);
}

/// An instance that is a copy of a plain snapshot mirrors it.
proof fn lemma_copy_mirrors(snapshot: SnapshotView, tree: TreeView, id: u128)
    requires
        is_plain(snapshot),
        is_copy(snapshot, tree, id),
    ensures
        mirrors(snapshot, tree, id),
    decreases snapshot,
{
    lemma_plain_desired(snapshot, tree.specified);
    assert forall|i: int| 0 <= i < snapshot.children.len() implies mirrors(
        #[trigger] snapshot.children[i],
        tree,
        tree.instances[id].children[i],
    ) by {
        lemma_copy_mirrors(snapshot.children[i], tree, tree.instances[id].children[i]);
    }
}

/// Where no child of a snapshot needs a patch, the children together need none.
proof fn lemma_no_child_needs(
    snapshot: SnapshotView,
    tree: TreeView,
    id: u128,
    places: Seq<int>,
    n: int,
)
    requires
        0 <= n <= snapshot.children.len(),
        places.len() == snapshot.children.len(),
        forall|k: int|
            0 <= k < snapshot.children.len() ==> #[trigger] pairing(
                snapshot.children,
                tree,
                tree.instances[id].children,
            )[k] == Some(places[k]),
        forall|k: int|
            #![trigger places[k]]
            0 <= k < snapshot.children.len() ==> raw_patch(
                snapshot.children[k],
                tree,
                tree.instances[id].children[places[k]],
            ) == empty_patch(),
    ensures
        children_patch(snapshot, tree, id, n) == empty_patch(),
    decreases n,
{
    if n > 0 {
        lemma_no_child_needs(snapshot, tree, id, places, n - 1);
        let ids = tree.instances[id].children;
        assert(pairing(snapshot.children, tree, ids)[n - 1] == Some(places[n - 1]));
        assert(both(empty_patch(), empty_patch()).removed =~= empty_patch().removed);
        assert(both(empty_patch(), empty_patch()).added =~= empty_patch().added);
        assert(both(empty_patch(), empty_patch()).updated =~= empty_patch().updated);
    }
}

/// Once a patch has been carried out, the instance that a snapshot describes needs
/// none.
proof fn lemma_settled(
    patch: PatchView,
    known: Map<u128, u128>,
    snapshot: SnapshotView,
    tree: TreeView,
    depth: Map<u128, usize>,
    fresh: Seq<u128>,
    after: TreeView,
    id: u128,
)
    requires
        is_plain(snapshot),
        is_layered(tree, depth),
        reaches(patch, known, snapshot, tree, id),
        in_order(patch.added, snapshot, tree, id),
        is_applied(patch, tree, depth, fresh, after),
        survives(patch, tree, depth, id),
    ensures
        raw_patch(snapshot, after, id) == empty_patch(),
    decreases snapshot,
{
    let snapshots = snapshot.children;
    let n = snapshots.len() as int;
    let ids = tree.instances[id].children;
    let kids = after.instances[id].children;
    let taken = pairing(snapshots, tree, ids);
    let places = lemma_belong_after(patch, known, snapshot, tree, depth, fresh, after, id);

    // The instance itself.
    let instance = after.instances[id];
    let said = said_of(patch, id);
    lemma_said(patch, known, snapshot, tree, id);
    lemma_plain_desired(snapshot, tree.specified);
    lemma_plain_desired(snapshot, after.specified);
    assert forall|name: Seq<char>| entry(instance.values(), name) == #[trigger] entry(
        snapshot.properties,
        name,
    ) by {
        assert(entry(instance.values(), name) == entry(
            after_changes(tree.instances[id].values(), said.changed_properties),
            name,
        ));
    }
    lemma_same_entries(instance.values(), snapshot.properties);
    let update = update_for(snapshot, instance, id, after.specified);
    assert(update.changed_properties =~= Map::empty());

    // Its children.
    lemma_pairs_together(snapshots, after, kids, places, n);
    assert(snapshots.take(n) =~= snapshots);
    let again = pairing(snapshots, after, kids);
    assert forall|k: int| #![trigger places[k]] 0 <= k < n implies raw_patch(
        snapshots[k],
        after,
        kids[places[k]],
    ) == empty_patch() by {
        assert(is_plain(snapshots[k]));
        match taken[k] {
            Some(m) => {
                assert(kids[places[k]] == ids[m]);
                assert(survives(patch, tree, depth, ids[m]));
                lemma_settled(patch, known, snapshots[k], tree, depth, fresh, after, ids[m]);
            },
            None => {
                lemma_copy_mirrors(snapshots[k], after, kids[places[k]]);
                lemma_mirror(snapshots[k], after, kids[places[k]]);
            },
        }
    }
    lemma_no_child_needs(snapshot, after, id, places, n);
    assert forall|p: int| 0 <= p < kids.len() implies #[trigger] again.contains(Some(p)) by {
        assert(places.contains(p));
        let k = places.index_of(p);
        assert(again[k] == Some(p));
    }
    lemma_all_paired(kids, again, kids.len() as int);
    assert(raw_patch(snapshot, after, id).removed =~= empty_patch().removed);
    assert(raw_patch(snapshot, after, id).added =~= empty_patch().added);
    assert(raw_patch(snapshot, after, id).updated =~= empty_patch().updated);
}

} // verus!

