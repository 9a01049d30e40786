//! A patch makes of a tree what a snapshot describes.

use vstd::prelude::*;

use crate::instance::{empty_patch, AddView, PatchView, SnapshotView, UpdateView};
use crate::name_map::entry;
use crate::patch_compute::{
    changes_nothing, children_patch, desired_properties, has_pivot, known_ids, pairing, patch_for,
    raw_patch, relinked_option, relinked_patch, relinked_snapshot, relinked_update, untaken,
    update_for, with_update,
};
use crate::patch_laws::{
    after_changes, is_within, lemma_apart, lemma_pairing_is_greedy, lemma_raw_consistent,
    lemma_unpaired_are_removed, lemma_untaken_within, lemma_update_reaches_snapshot,
    lemma_within_chain, lemma_within_depth,
};
use crate::tree::{is_layered, TreeInstanceView, TreeView};

verus! {

/// A value after a change that may not be one.
pub open spec fn after_change<T>(have: T, changed: Option<T>) -> T {
    match changed {
        Some(value) => value,
        None => have,
    }
}

/// Whether an update makes an instance what a snapshot describes, leaving
/// children aside: its name, its class, its metadata and its properties, whose
/// references go to instances where they change. Of a class with a pivot nothing
/// is said of `NeedsPivotMigration`.
pub open spec fn update_reaches(
    instance: TreeInstanceView,
    update: UpdateView,
    snapshot: SnapshotView,
    specified: Map<Seq<char>, u128>,
    known: Map<u128, u128>,
) -> bool {
    let desired = desired_properties(snapshot.properties, specified);
    let changed = update.changed_properties;
    let after = after_changes(instance.values(), changed);
    &&& after_change(instance.name, update.changed_name) == snapshot.name
    &&& after_change(instance.class_name, update.changed_class_name) == snapshot.class_name
    &&& after_change(instance.metadata, update.changed_metadata) == snapshot.metadata
    &&& forall|name: Seq<char>|
        !(has_pivot(snapshot.class_name) && name == "NeedsPivotMigration"@) ==> #[trigger] entry(
            after,
            name,
        ) == if changed.contains_key(name) {
            relinked_option(entry(desired, name), known)
        } else {
            entry(desired, name)
        }
}

/// The update that changes nothing of an instance.
pub open spec fn no_update(id: u128) -> UpdateView {
    UpdateView {
        id,
        changed_name: None,
        changed_class_name: None,
        changed_properties: Map::empty(),
        changed_metadata: None,
    }
}

/// Whether what a patch says of an instance makes it what a snapshot describes:
/// all that it says, and where it says nothing, leaving it as it is.
pub open spec fn instance_reached(
    patch: PatchView,
    known: Map<u128, u128>,
    snapshot: SnapshotView,
    tree: TreeView,
    id: u128,
) -> bool {
    let instance = tree.instances[id];
    ||| exists|u: UpdateView|
        #![trigger patch.updated.contains(u)]
        {
            &&& patch.updated.contains(u)
            &&& u.id == id
            &&& update_reaches(instance, u, snapshot, tree.specified, known)
            &&& forall|v: UpdateView| #[trigger]
                patch.updated.contains(v) && v.id == id ==> v == u
        }
    ||| {
        &&& forall|v: UpdateView| #[trigger] patch.updated.contains(v) ==> v.id != id
        &&& update_reaches(instance, no_update(id), snapshot, tree.specified, known)
    }
}

/// Whether a patch makes the instance `id`, and all that is below it, what a
/// snapshot describes. The instance itself changes as it should; the children of
/// the snapshot that describe one of its children make that child what they
/// describe; the others, and no more, are added under it; and of its children
/// those, and no more, are removed that no child of the snapshot describes.
pub open spec fn reaches(
    patch: PatchView,
    known: Map<u128, u128>,
    snapshot: SnapshotView,
    tree: TreeView,
    id: u128,
) -> bool
    decreases snapshot,
{
    let ids = tree.instances[id].children;
    let taken = pairing(snapshot.children, tree, ids);
    &&& instance_reached(patch, known, snapshot, tree, id)
    &&& forall|m: int|
        #![trigger ids[m]]
        0 <= m < ids.len() ==> (patch.removed.contains(ids[m]) <==> !taken.contains(Some(m)))
    &&& forall|k: int|
        #![trigger snapshot.children[k]]
        0 <= k < snapshot.children.len() ==> match taken[k] {
            Some(m) => reaches(patch, known, snapshot.children[k], tree, ids[m]),
            None => patch.added.contains(
                AddView {
                    parent_id: id,
                    instance: relinked_snapshot(snapshot.children[k], known),
                },
            ),
        }
    &&& forall|a: AddView| #[trigger]
        patch.added.contains(a) && a.parent_id == id ==> exists|k: int|
            0 <= k < snapshot.children.len() && taken[k] is None && a.instance
                == relinked_snapshot(#[trigger] snapshot.children[k], known)
}

/// The patch that is computed from a snapshot makes the instance, and all that is
/// below it, what the snapshot describes.
pub proof fn lemma_patch_reaches_snapshot(
    snapshot: SnapshotView,
    tree: TreeView,
    depth: Map<u128, usize>,
    id: u128,
)
    requires
        is_layered(tree, depth),
        tree.instances.contains_key(id),
    ensures
        reaches(
            patch_for(Some(snapshot), tree, id),
            known_ids(snapshot, tree, id, Map::empty()),
            snapshot,
            tree,
            id,
        ),
{
    let raw = raw_patch(snapshot, tree, id);
    let known = known_ids(snapshot, tree, id, Map::empty());
    lemma_raw_reaches(snapshot, tree, depth, id);
    lemma_relinked_reaches(raw, known, snapshot, tree, id);
}

/// What the `k`-th child of a snapshot adds to a patch.
pub(crate) open spec fn part(
    snapshot: SnapshotView,
    tree: TreeView,
    id: u128,
    k: int,
) -> PatchView {
    let ids = tree.instances[id].children;
    match pairing(snapshot.children, tree, ids)[k] {
        Some(m) => raw_patch(snapshot.children[k], tree, ids[m]),
        None => PatchView {
            added: seq![AddView { parent_id: id, instance: snapshot.children[k] }],
            ..empty_patch()
        },
    }
}

/// [`reaches`], with references still those of the snapshot.
spec fn raw_reaches(whole: PatchView, snapshot: SnapshotView, tree: TreeView, id: u128) -> bool
    decreases snapshot,
{
    let ids = tree.instances[id].children;
    let taken = pairing(snapshot.children, tree, ids);
    let expected = update_for(snapshot, tree.instances[id], id, tree.specified);
    &&& !changes_nothing(expected) ==> whole.updated.contains(expected)
    &&& forall|u: UpdateView| #[trigger]
        whole.updated.contains(u) && u.id == id ==> u == expected && !changes_nothing(expected)
    &&& forall|m: int|
        #![trigger ids[m]]
        0 <= m < ids.len() ==> (whole.removed.contains(ids[m]) <==> !taken.contains(Some(m)))
    &&& forall|k: int|
        #![trigger snapshot.children[k]]
        0 <= k < snapshot.children.len() ==> match taken[k] {
            Some(m) => raw_reaches(whole, snapshot.children[k], tree, ids[m]),
            None => whole.added.contains(
                AddView { parent_id: id, instance: snapshot.children[k] },
            ),
        }
    &&& forall|a: AddView| #[trigger]
        whole.added.contains(a) && a.parent_id == id ==> exists|k: int|
            0 <= k < snapshot.children.len() && taken[k] is None && a.instance
                == #[trigger] snapshot.children[k]
}

/// Whether two patches say the same of what is within an instance.
spec fn agrees(
    whole: PatchView,
    inner: PatchView,
    tree: TreeView,
    depth: Map<u128, usize>,
    id: u128,
) -> bool {
    &&& forall|u: UpdateView|
        is_within(tree, depth, u.id, id) ==> (#[trigger] whole.updated.contains(u)
            <==> inner.updated.contains(u))
    &&& forall|a: AddView|
        is_within(tree, depth, a.parent_id, id) ==> (#[trigger] whole.added.contains(a)
            <==> inner.added.contains(a))
    &&& forall|r: u128|
        is_within(tree, depth, r, id) && r != id ==> (#[trigger] whole.removed.contains(r)
            <==> inner.removed.contains(r))
}

proof fn lemma_in_both<T>(a: Seq<T>, b: Seq<T>)
    ensures
        forall|x: T| #[trigger] (a + b).contains(x) <==> a.contains(x) || b.contains(x),
{
    assert forall|x: T| #[trigger] (a + b).contains(x) <==> a.contains(x) || b.contains(x) by {
        if a.contains(x) {
            let i = a.index_of(x);
            assert((a + b)[i] == x);
        }
        if b.contains(x) {
            let i = b.index_of(x);
            assert((a + b)[a.len() + i] == x);
        }
    }
}

/// A patch for the first `n` children is made of their parts.
proof fn lemma_parts(snapshot: SnapshotView, tree: TreeView, id: u128, n: int)
    requires
        0 <= n <= snapshot.children.len(),
    ensures
        forall|u: UpdateView| #[trigger]
            children_patch(snapshot, tree, id, n).updated.contains(u) <==> exists|k: int|
                0 <= k < n && (#[trigger] part(snapshot, tree, id, k)).updated.contains(u),
        forall|a: AddView| #[trigger]
            children_patch(snapshot, tree, id, n).added.contains(a) <==> exists|k: int|
                0 <= k < n && (#[trigger] part(snapshot, tree, id, k)).added.contains(a),
        forall|r: u128| #[trigger]
            children_patch(snapshot, tree, id, n).removed.contains(r) <==> exists|k: int|
                0 <= k < n && (#[trigger] part(snapshot, tree, id, k)).removed.contains(r),
    decreases n,
{
    if n > 0 {
        let before = children_patch(snapshot, tree, id, n - 1);
        let last = part(snapshot, tree, id, n - 1);
        lemma_parts(snapshot, tree, id, n - 1);
        lemma_in_both(before.updated, last.updated);
        lemma_in_both(before.added, last.added);
        lemma_in_both(before.removed, last.removed);
    }
}

/// What the part of a child speaks of is within the instance that the child
/// describes, but for the child itself where it is added.
pub(crate) proof fn lemma_part_within(
    snapshot: SnapshotView,
    tree: TreeView,
    depth: Map<u128, usize>,
    id: u128,
    k: int,
)
    requires
        is_layered(tree, depth),
        tree.instances.contains_key(id),
        0 <= k < snapshot.children.len(),
    ensures
        ({
            let ids = tree.instances[id].children;
            let taken = pairing(snapshot.children, tree, ids);
            let here = part(snapshot, tree, id, k);
            &&& forall|u: UpdateView| #[trigger]
                here.updated.contains(u) ==> (taken[k] matches Some(m) && 0 <= m < ids.len()
                    && is_within(tree, depth, u.id, ids[m]))
            &&& forall|a: AddView| #[trigger]
                here.added.contains(a) ==> match taken[k] {
                    Some(m) => 0 <= m < ids.len() && is_within(tree, depth, a.parent_id, ids[m]),
                    None => a == (AddView { parent_id: id, instance: snapshot.children[k] }),
                }
            &&& forall|r: u128| #[trigger]
                here.removed.contains(r) ==> (taken[k] matches Some(m) && 0 <= m < ids.len()
                    && is_within(tree, depth, r, ids[m]) && r != ids[m])
        }),
{
    let ids = tree.instances[id].children;
    let taken = pairing(snapshot.children, tree, ids);
    lemma_pairing_is_greedy(snapshot.children, tree, ids);
    if let Some(m) = taken[k] {
        lemma_raw_consistent(snapshot.children[k], tree, depth, ids[m]);
    }
}

/// What a patch for an instance is made of.
proof fn lemma_raw_parts(snapshot: SnapshotView, tree: TreeView, id: u128)
    ensures
        ({
            let ids = tree.instances[id].children;
            let n = snapshot.children.len() as int;
            let taken = pairing(snapshot.children, tree, ids);
            let expected = update_for(snapshot, tree.instances[id], id, tree.specified);
            let raw = raw_patch(snapshot, tree, id);
            &&& forall|u: UpdateView| #[trigger]
                raw.updated.contains(u) <==> (u == expected && !changes_nothing(expected)) || (
                exists|k: int|
                    0 <= k < n && (#[trigger] part(snapshot, tree, id, k)).updated.contains(u))
            &&& forall|a: AddView| #[trigger]
                raw.added.contains(a) <==> exists|k: int|
                    0 <= k < n && (#[trigger] part(snapshot, tree, id, k)).added.contains(a)
            &&& forall|r: u128| #[trigger]
                raw.removed.contains(r) <==> untaken(ids, taken, ids.len() as int).contains(r) || (
                exists|k: int|
                    0 <= k < n && (#[trigger] part(snapshot, tree, id, k)).removed.contains(r))
        }),
{
    let ids = tree.instances[id].children;
    let n = snapshot.children.len() as int;
    let taken = pairing(snapshot.children, tree, ids);
    let expected = update_for(snapshot, tree.instances[id], id, tree.specified);
    let own = with_update(empty_patch(), expected);
    let below = children_patch(snapshot, tree, id, n);
    let left = untaken(ids, taken, ids.len() as int);
    lemma_parts(snapshot, tree, id, n);
    lemma_in_both(own.updated, below.updated);
    lemma_in_both(below.removed, left);
    assert forall|u: UpdateView| #[trigger] own.updated.contains(u) <==> u == expected
        && !changes_nothing(expected) by {
        if !changes_nothing(expected) {
            assert(own.updated[0] == expected);
        }
    }
}

/// An instance is not within its child.
pub(crate) proof fn lemma_not_within_child(
    tree: TreeView,
    depth: Map<u128, usize>,
    id: u128,
    m: int,
)
    requires
        is_layered(tree, depth),
        tree.instances.contains_key(id),
        0 <= m < tree.instances[id].children.len(),
    ensures
        !is_within(tree, depth, id, tree.instances[id].children[m]),
        is_within(tree, depth, tree.instances[id].children[m], id),
        tree.instances[id].children[m] != id,
        tree.instances.contains_key(tree.instances[id].children[m]),
{
    let child = tree.instances[id].children[m];
    assert(is_within(tree, depth, id, id));
    if is_within(tree, depth, id, child) {
        lemma_within_depth(tree, depth, id, child);
    }
}

/// Of what is within a paired child, the patch for an instance says what the
/// patch for the child says.
proof fn lemma_agrees_below(
    whole: PatchView,
    snapshot: SnapshotView,
    tree: TreeView,
    depth: Map<u128, usize>,
    id: u128,
    k: int,
    m: int,
)
    requires
        is_layered(tree, depth),
        tree.instances.contains_key(id),
        agrees(whole, raw_patch(snapshot, tree, id), tree, depth, id),
        0 <= k < snapshot.children.len(),
        pairing(snapshot.children, tree, tree.instances[id].children)[k] == Some(m),
        0 <= m < tree.instances[id].children.len(),
    ensures
        agrees(
            whole,
            raw_patch(snapshot.children[k], tree, tree.instances[id].children[m]),
            tree,
            depth,
            tree.instances[id].children[m],
        ),
{
    let ids = tree.instances[id].children;
    let n = snapshot.children.len() as int;
    let taken = pairing(snapshot.children, tree, ids);
    let raw = raw_patch(snapshot, tree, id);
    let inner = part(snapshot, tree, id, k);
    let kid = ids[m];
    lemma_raw_parts(snapshot, tree, id);
    lemma_pairing_is_greedy(snapshot.children, tree, ids);
    lemma_not_within_child(tree, depth, id, m);
    assert forall|x: u128| #[trigger] is_within(tree, depth, x, kid) implies is_within(
        tree,
        depth,
        x,
        id,
    ) && x != id by {
        lemma_within_chain(tree, depth, x, kid, id);
    }
    // Another child speaks of nothing that is within this one.
    assert forall|x: u128, other: int|
        0 <= other < n && other != k && (taken[other] matches Some(o) && 0 <= o < ids.len()
            && is_within(tree, depth, x, ids[o])) implies !(#[trigger] is_within(
        tree,
        depth,
        x,
        kid,
    ) && #[trigger] taken[other] == taken[other]) by {
        let o = taken[other]->0;
        if is_within(tree, depth, x, kid) {
            lemma_apart(tree, depth, x, ids[o], kid);
        }
    }
    assert forall|u: UpdateView| is_within(tree, depth, u.id, kid) implies (
    #[trigger] whole.updated.contains(u) <==> inner.updated.contains(u)) by {
        if raw.updated.contains(u) {
            let other = choose|other: int|
                0 <= other < n && (#[trigger] part(snapshot, tree, id, other)).updated.contains(u);
            lemma_part_within(snapshot, tree, depth, id, other);
        }
    }
    assert forall|a: AddView| is_within(tree, depth, a.parent_id, kid) implies (
    #[trigger] whole.added.contains(a) <==> inner.added.contains(a)) by {
        if raw.added.contains(a) {
            let other = choose|other: int|
                0 <= other < n && (#[trigger] part(snapshot, tree, id, other)).added.contains(a);
            lemma_part_within(snapshot, tree, depth, id, other);
        }
    }
    assert forall|r: u128| is_within(tree, depth, r, kid) && r != kid implies (
    #[trigger] whole.removed.contains(r) <==> inner.removed.contains(r)) by {
        if raw.removed.contains(r) {
            let left = untaken(ids, taken, ids.len() as int);
            if left.contains(r) {
                lemma_untaken_within(ids, taken, ids.len() as int);
                let j = choose|j: int| 0 <= j < ids.len() && ids[j] == left[left.index_of(r)];
                lemma_apart(tree, depth, r, ids[j], kid);
            } else {
                let other = choose|other: int|
                    0 <= other < n && (#[trigger] part(snapshot, tree, id, other)).removed.contains(
                        r,
                    );
                lemma_part_within(snapshot, tree, depth, id, other);
            }
        }
    }
}

proof fn lemma_agreeing_reaches(
    whole: PatchView,
    snapshot: SnapshotView,
    tree: TreeView,
    depth: Map<u128, usize>,
    id: u128,
)
    requires
        is_layered(tree, depth),
        tree.instances.contains_key(id),
        agrees(whole, raw_patch(snapshot, tree, id), tree, depth, id),
    ensures
        raw_reaches(whole, snapshot, tree, id),
    decreases snapshot,
{
    let ids = tree.instances[id].children;
    let n = snapshot.children.len() as int;
    let taken = pairing(snapshot.children, tree, ids);
    let raw = raw_patch(snapshot, tree, id);
    let expected = update_for(snapshot, tree.instances[id], id, tree.specified);
    lemma_raw_parts(snapshot, tree, id);
    lemma_pairing_is_greedy(snapshot.children, tree, ids);

    assert forall|u: UpdateView| #[trigger] whole.updated.contains(u) && u.id == id implies u
        == expected && !changes_nothing(expected) by {
        if !(u == expected && !changes_nothing(expected)) {
            let k = choose|k: int|
                0 <= k < n && (#[trigger] part(snapshot, tree, id, k)).updated.contains(u);
            lemma_part_within(snapshot, tree, depth, id, k);
            lemma_not_within_child(tree, depth, id, taken[k]->0);
        }
    }
    assert forall|m: int| #![trigger ids[m]] 0 <= m < ids.len() implies (whole.removed.contains(
        ids[m],
    ) <==> !taken.contains(Some(m))) by {
        lemma_not_within_child(tree, depth, id, m);
        lemma_unpaired_are_removed(ids, taken, ids.len() as int, m);
        if raw.removed.contains(ids[m]) && taken.contains(Some(m)) {
            let k = choose|k: int|
                0 <= k < n && (#[trigger] part(snapshot, tree, id, k)).removed.contains(ids[m]);
            lemma_part_within(snapshot, tree, depth, id, k);
            let o = taken[k]->0;
            lemma_within_depth(tree, depth, ids[m], ids[o]);
        }
    }
    assert forall|k: int|
        #![trigger snapshot.children[k]]
        0 <= k < snapshot.children.len() implies match taken[k] {
        Some(m) => raw_reaches(whole, snapshot.children[k], tree, ids[m]),
        None => whole.added.contains(AddView { parent_id: id, instance: snapshot.children[k] }),
    } by {
        match taken[k] {
            Some(m) => {
                lemma_not_within_child(tree, depth, id, m);
                lemma_agrees_below(whole, snapshot, tree, depth, id, k, m);
                lemma_agreeing_reaches(whole, snapshot.children[k], tree, depth, ids[m]);
            },
            None => {
                let a = AddView { parent_id: id, instance: snapshot.children[k] };
                assert(part(snapshot, tree, id, k).added[0] == a);
            },
        }
    }
    assert forall|a: AddView| #[trigger]
        whole.added.contains(a) && a.parent_id == id implies exists|k: int|
        0 <= k < snapshot.children.len() && taken[k] is None && a.instance
            == #[trigger] snapshot.children[k] by {
        let k = choose|k: int|
            0 <= k < n && (#[trigger] part(snapshot, tree, id, k)).added.contains(a);
        lemma_part_within(snapshot, tree, depth, id, k);
        if taken[k] is Some {
            lemma_not_within_child(tree, depth, id, taken[k]->0);
        }
    }
}

proof fn lemma_raw_reaches(
    snapshot: SnapshotView,
    tree: TreeView,
    depth: Map<u128, usize>,
    id: u128,
)
    requires
        is_layered(tree, depth),
        tree.instances.contains_key(id),
    ensures
        raw_reaches(raw_patch(snapshot, tree, id), snapshot, tree, id),
{
    lemma_agreeing_reaches(raw_patch(snapshot, tree, id), snapshot, tree, depth, id);
}

/// What the update for an instance does, references turned to instances.
proof fn lemma_update_reaches(
    snapshot: SnapshotView,
    instance: TreeInstanceView,
    id: u128,
    specified: Map<Seq<char>, u128>,
    known: Map<u128, u128>,
)
    ensures
        ({
            let expected = update_for(snapshot, instance, id, specified);
            &&& update_reaches(
                instance,
                relinked_update(expected, known),
                snapshot,
                specified,
                known,
            )
            &&& changes_nothing(expected) ==> update_reaches(
                instance,
                no_update(id),
                snapshot,
                specified,
                known,
            )
        }),
{
    lemma_update_reaches_snapshot(snapshot, instance, id, specified);
}

proof fn lemma_relinked_reaches(
    raw: PatchView,
    known: Map<u128, u128>,
    snapshot: SnapshotView,
    tree: TreeView,
    id: u128,
)
    requires
        raw_reaches(raw, snapshot, tree, id),
    ensures
        reaches(relinked_patch(raw, known), known, snapshot, tree, id),
    decreases snapshot,
{
    let ids = tree.instances[id].children;
    let taken = pairing(snapshot.children, tree, ids);
    let instance = tree.instances[id];
    let expected = update_for(snapshot, instance, id, tree.specified);
    let patch = relinked_patch(raw, known);
    lemma_update_reaches(snapshot, instance, id, tree.specified, known);
    assert forall|v: UpdateView| #[trigger] patch.updated.contains(v) && v.id == id implies v
        == relinked_update(expected, known) && !changes_nothing(expected) by {
        let i = patch.updated.index_of(v);
        assert(raw.updated.contains(raw.updated[i]));
    }
    if !changes_nothing(expected) {
        let i = raw.updated.index_of(expected);
        let linked = relinked_update(expected, known);
        assert(patch.updated[i] == linked);
        assert(patch.updated.contains(linked));
    }
    assert forall|k: int|
        #![trigger snapshot.children[k]]
        0 <= k < snapshot.children.len() implies match taken[k] {
        Some(m) => reaches(patch, known, snapshot.children[k], tree, ids[m]),
        None => patch.added.contains(
            AddView { parent_id: id, instance: relinked_snapshot(snapshot.children[k], known) },
        ),
    } by {
        match taken[k] {
            Some(m) => {
                lemma_relinked_reaches(raw, known, snapshot.children[k], tree, ids[m]);
            },
            None => {
                let a = AddView { parent_id: id, instance: snapshot.children[k] };
                let i = raw.added.index_of(a);
                assert(patch.added[i] == (AddView {
                    parent_id: id,
                    instance: relinked_snapshot(snapshot.children[k], known),
                }));
            },
        }
    }
    assert forall|a: AddView| #[trigger]
        patch.added.contains(a) && a.parent_id == id implies exists|k: int|
        0 <= k < snapshot.children.len() && taken[k] is None && a.instance == relinked_snapshot(
            #[trigger] snapshot.children[k],
            known,
        ) by {
        let i = patch.added.index_of(a);
        let before = raw.added[i];
        assert(raw.added.contains(before));
    }
}

/// Whether a patch updates the instance `id`, and each below it that a part of a
/// snapshot describes, exactly if something of it has to change: its name, its
/// class, its metadata or one of its properties.
pub open spec fn updates_where_needed(
    patch: PatchView,
    snapshot: SnapshotView,
    tree: TreeView,
    id: u128,
) -> bool
    decreases snapshot,
{
    let instance = tree.instances[id];
    let ids = instance.children;
    let taken = pairing(snapshot.children, tree, ids);
    let changes = update_for(snapshot, instance, id, tree.specified).changed_properties;
    &&& (exists|i: int|
        0 <= i < patch.updated.len() && (#[trigger] patch.updated[i]).id == id) <==> {
        ||| snapshot.name != instance.name
        ||| snapshot.class_name != instance.class_name
        ||| snapshot.metadata != instance.metadata
        ||| exists|name: Seq<char>| changes.contains_key(name)
    }
    &&& forall|i: int|
        0 <= i < patch.updated.len() && (#[trigger] patch.updated[i]).id == id
            ==> patch.updated[i].changed_properties.dom() == changes.dom()
    &&& forall|k: int|
        #![trigger snapshot.children[k]]
        0 <= k < snapshot.children.len() ==> (taken[k] matches Some(m) ==> updates_where_needed(
            patch,
            snapshot.children[k],
            tree,
            ids[m],
        ))
}

/// A patch updates an instance exactly if something of it has to change, and names
/// each property that has to.
pub proof fn lemma_updates_are_made_where_needed(
    snapshot: SnapshotView,
    tree: TreeView,
    depth: Map<u128, usize>,
    id: u128,
)
    requires
        is_layered(tree, depth),
        tree.instances.contains_key(id),
    ensures
        updates_where_needed(patch_for(Some(snapshot), tree, id), snapshot, tree, id),
{
    let known = known_ids(snapshot, tree, id, Map::empty());
    lemma_raw_reaches(snapshot, tree, depth, id);
    lemma_updates_needed(raw_patch(snapshot, tree, id), known, snapshot, tree, id);
}

proof fn lemma_updates_needed(
    raw: PatchView,
    known: Map<u128, u128>,
    snapshot: SnapshotView,
    tree: TreeView,
    id: u128,
)
    requires
        raw_reaches(raw, snapshot, tree, id),
    ensures
        updates_where_needed(relinked_patch(raw, known), snapshot, tree, id),
    decreases snapshot,
{
    let instance = tree.instances[id];
    let ids = instance.children;
    let taken = pairing(snapshot.children, tree, ids);
    let expected = update_for(snapshot, instance, id, tree.specified);
    let changes = expected.changed_properties;
    let patch = relinked_patch(raw, known);
    if !(exists|name: Seq<char>| changes.contains_key(name)) {
        assert(changes =~= Map::empty());
    }
    if !changes_nothing(expected) {
        let i = raw.updated.index_of(expected);
        assert(patch.updated[i].id == id);
    }
    assert forall|i: int|
        0 <= i < patch.updated.len() && (#[trigger] patch.updated[i]).id == id implies
        !changes_nothing(expected) && patch.updated[i].changed_properties.dom()
        == changes.dom() by {
        assert(raw.updated.contains(raw.updated[i]));
        assert(patch.updated[i].changed_properties.dom() =~= changes.dom());
    }
    assert forall|k: int|
        #![trigger snapshot.children[k]]
        0 <= k < snapshot.children.len() implies (taken[k] matches Some(m)
        ==> updates_where_needed(patch, snapshot.children[k], tree, ids[m])) by {
        if let Some(m) = taken[k] {
            lemma_updates_needed(raw, known, snapshot.children[k], tree, ids[m]);
        }
    }
}

} // verus!
