//! What holds of every syncback: what is written, what is passed over, and what
//! is removed.

use vstd::prelude::*;

use crate::dom::{
    is_tree, is_under, lemma_path_of_child, pruned_depths, pruned_node, without, Dom, NodeView,
};
use crate::fs_snapshot::{merged, no_fs_changes, FsView};
use crate::glob::{glob_compiles, glob_match};
use crate::instance::InstanceSnapshot;
use crate::middleware::Middleware;
use crate::paths::{is_absolute, is_trimmed, joined, lemma_joined_lies_below, may_be_left, portable};
use crate::reflection::{ancestry, own_default, scriptability_of, superclass_of, Scriptability};
use crate::syncback::{
    best_middleware, camera_among, camera_left_out, can_happen, current_camera, is_in_tree,
    model_format, new_path, replaced, tree_ignored, tree_top, with_removals, Action, Event,
    SyncbackLoop,
};
use crate::syncback_snapshot::{
    filtered_properties, globs_may_allow, ignored_in, ignored_names, may_allow, property_kept,
    rest_or_path, PropertyFacts, RulesView, SyncbackSnapshot,
};
use crate::tree::{InstanceWithMeta, TreeInstanceView};
use crate::variant::{PropertyView, VariantView};
use crate::view_laws::lemma_path_of_root;

verus! {

/// Whether the old and the new subtree of a snapshot have the same hash, or both
/// have none.
pub open spec fn same_hashes<'sync>(
    state: SyncbackLoop<'sync>,
    snapshot: SyncbackSnapshot<'sync>,
) -> bool {
    snapshot.old matches Some(old) && {
        ||| !state.old_hashes@.contains_key(old) && !state.new_hashes@.contains_key(snapshot.new)
        ||| state.old_hashes@.contains_key(old) && state.new_hashes@.contains_key(snapshot.new)
            && state.old_hashes@[old]@ == state.new_hashes@[snapshot.new]@
    }
}

/// The middleware that a snapshot comes with: the one that is forced onto it, or
/// else the one that its old instance was read with, if it has an old instance and
/// that is known.
pub open spec fn given_middleware<'sync>(snapshot: SyncbackSnapshot<'sync>) -> Option<Middleware> {
    match snapshot.middleware {
        Some(forced) => Some(forced),
        None => match snapshot.old {
            Some(old) => if snapshot.data.old_tree@.instances.contains_key(old) {
                snapshot.data.old_tree@.instances[old].metadata.middleware
            } else {
                None
            },
            None => None,
        },
    }
}

/// Whether a path is one of some listed ones or below one. A slash at the end of a
/// listed path makes no difference.
pub open spec fn is_listed(path: Seq<char>, listed: Seq<Seq<char>>) -> bool {
    exists|i: int, top: Seq<char>|
        0 <= i < listed.len() && names_top(#[trigger] listed[i], top) && #[trigger] is_at_or_below(
            path,
            top,
        )
}

/// Whether a listed path names the instance at `top`.
pub open spec fn names_top(listed: Seq<char>, top: Seq<char>) -> bool {
    ||| listed == top + seq!['/']
    ||| listed == top && !(top.len() > 0 && top[top.len() - 1] == '/')
}

/// Whether a path is another one, or has it, a slash and more characters.
pub open spec fn is_at_or_below(path: Seq<char>, top: Seq<char>) -> bool {
    ||| path == top
    ||| exists|rest: Seq<char>| path == #[trigger] (top + seq!['/'] + rest)
}

/// Whether the project lists the instance of a snapshot, or one above it, as one
/// that is not synced back.
pub open spec fn lies_in_ignored_tree<'sync>(snapshot: SyncbackSnapshot<'sync>) -> bool {
    snapshot.data.syncback_rules matches Some(rules) && is_listed(
        new_path(snapshot),
        rules.ignore_trees.deep_view(),
    )
}

/// Whether a snapshot may be passed over: its subtree did not change, it comes from
/// a JSON or TOML file, or the project ignores it. There is no other reason.
pub open spec fn may_be_passed_over<'sync>(
    state: SyncbackLoop<'sync>,
    snapshot: SyncbackSnapshot<'sync>,
) -> bool {
    ||| same_hashes(state, snapshot)
    ||| given_middleware(snapshot) == Some(Middleware::Json)
    ||| given_middleware(snapshot) == Some(Middleware::Toml)
    ||| lies_in_ignored_tree(snapshot)
}

/// A syncback passes over no instance that is to be written: what it passes over
/// did not change, comes from a JSON or TOML file, or is ignored by the project.
/// What it names for writing is none of these, and it is named with the middleware
/// that it comes with, or that suits it best where it comes with none.
pub proof fn lemma_nothing_wanted_is_passed_over<'sync>(
    state: SyncbackLoop<'sync>,
    before: Seq<SyncbackSnapshot<'sync>>,
    action: Action<'sync>,
    debug: Option<Seq<char>>,
)
    requires
        state.advanced(before, action, debug),
    ensures
        match action {
            Action::Name(visit) => {
                let k = state.snapshots@.len() as int;
                &&& k < before.len()
                &&& state.snapshots@ == before.take(k)
                &&& visit.snapshot == before[k]
                &&& visit.inst_path@ == new_path(before[k])
                &&& !may_be_passed_over(state, before[k])
                &&& match given_middleware(before[k]) {
                    Some(given) => visit.middleware == given,
                    None => {
                        let new = before[k].data.new_tree@[before[k].new];
                        visit.middleware == best_middleware(
                            new.class,
                            new.children.len() > 0,
                            debug,
                        )
                    },
                }
                &&& forall|j: int|
                    k < j < before.len() ==> may_be_passed_over(state, #[trigger] before[j])
            },
            Action::Finish => {
                &&& state.snapshots@.len() == 0
                &&& forall|j: int|
                    0 <= j < before.len() ==> may_be_passed_over(state, #[trigger] before[j])
            },
            _ => false,
        },
{
    assert forall|snapshot: SyncbackSnapshot<'sync>| #[trigger]
        may_be_passed_over(state, snapshot) <==> state.decision(snapshot, debug) is Err by {
        lemma_reasons(state, snapshot, debug);
    }
}

proof fn lemma_reasons<'sync>(
    state: SyncbackLoop<'sync>,
    snapshot: SyncbackSnapshot<'sync>,
    debug: Option<Seq<char>>,
)
    ensures
        may_be_passed_over(state, snapshot) <==> state.decision(snapshot, debug) is Err,
{
    let new = snapshot.data.new_tree@[snapshot.new];
    lemma_best_is_written(new.class, new.children.len() > 0, debug);
    if let Some(old) = snapshot.old {
        if state.old_hashes@.contains_key(old) {
            assert(state.old_hashes@[old].deep_view() =~= state.old_hashes@[old]@);
        }
        if state.new_hashes@.contains_key(snapshot.new) {
            assert(state.new_hashes@[snapshot.new].deep_view()
                =~= state.new_hashes@[snapshot.new]@);
        }
    }
    if let Some(rules) = snapshot.data.syncback_rules {
        lemma_listed_trees_are_ignored(rules.deep_view(), new_path(snapshot));
    }
}

/// What suits an instance best can be written.
pub proof fn lemma_best_is_written(class: Seq<char>, children: bool, debug: Option<Seq<char>>)
    ensures
        best_middleware(class, children, debug) != Middleware::Json,
        best_middleware(class, children, debug) != Middleware::Toml,
        best_middleware(class, children, debug) != Middleware::Ignore,
{
}

/// The project ignores exactly the instances that it lists and those below them.
pub proof fn lemma_listed_trees_are_ignored(rules: RulesView, path: Seq<char>)
    ensures
        tree_ignored(Some(rules), path) <==> is_listed(path, rules.ignore_trees),
        !tree_ignored(None, path),
{
    let trees = rules.ignore_trees;
    if tree_ignored(Some(rules), path) {
        let i = choose|i: int| 0 <= i < trees.len() && is_in_tree(path, #[trigger] trees[i]);
        let top = tree_top(trees[i]);
        if trees[i].len() > 0 && trees[i].last() == '/' {
            assert(trees[i] =~= top + seq!['/']);
        }
        assert(names_top(trees[i], top));
        if path != top {
            let rest = path.skip(top.len() as int + 1);
            assert(path =~= top + seq!['/'] + rest);
        }
        assert(is_at_or_below(path, top));
    }
    if is_listed(path, trees) {
        let (i, top) = choose|i: int, top: Seq<char>|
            0 <= i < trees.len() && names_top(#[trigger] trees[i], top)
                && #[trigger] is_at_or_below(path, top);
        if trees[i] == top + seq!['/'] {
            assert(trees[i].last() == '/');
            assert(trees[i].drop_last() =~= top);
        }
        assert(tree_top(trees[i]) == top);
        if path != top {
            let rest = choose|rest: Seq<char>| path == #[trigger] (top + seq!['/'] + rest);
            let with_slash = top + seq!['/'];
            assert(path.subrange(0, with_slash.len() as int) =~= with_slash);
        }
        assert(is_in_tree(path, trees[i]));
    }
}

/// The effects and sounds that become JSON models where they have no children.
pub open spec fn becomes_json_model(class: Seq<char>) -> bool {
    ||| class == "Atmosphere"@
    ||| class == "BloomEffect"@
    ||| class == "BlurEffect"@
    ||| class == "ColorCorrectionEffect"@
    ||| class == "DepthOfFieldEffect"@
    ||| class == "ParticleEmitter"@
    ||| class == "Sky"@
    ||| class == "Sound"@
    ||| class == "SoundGroup"@
    ||| class == "SunRaysEffect"@
}

/// The middleware that suits an instance best, by its class and by whether it has
/// children.
pub proof fn lemma_best_middleware_by_class(
    class: Seq<char>,
    children: bool,
    debug: Option<Seq<char>>,
)
    ensures
        ({
            let best = best_middleware(class, children, debug);
            let container = class == "Folder"@ || class == "Configuration"@ || class == "Tool"@;
            let other = class == "StringValue"@ || class == "Script"@ || class == "LocalScript"@
                || class == "ModuleScript"@ || class == "LocalizationTable"@;
            &&& container ==> best == Middleware::Dir
            &&& becomes_json_model(class) && !children ==> best == Middleware::JsonModel
            &&& becomes_json_model(class) && children ==> best == Middleware::Dir
            &&& class == "StringValue"@ && !children ==> best == Middleware::Text
            &&& class == "StringValue"@ && children ==> best == Middleware::Dir
            &&& class == "Script"@ && !children ==> best == Middleware::ServerScript
            &&& class == "Script"@ && children ==> best == Middleware::ServerScriptDir
            &&& class == "LocalScript"@ && !children ==> best == Middleware::ClientScript
            &&& class == "LocalScript"@ && children ==> best == Middleware::ClientScriptDir
            &&& class == "ModuleScript"@ && !children ==> best == Middleware::ModuleScript
            &&& class == "ModuleScript"@ && children ==> best == Middleware::ModuleScriptDir
            &&& class == "LocalizationTable"@ && !children ==> best == Middleware::Csv
            &&& class == "LocalizationTable"@ && children ==> best == Middleware::CsvDir
            &&& !container && !becomes_json_model(class) && !other && debug == Some("1"@) ==> best
                == Middleware::Rbxmx
            &&& !container && !becomes_json_model(class) && !other && debug != Some("1"@) ==> best
                == Middleware::Rbxm
        }),
{
    reveal_strlit("Sound");
    reveal_strlit("SoundGroup");
    reveal_strlit("Sky");
    reveal_strlit("Atmosphere");
    reveal_strlit("BloomEffect");
    reveal_strlit("BlurEffect");
    reveal_strlit("ColorCorrectionEffect");
    reveal_strlit("DepthOfFieldEffect");
    reveal_strlit("SunRaysEffect");
    reveal_strlit("ParticleEmitter");
    reveal_strlit("Folder");
    reveal_strlit("Configuration");
    reveal_strlit("Tool");
    reveal_strlit("StringValue");
    reveal_strlit("Script");
    reveal_strlit("LocalScript");
    reveal_strlit("ModuleScript");
    reveal_strlit("LocalizationTable");
    assert("Sound"@.len() == 5 && "Sound"@[0] == 'S');
    assert("SoundGroup"@.len() == 10 && "SoundGroup"@[0] == 'S');
    assert("Sky"@.len() == 3 && "Sky"@[0] == 'S');
    assert("Atmosphere"@.len() == 10 && "Atmosphere"@[0] == 'A');
    assert("BloomEffect"@.len() == 11 && "BloomEffect"@[0] == 'B');
    assert("BlurEffect"@.len() == 10 && "BlurEffect"@[0] == 'B');
    assert("ColorCorrectionEffect"@.len() == 21 && "ColorCorrectionEffect"@[0] == 'C');
    assert("DepthOfFieldEffect"@.len() == 18 && "DepthOfFieldEffect"@[0] == 'D');
    assert("SunRaysEffect"@.len() == 13 && "SunRaysEffect"@[0] == 'S');
    assert("ParticleEmitter"@.len() == 15 && "ParticleEmitter"@[0] == 'P');
    assert("Folder"@.len() == 6 && "Folder"@[0] == 'F');
    assert("Configuration"@.len() == 13 && "Configuration"@[0] == 'C');
    assert("Tool"@.len() == 4 && "Tool"@[0] == 'T');
    assert("StringValue"@.len() == 11 && "StringValue"@[0] == 'S');
    assert("Script"@.len() == 6 && "Script"@[0] == 'S');
    assert("LocalScript"@.len() == 11 && "LocalScript"@[0] == 'L');
    assert("ModuleScript"@.len() == 12 && "ModuleScript"@[0] == 'M');
    assert("LocalizationTable"@.len() == 17 && "LocalizationTable"@[0] == 'L');
}

/// The current camera of a tree is the instance to which the property
/// `CurrentCamera` of its workspace refers, if that is in the tree. The workspace
/// is the last child of the root with that class.
pub proof fn lemma_current_camera_is_that_of_the_workspace(dom: Dom, k: int)
    requires
        0 <= k < dom@[dom.root()].children.len(),
        dom@[dom@[dom.root()].children[k]].class == "Workspace"@,
        forall|j: int|
            k < j < dom@[dom.root()].children.len() ==> dom@[
            #[trigger] dom@[dom.root()].children[j]].class != "Workspace"@,
    ensures
        ({
            let workspace = dom.properties_of(dom@[dom.root()].children[k]);
            match current_camera(dom) {
                Some(camera) => {
                    &&& dom@.contains_key(camera)
                    &&& workspace.contains_key("CurrentCamera"@)
                    &&& workspace["CurrentCamera"@].value == VariantView::Ref(camera)
                },
                None => workspace.contains_key("CurrentCamera"@) ==> (
                workspace["CurrentCamera"@].value matches VariantView::Ref(camera)
                    ==> !dom@.contains_key(camera)),
            }
        }),
{
    let ids = dom@[dom.root()].children;
    lemma_last_workspace(dom, ids, k, ids.len() as int);
    assert(ids.take(ids.len() as int) =~= ids);
}

proof fn lemma_last_workspace(dom: Dom, ids: Seq<u128>, k: int, n: int)
    requires
        0 <= k < n <= ids.len(),
        dom@[ids[k]].class == "Workspace"@,
        forall|j: int| k < j < ids.len() ==> dom@[#[trigger] ids[j]].class != "Workspace"@,
    ensures
        camera_among(dom, ids.take(n)) == (if dom.properties_of(ids[k]).contains_key(
            "CurrentCamera"@,
        ) {
            Some(dom.properties_of(ids[k])["CurrentCamera"@])
        } else {
            None
        }),
    decreases n,
{
    assert(ids.take(n).drop_last() =~= ids.take(n - 1));
    assert(ids.take(n).last() == ids[n - 1]);
    if k < n - 1 {
        lemma_last_workspace(dom, ids, k, n - 1);
    }
}

/// A tree whose root has no workspace has no current camera.
pub proof fn lemma_no_camera_without_workspace(dom: Dom)
    requires
        forall|j: int|
            0 <= j < dom@[dom.root()].children.len() ==> dom@[
            #[trigger] dom@[dom.root()].children[j]].class != "Workspace"@,
    ensures
        current_camera(dom) is None,
{
    let ids = dom@[dom.root()].children;
    lemma_no_workspace(dom, ids, ids.len() as int);
    assert(ids.take(ids.len() as int) =~= ids);
}

proof fn lemma_no_workspace(dom: Dom, ids: Seq<u128>, n: int)
    requires
        0 <= n <= ids.len(),
        forall|j: int| 0 <= j < ids.len() ==> dom@[#[trigger] ids[j]].class != "Workspace"@,
    ensures
        camera_among(dom, ids.take(n)) is None,
    decreases n,
{
    if n > 0 {
        assert(ids.take(n).drop_last() =~= ids.take(n - 1));
        assert(ids.take(n).last() == ids[n - 1]);
        lemma_no_workspace(dom, ids, n - 1);
    }
}

/// The current camera is left out exactly if there are rules and they do not say
/// that it is to be synced back.
pub proof fn lemma_camera_is_left_out_by_rules(rules: Option<RulesView>)
    ensures
        match rules {
            Some(rules) => match rules.sync_current_camera {
                Some(wanted) => camera_left_out(Some(rules)) == !wanted,
                None => camera_left_out(Some(rules)),
            },
            None => !camera_left_out(rules),
        },
{
}

/// What is left of a tree when an instance is destroyed: all that is neither the
/// instance nor below it, each as it was, but that the parent of the instance no
/// longer lists it.
pub proof fn lemma_only_the_destroyed_is_gone(
    nodes: Map<u128, NodeView>,
    depth: Map<u128, usize>,
    id: u128,
    other: u128,
)
    ensures
        pruned_depths(nodes, depth, id).contains_key(other) <==> depth.contains_key(other)
            && !is_under(nodes, depth, other, id),
        pruned_depths(nodes, depth, id).contains_key(other) ==> pruned_depths(
            nodes,
            depth,
            id,
        )[other] == depth[other],
        pruned_node(nodes, id, other).name == nodes[other].name,
        pruned_node(nodes, id, other).class == nodes[other].class,
        pruned_node(nodes, id, other).parent == nodes[other].parent,
        other != nodes[id].parent ==> pruned_node(nodes, id, other).children
            == nodes[other].children,
        other == nodes[id].parent ==> forall|before: Seq<u128>, after: Seq<u128>|
            nodes[other].children == #[trigger] (before + seq![id] + after) && !before.contains(id)
                && !after.contains(id) ==> pruned_node(nodes, id, other).children == before + after,
{
    if other == nodes[id].parent {
        assert forall|before: Seq<u128>, after: Seq<u128>|
            nodes[other].children == #[trigger] (before + seq![id] + after) && !before.contains(id)
                && !after.contains(id) implies pruned_node(nodes, id, other).children == before
            + after by {
            lemma_without_one(before, id, after);
        }
    }
}

proof fn lemma_without_one(before: Seq<u128>, id: u128, after: Seq<u128>)
    requires
        !before.contains(id),
        !after.contains(id),
    ensures
        without(before + seq![id] + after, id) == before + after,
    decreases before.len() + after.len(),
{
    reveal(Seq::filter);
    let all = before + seq![id] + after;
    if after.len() > 0 {
        assert(all.drop_last() =~= before + seq![id] + after.drop_last());
        assert(all.last() == after.last());
        assert(after.contains(after.last()));
        assert forall|x: u128| #[trigger] after.drop_last().contains(x) implies after.contains(
            x,
        ) by {
            let i = after.drop_last().index_of(x);
            assert(after[i] == x);
        }
        lemma_without_one(before, id, after.drop_last());
        assert(before + after =~= (before + after.drop_last()).push(after.last()));
    } else {
        assert(all.drop_last() =~= before);
        assert(all.last() == id);
        lemma_without_none(before, id);
        assert(before + after =~= before);
    }
}

proof fn lemma_without_none(ids: Seq<u128>, id: u128)
    requires
        !ids.contains(id),
    ensures
        without(ids, id) == ids,
    decreases ids.len(),
{
    reveal(Seq::filter);
    if ids.len() > 0 {
        assert(ids.contains(ids.last()));
        assert forall|x: u128| #[trigger] ids.drop_last().contains(x) implies ids.contains(x) by {
            let i = ids.drop_last().index_of(x);
            assert(ids[i] == x);
        }
        lemma_without_none(ids.drop_last(), id);
        assert(ids =~= ids.drop_last().push(ids.last()));
    }
}

/// The events that happen in a syncback all can be taken up: only of what was
/// written something is asked, that each removed child is told of and has a path,
/// and that the children are in the new tree.
pub proof fn lemma_events_can_happen<'sync>(event: Event<'sync>)
    ensures
        !(event is Written) ==> can_happen(event),
        event matches Event::Written(_, syncback, are_dirs) ==> {
            (syncback.removed_children@.len() == are_dirs@.len() && (forall|i: int|
                0 <= i < syncback.removed_children@.len() ==> (
                #[trigger] syncback.removed_children@[i]).metadata.instigating_source is Some) && (
            forall|i: int|
                0 <= i < syncback.children@.len() ==> (
                #[trigger] syncback.children@[i]).data.new_tree@.contains_key(
                    syncback.children@[i].new,
                ))) ==> can_happen(event)
        },
{
}

/// The paths of the removed children are removed, as directories or as files, and
/// nothing else; what was to be added stays so.
pub proof fn lemma_removed_children_are_removed(
    fs: FsView,
    removed: Seq<InstanceWithMeta>,
    are_dirs: Seq<bool>,
    path: Seq<char>,
)
    requires
        are_dirs.len() == removed.len(),
    ensures
        ({
            let after = with_removals(fs, removed, are_dirs, removed.len() as int);
            &&& after.added_files == fs.added_files
            &&& after.added_dirs == fs.added_dirs
            &&& after.removed_dirs.contains(path) <==> fs.removed_dirs.contains(path) || exists|
                i: int,
            |
                0 <= i < removed.len() && are_dirs[i] && comes_from_path(
                    #[trigger] removed[i],
                    path,
                )
            &&& after.removed_files.contains(path) <==> fs.removed_files.contains(path) || exists|
                i: int,
            |
                0 <= i < removed.len() && !are_dirs[i] && comes_from_path(
                    #[trigger] removed[i],
                    path,
                )
        }),
{
}

/// Whether a path brought an instance into being.
pub open spec fn comes_from_path(instance: InstanceWithMeta, path: Seq<char>) -> bool {
    instance.metadata.instigating_source matches Some(source) && source@ == path
}

/// What is written for an instance that was there replaces it under its parent, and
/// what is written for a new one replaces nothing.
pub proof fn lemma_old_instances_are_replaced<'sync>(
    replacements: Seq<(u128, InstanceSnapshot)>,
    snapshot: SyncbackSnapshot<'sync>,
    by: InstanceSnapshot,
)
    ensures
        ({
            let after = replaced(replacements, snapshot, by);
            let there = snapshot.old matches Some(old)
                && snapshot.data.old_tree@.instances.contains_key(old);
            &&& there ==> after == replacements.push(
                (snapshot.data.old_tree@.instances[snapshot.old->0].parent, by),
            )
            &&& !there ==> after == replacements
        }),
{
}

/// Further changes to a file system come on top of others: all that either adds or
/// removes is added or removed, and of a file that both add the later contents
/// count.
pub proof fn lemma_changes_are_merged(first: FsView, second: FsView, path: Seq<char>)
    ensures
        ({
            let both = merged(first, second);
            &&& both.added_files.contains_key(path) <==> first.added_files.contains_key(path)
                || second.added_files.contains_key(path)
            &&& second.added_files.contains_key(path) ==> both.added_files[path]
                == second.added_files[path]
            &&& first.added_files.contains_key(path) && !second.added_files.contains_key(path)
                ==> both.added_files[path] == first.added_files[path]
            &&& both.added_dirs.contains(path) <==> first.added_dirs.contains(path)
                || second.added_dirs.contains(path)
            &&& both.removed_files.contains(path) <==> first.removed_files.contains(path)
                || second.removed_files.contains(path)
            &&& both.removed_dirs.contains(path) <==> first.removed_dirs.contains(path)
                || second.removed_dirs.contains(path)
        }),
{
}

/// No changes add and remove nothing.
pub proof fn lemma_no_changes(path: Seq<char>)
    ensures
        !no_fs_changes().added_files.contains_key(path),
        !no_fs_changes().added_dirs.contains(path),
        !no_fs_changes().removed_files.contains(path),
        !no_fs_changes().removed_dirs.contains(path),
{
}

/// Whether a class keeps a property outside of its properties: a script its
/// `Source`, a localization table its `Contents`, a string value its `Value`.
pub open spec fn is_kept_apart(class: Seq<char>, name: Seq<char>) -> bool {
    ||| name == "Source"@ && (class == "Script"@ || class == "LocalScript"@ || class
        == "ModuleScript"@)
    ||| name == "Contents"@ && class == "LocalizationTable"@
    ||| name == "Value"@ && class == "StringValue"@
}

/// Whether the project ignores a property for a class or one of the classes above
/// it.
pub open spec fn is_ignored_for(
    rules: Option<RulesView>,
    class: Seq<char>,
    name: Seq<char>,
) -> bool {
    rules matches Some(rules) && exists|above: Seq<char>| #[trigger]
        ancestry(class, usize::MAX as nat).contains(above)
            && rules.ignore_properties.contains_key(above)
            && rules.ignore_properties[above].contains(name)
}

/// Exactly those properties of an instance are synced back, each with its value
/// whatever that is, that are not kept apart, that the project does not ignore,
/// that scripts can access or the project asks for, and that the old instance has
/// or that are not at a default of their own class.
pub proof fn lemma_wanted_properties_are_kept(
    properties: Map<Seq<char>, PropertyView>,
    rules: Option<RulesView>,
    class: Seq<char>,
    old: Option<TreeInstanceView>,
    name: Seq<char>,
)
    ensures
        ({
            let kept = filtered_properties(properties, rules, class, old);
            let out_of_reach = superclass_of(class) is Some && scriptability_of(class, name)
                == Some(Scriptability::Inaccessible);
            let asked_for = rules matches Some(rules) && rules.sync_unscriptable == Some(true);
            let in_old = old matches Some(old) && old.properties.contains_key(name);
            let at_default = superclass_of(class) is Some && own_default(class, name)
                && properties[name].at_default;
            &&& kept.contains_key(name) <==> {
                &&& properties.contains_key(name)
                &&& !is_kept_apart(class, name)
                &&& !is_ignored_for(rules, class, name)
                &&& asked_for || !out_of_reach
                &&& in_old || !at_default
            }
            &&& kept.contains_key(name) ==> kept[name] == properties[name].value
        }),
{
    lemma_ignored_names(rules, class, name);
    reveal_strlit("Script");
    reveal_strlit("LocalScript");
    reveal_strlit("ModuleScript");
    reveal_strlit("LocalizationTable");
    reveal_strlit("StringValue");
    reveal_strlit("Source");
    reveal_strlit("Contents");
    reveal_strlit("Value");
    assert("Script"@.len() == 6 && "LocalScript"@.len() == 11 && "ModuleScript"@.len() == 12);
    assert("LocalizationTable"@.len() == 17);
    assert("StringValue"@.len() == 11 && "StringValue"@[0] == 'S' && "LocalScript"@[0] == 'L');
}

proof fn lemma_ignored_names(rules: Option<RulesView>, class: Seq<char>, name: Seq<char>)
    ensures
        (ignored_names(rules, class) matches Some(names) && names.contains(name))
            <==> is_ignored_for(rules, class, name),
{
    let classes = ancestry(class, usize::MAX as nat);
    if let Some(rules) = rules {
        if ignored_in(rules, classes, name) {
            let i = choose|i: int|
                0 <= i < classes.len() && rules.ignore_properties.contains_key(
                    #[trigger] classes[i],
                ) && rules.ignore_properties[classes[i]].contains(name);
            assert(classes.contains(classes[i]));
        }
        if is_ignored_for(Some(rules), class, name) {
            let above = choose|above: Seq<char>| #[trigger]
                classes.contains(above) && rules.ignore_properties.contains_key(above)
                    && rules.ignore_properties[above].contains(name);
            let i = classes.index_of(above);
            assert(classes[i] == above);
        }
    }
}

/// Whether a property is kept does not depend on its value, but on whether that is
/// at its default.
pub proof fn lemma_properties_are_kept_whatever_they_hold(
    property: PropertyView,
    facts: PropertyFacts,
    sync_unscriptable: bool,
)
    ensures
        property_kept(property, facts, sync_unscriptable) <==> {
            &&& !facts.elsewhere
            &&& !facts.ignored
            &&& !facts.inaccessible || sync_unscriptable
            &&& facts.in_old || !facts.defaulted || !property.at_default
        },
{
}

/// A path is refused where it is in a `.git` folder or a pattern of the project
/// that means the same on every machine matches it, and is allowed where all
/// patterns do and none matches.
pub proof fn lemma_paths_are_refused_by_patterns(
    rules: Option<RulesView>,
    local: Seq<char>,
    yes: bool,
)
    requires
        globs_may_allow(rules, local, yes),
        !local.contains('\\'),
    ensures
        glob_compiles(".git/**"@) && glob_match(".git/**"@, local) ==> !yes,
        rules matches Some(rules) ==> forall|i: int|
            0 <= i < rules.ignore_paths.len() && means_the_same(#[trigger] rules.ignore_paths[i])
                && glob_compiles(rules.ignore_paths[i]) && glob_match(rules.ignore_paths[i], local)
                ==> !yes,
        !(glob_compiles(".git/**"@) && glob_match(".git/**"@, local)) && (
        rules matches Some(rules) ==> forall|i: int|
            0 <= i < rules.ignore_paths.len() ==> means_the_same(#[trigger] rules.ignore_paths[i])
                && !(glob_compiles(rules.ignore_paths[i]) && glob_match(
                rules.ignore_paths[i],
                local,
            ))) ==> yes,
{
    reveal_strlit(".git/**");
    assert(means_the_same(".git/**"@));
}

/// Whether a pattern is short and holds no backslash.
pub open spec fn means_the_same(pattern: Seq<char>) -> bool {
    pattern.len() <= 4096 && !pattern.contains('\\')
}

/// A path below an absolute base is judged by what stands behind the base and a
/// slash, and a relative path by the whole of it.
pub proof fn lemma_paths_are_judged_locally(
    rules: Option<RulesView>,
    base: Seq<char>,
    rest: Seq<char>,
    yes: bool,
)
    requires
        base.len() > 1,
        base[0] == '/',
        base[base.len() - 1] != '/',
        portable(base),
        portable(rest),
        is_trimmed(rest),
    ensures
        may_allow(rules, base, base + seq!['/'] + rest, yes) ==> globs_may_allow(rules, rest, yes),
        may_allow(rules, base, rest, yes) ==> globs_may_allow(rules, rest, yes),
{
    lemma_joined_lies_below(base, rest);
    assert(joined(base, rest) =~= base + seq!['/'] + rest);
}

/// A model file is written in the readable format exactly if the environment asks for it.
pub proof fn lemma_model_format_is_asked_for(debug: Option<Seq<char>>)
    ensures
        debug == Some("1"@) ==> model_format(debug) == Middleware::Rbxmx,
        debug != Some("1"@) ==> model_format(debug) == Middleware::Rbxm,
{
}

/// A syncback can go on as long as the instances that are still to be synced back are in
/// the new tree.
pub proof fn lemma_syncback_is_ready<'sync>(state: SyncbackLoop<'sync>)
    ensures
        state.ready() <==> forall|i: int|
            0 <= i < state.snapshots@.len() ==> (
            #[trigger] state.snapshots@[i]).data.new_tree@.contains_key(state.snapshots@[i].new),
{
}

/// Where only the snapshots differ, all else of a syncback is the same.
pub proof fn lemma_only_snapshots_differ<'sync>(a: SyncbackLoop<'sync>, b: SyncbackLoop<'sync>)
    ensures
        a.same_but_snapshots(b) <==> a == (SyncbackLoop { snapshots: a.snapshots, ..b }),
{
}

/// A path is judged by a piece of it, and one below a base by what stands behind the
/// base.
pub proof fn lemma_paths_are_judged_by_pieces(
    rules: Option<RulesView>,
    base: Seq<char>,
    path: Seq<char>,
    yes: bool,
)
    requires
        may_allow(rules, base, path, yes),
    ensures
        exists|local: Seq<char>| #[trigger]
            globs_may_allow(rules, local, yes) && exists|i: int, j: int|
                0 <= i <= j <= path.len() && local == #[trigger] path.subrange(i, j),
        forall|rest: Seq<char>|
            portable(base) && portable(path) && is_trimmed(rest) && path == #[trigger] joined(
                base,
                rest,
            ) && (is_absolute(base) ==> is_absolute(path)) ==> globs_may_allow(rules, rest, yes),
{
    let rest = choose|rest: Option<Seq<char>>| #[trigger]
        may_be_left(path, base, rest) && globs_may_allow(rules, rest_or_path(rest, path), yes);
    let local = rest_or_path(rest, path);
    assert(path.subrange(0, path.len() as int) =~= path);
    assert(globs_may_allow(rules, local, yes));
    assert forall|rest: Seq<char>|
        portable(base) && portable(path) && is_trimmed(rest) && path == #[trigger] joined(
            base,
            rest,
        ) && (is_absolute(base) ==> is_absolute(path)) implies globs_may_allow(
        rules,
        rest,
        yes,
    ) by {
        lemma_joined_lies_below(base, rest);
    }
}

/// The path of the new instance of a snapshot is the name of the root, or the path of its
/// parent, a slash and its name. It depends on nothing else of the snapshot.
pub proof fn lemma_paths_of_new_instances<'sync>(
    snapshot: SyncbackSnapshot<'sync>,
    above: SyncbackSnapshot<'sync>,
)
    requires
        ({
            let dom = *snapshot.data.new_tree;
            &&& is_tree(dom@, dom.root(), dom.depths())
            &&& dom@.dom() == dom.depths().dom()
            &&& dom@.contains_key(snapshot.new)
        }),
        above.data.new_tree == snapshot.data.new_tree,
    ensures
        ({
            let dom = *snapshot.data.new_tree;
            let node = dom@[snapshot.new];
            &&& snapshot.new == dom.root() ==> new_path(snapshot) == node.name
            &&& snapshot.new != dom.root() && node.parent == above.new ==> new_path(snapshot)
                == new_path(above) + seq!['/'] + node.name
            &&& above.new == snapshot.new ==> new_path(above) == new_path(snapshot)
        }),
{
    let dom = *snapshot.data.new_tree;
    lemma_path_of_root(dom, snapshot.new);
    if snapshot.new != dom.root() {
        lemma_path_of_child(dom, snapshot.new);
    }
}

/// An instance of a tree is under another exactly if it is that one, or is not the root
/// and its parent is under it.
pub proof fn lemma_instances_are_under_their_parents(
    nodes: Map<u128, NodeView>,
    root: u128,
    depth: Map<u128, usize>,
    id: u128,
    top: u128,
)
    requires
        is_tree(nodes, root, depth),
        depth.contains_key(id),
        depth.contains_key(top),
    ensures
        is_under(nodes, depth, id, top) <==> id == top || (id != root && is_under(
            nodes,
            depth,
            nodes[id].parent,
            top,
        )),
{
}

} // verus!
