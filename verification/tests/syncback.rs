use std::collections::HashMap;

use memofs::{InMemoryFs, Vfs};
use rbx_dom_weak::types::Ref;
use rbx_dom_weak::{InstanceBuilder, WeakDom};
use rojo_sync::dom::{Dom, Instance};
use rojo_sync::fs_snapshot::FsSnapshot;
use rojo_sync::glob::Glob;
use rojo_sync::instance::{InstanceMetadata, InstanceSnapshot};
use rojo_sync::middleware::Middleware;
use rojo_sync::name_map::NameMap;
use rojo_sync::syncback::{
    find_current_camera, get_best_middleware, leaves_camera_out, remove_current_camera,
    syncback_loop, Action, Event, SyncbackReturn,
};
use rojo_sync::syncback_snapshot::{
    filter_out_property, keeps_property, PropertyFacts, SyncbackData, SyncbackRules,
    SyncbackSnapshot,
};
use rojo_sync::tree::RojoTree;
use rojo_sync::variant::{Property, Variant};

fn number(referent: Ref) -> u128 {
    u128::from_str_radix(&referent.to_string(), 16).unwrap()
}

fn rules() -> SyncbackRules {
    SyncbackRules {
        ignore_trees: Vec::new(),
        ignore_paths: Vec::new(),
        ignore_properties: NameMap::new(),
        sync_current_camera: None,
        sync_unscriptable: None,
    }
}

fn held(entries: Vec<(&str, Variant, bool)>) -> NameMap<Property> {
    let mut map = NameMap::new();
    for (name, value, at_default) in entries {
        map.insert(name.to_owned(), Property { value, at_default });
    }
    map
}

fn instance<'a>(class: &str, children: Vec<u128>, none: &'a NameMap<Property>) -> Instance<'a> {
    Instance {
        referent: 1,
        parent: 0,
        name: "x".to_owned(),
        class: class.to_owned(),
        children,
        properties: none,
    }
}

#[test]
fn best_middleware_of_each_class() {
    let none = NameMap::new();
    let cases = [
        ("Sound", Middleware::JsonModel, Middleware::Dir),
        ("SoundGroup", Middleware::JsonModel, Middleware::Dir),
        ("Sky", Middleware::JsonModel, Middleware::Dir),
        ("Atmosphere", Middleware::JsonModel, Middleware::Dir),
        ("BloomEffect", Middleware::JsonModel, Middleware::Dir),
        ("BlurEffect", Middleware::JsonModel, Middleware::Dir),
        ("ColorCorrectionEffect", Middleware::JsonModel, Middleware::Dir),
        ("DepthOfFieldEffect", Middleware::JsonModel, Middleware::Dir),
        ("SunRaysEffect", Middleware::JsonModel, Middleware::Dir),
        ("ParticleEmitter", Middleware::JsonModel, Middleware::Dir),
        ("Folder", Middleware::Dir, Middleware::Dir),
        ("Configuration", Middleware::Dir, Middleware::Dir),
        ("Tool", Middleware::Dir, Middleware::Dir),
        ("StringValue", Middleware::Text, Middleware::Dir),
        ("Script", Middleware::ServerScript, Middleware::ServerScriptDir),
        ("LocalScript", Middleware::ClientScript, Middleware::ClientScriptDir),
        ("ModuleScript", Middleware::ModuleScript, Middleware::ModuleScriptDir),
        ("LocalizationTable", Middleware::Csv, Middleware::CsvDir),
        ("Part", Middleware::Rbxm, Middleware::Rbxm),
    ];
    for (class, alone, parent) in cases {
        assert_eq!(get_best_middleware(&instance(class, vec![], &none), None), alone);
        assert_eq!(get_best_middleware(&instance(class, vec![2], &none), None), parent);
    }
    let part = instance("Part", vec![], &none);
    assert_eq!(get_best_middleware(&part, Some("1")), Middleware::Rbxmx);
    assert_eq!(get_best_middleware(&part, Some("yes")), Middleware::Rbxm);
}

#[test]
fn some_properties_are_kept_elsewhere() {
    let none = NameMap::new();
    let out = |class, name| filter_out_property(&instance(class, vec![], &none), name);
    for class in ["Script", "LocalScript", "ModuleScript"] {
        assert!(out(class, "Source"));
        assert!(!out(class, "Value"));
    }
    assert!(out("LocalizationTable", "Contents"));
    assert!(out("StringValue", "Value"));
    assert!(!out("IntValue", "Value"));
}

#[test]
fn facts_decide_whether_a_property_is_kept() {
    let facts = || PropertyFacts {
        elsewhere: false,
        ignored: false,
        inaccessible: false,
        in_old: false,
        defaulted: false,
    };
    let plain = Property { value: Variant::Opaque(1), at_default: true };
    assert!(keeps_property(&plain, &facts(), false));
    assert!(!keeps_property(&plain, &PropertyFacts { defaulted: true, ..facts() }, false));
    let both = PropertyFacts { defaulted: true, in_old: true, ..facts() };
    assert!(keeps_property(&plain, &both, false));
    assert!(!keeps_property(&plain, &PropertyFacts { elsewhere: true, ..facts() }, false));
    assert!(!keeps_property(&plain, &PropertyFacts { ignored: true, ..facts() }, false));
    let inaccessible = PropertyFacts { inaccessible: true, ..facts() };
    assert!(!keeps_property(&plain, &inaccessible, false));
    assert!(keeps_property(&plain, &inaccessible, true));
    // Values of every type are kept.
    let reference = Property { value: Variant::Ref(1), at_default: false };
    assert!(keeps_property(&reference, &facts(), false));
    let shared = Property { value: Variant::SharedString(1), at_default: false };
    assert!(keeps_property(&shared, &facts(), false));
}

/// A new tree with a part below the root, and an old tree that holds its twin.
struct Trees {
    vfs: Vfs,
    old: RojoTree,
    old_part: u128,
    new: Dom,
    new_part: u128,
}

fn trees(old: NameMap<Property>, new: NameMap<Property>) -> Trees {
    let old_part = InstanceBuilder::new("Part").with_name("part");
    let old_id = number(old_part.referent());
    let new_part = InstanceBuilder::new("Part").with_name("part");
    let new_id = number(new_part.referent());
    let root = || InstanceBuilder::new("Folder").with_name("game");
    let mut old_values = HashMap::new();
    old_values.insert(old_id, old);
    let mut new_values = HashMap::new();
    new_values.insert(new_id, new);
    let old_dom = Dom::new(WeakDom::new(root().with_child(old_part)), old_values).unwrap();
    let mut metadata = InstanceMetadata::new();
    metadata.instigating_source = Some("/project/part.rbxm".to_owned());
    let mut all_metadata = HashMap::new();
    all_metadata.insert(old_id, metadata);
    Trees {
        vfs: Vfs::new(InMemoryFs::new()),
        old: RojoTree::new(old_dom, all_metadata, NameMap::new()),
        old_part: old_id,
        new: Dom::new(WeakDom::new(root().with_child(new_part)), new_values).unwrap(),
        new_part: new_id,
    }
}

fn data<'a>(trees: &'a Trees, rules: Option<&'a SyncbackRules>) -> SyncbackData<'a> {
    SyncbackData {
        vfs: &trees.vfs,
        old_tree: &trees.old,
        new_tree: &trees.new,
        syncback_rules: rules,
    }
}

fn part<'a>(trees: &'a Trees, rules: Option<&'a SyncbackRules>) -> SyncbackSnapshot<'a> {
    SyncbackSnapshot {
        data: data(trees, rules),
        old: Some(trees.old_part),
        new: trees.new_part,
        parent_path: "/project".to_owned(),
        name: "part".to_owned(),
        middleware: None,
    }
}

fn names(map: &NameMap<&Variant>) -> Vec<String> {
    let mut names: Vec<String> = (0..map.len()).map(|i| map.name_at(i).clone()).collect();
    names.sort();
    names
}

#[test]
fn properties_are_filtered() {
    let old = held(vec![("Reflectance", Variant::Opaque(0), true)]);
    let new = held(vec![
        ("Transparency", Variant::Opaque(1), true),
        ("Reflectance", Variant::Opaque(2), true),
        ("CastShadow", Variant::Bool(false), false),
        ("Massless", Variant::Bool(true), false),
        ("Unknown", Variant::Opaque(3), true),
        ("Link", Variant::Ref(1), false),
        ("Shared", Variant::SharedString(1), false),
    ]);
    let trees = trees(old, new);
    let without = part(&trees, None);
    assert_eq!(
        names(&without.new_filtered_properties()),
        ["CastShadow", "Link", "Massless", "Reflectance", "Shared", "Unknown"]
    );
    let fresh = without.get_filtered_properties(trees.new_part, None).unwrap();
    assert_eq!(names(&fresh), ["CastShadow", "Link", "Massless", "Shared", "Unknown"]);
    assert!(without.get_filtered_properties(7, None).is_none());
    assert!(without.get_filtered_properties(trees.new_part, Some(7)).is_none());

    // Properties are ignored for a class and for its superclasses.
    let mut ignoring = rules();
    ignoring.ignore_properties.insert("Part".to_owned(), vec!["CastShadow".to_owned()]);
    ignoring.ignore_properties.insert("BasePart".to_owned(), vec!["Massless".to_owned()]);
    ignoring.ignore_properties.insert("Model".to_owned(), vec!["Unknown".to_owned()]);
    let with = part(&trees, Some(&ignoring));
    assert_eq!(
        names(&with.new_filtered_properties()),
        ["Link", "Reflectance", "Shared", "Unknown"]
    );
    // The class is that of the instance, not of the one the snapshot is for.
    let mut above = part(&trees, Some(&ignoring));
    above.new = trees.new.root_ref();
    let below = above.get_filtered_properties(trees.new_part, Some(trees.old_part)).unwrap();
    assert_eq!(names(&below), ["Link", "Reflectance", "Shared", "Unknown"]);
}

#[test]
fn properties_are_ignored_for_unknown_classes() {
    let root = InstanceBuilder::new("NotARealClass").with_name("game");
    let root_id = number(root.referent());
    let mut values = HashMap::new();
    values.insert(
        root_id,
        held(vec![("P", Variant::Opaque(1), false), ("Q", Variant::Opaque(2), false)]),
    );
    let mut trees = trees(NameMap::new(), NameMap::new());
    trees.new = Dom::new(WeakDom::new(root), values).unwrap();
    trees.new_part = root_id;
    let mut ignoring = rules();
    ignoring.ignore_properties.insert("NotARealClass".to_owned(), vec!["P".to_owned()]);
    let snapshot = part(&trees, Some(&ignoring));
    let kept = snapshot.get_filtered_properties(root_id, None).unwrap();
    assert_eq!(names(&kept), ["Q"]);
}

#[test]
fn unscriptable_properties_are_synced_on_request() {
    let database = rbx_reflection_database::get();
    let class = &database.classes["Instance"];
    let name = class
        .properties
        .values()
        .find(|property| matches!(property.scriptability, rbx_reflection::Scriptability::None))
        .map(|property| property.name.to_string())
        .unwrap();
    let root = InstanceBuilder::new("Instance").with_name("game");
    let root_id = number(root.referent());
    let mut values = HashMap::new();
    values.insert(root_id, held(vec![(name.as_str(), Variant::Opaque(1), false)]));
    let mut trees = trees(NameMap::new(), NameMap::new());
    trees.new = Dom::new(WeakDom::new(root), values).unwrap();
    trees.new_part = root_id;

    let mut unscriptable = rules();
    let mut count = |wanted| {
        unscriptable.sync_unscriptable = wanted;
        let snapshot = part(&trees, Some(&unscriptable));
        snapshot.get_filtered_properties(root_id, None).unwrap().len()
    };
    assert_eq!(count(None), 0);
    assert_eq!(count(Some(false)), 0);
    assert_eq!(count(Some(true)), 1);
}

#[test]
fn ignored_paths_are_invalid() {
    let trees = trees(NameMap::new(), NameMap::new());
    let mut ignoring = rules();
    ignoring.ignore_paths.push(Glob::new("secret/**"));
    ignoring.ignore_paths.push(Glob::new("*.rbxm"));
    let with = part(&trees, Some(&ignoring));
    assert!(!with.is_valid_path("/project", "/project/.git/config"));
    assert!(!with.is_valid_path("/project", ".git/config"));
    assert!(!with.is_valid_path("/project", "/project/secret/a.lua"));
    assert!(with.is_valid_path("/project", "/elsewhere/secret/a.lua"));
    assert!(with.is_valid_path("/project", "/project/src/a.lua"));
    // A path below the base gets the same answer as the path relative to it.
    for local in [".git/config", "secret/a.lua", "src/a.lua", "a:b.lua", "x.rbxm"] {
        let whole = format!("/project/{local}");
        assert_eq!(with.is_valid_path("/project", &whole), with.is_valid_path("/project", local));
        assert_eq!(with.is_valid_local_path(local), with.is_valid_path("/project", local));
    }
    let without = part(&trees, None);
    assert!(!without.is_valid_path("/project", "/project/.git/config"));
    assert!(without.is_valid_path("/project", "/project/secret/a.lua"));
}

#[test]
fn patterns_with_backslashes_leave_the_others_as_they_are() {
    let trees = trees(NameMap::new(), NameMap::new());
    let mut ignoring = rules();
    ignoring.ignore_paths.push(Glob::new("\\*.md"));
    ignoring.ignore_paths.push(Glob::new("secret/**"));
    let with = part(&trees, Some(&ignoring));
    assert!(!with.is_valid_path("/project", "/project/.git/config"));
    assert!(!with.is_valid_path("/project", "/project/secret/a.lua"));
    assert!(!with.is_valid_local_path(".git/config"));
    assert!(!with.is_valid_local_path("secret/a.lua"));
    assert!(with.is_valid_local_path("src/a.lua"));
    let mut state = syncback_loop(
        data(&trees, Some(&ignoring)),
        "/project",
        "game",
        hashes(vec![(trees.old.get_root_id(), 1)]),
        hashes(vec![(trees.new.root_ref(), 2)]),
    );
    let visit = match state.step(Event::Begun, None) {
        Action::Name(visit) => visit,
        _ => panic!("the root must be written"),
    };
    match state.step(Event::Named(visit, "secret/a.lua".to_owned()), None) {
        Action::Finish => {}
        _ => panic!("an ignored path must not be written"),
    }
}

#[test]
fn snapshots_inherit_what_they_share() {
    let trees = trees(NameMap::new(), NameMap::new());
    let mut some = rules();
    some.ignore_trees.push("game/x".to_owned());
    let parent = part(&trees, Some(&some));
    let child = parent.with_parent("kid".to_owned(), 5, None);
    assert_eq!(child.parent_path, "/project/part");
    assert_eq!(child.name, "kid");
    assert_eq!(child.new, 5);
    assert_eq!(child.old, None);
    assert!(child.middleware.is_none());
    let moved = parent.with_new_parent("/other".to_owned(), "kid".to_owned(), 6, Some(7));
    assert_eq!(moved.parent_path, "/other");
    assert_eq!(moved.old, Some(7));
    let forced = moved.middleware(Middleware::Csv);
    assert_eq!(forced.middleware, Some(Middleware::Csv));
    assert_eq!(forced.new, 6);
    assert_eq!(parent.ignore_tree().unwrap().len(), 1);
    assert_eq!(parent.ignore_paths().unwrap().len(), 0);
    assert_eq!(parent.ignore_props().unwrap().len(), 0);
    assert!(part(&trees, None).ignore_tree().is_none());
    assert!(!parent.sync_unscriptable());
    assert_eq!(parent.get_new_inst_path(trees.new_part), "game/part");
    assert_eq!(parent.old_inst().unwrap().name, "part");
    assert_eq!(parent.new_inst().class, "Part");
    assert_eq!(parent.new_tree().root_ref(), trees.new.root_ref());
    assert!(parent.vfs().exists("/nothing").map(|exists| !exists).unwrap_or(true));
}

fn camera_tree() -> (Dom, u128) {
    let camera = InstanceBuilder::new("Camera").with_name("Camera");
    let camera_id = number(camera.referent());
    let workspace = InstanceBuilder::new("Workspace").with_name("Workspace").with_child(camera);
    let workspace_id = number(workspace.referent());
    let mut values = HashMap::new();
    values.insert(workspace_id, held(vec![("CurrentCamera", Variant::Ref(camera_id), false)]));
    let root = InstanceBuilder::new("DataModel").with_name("game").with_child(workspace);
    (Dom::new(WeakDom::new(root), values).unwrap(), camera_id)
}

#[test]
fn the_current_camera_is_left_out_by_default() {
    let gone = |rules: Option<SyncbackRules>| {
        let (dom, camera) = camera_tree();
        remove_current_camera(dom, rules.as_ref()).get_by_ref(camera).is_none()
    };
    assert!(!gone(None));
    assert!(gone(Some(rules())));
    assert!(gone(Some(SyncbackRules { sync_current_camera: Some(false), ..rules() })));
    assert!(!gone(Some(SyncbackRules { sync_current_camera: Some(true), ..rules() })));
}

fn written<'a>(fs_snapshot: FsSnapshot, children: Vec<SyncbackSnapshot<'a>>) -> SyncbackReturn<'a> {
    SyncbackReturn {
        inst_snapshot: InstanceSnapshot {
            snapshot_id: 0,
            metadata: InstanceMetadata::new(),
            name: "x".to_owned(),
            class_name: "x".to_owned(),
            properties: NameMap::new(),
            children: Vec::new(),
        },
        fs_snapshot,
        children,
        removed_children: Vec::new(),
    }
}

fn hashes(entries: Vec<(u128, u8)>) -> HashMap<u128, Vec<u8>> {
    entries.into_iter().map(|(id, hash)| (id, vec![hash])).collect()
}

#[test]
fn a_syncback_goes_from_the_root_down() {
    let trees = trees(NameMap::new(), NameMap::new());
    let (old_root, new_root) = (trees.old.get_root_id(), trees.new.root_ref());
    let mut state = syncback_loop(
        data(&trees, None),
        "/project",
        "game",
        hashes(vec![(old_root, 1), (trees.old_part, 2)]),
        hashes(vec![(new_root, 3), (trees.new_part, 4)]),
    );
    let visit = match state.step(Event::Begun, None) {
        Action::Name(visit) => visit,
        _ => panic!("the root must be written"),
    };
    assert_eq!(visit.middleware, Middleware::Dir);
    assert_eq!(visit.inst_path, "game");
    let task = match state.step(Event::Named(visit, "game".to_owned()), None) {
        Action::Write(task) => task,
        _ => panic!("the root must be written"),
    };
    assert_eq!(task.path, "/project/game");
    assert_eq!(task.file_name, "game");

    let child = task.visit.snapshot.with_parent("part".to_owned(), trees.new_part, None);
    let mut done = written(
        FsSnapshot::new().with_added_file("/project/game/a".to_owned(), vec![1]),
        vec![child],
    );
    done.removed_children.push(trees.old.get_instance(trees.old_part).unwrap());
    let visit = match state.step(Event::Written(task, done, vec![false]), None) {
        Action::Name(visit) => visit,
        _ => panic!("the part must be written"),
    };
    assert_eq!(visit.inst_path, "game/part");
    assert_eq!(visit.middleware, Middleware::Rbxm);
    assert_eq!(visit.snapshot.parent_path, "/project/game");
    assert_eq!(state.replacements.len(), 1);
    assert_eq!(state.fs_snapshot.removed_files, vec!["/project/part.rbxm".to_owned()]);
    assert!(state.fs_snapshot.removed_dirs.is_empty());
    assert_eq!(state.fs_snapshot.added_files.get("/project/game/a"), Some(&vec![1]));

    let task = match state.step(Event::Named(visit, "part.rbxm".to_owned()), None) {
        Action::Write(task) => task,
        _ => panic!("the part must be written"),
    };
    let done = written(FsSnapshot::new(), Vec::new());
    assert!(matches!(
        state.step(Event::Written(task, done, Vec::new()), None),
        Action::Finish
    ));
    assert_eq!(state.replacements.len(), 1);
}

#[test]
fn unchanged_trees_are_skipped() {
    let trees = trees(NameMap::new(), NameMap::new());
    let (old_root, new_root) = (trees.old.get_root_id(), trees.new.root_ref());
    let mut state = syncback_loop(
        data(&trees, None),
        "/project",
        "game",
        hashes(vec![(old_root, 1)]),
        hashes(vec![(new_root, 1)]),
    );
    assert!(matches!(state.step(Event::Begun, None), Action::Finish));
}

fn first_step(
    trees: &Trees,
    rules: Option<&SyncbackRules>,
    forced: Option<Middleware>,
) -> Option<Middleware> {
    let mut state = syncback_loop(
        data(trees, rules),
        "/project",
        "game",
        hashes(vec![(trees.old.get_root_id(), 1)]),
        hashes(vec![(trees.new.root_ref(), 2)]),
    );
    state.snapshots[0].middleware = forced;
    match state.step(Event::Begun, None) {
        Action::Name(visit) => Some(visit.middleware),
        Action::Finish => None,
        _ => panic!("nothing was written"),
    }
}

#[test]
fn ignored_and_unsupported_instances_are_skipped() {
    let trees = trees(NameMap::new(), NameMap::new());
    assert_eq!(first_step(&trees, None, None), Some(Middleware::Dir));
    assert_eq!(first_step(&trees, None, Some(Middleware::Csv)), Some(Middleware::Csv));
    assert_eq!(first_step(&trees, None, Some(Middleware::Json)), None);
    assert_eq!(first_step(&trees, None, Some(Middleware::Toml)), None);
    let mut ignoring = rules();
    ignoring.ignore_trees.push("game".to_owned());
    assert_eq!(first_step(&trees, Some(&ignoring), None), None);
    // The text of a path may start like that of an ignored one.
    let mut similar = rules();
    similar.ignore_trees.push("ga".to_owned());
    assert_eq!(first_step(&trees, Some(&similar), None), Some(Middleware::Dir));
}

#[test]
fn failed_directories_are_tried_as_models() {
    let trees = trees(NameMap::new(), NameMap::new());
    let mut ignoring = rules();
    ignoring.ignore_paths.push(Glob::new("game.rbxmx"));
    let mut state = syncback_loop(
        data(&trees, Some(&ignoring)),
        "/project",
        "game",
        hashes(vec![(trees.old.get_root_id(), 1)]),
        hashes(vec![(trees.new.root_ref(), 2)]),
    );
    let visit = match state.step(Event::Begun, None) {
        Action::Name(visit) => visit,
        _ => panic!("the root must be written"),
    };
    let task = match state.step(Event::Named(visit, "game".to_owned()), None) {
        Action::Write(task) => task,
        _ => panic!("the root must be written"),
    };
    let visit = match state.step(Event::Failed(task), Some("1")) {
        Action::Name(visit) => visit,
        _ => panic!("the root must be tried again"),
    };
    assert_eq!(visit.middleware, Middleware::Rbxmx);
    let task = match state.step(Event::Named(visit, "other.rbxmx".to_owned()), None) {
        Action::Write(task) => task,
        _ => panic!("the root must be written"),
    };
    match state.step(Event::Failed(task), None) {
        Action::Abort(path) => assert_eq!(path, "game"),
        _ => panic!("a model file that cannot be written is an error"),
    }

    let mut state = syncback_loop(
        data(&trees, Some(&ignoring)),
        "/project",
        "game",
        hashes(vec![(trees.old.get_root_id(), 1)]),
        hashes(vec![(trees.new.root_ref(), 2)]),
    );
    let visit = match state.step(Event::Begun, None) {
        Action::Name(visit) => visit,
        _ => panic!("the root must be written"),
    };
    assert!(matches!(
        state.step(Event::Named(visit, "game.rbxmx".to_owned()), None),
        Action::Finish
    ));
}

#[test]
fn fs_snapshots_merge() {
    let mut first = FsSnapshot::new();
    first.add_file("a".to_owned(), vec![1]);
    first.add_file("b".to_owned(), vec![2]);
    first.remove_dir("old".to_owned());
    let mut second = FsSnapshot::new();
    second.add_file("b".to_owned(), vec![3]);
    second.remove_file("gone".to_owned());
    first.merge(second);
    assert_eq!(first.added_files.len(), 2);
    assert_eq!(first.added_files.get("a"), Some(&vec![1]));
    assert_eq!(first.added_files.get("b"), Some(&vec![3]));
    assert_eq!(first.removed_files, vec!["gone".to_owned()]);
    assert_eq!(first.removed_dirs, vec!["old".to_owned()]);
}

#[test]
fn ignored_trees_reach_down() {
    let trees = trees(NameMap::new(), NameMap::new());
    let mut ignoring = rules();
    ignoring.ignore_trees.push("game/part".to_owned());
    let mut state = syncback_loop(
        data(&trees, Some(&ignoring)),
        "/project",
        "game",
        hashes(vec![(trees.old.get_root_id(), 1)]),
        hashes(vec![(trees.new.root_ref(), 2)]),
    );
    let visit = match state.step(Event::Begun, None) {
        Action::Name(visit) => visit,
        _ => panic!("the root must be written"),
    };
    let task = match state.step(Event::Named(visit, "game".to_owned()), None) {
        Action::Write(task) => task,
        _ => panic!("the root must be written"),
    };
    let child = task.visit.snapshot.with_parent("part".to_owned(), trees.new_part, None);
    let done = written(FsSnapshot::new(), vec![child]);
    assert!(matches!(
        state.step(Event::Written(task, done, Vec::new()), None),
        Action::Finish
    ));
}

#[test]
fn the_current_camera_is_found() {
    let (dom, camera) = camera_tree();
    assert_eq!(find_current_camera(&dom), Some(camera));
    assert!(leaves_camera_out(Some(&rules())));
    assert!(!leaves_camera_out(None));
    let trees = trees(NameMap::new(), NameMap::new());
    assert_eq!(find_current_camera(&trees.new), None);
}

#[test]
fn siblings_of_ignored_trees_are_written() {
    let bar = InstanceBuilder::new("Folder").with_name("Bar");
    let bar_id = number(bar.referent());
    let foo = InstanceBuilder::new("Folder").with_name("Foo").with_child(bar);
    let foo_id = number(foo.referent());
    let foobar = InstanceBuilder::new("Folder").with_name("Foobar");
    let foobar_id = number(foobar.referent());
    let a = InstanceBuilder::new("Folder").with_name("A").with_children([foo, foobar]);
    let root = InstanceBuilder::new("Folder").with_name("ROOT").with_child(a);
    let mut trees = trees(NameMap::new(), NameMap::new());
    trees.new = Dom::new(WeakDom::new(root), HashMap::new()).unwrap();
    // A slash at the end of a listed path makes no difference.
    for listed in ["ROOT/A/Foo", "ROOT/A/Foo/"] {
        let mut ignoring = rules();
        ignoring.ignore_trees.push(listed.to_owned());
        let mut state = syncback_loop(
            data(&trees, Some(&ignoring)),
            "/project",
            "ROOT",
            HashMap::new(),
            hashes(vec![(trees.new.root_ref(), 2)]),
        );
        let base = state.snapshots.pop().unwrap();
        for id in [foobar_id, bar_id, foo_id] {
            state.snapshots.push(base.with_parent("x".to_owned(), id, None));
        }
        match state.step(Event::Begun, None) {
            Action::Name(visit) => assert_eq!(visit.inst_path, "ROOT/A/Foobar"),
            _ => panic!("the sibling must be written"),
        }
        assert!(state.snapshots.is_empty());
    }
}
