use std::collections::HashMap;

use rbx_dom_weak::types::Ref;
use rbx_dom_weak::{InstanceBuilder, WeakDom};
use rojo_sync::dom::Dom;
use rojo_sync::instance::{InstanceMetadata, InstanceSnapshot, PatchAdd, PatchSet, PatchUpdate};
use rojo_sync::middleware::Middleware;
use rojo_sync::name_map::NameMap;
use rojo_sync::patch_compute::compute_patch_set;
use rojo_sync::tree::RojoTree;
use rojo_sync::variant::{AttributeValue, Property, Variant};

fn number(referent: Ref) -> u128 {
    u128::from_str_radix(&referent.to_string(), 16).unwrap()
}

fn properties(entries: Vec<(&str, Variant)>) -> NameMap<Variant> {
    let mut map = NameMap::new();
    for (name, value) in entries {
        map.insert(name.to_owned(), value);
    }
    map
}

fn held(entries: Vec<(&str, Variant)>) -> NameMap<Property> {
    let mut map = NameMap::new();
    for (name, value) in entries {
        map.insert(name.to_owned(), Property { value, at_default: false });
    }
    map
}

fn changes(entries: Vec<(&str, Option<Variant>)>) -> NameMap<Option<Variant>> {
    let mut map = NameMap::new();
    for (name, value) in entries {
        map.insert(name.to_owned(), value);
    }
    map
}

fn snapshot(name: &str, class: &str) -> InstanceSnapshot {
    InstanceSnapshot {
        snapshot_id: 0,
        metadata: InstanceMetadata::new(),
        name: name.to_owned(),
        class_name: class.to_owned(),
        properties: NameMap::new(),
        children: Vec::new(),
    }
}

fn tree(builder: InstanceBuilder, values: HashMap<u128, NameMap<Property>>) -> RojoTree {
    let dom = Dom::new(WeakDom::new(builder), values).unwrap();
    RojoTree::new(dom, HashMap::new(), NameMap::new())
}

fn assert_patch(patch: &PatchSet, expected: &PatchSet) {
    assert_eq!(format!("{:?}", patch), format!("{:?}", expected));
}

fn no_update(id: u128) -> PatchUpdate {
    PatchUpdate {
        id,
        changed_name: None,
        changed_class_name: None,
        changed_properties: NameMap::new(),
        changed_metadata: None,
    }
}

#[test]
fn rewrite_ref_existing_instance_update() {
    let tree = tree(InstanceBuilder::new("foo").with_name("foo"), HashMap::new());
    let root_id = tree.get_root_id();

    // This snapshot should be identical to the existing tree except for the
    // addition of a prop named Self, which is a self-referential Ref.
    let snapshot_id = number(Ref::new());
    let snapshot = InstanceSnapshot {
        snapshot_id,
        properties: properties(vec![("Self", Variant::Ref(snapshot_id))]),
        metadata: InstanceMetadata::new(),
        name: "foo".to_owned(),
        class_name: "foo".to_owned(),
        children: Vec::new(),
    };

    let patch_set = compute_patch_set(Some(snapshot), &tree, root_id);

    let expected_patch_set = PatchSet {
        updated_instances: vec![PatchUpdate {
            id: root_id,
            changed_name: None,
            changed_class_name: None,
            changed_properties: changes(vec![("Self", Some(Variant::Ref(root_id)))]),
            changed_metadata: None,
        }],
        added_instances: Vec::new(),
        removed_instances: Vec::new(),
    };

    assert_patch(&patch_set, &expected_patch_set);
}

#[test]
fn rewrite_ref_existing_instance_addition() {
    let tree = tree(InstanceBuilder::new("foo").with_name("foo"), HashMap::new());
    let root_id = tree.get_root_id();

    // This patch describes the existing instance with a new child added.
    let snapshot_id = number(Ref::new());
    let snapshot = InstanceSnapshot {
        snapshot_id,
        children: vec![InstanceSnapshot {
            properties: properties(vec![("Self", Variant::Ref(snapshot_id))]),
            snapshot_id: 0,
            metadata: InstanceMetadata::new(),
            name: "child".to_owned(),
            class_name: "child".to_owned(),
            children: Vec::new(),
        }],
        metadata: InstanceMetadata::new(),
        properties: NameMap::new(),
        name: "foo".to_owned(),
        class_name: "foo".to_owned(),
    };

    let patch_set = compute_patch_set(Some(snapshot), &tree, root_id);

    let expected_patch_set = PatchSet {
        added_instances: vec![PatchAdd {
            parent_id: root_id,
            instance: InstanceSnapshot {
                snapshot_id: 0,
                metadata: InstanceMetadata::new(),
                properties: properties(vec![("Self", Variant::Ref(root_id))]),
                name: "child".to_owned(),
                class_name: "child".to_owned(),
                children: Vec::new(),
            },
        }],
        updated_instances: Vec::new(),
        removed_instances: Vec::new(),
    };

    assert_patch(&patch_set, &expected_patch_set);
}

#[test]
fn missing_snapshot_removes_all_but_the_root() {
    let child = InstanceBuilder::new("Folder").with_name("child");
    let child_id = number(child.referent());
    let tree = tree(InstanceBuilder::new("foo").with_child(child), HashMap::new());
    let root_id = tree.get_root_id();

    assert_patch(&compute_patch_set(None, &tree, root_id), &PatchSet::new());
    let patch = compute_patch_set(None, &tree, child_id);
    assert_eq!(patch.removed_instances, vec![child_id]);
    assert!(patch.added_instances.is_empty());
    assert!(patch.updated_instances.is_empty());
}

#[test]
fn snapshot_of_what_is_there_gives_an_empty_patch() {
    let first = InstanceBuilder::new("Folder").with_name("twin");
    let second = InstanceBuilder::new("Folder").with_name("twin");
    let second_id = number(second.referent());
    let root = InstanceBuilder::new("Folder").with_name("root").with_children([first, second]);
    let mut values = HashMap::new();
    values.insert(second_id, held(vec![("Flag", Variant::Bool(true))]));
    let tree = tree(root, values);

    let mut description = snapshot("root", "Folder");
    description.children.push(snapshot("twin", "Folder"));
    let mut twin = snapshot("twin", "Folder");
    twin.properties = properties(vec![("Flag", Variant::Bool(true))]);
    description.children.push(twin);

    let patch = compute_patch_set(Some(description), &tree, tree.get_root_id());
    assert_patch(&patch, &PatchSet::new());
}

#[test]
fn children_are_paired_by_name_and_class() {
    let kept = InstanceBuilder::new("Folder").with_name("a");
    let twin = InstanceBuilder::new("Folder").with_name("a");
    let other_class = InstanceBuilder::new("Model").with_name("b");
    let (twin_id, other_id) = (number(twin.referent()), number(other_class.referent()));
    let root =
        InstanceBuilder::new("Folder").with_name("root").with_children([kept, twin, other_class]);
    let tree = tree(root, HashMap::new());
    let root_id = tree.get_root_id();

    let mut description = snapshot("root", "Folder");
    description.children.push(snapshot("b", "Folder"));
    description.children.push(snapshot("a", "Folder"));

    let patch = compute_patch_set(Some(description), &tree, root_id);
    assert_eq!(patch.removed_instances, vec![twin_id, other_id]);
    assert!(patch.updated_instances.is_empty());
    assert_eq!(patch.added_instances.len(), 1);
    assert_eq!(patch.added_instances[0].parent_id, root_id);
    assert_eq!(patch.added_instances[0].instance.name, "b");
}

#[test]
fn changed_fields_are_reported() {
    let root = InstanceBuilder::new("Folder").with_name("root");
    let root_id = number(root.referent());
    let mut values = HashMap::new();
    values.insert(
        root_id,
        held(vec![
            ("Same", Variant::Opaque(1)),
            ("Changed", Variant::Opaque(2)),
            ("Gone", Variant::String("x".to_owned())),
        ]),
    );
    let tree = tree(root, values);

    let mut description = snapshot("new", "Configuration");
    description.metadata.middleware = Some(Middleware::Dir);
    description.properties = properties(vec![
        ("Same", Variant::Opaque(1)),
        ("Changed", Variant::Opaque(3)),
        ("Fresh", Variant::BinaryString(vec![7])),
    ]);

    let patch = compute_patch_set(Some(description), &tree, root_id);
    assert_eq!(patch.updated_instances.len(), 1);
    let update = &patch.updated_instances[0];
    assert_eq!(update.id, root_id);
    assert_eq!(update.changed_name, Some("new".to_owned()));
    assert_eq!(update.changed_class_name, Some("Configuration".to_owned()));
    assert_eq!(
        update.changed_metadata.as_ref().unwrap().middleware,
        Some(Middleware::Dir)
    );
    assert_eq!(update.changed_properties.len(), 3);
    assert!(!update.changed_properties.contains_key("Same"));
    assert!(matches!(
        update.changed_properties.get("Changed"),
        Some(Some(Variant::Opaque(3)))
    ));
    assert!(matches!(update.changed_properties.get("Gone"), Some(None)));
    assert!(matches!(
        update.changed_properties.get("Fresh"),
        Some(Some(Variant::BinaryString(_)))
    ));
}

fn migration_of(before: Option<Variant>, after: Option<Variant>) -> Option<Option<Variant>> {
    let root = InstanceBuilder::new("Model").with_name("m");
    let root_id = number(root.referent());
    let mut values = HashMap::new();
    if let Some(before) = before {
        values.insert(root_id, held(vec![("NeedsPivotMigration", before)]));
    }
    let tree = tree(root, values);
    let mut description = snapshot("m", "Model");
    if let Some(after) = after {
        description.properties = properties(vec![("NeedsPivotMigration", after)]);
    }
    let patch = compute_patch_set(Some(description), &tree, root_id);
    match patch.updated_instances.into_iter().next() {
        Some(update) => match update.changed_properties.get("NeedsPivotMigration") {
            Some(Some(Variant::Bool(flag))) => Some(Some(Variant::Bool(*flag))),
            Some(None) => Some(None),
            Some(_) => panic!("the property must be a boolean"),
            None => None,
        },
        None => None,
    }
}

#[test]
fn pivot_migration_is_looked_after() {
    // Not there: set to false, whatever the snapshot says.
    assert!(matches!(migration_of(None, None), Some(Some(Variant::Bool(false)))));
    assert!(matches!(
        migration_of(None, Some(Variant::Bool(true))),
        Some(Some(Variant::Bool(false)))
    ));
    // There and changed to a boolean: changed.
    assert!(matches!(
        migration_of(Some(Variant::Bool(false)), Some(Variant::Bool(true))),
        Some(Some(Variant::Bool(true)))
    ));
    // There and to be removed: left alone.
    assert!(migration_of(Some(Variant::Bool(true)), None).is_none());
    // There and unchanged, or changed to anything else: set to false.
    assert!(matches!(
        migration_of(Some(Variant::Bool(true)), Some(Variant::Bool(true))),
        Some(Some(Variant::Bool(false)))
    ));
    assert!(matches!(
        migration_of(Some(Variant::Bool(true)), Some(Variant::Opaque(4))),
        Some(Some(Variant::Bool(false)))
    ));
}

#[test]
fn attributes_point_properties_to_instances() {
    let target = InstanceBuilder::new("Part").with_name("target");
    let target_id = number(target.referent());
    let root = InstanceBuilder::new("Folder").with_name("root").with_child(target);
    let root_id = number(root.referent());
    let mut values = HashMap::new();
    values.insert(root_id, held(vec![("Lost", Variant::Ref(target_id))]));
    let dom = Dom::new(WeakDom::new(root), values).unwrap();
    let mut ids = NameMap::new();
    ids.insert("the-target".to_owned(), target_id);
    let tree = RojoTree::new(dom, HashMap::new(), ids);

    let mut attributes = NameMap::new();
    let text = |text: &str| AttributeValue::String(text.to_owned());
    attributes.insert("Rojo_Target_Text".to_owned(), text("the-target"));
    attributes.insert(
        "Rojo_Target_Bytes".to_owned(),
        AttributeValue::BinaryString(b"the-target".to_vec()),
    );
    attributes.insert("Rojo_Target_Bad".to_owned(), AttributeValue::BinaryString(vec![0xff]));
    attributes.insert("Rojo_Target_Odd".to_owned(), AttributeValue::Opaque(1));
    attributes.insert("Rojo_Target_Lost".to_owned(), text("nobody"));
    attributes.insert("Rojo_Target_Absent".to_owned(), text("nobody"));
    attributes.insert("Plain".to_owned(), text("the-target"));
    let mut description = snapshot("root", "Folder");
    description.properties = properties(vec![
        ("Attributes", Variant::Attributes(attributes)),
        ("Text", Variant::Opaque(9)),
        ("Odd", Variant::Opaque(9)),
    ]);
    description.children.push(snapshot("target", "Part"));

    let patch = compute_patch_set(Some(description), &tree, root_id);
    assert_eq!(patch.updated_instances.len(), 1);
    let changed = &patch.updated_instances[0].changed_properties;
    for name in ["Text", "Bytes"] {
        match changed.get(name) {
            Some(Some(Variant::Ref(id))) => assert_eq!(*id, target_id),
            other => panic!("{name}: {other:?}"),
        }
    }
    assert!(matches!(changed.get("Odd"), Some(Some(Variant::Opaque(9)))));
    assert!(matches!(changed.get("Lost"), Some(None)));
    assert!(matches!(changed.get("Attributes"), Some(Some(Variant::Attributes(_)))));
    assert_eq!(changed.len(), 5);
}

#[test]
fn unknown_refs_are_kept() {
    let tree = tree(InstanceBuilder::new("foo").with_name("foo"), HashMap::new());
    let root_id = tree.get_root_id();
    let mut description = snapshot("foo", "foo");
    description.properties = properties(vec![("Other", Variant::Ref(77))]);
    let patch = compute_patch_set(Some(description), &tree, root_id);
    let mut update = no_update(root_id);
    update.changed_properties = changes(vec![("Other", Some(Variant::Ref(77)))]);
    assert_patch(
        &patch,
        &PatchSet {
            removed_instances: Vec::new(),
            added_instances: Vec::new(),
            updated_instances: vec![update],
        },
    );
}

#[test]
fn a_patch_reaches_the_whole_snapshot() {
    let a1 = InstanceBuilder::new("Part").with_name("a1");
    let a2 = InstanceBuilder::new("Part").with_name("a2");
    let b1 = InstanceBuilder::new("Part").with_name("b1");
    let (a1_id, a2_id) = (number(a1.referent()), number(a2.referent()));
    let a = InstanceBuilder::new("Folder").with_name("a").with_children([a1, a2]);
    let b = InstanceBuilder::new("Folder").with_name("b").with_child(b1);
    let (a_id, b_id) = (number(a.referent()), number(b.referent()));
    let root = InstanceBuilder::new("Folder").with_name("root").with_children([a, b]);
    let root_id = number(root.referent());
    let tree = tree(root, HashMap::new());

    let mut changed = snapshot("a1", "Part");
    changed.snapshot_id = 99;
    changed.properties = properties(vec![("Anchored", Variant::Bool(true))]);
    let mut folder = snapshot("a", "Folder");
    folder.children.push(changed);
    let mut fresh = snapshot("fresh", "Part");
    fresh.properties = properties(vec![("Link", Variant::Ref(99))]);
    folder.children.push(fresh);
    let mut description = snapshot("root", "Folder");
    description.children.push(folder);
    description.children.push(snapshot("c", "Folder"));

    let patch = compute_patch_set(Some(description), &tree, root_id);
    // What is below a removed instance goes with it and is not named.
    assert_eq!(patch.removed_instances, vec![a2_id, b_id]);
    assert_eq!(patch.updated_instances.len(), 1);
    assert_eq!(patch.updated_instances[0].id, a1_id);
    assert_eq!(patch.updated_instances[0].changed_properties.len(), 1);
    assert_eq!(patch.added_instances.len(), 2);
    assert_eq!(patch.added_instances[0].parent_id, a_id);
    assert_eq!(patch.added_instances[0].instance.name, "fresh");
    match patch.added_instances[0].instance.properties.get("Link") {
        Some(Variant::Ref(id)) => assert_eq!(*id, a1_id),
        other => panic!("{other:?}"),
    }
    assert_eq!(patch.added_instances[1].parent_id, root_id);
    assert_eq!(patch.added_instances[1].instance.name, "c");
}

#[test]
fn an_applied_patch_leaves_nothing_to_change() {
    let describe = || {
        let mut folder = snapshot("a", "Folder");
        folder.properties = properties(vec![("Flag", Variant::Bool(true))]);
        folder.children.push(snapshot("twin", "Part"));
        folder.children.push(snapshot("fresh", "Part"));
        folder.children.push(snapshot("twin", "Part"));
        let mut description = snapshot("root", "Folder");
        description.children.push(snapshot("new", "Folder"));
        description.children.push(folder);
        description
    };
    let twin = InstanceBuilder::new("Part").with_name("twin");
    let twin_id = twin.referent();
    let old = InstanceBuilder::new("Part").with_name("old");
    let a = InstanceBuilder::new("Folder").with_name("a").with_children([old, twin]);
    let a_id = a.referent();
    let root = InstanceBuilder::new("Folder").with_name("root").with_child(a);
    let root_id = root.referent();
    let before = tree(root, HashMap::new());
    let patch = compute_patch_set(Some(describe()), &before, number(root_id));
    assert_eq!(patch.removed_instances.len(), 1);
    assert_eq!(patch.updated_instances.len(), 1);
    assert_eq!(patch.added_instances.len(), 3);

    // The same tree with the patch carried out: what is added comes last.
    let part = |name: &str| InstanceBuilder::new("Part").with_name(name);
    let a = InstanceBuilder::new("Folder").with_name("a").with_referent(a_id).with_children([
        part("twin").with_referent(twin_id),
        part("fresh"),
        part("twin"),
    ]);
    let new = InstanceBuilder::new("Folder").with_name("new");
    let root = InstanceBuilder::new("Folder")
        .with_name("root")
        .with_referent(root_id)
        .with_children([a, new]);
    let mut values = HashMap::new();
    values.insert(number(a_id), held(vec![("Flag", Variant::Bool(true))]));
    let after = tree(root, values);
    let again = compute_patch_set(Some(describe()), &after, number(root_id));
    assert_patch(&again, &PatchSet::new());
}
