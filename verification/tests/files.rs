use std::collections::HashMap;

use memofs::{InMemoryFs, Vfs, VfsSnapshot};
use rbx_dom_weak::types::Ref;
use rbx_dom_weak::{InstanceBuilder, WeakDom};
use rojo_sync::dom::Dom;
use rojo_sync::instance::{InstanceContext, InstanceSnapshot};
use rojo_sync::json_model::{
    json_model_syncback, json_model_text, new_json_model, snapshot_json_model,
    syncback_json_model, JsonModel, NotUtf8,
};
use rojo_sync::middleware::Middleware;
use rojo_sync::name_map::NameMap;
use rojo_sync::syncback_snapshot::{SyncbackData, SyncbackSnapshot};
use rojo_sync::tree::RojoTree;
use rojo_sync::txt::{snapshot_txt, syncback_txt, AdjacentMetadata, TxtError};
use rojo_sync::unresolved::{
    node_should_reserialize, populate_unresolved_properties, property_is_lost, writes_property,
    Unresolved, UnresolvedAttribute, UnresolvedValue,
};
use rojo_sync::variant::{AttributeValue, Property, Variant};
use rojo_sync::variant_eq::{variant_eq, Closeness};

fn number(referent: Ref) -> u128 {
    u128::from_str_radix(&referent.to_string(), 16).unwrap()
}

fn context() -> InstanceContext {
    InstanceContext { sync_rules: Vec::new(), settings: 0 }
}

fn empty_vfs() -> Vfs {
    Vfs::new(InMemoryFs::new())
}

fn property(value: Variant, at_default: bool) -> Property {
    Property { value, at_default }
}

fn held(entries: Vec<(&str, Property)>) -> NameMap<Property> {
    let mut map = NameMap::new();
    for (name, value) in entries {
        map.insert(name.to_owned(), value);
    }
    map
}

fn unresolved(entries: Vec<(&str, Result<Variant, String>)>) -> NameMap<UnresolvedValue> {
    let mut map = NameMap::new();
    for (name, resolved) in entries {
        map.insert(name.to_owned(), Unresolved { resolved });
    }
    map
}

fn attributes(
    entries: Vec<(&str, Result<AttributeValue, String>)>,
) -> NameMap<UnresolvedAttribute> {
    let mut map = NameMap::new();
    for (name, resolved) in entries {
        map.insert(name.to_owned(), Unresolved { resolved });
    }
    map
}

fn no_close_values() -> Closeness {
    Closeness { pairs: Vec::new() }
}

fn field<'a>(
    value: &'a serde_json::Value,
    name: &str,
    alias: &str,
) -> Option<&'a serde_json::Value> {
    value.get(name).or_else(|| value.get(alias))
}

/// Reads a model whose properties are integers, each of which is told apart by
/// its value.
fn parse_model(value: &serde_json::Value) -> JsonModel {
    let mut properties = NameMap::new();
    if let Some(entries) = field(value, "properties", "Properties") {
        for (name, number) in entries.as_object().unwrap() {
            let resolved = Ok(Variant::Opaque(number.as_u64().unwrap()));
            properties.insert(name.clone(), Unresolved { resolved });
        }
    }
    let children = match field(value, "children", "Children") {
        Some(children) => children.as_array().unwrap().iter().map(parse_model).collect(),
        None => Vec::new(),
    };
    JsonModel {
        name: field(value, "name", "Name").map(|name| name.as_str().unwrap().to_owned()),
        class_name: field(value, "className", "ClassName").unwrap().as_str().unwrap().to_owned(),
        id: value.get("id").map(|id| id.as_str().unwrap().to_owned()),
        children,
        properties,
        attributes: NameMap::new(),
    }
}

fn read_model(contents: &str) -> InstanceSnapshot {
    let mut imfs = InMemoryFs::new();
    imfs.load_snapshot("/foo.model.json", VfsSnapshot::file(contents)).unwrap();
    let vfs = Vfs::new(imfs);
    let bytes = vfs.read("/foo.model.json").unwrap();
    let text = json_model_text(&bytes).unwrap().unwrap();
    let model = parse_model(&serde_json::from_str(&text).unwrap());
    snapshot_json_model(&context(), "/foo.model.json", "foo", model).unwrap()
}

fn assert_is_model(snapshot: &InstanceSnapshot) {
    assert_eq!(snapshot.snapshot_id, 0);
    assert_eq!(snapshot.name, "foo");
    assert_eq!(snapshot.class_name, "IntValue");
    assert_eq!(snapshot.properties.len(), 1);
    assert!(matches!(snapshot.properties.get("Value"), Some(Variant::Opaque(5))));
    assert_eq!(snapshot.metadata.instigating_source, Some("/foo.model.json".to_owned()));
    assert_eq!(snapshot.metadata.relevant_paths, vec!["/foo.model.json".to_owned()]);
    assert_eq!(snapshot.metadata.specified_id, None);
    assert_eq!(snapshot.children.len(), 1);
    let child = &snapshot.children[0];
    assert_eq!(child.name, "The Child");
    assert_eq!(child.class_name, "StringValue");
    assert!(child.properties.is_empty());
    assert!(child.children.is_empty());
    assert_eq!(child.metadata.instigating_source, None);
}

#[test]
fn model_from_vfs() {
    let snapshot = read_model(
        r#"
            {
              "className": "IntValue",
              "properties": {
                "Value": 5
              },
              "children": [
                {
                  "name": "The Child",
                  "className": "StringValue"
                }
              ]
            }
        "#,
    );
    assert_is_model(&snapshot);
}

#[test]
fn model_from_vfs_legacy() {
    let snapshot = read_model(
        r#"
            {
              "ClassName": "IntValue",
              "Properties": {
                "Value": 5
              },
              "Children": [
                {
                  "Name": "The Child",
                  "ClassName": "StringValue"
                }
              ]
            }
        "#,
    );
    assert_is_model(&snapshot);
}

#[test]
fn instance_from_vfs() {
    let mut imfs = InMemoryFs::new();
    imfs.load_snapshot("/foo.txt", VfsSnapshot::file("Hello there!")).unwrap();
    let vfs = Vfs::new(imfs);
    let contents = vfs.read("/foo.txt").unwrap();

    let snapshot = snapshot_txt(&context(), "/foo.txt", "foo", &contents).unwrap();

    assert_eq!(snapshot.snapshot_id, 0);
    assert_eq!(snapshot.name, "foo");
    assert_eq!(snapshot.class_name, "StringValue");
    assert!(snapshot.children.is_empty());
    assert_eq!(snapshot.properties.len(), 1);
    match snapshot.properties.get("Value") {
        Some(Variant::String(text)) => assert_eq!(text, "Hello there!"),
        other => panic!("{other:?}"),
    }
    assert_eq!(snapshot.metadata.instigating_source, Some("/foo.txt".to_owned()));
    assert_eq!(
        snapshot.metadata.relevant_paths,
        vec!["/foo.txt".to_owned(), "/foo.meta.json".to_owned()]
    );
}

#[test]
fn text_must_be_utf8() {
    assert_eq!(snapshot_txt(&context(), "a.txt", "a", &[0xff]).unwrap_err(), NotUtf8);
    assert_eq!(json_model_text(&[0xc3, 0x28]).unwrap_err(), NotUtf8);
}

#[test]
fn blank_models_are_none() {
    assert_eq!(json_model_text(b"").unwrap(), None);
    assert_eq!(json_model_text(" \t\r\n\u{3000}\u{a0}".as_bytes()).unwrap(), None);
    assert_eq!(json_model_text(b" {} ").unwrap(), Some(" {} ".to_owned()));
    assert_eq!(json_model_text("\u{200b}".as_bytes()).unwrap(), Some("\u{200b}".to_owned()));
}

fn plain_model(class_name: &str) -> JsonModel {
    JsonModel {
        name: None,
        class_name: class_name.to_owned(),
        id: None,
        children: Vec::new(),
        properties: NameMap::new(),
        attributes: NameMap::new(),
    }
}

#[test]
fn models_become_snapshots() {
    let mut model = plain_model("Folder");
    model.id = Some("me".to_owned());
    model.name = Some("ignored".to_owned());
    model.children.push(plain_model("Part"));
    model.attributes = attributes(vec![("A", Ok(AttributeValue::Opaque(1)))]);
    let snapshot = snapshot_json_model(&context(), "x/foo.model.json", "foo", model).unwrap();
    assert_eq!(snapshot.name, "foo");
    assert_eq!(snapshot.children[0].name, "Part");
    assert_eq!(snapshot.metadata.specified_id, Some("me".to_owned()));
    match snapshot.properties.get("Attributes") {
        Some(Variant::Attributes(held)) => {
            assert_eq!(held.len(), 1);
            assert!(matches!(held.get("A"), Some(AttributeValue::Opaque(1))));
        }
        other => panic!("{other:?}"),
    }
}

#[test]
fn the_first_unresolved_value_of_a_model_is_reported() {
    let failing = |reason: &str| {
        let mut model = plain_model("Folder");
        model.properties = unresolved(vec![("P", Err(format!("{reason} property")))]);
        model.attributes = attributes(vec![("A", Err(format!("{reason} attribute")))]);
        model
    };
    let mut model = failing("own");
    model.children.push(plain_model("Part"));
    model.children.push(failing("child"));
    assert_eq!(model.into_snapshot().unwrap_err(), "child property");
    assert_eq!(failing("own").into_snapshot().unwrap_err(), "own property");
    let mut model = failing("own");
    model.properties = NameMap::new();
    assert_eq!(model.into_snapshot().unwrap_err(), "own attribute");
}

/// An old and a new tree with one instance below the root.
struct Trees {
    old: RojoTree,
    old_id: u128,
    new: Dom,
    new_id: u128,
}

fn trees(class: &str, old: NameMap<Property>, new: NameMap<Property>) -> Trees {
    let old_inst = InstanceBuilder::new(class).with_name("thing");
    let old_id = number(old_inst.referent());
    let new_inst = InstanceBuilder::new(class).with_name("thing");
    let new_id = number(new_inst.referent());
    let old_dom = WeakDom::new(InstanceBuilder::new("Folder").with_child(old_inst));
    let new_dom = WeakDom::new(InstanceBuilder::new("Folder").with_child(new_inst));
    let mut old_values = HashMap::new();
    old_values.insert(old_id, old);
    let mut new_values = HashMap::new();
    new_values.insert(new_id, new);
    Trees {
        old: RojoTree::new(
            Dom::new(old_dom, old_values).unwrap(),
            HashMap::new(),
            NameMap::new(),
        ),
        old_id,
        new: Dom::new(new_dom, new_values).unwrap(),
        new_id,
    }
}

fn syncback<'a>(trees: &'a Trees, vfs: &'a Vfs) -> SyncbackSnapshot<'a> {
    SyncbackSnapshot {
        data: SyncbackData {
            vfs,
            old_tree: &trees.old,
            new_tree: &trees.new,
            syncback_rules: None,
        },
        old: Some(trees.old_id),
        new: trees.new_id,
        parent_path: "/project/src".to_owned(),
        name: "thing".to_owned(),
        middleware: None,
    }
}

fn text_value(text: &str) -> NameMap<Property> {
    held(vec![("Value", property(Variant::String(text.to_owned()), false))])
}

fn metadata(properties: Vec<(&str, Variant)>, only_properties: bool) -> AdjacentMetadata {
    let mut map = NameMap::new();
    for (name, value) in properties {
        map.insert(name.to_owned(), value);
    }
    AdjacentMetadata { properties: map, only_properties, settings: 0 }
}

#[test]
fn string_values_become_text_files() {
    let vfs = empty_vfs();
    let trees = trees("StringValue", NameMap::new(), text_value("h\u{e9}!"));
    let snapshot = syncback(&trees, &vfs);
    let meta = metadata(vec![("Value", Variant::Opaque(1))], true);
    let files = syncback_txt(&snapshot, "thing.txt", Ok(meta)).unwrap();
    assert_eq!(files.path, "/project/src/thing.txt");
    assert_eq!(files.contents, "h\u{e9}!".as_bytes());
    assert!(files.meta.is_none());
    assert_eq!(files.inst_snapshot.name, "thing");
    assert_eq!(files.inst_snapshot.class_name, "StringValue");
    assert_eq!(files.inst_snapshot.properties.len(), 1);

    // What was written reads back.
    let read = snapshot_txt(&context(), &files.path, "thing", &files.contents).unwrap();
    match read.properties.get("Value") {
        Some(Variant::String(text)) => assert_eq!(text, "h\u{e9}!"),
        other => panic!("{other:?}"),
    }
    let done = files.into_syncback(None);
    assert_eq!(done.fs_snapshot.added_files.len(), 1);
    assert_eq!(
        done.fs_snapshot.added_files.get("/project/src/thing.txt"),
        Some(&"h\u{e9}!".as_bytes().to_vec())
    );
}

#[test]
fn metadata_of_text_files_are_written_beside_them() {
    let vfs = empty_vfs();
    let trees = trees("StringValue", NameMap::new(), text_value("x"));
    let snapshot = syncback(&trees, &vfs);
    for meta in [metadata(vec![("Other", Variant::Opaque(1))], true), metadata(vec![], false)] {
        let files = syncback_txt(&snapshot, "thing.txt", Ok(meta)).unwrap();
        let (path, said) = files.meta.as_ref().unwrap();
        assert_eq!(path, "/project/src/thing.meta.json");
        assert!(!said.properties.contains_key("Value"));
        let done = files.into_syncback(Some(b"{}".to_vec()));
        assert_eq!(
            done.fs_snapshot.added_files.get("/project/src/thing.meta.json"),
            Some(&b"{}".to_vec())
        );
        assert_eq!(done.fs_snapshot.added_files.len(), 2);
    }
}

#[test]
fn text_files_need_a_string_and_metadata() {
    let vfs = empty_vfs();
    let without = trees("StringValue", NameMap::new(), NameMap::new());
    let failed: Result<AdjacentMetadata, String> = Err("no metadata".to_owned());
    assert!(matches!(
        syncback_txt(&syncback(&without, &vfs), "thing.txt", failed),
        Err(TxtError::NoValue)
    ));
    let odd = held(vec![("Value", property(Variant::Opaque(1), false))]);
    let odd = trees("StringValue", NameMap::new(), odd);
    assert!(matches!(
        syncback_txt(&syncback(&odd, &vfs), "thing.txt", Ok(metadata(vec![], true))),
        Err(TxtError::NoValue)
    ));
    let with = trees("StringValue", NameMap::new(), text_value("x"));
    match syncback_txt(&syncback(&with, &vfs), "thing.txt", Err("no metadata".to_owned())) {
        Err(TxtError::Metadata(reason)) => assert_eq!(reason, "no metadata"),
        other => panic!("{other:?}"),
    }
}

#[test]
fn properties_are_written_unless_at_their_default() {
    let mut held_attributes = NameMap::new();
    held_attributes.insert("Mine".to_owned(), AttributeValue::Opaque(1));
    held_attributes.insert("RBXReserved".to_owned(), AttributeValue::Opaque(2));
    let properties = held(vec![
        ("Transparency", property(Variant::Opaque(1), true)),
        ("Reflectance", property(Variant::Opaque(2), false)),
        ("NoSuchProperty", property(Variant::Opaque(3), true)),
        ("Shared", property(Variant::SharedString(4), false)),
        ("Attributes", property(Variant::Attributes(held_attributes), false)),
    ]);
    let (written, attributes) = populate_unresolved_properties("Part", &properties);
    assert_eq!(written.len(), 2);
    assert!(matches!(
        written.get("Reflectance").unwrap().resolved,
        Ok(Variant::Opaque(2))
    ));
    assert!(matches!(
        written.get("NoSuchProperty").unwrap().resolved,
        Ok(Variant::Opaque(3))
    ));
    assert_eq!(attributes.len(), 1);
    assert!(matches!(
        attributes.get("Mine").unwrap().resolved,
        Ok(AttributeValue::Opaque(1))
    ));
    assert!(writes_property(&property(Variant::Bool(true), true), false));
    assert!(!writes_property(&property(Variant::Bool(true), true), true));
}

fn reserialize(
    old: NameMap<Property>,
    properties: NameMap<UnresolvedValue>,
    attributes: NameMap<UnresolvedAttribute>,
    close: &Closeness,
) -> Result<bool, String> {
    let trees = trees("Part", old, NameMap::new());
    let instance = trees.old.get_instance(trees.old_id).unwrap();
    node_should_reserialize(&properties, &attributes, &instance, close)
}

#[test]
fn nodes_are_reserialized_when_properties_differ() {
    let close = no_close_values();
    let one = || held(vec![("Reflectance", property(Variant::Opaque(1), false))]);
    let node = |value| unresolved(vec![("Reflectance", value)]);
    let opaque = |number| node(Ok(Variant::Opaque(number)));
    assert_eq!(reserialize(one(), opaque(1), attributes(vec![]), &close), Ok(false));
    assert_eq!(reserialize(one(), opaque(2), attributes(vec![]), &close), Ok(true));
    assert_eq!(
        reserialize(one(), node(Err("bad".to_owned())), attributes(vec![]), &close),
        Err("bad".to_owned())
    );
    // The instance lacks the property, so that its value is not looked at.
    assert_eq!(
        reserialize(held(vec![]), node(Err("bad".to_owned())), attributes(vec![]), &close),
        Ok(true)
    );
    // The property has changed to its default.
    assert_eq!(reserialize(one(), unresolved(vec![]), attributes(vec![]), &close), Ok(true));
    let default = held(vec![("Reflectance", property(Variant::Opaque(1), true))]);
    assert_eq!(reserialize(default, unresolved(vec![]), attributes(vec![]), &close), Ok(false));
    let unknown = held(vec![("NoSuchProperty", property(Variant::Opaque(1), true))]);
    assert_eq!(reserialize(unknown, unresolved(vec![]), attributes(vec![]), &close), Ok(true));
    // Equal up to rounding.
    let close = Closeness { pairs: vec![(1, 2)] };
    assert_eq!(reserialize(one(), opaque(2), attributes(vec![]), &close), Ok(false));
    assert!(!variant_eq(&Variant::Opaque(2), &Variant::Opaque(1), &close));

    assert!(property_is_lost("Name", false, true, false));
    assert!(property_is_lost("Name", false, false, true));
    assert!(!property_is_lost("Name", false, true, true));
    assert!(!property_is_lost("Name", true, false, false));
    assert!(!property_is_lost("Attributes", false, false, false));
}

#[test]
fn nodes_are_reserialized_when_attributes_differ() {
    let close = no_close_values();
    let old = || {
        let mut map = NameMap::new();
        map.insert("A".to_owned(), AttributeValue::String("x".to_owned()));
        held(vec![("Attributes", property(Variant::Attributes(map), false))])
    };
    let text = |text: &str| Ok(AttributeValue::String(text.to_owned()));
    let run = |old, entries| reserialize(old, unresolved(vec![]), attributes(entries), &close);
    assert_eq!(run(old(), vec![("A", text("x"))]), Ok(false));
    assert_eq!(run(old(), vec![("A", text("y"))]), Ok(true));
    assert_eq!(run(old(), vec![("B", text("x"))]), Ok(true));
    assert_eq!(run(old(), vec![]), Ok(true));
    assert_eq!(run(old(), vec![("A", Err("bad".to_owned()))]), Err("bad".to_owned()));
    assert_eq!(run(held(vec![]), vec![("A", text("x"))]), Ok(true));
    assert_eq!(run(held(vec![]), vec![]), Ok(false));
    let odd = held(vec![("Attributes", property(Variant::Opaque(1), false))]);
    assert_eq!(run(odd, vec![]), Ok(true));
}

#[test]
fn models_are_written_when_they_differ() {
    let vfs = empty_vfs();
    let close = no_close_values();
    let volume = |value| held(vec![("Volume", property(Variant::Opaque(value), false))]);
    for (old, new, anew) in [(1, 1, false), (1, 2, true)] {
        let trees = trees("Sound", volume(old), volume(new));
        let mut snapshot = syncback(&trees, &vfs);
        let mut filtered = HashMap::new();
        filtered.insert(trees.new_id, volume(new));
        let model = new_json_model(&snapshot, &filtered);
        assert_eq!(model.name, None);
        assert_eq!(model.class_name, "Sound");
        match &model.properties.get("Volume").unwrap().resolved {
            Ok(Variant::Opaque(value)) => assert_eq!(*value, new),
            other => panic!("{other:?}"),
        }
        assert_eq!(syncback_json_model(&snapshot, &model, &close), Ok(anew));
        // A new instance is always written.
        snapshot.old = None;
        assert_eq!(syncback_json_model(&snapshot, &model, &close), Ok(true));
        let done = json_model_syncback(&snapshot, "/x.model.json".to_owned(), Some(vec![1]));
        assert_eq!(done.fs_snapshot.added_files.get("/x.model.json"), Some(&vec![1]));
        assert_eq!(done.inst_snapshot.name, "thing");
        let nothing = json_model_syncback(&snapshot, "/x.model.json".to_owned(), None);
        assert!(nothing.fs_snapshot.added_files.is_empty());
    }
}

#[test]
fn written_models_read_back() {
    let vfs = empty_vfs();
    let trees = trees("Sound", NameMap::new(), NameMap::new());
    let mut snapshot = syncback(&trees, &vfs);
    snapshot.old = None;
    snapshot.new = trees.new.root_ref();
    let mut filtered = HashMap::new();
    filtered.insert(
        trees.new_id,
        held(vec![("Volume", property(Variant::Opaque(3), false))]),
    );
    let model = new_json_model(&snapshot, &filtered);
    let read = snapshot_json_model(&context(), "p.model.json", "p", model).unwrap();
    assert_eq!(read.name, "p");
    assert_eq!(read.class_name, "Folder");
    assert_eq!(read.children.len(), 1);
    assert_eq!(read.children[0].name, "thing");
    assert_eq!(read.children[0].class_name, "Sound");
    assert!(matches!(
        read.children[0].properties.get("Volume"),
        Some(Variant::Opaque(3))
    ));
}

#[test]
fn snapshots_remember_their_middleware() {
    let make = || Some(snapshot_txt(&context(), "a.txt", "a", b"x").unwrap());
    let done = Middleware::Text.snapshot(make()).unwrap();
    assert_eq!(done.metadata.middleware, Some(Middleware::Text));
    assert_eq!(done.name, "a");
    assert!(Middleware::Text.snapshot(None).is_none());
    assert!(Middleware::Ignore.snapshot(make()).is_none());
}

#[test]
fn models_are_compared_level_by_level() {
    let vfs = empty_vfs();
    let close = no_close_values();
    let bad = || unresolved(vec![("Volume", Err("bad".to_owned()))]);
    let old = || held(vec![("Volume", property(Variant::Opaque(1), false))]);
    let trees = trees("Sound", old(), old());
    let mut snapshot = syncback(&trees, &vfs);
    snapshot.old = Some(trees.old.get_root_id());
    snapshot.new = trees.new.root_ref();
    let mut model = new_json_model(&snapshot, &HashMap::new());
    model.children[0].properties = bad();
    assert_eq!(
        syncback_json_model(&snapshot, &model, &close),
        Err("bad".to_owned())
    );
    // The parent decides before its child is looked at.
    model.properties = unresolved(vec![("Missing", Ok(Variant::Opaque(1)))]);
    assert_eq!(syncback_json_model(&snapshot, &model, &close), Ok(true));
    // A child without a counterpart is not looked at.
    model.properties = NameMap::new();
    model.children[0].properties = unresolved(vec![("Volume", Ok(Variant::Opaque(1)))]);
    let extra = new_json_model(&snapshot, &HashMap::new());
    model.children.push(extra);
    assert_eq!(syncback_json_model(&snapshot, &model, &close), Ok(false));
}
