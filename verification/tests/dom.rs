use std::collections::HashMap;

use rbx_dom_weak::types::Ref;
use rbx_dom_weak::{InstanceBuilder, WeakDom};
use rojo_sync::dom::{descendants, get_inst_path, Dom};

fn number(referent: Ref) -> u128 {
    u128::from_str_radix(&referent.to_string(), 16).unwrap()
}

struct Sample {
    dom: Dom,
    root: u128,
    a: u128,
    a1: u128,
    a2: u128,
    b: u128,
}

fn sample() -> Sample {
    let a1 = InstanceBuilder::new("Part").with_name("a1");
    let a2 = InstanceBuilder::new("Part").with_name("a2");
    let ids = (number(a1.referent()), number(a2.referent()));
    let a = InstanceBuilder::new("Model").with_name("a").with_children([a1, a2]);
    let b = InstanceBuilder::new("Folder").with_name("b");
    let (a_id, b_id) = (number(a.referent()), number(b.referent()));
    let root = InstanceBuilder::new("DataModel").with_name("game").with_children([a, b]);
    let root_id = number(root.referent());
    let dom = Dom::new(WeakDom::new(root), HashMap::new()).unwrap();
    Sample { dom, root: root_id, a: a_id, a1: ids.0, a2: ids.1, b: b_id }
}

#[test]
fn instances_are_found_by_referent() {
    let sample = sample();
    assert_eq!(sample.dom.root_ref(), sample.root);
    let a = sample.dom.get_by_ref(sample.a).unwrap();
    assert_eq!(a.referent, sample.a);
    assert_eq!(a.parent, sample.root);
    assert_eq!(a.name, "a");
    assert_eq!(a.class, "Model");
    assert_eq!(a.children, vec![sample.a1, sample.a2]);
    assert_eq!(a.properties.len(), 0);
    assert!(sample.dom.get_by_ref(0).is_none());
    assert!(sample.dom.get_by_ref(12345).is_none());
}

#[test]
fn children_come_before_their_parents() {
    let sample = sample();
    assert_eq!(
        descendants(&sample.dom, sample.root),
        vec![sample.a2, sample.a1, sample.b, sample.a, sample.root]
    );
    assert_eq!(
        descendants(&sample.dom, sample.a),
        vec![sample.a2, sample.a1, sample.a]
    );
    assert_eq!(descendants(&sample.dom, sample.b), vec![sample.b]);
}

#[test]
fn paths_go_from_the_root_down() {
    let sample = sample();
    assert_eq!(get_inst_path(&sample.dom, sample.root), "game");
    assert_eq!(get_inst_path(&sample.dom, sample.a2), "game/a/a2");
    assert_eq!(get_inst_path(&sample.dom, 5), "");
}

#[test]
fn destroying_an_instance_removes_what_is_below_it() {
    let sample = sample();
    let dom = sample.dom.destroy(sample.a);
    for gone in [sample.a, sample.a1, sample.a2] {
        assert!(dom.get_by_ref(gone).is_none());
    }
    assert_eq!(dom.root_ref(), sample.root);
    assert_eq!(dom.get_by_ref(sample.root).unwrap().children, vec![sample.b]);
    assert_eq!(dom.get_by_ref(sample.b).unwrap().name, "b");
    assert_eq!(descendants(&dom, sample.root), vec![sample.b, sample.root]);
}

#[test]
fn what_is_no_tree_is_refused() {
    // A child is missing.
    let child = InstanceBuilder::new("Part");
    let child_ref = child.referent();
    let dom = WeakDom::new(InstanceBuilder::new("Folder").with_child(child));
    let (root, mut instances) = dom.into_raw();
    instances.remove(&child_ref);
    let broken = WeakDom::from_raw(root, instances);
    assert!(Dom::new(broken, HashMap::new()).is_none());
}
