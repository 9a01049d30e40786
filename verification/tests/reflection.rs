use rojo_sync::reflection::{ancestors, has_default, superclasses};

#[test]
fn superclasses_start_with_the_class() {
    let names = superclasses("Part").unwrap();
    assert_eq!(names[0], "Part");
    assert_eq!(names[1], "FormFactorPart");
    assert_eq!(names[2], "BasePart");
    assert!(names.contains(&"Instance".to_owned()));
    assert!(superclasses("NoSuchClass").is_none());
    assert_eq!(ancestors("Part"), names);
    assert_eq!(ancestors("NoSuchClass"), ["NoSuchClass"]);
}

#[test]
fn every_class_of_the_database_has_known_superclasses() {
    let database = rbx_reflection_database::get();
    assert!(database.classes.len() > 100);
    for name in database.classes.keys() {
        assert!(superclasses(name).is_some(), "{name}");
    }
}

#[test]
fn defaults_are_found() {
    assert!(has_default("Part", "Transparency"));
    assert!(has_default("StringValue", "Value"));
    assert!(!has_default("StringValue", "NoSuchProperty"));
    assert!(!has_default("NoSuchClass", "Value"));
}
