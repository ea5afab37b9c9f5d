//! Blueprint components and their reflected properties.

use pulsar_scenedb::component_store::context::{BlueprintContexts, ContextError};
use pulsar_scenedb::component_store::{
    check_raw, ComponentStore, MethodInfo, PropertyInfo, TypeIdentity, TypeInfo,
};

#[derive(Clone, Debug, Default, PartialEq)]
struct RawPropertyFixture {
    integer: i32,
    scalar: f32,
}

const NAME: &str = "RawPropertyFixture";

const INTEGER: TypeInfo = TypeInfo { identity: TypeIdentity::I32, size: 4, align: 4 };
const SCALAR: TypeInfo = TypeInfo { identity: TypeIdentity::F32, size: 4, align: 4 };

fn properties(_: &RawPropertyFixture) -> Vec<PropertyInfo> {
    vec![
        PropertyInfo { name: "integer".to_string(), type_info: INTEGER },
        PropertyInfo { name: "scalar".to_string(), type_info: SCALAR },
    ]
}

/// Reads a value of the given type at its source, and sets a property to it.
fn set_raw(fixture: &mut RawPropertyFixture, property: usize, identity: TypeIdentity, integer: i32, scalar: f32) {
    match (property, identity) {
        (0, TypeIdentity::I32) => fixture.integer = integer,
        (1, TypeIdentity::F32) => fixture.scalar = scalar,
        _ => panic!("fixture setter value type"),
    }
}

fn store() -> ComponentStore<RawPropertyFixture> {
    let mut store = ComponentStore::new();
    store.add_boxed(NAME.to_string(), RawPropertyFixture::default());
    store
}

#[test]
fn raw_property_write_uses_reflected_type_identity_not_equal_size() {
    let mut store = store();

    let integer = -1_234_567_i32;
    let scalar = 37.25_f32;
    assert!(store.set_property_raw(
        NAME,
        "integer",
        0x1000,
        std::mem::size_of::<i32>(),
        properties,
        |c: &mut RawPropertyFixture, p: usize, t: TypeIdentity| set_raw(c, p, t, integer, scalar),
    ));
    assert!(store.set_property_raw(
        NAME,
        "scalar",
        0x1000,
        std::mem::size_of::<f32>(),
        properties,
        |c: &mut RawPropertyFixture, p: usize, t: TypeIdentity| set_raw(c, p, t, integer, scalar),
    ));

    let fixture = store.get(|_: &RawPropertyFixture| true).expect("fixture remains stored");
    assert_eq!(fixture.integer, integer);
    assert_eq!(fixture.scalar.to_bits(), scalar.to_bits());
}

#[test]
fn raw_writes_that_do_not_fit_change_nothing() {
    let mut store = store();
    let mut write = |class: &str, prop: &str, address: usize, size: usize| {
        store.set_property_raw(
            class,
            prop,
            address,
            size,
            properties,
            |c: &mut RawPropertyFixture, _: usize, _: TypeIdentity| c.integer = 99,
        )
    };
    assert!(!write("Other", "integer", 0x1000, 4), "no such class");
    assert!(!write(NAME, "other", 0x1000, 4), "no such property");
    assert!(!write(NAME, "integer", 0, 4), "no address");
    assert!(!write(NAME, "integer", 0x1000, 8), "another size");
    assert!(!write(NAME, "integer", 0x1002, 4), "not aligned");
    assert_eq!(store.get_by_name(NAME), Some(&RawPropertyFixture::default()));
}

#[test]
fn types_without_a_known_identity_are_not_written_raw() {
    let custom = TypeInfo { identity: TypeIdentity::Other, size: 4, align: 4 };
    assert!(!check_raw(&custom, 0x1000, 4));
    assert!(check_raw(&INTEGER, 0x1000, 4));
    let packed = TypeInfo { identity: TypeIdentity::U8, size: 1, align: 0 };
    assert!(check_raw(&packed, 0x1001, 1), "an alignment of zero counts as one");
}

fn parse(info: TypeInfo, text: &String) -> Option<f64> {
    match info.identity {
        TypeIdentity::I32 => text.parse::<i32>().ok().map(|v| v as f64),
        _ => text.parse::<f64>().ok(),
    }
}

fn set(fixture: &mut RawPropertyFixture, property: usize, value: f64) {
    if property == 0 {
        fixture.integer = value as i32;
    } else {
        fixture.scalar = value as f32;
    }
}

fn get(fixture: &RawPropertyFixture, property: usize) -> f64 {
    if property == 0 {
        fixture.integer as f64
    } else {
        fixture.scalar as f64
    }
}

#[test]
fn properties_are_read_and_written_in_serialized_form() {
    let mut store = store();
    let text = "12".to_string();
    assert!(store.set_property_json(NAME, "integer", &text, properties, parse, set));
    let bad = "twelve".to_string();
    assert!(!store.set_property_json(NAME, "integer", &bad, properties, parse, set));
    assert!(!store.set_property_json(NAME, "other", &text, properties, parse, set));
    assert!(!store.set_property_json("Other", "integer", &text, properties, parse, set));
    let show = |v: &f64| Some(v.to_string());
    assert_eq!(store.get_property_json(NAME, "integer", properties, get, show), Some("12".to_string()));
    assert_eq!(store.get_property_json(NAME, "other", properties, get, show), None);
    assert_eq!(store.get_property_json("Other", "integer", properties, get, show), None);
}

#[test]
fn a_component_is_made_with_the_fields_that_fit() {
    let mut store: ComponentStore<RawPropertyFixture> = ComponentStore::default();
    let create = |name: &str| if name == NAME { Some(RawPropertyFixture::default()) } else { None };
    let fields = vec![
        ("scalar".to_string(), "2.5".to_string()),
        ("integer".to_string(), "no number".to_string()),
        ("unknown".to_string(), "1".to_string()),
    ];
    assert!(!store.add_from_registry("Other", &fields, create, properties, parse, set));
    assert!(store.is_empty());
    assert!(store.add_from_registry(NAME, &fields, create, properties, parse, set));
    assert_eq!(store.get_by_name(NAME), Some(&RawPropertyFixture { integer: 0, scalar: 2.5 }));
}

#[test]
fn methods_are_called_with_all_arguments_or_not_at_all() {
    let mut store = store();
    let methods_of = |name: &str| {
        if name == NAME {
            Some(vec![MethodInfo { name: "add".to_string(), params: vec![INTEGER, INTEGER] }])
        } else {
            None
        }
    };
    let call = |c: &mut RawPropertyFixture, _: usize, args: Vec<f64>| {
        c.integer += args.iter().sum::<f64>() as i32;
        Some(c.integer)
    };
    let show = |v: &i32| Some(v.to_string());
    let two = vec!["2".to_string(), "3".to_string()];
    let out = store.call_method_json(NAME, "add", &two, methods_of, parse, call, show);
    assert_eq!(out, Some("5".to_string()));
    let bad = vec!["2".to_string(), "x".to_string()];
    assert_eq!(store.call_method_json(NAME, "add", &bad, methods_of, parse, call, show), None);
    assert_eq!(store.call_method_json(NAME, "sub", &two, methods_of, parse, call, show), None);
    assert_eq!(store.call_method_json("Other", "add", &two, methods_of, parse, call, show), None);
    assert_eq!(store.get_by_name(NAME).unwrap().integer, 5);
    let one = vec!["7".to_string()];
    let out = store.call_method_json(NAME, "add", &one, methods_of, parse, call, show);
    assert_eq!(out, Some("12".to_string()), "parameters without a value are left out");
}

#[test]
fn the_first_component_of_a_class_is_the_one_that_is_found() {
    let mut store = ComponentStore::new();
    store.add_boxed("A".to_string(), 1);
    store.add_boxed("B".to_string(), 2);
    store.add_boxed("A".to_string(), 3);
    assert_eq!(store.len(), 3);
    assert!(store.has("B"));
    assert!(!store.has("C"));
    assert_eq!(store.get_by_name("A"), Some(&1));
    *store.get_by_name_mut("A").unwrap() = 10;
    *store.get_mut(|c: &i32| *c > 2 && *c < 10).unwrap() = 30;
    assert_eq!(store.iter(), vec![("A", &10), ("B", &2), ("A", &30)]);
    assert!(store.get_by_name_mut("C").is_none());
    assert_eq!(store.position("B"), Some(1));
}

#[test]
fn scoped_blueprint_context_restores_after_unwind() {
    let mut contexts = BlueprintContexts::new();
    assert_eq!(contexts.begin_access(), Err(ContextError::Outside));
    assert_eq!(contexts.enter(1), Ok(()));
    assert_eq!(contexts.begin_access(), Ok(1));
    contexts.end_access();
    assert_eq!(contexts.enter(2), Ok(()));
    assert_eq!(contexts.begin_access(), Ok(2), "the inner scope is current");
    contexts.end_access();
    assert_eq!(contexts.leave(1), Err(ContextError::Unbalanced));
    assert_eq!(contexts.leave(2), Ok(()));
    assert_eq!(contexts.begin_access(), Ok(1), "the outer scope is current again");
    contexts.end_access();
    assert_eq!(contexts.leave(1), Ok(()));
    assert_eq!(contexts.begin_access(), Err(ContextError::Outside));
    assert_eq!(contexts.leave(1), Err(ContextError::Outside));
}

#[test]
fn blueprint_context_rejects_recursive_mutable_access() {
    let mut contexts = BlueprintContexts::new();
    assert_eq!(contexts.enter(1), Ok(()));
    assert_eq!(contexts.begin_access(), Ok(1));
    assert_eq!(contexts.begin_access(), Err(ContextError::Recursive));
    assert_eq!(contexts.enter(2), Err(ContextError::Recursive));
    assert_eq!(contexts.leave(1), Err(ContextError::Recursive));
    contexts.end_access();
    assert_eq!(contexts.begin_access(), Ok(1), "a refused access does not spoil the context");
}
