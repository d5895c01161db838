use script_bindings::bridge::{assign_from_script, into_script_ref, ScriptValue};
use script_bindings::error::InteropError;
use script_bindings::path::PathSegment;
use script_bindings::reference::ReflectReference;
use script_bindings::value::{FieldEntry, ReflectValue};
use script_bindings::world::ScriptWorld;
use script_bindings::TypeTag;

fn reference_to(world: &mut ScriptWorld, value: ReflectValue) -> ReflectReference {
    ReflectReference::new_allocated(value, &mut world.arena)
}

#[test]
fn primitives_round_trip_unchanged() {
    let mut world = ScriptWorld::new();
    let candidates = vec![
        ReflectValue::Unit,
        ReflectValue::Bool(true),
        ReflectValue::Int(-3),
        ReflectValue::Ch('x'),
        ReflectValue::Str("hello".to_string()),
    ];
    for value in candidates {
        let before = value.dup();
        let reference = reference_to(&mut world, value);
        let script = into_script_ref(reference.dup(), &mut world).expect("resolves");
        assign_from_script(&reference, &mut world, script).expect("assigns back");
        let after = reference.read_value(&mut world).expect("still resolves");
        match (&before, &after) {
            (ReflectValue::Unit, ReflectValue::Unit) => {}
            (ReflectValue::Bool(a), ReflectValue::Bool(b)) => assert_eq!(a, b),
            (ReflectValue::Int(a), ReflectValue::Int(b)) => assert_eq!(a, b),
            (ReflectValue::Ch(a), ReflectValue::Ch(b)) => assert_eq!(a, b),
            (ReflectValue::Str(a), ReflectValue::Str(b)) => assert_eq!(a, b),
            other => panic!("value changed shape: {:?}", other),
        }
    }
}

#[test]
fn primitive_values_cross_by_copy() {
    let mut world = ScriptWorld::new();
    let reference = reference_to(&mut world, ReflectValue::Int(21));
    match into_script_ref(reference, &mut world) {
        Ok(ScriptValue::Integer(21)) => {}
        other => panic!("unexpected script value: {:?}", other),
    }
}

#[test]
fn compound_values_cross_as_the_same_reference() {
    let mut world = ScriptWorld::new();
    let reference = reference_to(
        &mut world,
        ReflectValue::List(vec![ReflectValue::Int(1), ReflectValue::Int(2)]),
    );
    match into_script_ref(reference.dup(), &mut world) {
        Ok(ScriptValue::Reference(r)) => {
            // the same location, not a new allocation
            assert_eq!(r.base, reference.base);
            assert_eq!(r.reflect_path.len(), 0);
        }
        other => panic!("unexpected script value: {:?}", other),
    }
}

#[test]
fn optionals_unwrap_one_level_and_empty_becomes_unit() {
    let mut world = ScriptWorld::new();
    let filled = reference_to(
        &mut world,
        ReflectValue::Opt(Some(Box::new(ReflectValue::Int(5)))),
    );
    match into_script_ref(filled, &mut world) {
        Ok(ScriptValue::Integer(5)) => {}
        other => panic!("unexpected script value: {:?}", other),
    }
    let empty = reference_to(&mut world, ReflectValue::Opt(None));
    match into_script_ref(empty, &mut world) {
        Ok(ScriptValue::Unit) => {}
        other => panic!("unexpected script value: {:?}", other),
    }
}

#[test]
fn assignment_rejects_mismatched_shapes() {
    let mut world = ScriptWorld::new();
    let reference = reference_to(&mut world, ReflectValue::Int(1));
    assert_eq!(
        assign_from_script(&reference, &mut world, ScriptValue::Bool(true)).unwrap_err(),
        InteropError::ImpossibleConversion
    );
    // the failed assignment left the value alone
    assert!(matches!(reference.read_value(&mut world), Ok(ReflectValue::Int(1))));
}

#[test]
fn assignment_merges_struct_fields_by_name() {
    let mut world = ScriptWorld::new();
    let target = reference_to(
        &mut world,
        ReflectValue::Struct {
            tag: Some(TypeTag(7)),
            fields: vec![
                FieldEntry { name: "a".to_string(), value: ReflectValue::Int(1) },
                FieldEntry { name: "b".to_string(), value: ReflectValue::Int(2) },
            ],
        },
    );
    let source = reference_to(
        &mut world,
        ReflectValue::Struct {
            tag: None,
            fields: vec![FieldEntry { name: "b".to_string(), value: ReflectValue::Int(9) }],
        },
    );
    let incoming = into_script_ref(source, &mut world).expect("source resolves");
    assign_from_script(&target, &mut world, incoming).expect("merge succeeds");
    let a = target.extend_path(&PathSegment::Field("a".to_string()));
    let b = target.extend_path(&PathSegment::Field("b".to_string()));
    assert!(matches!(a.read_value(&mut world), Ok(ReflectValue::Int(1))));
    assert!(matches!(b.read_value(&mut world), Ok(ReflectValue::Int(9))));
}

#[test]
fn assignment_rejects_unknown_source_fields() {
    let mut world = ScriptWorld::new();
    let target = reference_to(
        &mut world,
        ReflectValue::Struct {
            tag: None,
            fields: vec![FieldEntry { name: "a".to_string(), value: ReflectValue::Int(1) }],
        },
    );
    let source = reference_to(
        &mut world,
        ReflectValue::Struct {
            tag: None,
            fields: vec![FieldEntry { name: "zz".to_string(), value: ReflectValue::Int(9) }],
        },
    );
    let incoming = into_script_ref(source, &mut world).expect("source resolves");
    assert_eq!(
        assign_from_script(&target, &mut world, incoming).unwrap_err(),
        InteropError::ImpossibleConversion
    );
}

#[test]
fn assignment_through_a_path_replaces_the_element() {
    let mut world = ScriptWorld::new();
    let base = reference_to(
        &mut world,
        ReflectValue::List(vec![ReflectValue::Int(10), ReflectValue::Int(20)]),
    );
    let elem = base.extend_path(&PathSegment::ListIndex(0));
    assign_from_script(&elem, &mut world, ScriptValue::Integer(77)).expect("assigns");
    assert!(matches!(elem.read_value(&mut world), Ok(ReflectValue::Int(77))));
}
