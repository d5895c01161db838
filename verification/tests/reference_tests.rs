use script_bindings::error::InteropError;
use script_bindings::iter::IterationKey;
use script_bindings::path::{AccessPath, PathSegment};
use script_bindings::reference::{ReflectBase, ReflectBaseType, ReflectReference, TypeIdSource};
use script_bindings::value::{FieldEntry, ReflectValue};
use script_bindings::world::ScriptWorld;
use script_bindings::TypeTag;

fn sample_struct() -> ReflectValue {
    ReflectValue::Struct {
        tag: Some(TypeTag(7)),
        fields: vec![
            FieldEntry { name: "a".to_string(), value: ReflectValue::Int(1) },
            FieldEntry {
                name: "list".to_string(),
                value: ReflectValue::List(vec![
                    ReflectValue::Int(10),
                    ReflectValue::Int(20),
                    ReflectValue::Int(30),
                ]),
            },
        ],
    }
}

#[test]
fn field_then_index_resolves_writes_and_rejects_out_of_range() {
    let mut world = ScriptWorld::new();
    let base = ReflectReference::new_allocated(sample_struct(), &mut world.arena);
    let list_ref = base.extend_path(&PathSegment::Field("list".to_string()));
    let elem_ref = list_ref.extend_path(&PathSegment::ListIndex(1));
    match elem_ref.read_value(&mut world) {
        Ok(ReflectValue::Int(20)) => {}
        other => panic!("unexpected resolution: {:?}", other),
    }
    elem_ref.write_value(&mut world, ReflectValue::Int(99)).expect("write succeeds");
    match elem_ref.read_value(&mut world) {
        Ok(ReflectValue::Int(99)) => {}
        other => panic!("unexpected resolution after write: {:?}", other),
    }
    let out_of_range = list_ref.extend_path(&PathSegment::ListIndex(5));
    assert_eq!(out_of_range.read_value(&mut world).unwrap_err(), InteropError::PathError);
}

#[test]
fn extension_in_steps_equals_extension_at_once() {
    let mut world = ScriptWorld::new();
    let base = ReflectReference::new_allocated(sample_struct(), &mut world.arena);
    let stepwise = base
        .extend_path(&PathSegment::Field("list".to_string()))
        .extend_path(&PathSegment::ListIndex(2));
    let mut joined = base.dup();
    let mut path = AccessPath::empty();
    path.push(PathSegment::Field("list".to_string()));
    path.push(PathSegment::ListIndex(2));
    joined.index_path(&path);
    let a = stepwise.read_value(&mut world).expect("stepwise resolves");
    let b = joined.read_value(&mut world).expect("joined resolves");
    assert!(matches!(a, ReflectValue::Int(30)));
    assert!(matches!(b, ReflectValue::Int(30)));
    // extension never mutated the base: it still denotes the whole struct
    match base.len(&mut world) {
        Ok(Some(2)) => {}
        other => panic!("unexpected length: {:?}", other),
    }
}

#[test]
fn unknown_field_and_wrong_shape_fail_with_path_error() {
    let mut world = ScriptWorld::new();
    let base = ReflectReference::new_allocated(sample_struct(), &mut world.arena);
    let missing = base.extend_path(&PathSegment::Field("missing".to_string()));
    assert_eq!(missing.read_value(&mut world).unwrap_err(), InteropError::PathError);
    let wrong_shape = base.extend_path(&PathSegment::ListIndex(0));
    assert_eq!(wrong_shape.read_value(&mut world).unwrap_err(), InteropError::PathError);
}

#[test]
fn stale_allocation_is_reported() {
    let mut world = ScriptWorld::new();
    let base = ReflectReference::new_allocated(ReflectValue::Int(5), &mut world.arena);
    match base.base.base_id {
        ReflectBase::Owned(id) => world.arena.deallocate(id),
        _ => panic!("allocation expected"),
    }
    assert_eq!(base.read_value(&mut world).unwrap_err(), InteropError::StaleAllocation);
    assert_eq!(
        base.write_value(&mut world, ReflectValue::Int(6)).unwrap_err(),
        InteropError::StaleAllocation
    );
}

#[test]
fn iteration_yields_three_elements_then_a_path_error() {
    let mut world = ScriptWorld::new();
    let list = ReflectValue::List(vec![
        ReflectValue::Int(1),
        ReflectValue::Int(2),
        ReflectValue::Int(3),
    ]);
    let base = ReflectReference::new_allocated(list, &mut world.arena);
    let mut iter = base.into_iter_infinite();
    for expected in [1i64, 2, 3] {
        let (elem_ref, key) = iter.next_ref();
        match elem_ref.read_value(&mut world) {
            Ok(ReflectValue::Int(n)) => assert_eq!(n, expected),
            other => panic!("unexpected element: {:?}", other),
        }
        assert_eq!(key, IterationKey::Index((expected - 1) as usize));
    }
    let (fourth, key) = iter.next_ref();
    assert_eq!(key, IterationKey::Index(3));
    assert_eq!(fourth.read_value(&mut world).unwrap_err(), InteropError::PathError);
}

#[test]
fn lengths_follow_the_resolved_shape() {
    let mut world = ScriptWorld::new();
    let base = ReflectReference::new_allocated(sample_struct(), &mut world.arena);
    assert_eq!(base.len(&mut world), Ok(Some(2)));
    let list_ref = base.extend_path(&PathSegment::Field("list".to_string()));
    assert_eq!(list_ref.read_value(&mut world).is_ok(), true);
    assert_eq!(list_ref.len(&mut world), Ok(Some(3)));
    let elem_ref = list_ref.extend_path(&PathSegment::ListIndex(0));
    assert_eq!(elem_ref.len(&mut world), Ok(None));
}

#[test]
fn type_queries_follow_the_resolved_value() {
    let mut world = ScriptWorld::new();
    let base = ReflectReference::new_allocated(sample_struct(), &mut world.arena);
    assert_eq!(base.tail_type_id(&mut world), Ok(Some(TypeTag(7))));
    assert_eq!(base.type_id_of(TypeIdSource::Tail, &mut world), Ok(Some(TypeTag(7))));
    let list_ref = base.extend_path(&PathSegment::Field("list".to_string()));
    assert_eq!(
        list_ref.type_id_of(TypeIdSource::Element, &mut world),
        Ok(Some(TypeTag(script_bindings::value::INT_TAG)))
    );
    assert_eq!(list_ref.type_id_of(TypeIdSource::Key, &mut world), Ok(None));
}

#[test]
fn to_owned_value_takes_a_sole_allocation_and_copies_otherwise() {
    let mut world = ScriptWorld::new();
    let base = ReflectReference::new_allocated(ReflectValue::Int(11), &mut world.arena);
    let owned = base.to_owned_value(&mut world).expect("take succeeds");
    assert!(matches!(owned, ReflectValue::Int(11)));
    // the sole-handle fast path removed the allocation
    assert_eq!(base.read_value(&mut world).unwrap_err(), InteropError::StaleAllocation);

    let base2 = ReflectReference::new_allocated(ReflectValue::Int(12), &mut world.arena);
    let id2 = match base2.base.base_id {
        ReflectBase::Owned(id) => id,
        _ => panic!("allocation expected"),
    };
    let extra_handle = world.arena.get(id2).expect("live");
    let copied = base2.to_owned_value(&mut world).expect("copy succeeds");
    assert!(matches!(copied, ReflectValue::Int(12)));
    // with a second handle outstanding, the allocation stays
    assert!(matches!(base2.read_value(&mut world), Ok(ReflectValue::Int(12))));
    world.arena.release(extra_handle);
}

#[test]
fn world_root_references_carry_no_adapter() {
    let mut world = ScriptWorld::new();
    let root = ReflectReference::new_base(ReflectBaseType {
        type_id: TypeTag(0),
        base_id: ReflectBase::World,
    });
    assert_eq!(root.read_value(&mut world).unwrap_err(), InteropError::UnregisteredBase);
}
