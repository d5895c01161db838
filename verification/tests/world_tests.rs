use script_bindings::access::ReflectAccessId;
use script_bindings::error::InteropError;
use script_bindings::providers::{
    BevyAPIProvider, BevyHierarchyAPIProvider, BevyTimeAPIProvider, BevyWindowAPIProvider, Timer,
    Parent, WindowMode,
};
use script_bindings::reference::{ReflectBase, ReflectBaseType, ReflectReference};
use script_bindings::value::{FieldEntry, ReflectValue};
use script_bindings::world::ScriptWorld;
use script_bindings::{ComponentId, Entity, TypeTag};

#[test]
fn singleton_references_resolve_once_registered() {
    let mut world = ScriptWorld::new();
    BevyTimeAPIProvider::register(&mut world);
    world.insert_host_value(
        ReflectAccessId::Resource(ComponentId(1)),
        Timer::tag(),
        ReflectValue::Struct {
            tag: Some(Timer::tag()),
            fields: vec![FieldEntry { name: "elapsed".to_string(), value: ReflectValue::Int(3) }],
        },
    );
    let r = ReflectReference::new_resource_ref(&world, ComponentId(1)).expect("stored");
    let elapsed = r.extend_path(&script_bindings::path::PathSegment::Field(
        "elapsed".to_string(),
    ));
    assert_eq!(elapsed.downcast_int(&mut world), Ok(3));
}

#[test]
fn unregistered_base_types_are_rejected() {
    let mut world = ScriptWorld::new();
    // the value is stored, but its type has no registry entry
    world.insert_host_value(
        ReflectAccessId::Resource(ComponentId(2)),
        TypeTag(999),
        ReflectValue::Int(5),
    );
    let r = ReflectReference::new_resource_ref(&world, ComponentId(2)).expect("stored");
    assert_eq!(r.read_value(&mut world).unwrap_err(), InteropError::UnregisteredBase);
    // an absent singleton yields no reference at all
    assert!(ReflectReference::new_resource_ref(&world, ComponentId(3)).is_none());
}

#[test]
fn component_references_resolve_per_entity() {
    let mut world = ScriptWorld::new();
    BevyHierarchyAPIProvider::register(&mut world);
    world.insert_host_value(
        ReflectAccessId::Component(Entity(4), ComponentId(5)),
        Parent::tag(),
        ReflectValue::Int(77),
    );
    let r = ReflectReference::new_component_ref(&world, Entity(4), ComponentId(5))
        .expect("stored");
    assert_eq!(r.downcast_int(&mut world), Ok(77));
    assert!(ReflectReference::new_component_ref(&world, Entity(9), ComponentId(5)).is_none());
}

#[test]
fn nested_access_to_the_same_base_is_denied_and_recovers() {
    let mut world = ScriptWorld::new();
    BevyWindowAPIProvider::register(&mut world);
    world.insert_host_value(
        ReflectAccessId::Resource(ComponentId(6)),
        WindowMode::tag(),
        ReflectValue::Int(1),
    );
    let r1 = ReflectReference::new_resource_ref(&world, ComponentId(6)).expect("stored");
    let r2 = r1.dup();
    let (world_after, outcome) = r1.with_reflect_mut(world, move |mut inner_world, value| {
        // the exclusive claim on the shared base is still out here
        let nested = r2.read_value(&mut inner_world);
        assert_eq!(nested.unwrap_err(), InteropError::AccessConflict);
        (inner_world, value, ())
    });
    let mut world = world_after;
    outcome.expect("outer access succeeds");
    // after the outer call returned, a fresh access succeeds
    let r2 = r1.dup();
    assert!(matches!(r2.read_value(&mut world), Ok(ReflectValue::Int(1))));
}

#[test]
fn scoped_read_callback_sees_the_resolved_value() {
    let mut world = ScriptWorld::new();
    let base = ReflectReference::new_allocated(ReflectValue::Int(41), &mut world.arena);
    let (world_after, outcome) = base.with_reflect(world, |inner_world, value| {
        let n = match value {
            ReflectValue::Int(n) => n,
            other => panic!("unexpected value: {:?}", other),
        };
        (inner_world, n + 1)
    });
    assert_eq!(outcome.expect("resolves"), 42);
    let mut world = world_after;
    assert!(matches!(base.read_value(&mut world), Ok(ReflectValue::Int(41))));
}

#[test]
fn scoped_write_callback_replaces_the_value() {
    let mut world = ScriptWorld::new();
    let base = ReflectReference::new_allocated(ReflectValue::Int(1), &mut world.arena);
    let (world_after, outcome) = base.with_reflect_mut(world, |inner_world, _value| {
        (inner_world, ReflectValue::Int(2), ())
    });
    outcome.expect("write succeeds");
    let mut world = world_after;
    assert!(matches!(base.read_value(&mut world), Ok(ReflectValue::Int(2))));
}

#[test]
fn downcast_reports_type_mismatches() {
    let mut world = ScriptWorld::new();
    let base = ReflectReference::new_allocated(ReflectValue::Bool(true), &mut world.arena);
    assert_eq!(base.downcast_int(&mut world).unwrap_err(), InteropError::TypeMismatch);
}

#[test]
fn the_aggregate_provider_registers_every_group() {
    let mut world = ScriptWorld::new();
    BevyAPIProvider::register(&mut world);
    for comp in [10u64, 11, 12] {
        world.insert_host_value(
            ReflectAccessId::Resource(ComponentId(comp)),
            match comp {
                10 => Timer::tag(),
                11 => Parent::tag(),
                _ => WindowMode::tag(),
            },
            ReflectValue::Int(comp as i64),
        );
        let r = ReflectReference::new_resource_ref(&world, ComponentId(comp)).expect("stored");
        assert_eq!(r.downcast_int(&mut world), Ok(comp as i64));
    }
}

#[test]
fn world_root_base_has_its_own_access_identity() {
    let root = ReflectReference::new_base(ReflectBaseType {
        type_id: TypeTag(0),
        base_id: ReflectBase::World,
    });
    assert_eq!(root.access_id(), ReflectAccessId::World);
}

#[test]
fn downcasts_cover_every_primitive_shape() {
    let mut world = ScriptWorld::new();
    let unit_ref = world.allocate(ReflectValue::Unit);
    let bool_ref = world.allocate(ReflectValue::Bool(true));
    let char_ref = world.allocate(ReflectValue::Ch('q'));
    let str_ref = world.allocate(ReflectValue::Str("abc".to_string()));
    let int_ref = world.allocate(ReflectValue::Int(7));
    assert_eq!(unit_ref.downcast_unit(&mut world), Ok(()));
    assert_eq!(bool_ref.downcast_bool(&mut world), Ok(true));
    assert_eq!(char_ref.downcast_char(&mut world), Ok('q'));
    assert_eq!(str_ref.downcast_str(&mut world), Ok("abc".to_string()));
    assert_eq!(int_ref.downcast_int(&mut world), Ok(7));
    assert_eq!(
        int_ref.downcast_bool(&mut world).unwrap_err(),
        InteropError::TypeMismatch
    );
    assert_eq!(
        bool_ref.downcast_char(&mut world).unwrap_err(),
        InteropError::TypeMismatch
    );
    assert_eq!(
        char_ref.downcast_str(&mut world).unwrap_err(),
        InteropError::TypeMismatch
    );
    assert_eq!(
        str_ref.downcast_unit(&mut world).unwrap_err(),
        InteropError::TypeMismatch
    );
}

#[test]
fn context_level_allocation_matches_the_arena_route() {
    let mut world = ScriptWorld::new();
    let direct = world.allocate(ReflectValue::Int(1));
    let boxed = world.allocate_boxed(Box::new(ReflectValue::Int(2)));
    assert_eq!(direct.downcast_int(&mut world), Ok(1));
    assert_eq!(boxed.downcast_int(&mut world), Ok(2));
    // the borrow accessors reach the same state the context methods see
    assert_eq!(world.arena_mut().allocation_count(), 2);
    assert!(!world.accesses_mut().global_claimed());
    world.registry_mut().register(TypeTag(77));
    assert!(world.registry_mut().contains(TypeTag(77)));
}
