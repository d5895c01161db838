use script_bindings::arena::{ReflectAllocationId, ReflectAllocator};
use script_bindings::value::ReflectValue;

#[test]
fn test_reflect_allocator() {
    let mut allocator = ReflectAllocator::new();
    let (_id, val) = allocator.allocate(ReflectValue::Int(0));
    assert_eq!(allocator.allocation_count(), 1);
    allocator.release(val);
    allocator.clean_garbage_allocations();
    assert_eq!(allocator.allocation_count(), 0);
}

#[test]
fn collection_keeps_referenced_allocations() {
    let mut allocator = ReflectAllocator::new();
    let (id_kept, _val_kept) = allocator.allocate(ReflectValue::Int(1));
    let (_id_dropped, val_dropped) = allocator.allocate(ReflectValue::Int(2));
    allocator.release(val_dropped);
    allocator.clean_garbage_allocations();
    assert_eq!(allocator.allocation_count(), 1);
    assert!(matches!(allocator.peek(id_kept), Some(ReflectValue::Int(1))));
}

#[test]
fn get_vends_further_handles_and_counts_them() {
    let mut allocator = ReflectAllocator::new();
    let (id, first) = allocator.allocate(ReflectValue::Bool(true));
    assert_eq!(allocator.handle_count(id), Some(1));
    let second = allocator.get(id).expect("allocation is live");
    assert_eq!(second.id().id(), id.id());
    assert_eq!(allocator.handle_count(id), Some(2));
    allocator.release(first);
    assert_eq!(allocator.handle_count(id), Some(1));
    allocator.clean_garbage_allocations();
    assert_eq!(allocator.allocation_count(), 1);
    allocator.release(second);
    allocator.clean_garbage_allocations();
    assert_eq!(allocator.allocation_count(), 0);
}

#[test]
fn identities_are_not_reused() {
    let mut allocator = ReflectAllocator::new();
    let (id0, _h0) = allocator.allocate(ReflectValue::Int(1));
    allocator.deallocate(id0);
    let (id1, _h1) = allocator.allocate(ReflectValue::Int(2));
    assert_ne!(id0.id(), id1.id());
    assert!(allocator.peek(id0).is_none());
    assert!(matches!(allocator.peek(id1), Some(ReflectValue::Int(2))));
}

#[test]
fn boxed_allocation_stores_the_same_value() {
    let mut allocator = ReflectAllocator::new();
    let (id, _h) = allocator.allocate_boxed(Box::new(ReflectValue::Str("abc".to_string())));
    match allocator.peek(id) {
        Some(ReflectValue::Str(s)) => assert_eq!(s, "abc"),
        other => panic!("unexpected stored value: {:?}", other),
    }
}

#[test]
fn take_removes_and_returns_the_value() {
    let mut allocator = ReflectAllocator::new();
    let (id, _h) = allocator.allocate(ReflectValue::Int(42));
    match allocator.take(id) {
        Some(ReflectValue::Int(42)) => {}
        other => panic!("unexpected taken value: {:?}", other),
    }
    assert!(allocator.take(id).is_none());
    assert_eq!(allocator.allocation_count(), 0);
}

#[test]
fn type_ids_follow_the_stored_value() {
    let mut allocator = ReflectAllocator::new();
    let (id_struct, _h1) = allocator.allocate(ReflectValue::Struct {
        tag: Some(script_bindings::TypeTag(7)),
        fields: vec![],
    });
    let (id_list, _h2) = allocator.allocate(ReflectValue::List(vec![]));
    assert_eq!(allocator.get_type_id(id_struct), Some(script_bindings::TypeTag(7)));
    assert_eq!(allocator.get_type_id(id_list), None);
    assert_eq!(allocator.get_type_id(ReflectAllocationId(99)), None);
}
