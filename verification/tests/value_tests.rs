use script_bindings::error::InteropError;
use script_bindings::path::{AccessPath, PathSegment};
use script_bindings::value::{MapEntry, ReflectValue};

fn path(segments: Vec<PathSegment>) -> AccessPath {
    let mut p = AccessPath::empty();
    for seg in segments {
        p.push(seg);
    }
    p
}

fn sample_map() -> ReflectValue {
    ReflectValue::MapVal(vec![
        MapEntry { key: "north".to_string(), value: ReflectValue::Int(1) },
        MapEntry { key: "south".to_string(), value: ReflectValue::Int(2) },
    ])
}

#[test]
fn map_keys_navigate_to_their_entries() {
    let map = sample_map();
    let p = path(vec![PathSegment::MapKey("south".to_string())]);
    match map.get_path(&p) {
        Ok(ReflectValue::Int(2)) => {}
        other => panic!("unexpected lookup: {:?}", other),
    }
    let missing = path(vec![PathSegment::MapKey("east".to_string())]);
    assert_eq!(map.get_path(&missing).unwrap_err(), InteropError::PathError);
}

#[test]
fn map_writes_replace_only_the_addressed_entry() {
    let map = sample_map();
    let p = path(vec![PathSegment::MapKey("north".to_string())]);
    let updated = map.set_path(&p, ReflectValue::Int(9)).expect("key exists");
    match updated.get_path(&p) {
        Ok(ReflectValue::Int(9)) => {}
        other => panic!("unexpected value after write: {:?}", other),
    }
    let other_key = path(vec![PathSegment::MapKey("south".to_string())]);
    match updated.get_path(&other_key) {
        Ok(ReflectValue::Int(2)) => {}
        other => panic!("neighbouring entry changed: {:?}", other),
    }
}

#[test]
fn tuple_positions_navigate_and_reject_out_of_range() {
    let tuple = ReflectValue::Tuple(vec![
        ReflectValue::Bool(false),
        ReflectValue::Str("mid".to_string()),
    ]);
    let p1 = path(vec![PathSegment::TupleIndex(1)]);
    match tuple.get_path(&p1) {
        Ok(ReflectValue::Str(s)) => assert_eq!(s, "mid"),
        other => panic!("unexpected lookup: {:?}", other),
    }
    let p2 = path(vec![PathSegment::TupleIndex(2)]);
    assert_eq!(tuple.get_path(&p2).unwrap_err(), InteropError::PathError);
}

#[test]
fn optional_payloads_sit_at_position_zero() {
    let filled = ReflectValue::Opt(Some(Box::new(ReflectValue::Int(5))));
    let p0 = path(vec![PathSegment::TupleIndex(0)]);
    match filled.get_path(&p0) {
        Ok(ReflectValue::Int(5)) => {}
        other => panic!("unexpected payload: {:?}", other),
    }
    let rewrapped = filled.set_path(&p0, ReflectValue::Int(6)).expect("payload exists");
    match rewrapped.get_path(&p0) {
        Ok(ReflectValue::Int(6)) => {}
        other => panic!("unexpected payload after write: {:?}", other),
    }
    let empty = ReflectValue::Opt(None);
    assert_eq!(empty.get_path(&p0).unwrap_err(), InteropError::PathError);
    assert_eq!(
        ReflectValue::Opt(None).set_path(&p0, ReflectValue::Int(1)).unwrap_err(),
        InteropError::PathError
    );
}

#[test]
fn deep_paths_walk_left_to_right_against_intermediate_values() {
    let nested = ReflectValue::MapVal(vec![MapEntry {
        key: "rows".to_string(),
        value: ReflectValue::List(vec![
            ReflectValue::Tuple(vec![ReflectValue::Int(7), ReflectValue::Int(8)]),
        ]),
    }]);
    let p = path(vec![
        PathSegment::MapKey("rows".to_string()),
        PathSegment::ListIndex(0),
        PathSegment::TupleIndex(1),
    ]);
    match nested.get_path(&p) {
        Ok(ReflectValue::Int(8)) => {}
        other => panic!("unexpected deep lookup: {:?}", other),
    }
    let rebuilt = nested.set_path(&p, ReflectValue::Int(88)).expect("path resolves");
    match rebuilt.get_path(&p) {
        Ok(ReflectValue::Int(88)) => {}
        other => panic!("unexpected deep value after write: {:?}", other),
    }
}

#[test]
fn boundary_index_translation_moves_numeric_segments_down() {
    let mut p = AccessPath::empty();
    p.push(PathSegment::Field("rows".to_string()));
    p.push(PathSegment::ListIndex(1));
    p.push(PathSegment::TupleIndex(2));
    p.push(PathSegment::MapKey("k".to_string()));
    p.convert_to_0_indexed();
    match &p.segments[0] {
        PathSegment::Field(name) => assert_eq!(name, "rows"),
        other => panic!("named segment changed: {:?}", other),
    }
    assert!(matches!(p.segments[1], PathSegment::ListIndex(0)));
    assert!(matches!(p.segments[2], PathSegment::TupleIndex(1)));
    match &p.segments[3] {
        PathSegment::MapKey(key) => assert_eq!(key, "k"),
        other => panic!("key segment changed: {:?}", other),
    }
}
