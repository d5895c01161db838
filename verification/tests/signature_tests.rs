use script_bindings::commands::{CreateOrUpdateScript, DeleteScript};
use script_bindings::path::{AccessPath, PathSegment};
use script_bindings::signatures::{ImportPath, SelfType};
use script_bindings::value::{ReflectValue, INT_TAG};
use script_bindings::TypeTag;

#[test]
fn receiver_shapes_classify_references() {
    assert!(!SelfType::Self_.is_any_ref());
    assert!(SelfType::RefSelf.is_any_ref());
    assert!(SelfType::MutSelf.is_any_ref());
    assert!(!SelfType::Self_.is_mut_ref());
    assert!(!SelfType::RefSelf.is_mut_ref());
    assert!(SelfType::MutSelf.is_mut_ref());
}

#[test]
fn replace_prefix_strips_a_leading_string_prefix() {
    let path = ImportPath::new(vec!["bevy_core".to_string(), "prelude".to_string()]);
    let swapped = path.replace_prefix(&"bevy".to_string(), &"crate".to_string());
    assert_eq!(swapped.components, vec!["crate_core", "prelude"]);
    // the source path is unchanged: a new value comes back
    assert_eq!(path.components, vec!["bevy_core", "prelude"]);
    // a head the prefix does not lead is kept as it is
    let unchanged = path.replace_prefix(&"core".to_string(), &"crate".to_string());
    assert_eq!(unchanged.components, vec!["bevy_core", "prelude"]);
    // a head equal to the prefix becomes the bare replacement
    let whole = ImportPath::new(vec!["bevy".to_string()]);
    assert_eq!(
        whole.replace_prefix(&"bevy".to_string(), &"crate".to_string()).components,
        vec!["crate"]
    );
    // only the first component is rewritten
    let later = ImportPath::new(vec!["prelude".to_string(), "bevy_core".to_string()]);
    assert_eq!(
        later.replace_prefix(&"bevy".to_string(), &"crate".to_string()).components,
        vec!["prelude", "bevy_core"]
    );
    let empty = ImportPath::new(vec![]);
    assert_eq!(
        empty.replace_prefix(&"a".to_string(), &"b".to_string()).components.len(),
        0
    );
}

#[test]
fn commands_carry_their_identifiers() {
    let delete = DeleteScript::new("scripts/init".to_string());
    assert_eq!(delete.id, "scripts/init");
    let create = CreateOrUpdateScript::new("scripts/init".to_string(), vec![1, 2, 3]);
    assert_eq!(create.id, "scripts/init");
    assert_eq!(create.content, vec![1, 2, 3]);
}

#[test]
fn paths_duplicate_and_join_without_sharing() {
    let mut a = AccessPath::empty();
    a.push(PathSegment::Field("x".to_string()));
    let b = a.dup();
    let joined = a.join(&b);
    assert_eq!(a.len(), 1);
    assert_eq!(b.len(), 1);
    assert_eq!(joined.len(), 2);
    assert!(!joined.is_empty());
    assert!(AccessPath::empty().is_empty());
}

#[test]
fn values_report_their_runtime_tags() {
    assert_eq!(ReflectValue::Int(1).runtime_tag(), Some(TypeTag(INT_TAG)));
    assert_eq!(ReflectValue::List(vec![]).runtime_tag(), None);
    assert_eq!(
        ReflectValue::Struct { tag: Some(TypeTag(40)), fields: vec![] }.runtime_tag(),
        Some(TypeTag(40))
    );
    assert_eq!(TypeTag(40).value(), 40);
}

#[test]
fn structural_copies_are_deep() {
    let first = ReflectValue::Struct {
        tag: None,
        fields: vec![script_bindings::value::FieldEntry {
            name: "xs".to_string(),
            value: ReflectValue::List(vec![ReflectValue::Int(1)]),
        }],
    };
    let copy = first.dup();
    match (first, copy) {
        (
            ReflectValue::Struct { fields: mut fa, .. },
            ReflectValue::Struct { fields: mut fb, .. },
        ) => {
            let a = fa.remove(0);
            let b = fb.remove(0);
            assert_eq!(a.name, b.name);
            assert!(matches!(a.value, ReflectValue::List(_)));
            assert!(matches!(b.value, ReflectValue::List(_)));
        }
        _ => panic!("shape lost in copy"),
    }
}
