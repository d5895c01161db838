//! Path navigation over type-erased values: the meaning of walking a path
//! segment by segment, and of writing a new value at the location a path
//! denotes. Segments are resolved strictly left to right against the
//! intermediate value the previous segments led to.

use vstd::prelude::*;

use crate::error::InteropError;
use crate::path::{AccessPath, PathSegment, Seg};
use crate::value::{view_of, FieldEntry, MapEntry, ReflectValue, Val};

verus! {

/// The position of the first entry named `name` in an association list,
/// if any.
pub open spec fn entry_idx(entries: Seq<(Seq<char>, Val)>, name: Seq<char>) -> Option<int>
    decreases entries.len(),
{
    if entries.len() == 0 {
        None
    } else if entries[0].0 == name {
        Some(0int)
    } else {
        match entry_idx(entries.drop_first(), name) {
            Some(j) => Some(j + 1),
            None => None,
        }
    }
}

/// The value of the first entry named `name`, if any.
pub open spec fn entry_lookup(entries: Seq<(Seq<char>, Val)>, name: Seq<char>) -> Option<Val> {
    match entry_idx(entries, name) {
        Some(j) => Some(entries[j].1),
        None => None,
    }
}

/// What `entry_idx` returns: the first matching position, in range, and
/// nothing matches when it returns nothing.
pub proof fn lemma_entry_idx_props(entries: Seq<(Seq<char>, Val)>, name: Seq<char>)
    ensures
        match entry_idx(entries, name) {
            Some(j) => 0 <= j < entries.len() && entries[j].0 == name && forall|k: int|
                0 <= k < j ==> entries[k].0 != name,
            None => forall|k: int| 0 <= k < entries.len() ==> entries[k].0 != name,
        },
    decreases entries.len(),
{
    if entries.len() == 0 {
    } else if entries[0].0 == name {
    } else {
        lemma_entry_idx_props(entries.drop_first(), name);
        match entry_idx(entries.drop_first(), name) {
            Some(j) => {
                assert(entries.drop_first()[j] == entries[j + 1]);
                assert forall|k: int| 0 <= k < j + 1 implies entries[k].0 != name by {
                    if k > 0 {
                        assert(entries.drop_first()[k - 1] == entries[k]);
                    }
                }
            },
            None => {
                assert forall|k: int| 0 <= k < entries.len() implies entries[k].0 != name by {
                    if k > 0 {
                        assert(entries.drop_first()[k - 1] == entries[k]);
                    }
                }
            },
        }
    }
}

/// `entry_idx` is determined by the first matching position: if position
/// `j` matches and no earlier one does, `entry_idx` returns `j`.
pub proof fn lemma_entry_idx_found(entries: Seq<(Seq<char>, Val)>, name: Seq<char>, j: int)
    requires
        0 <= j < entries.len(),
        entries[j].0 == name,
        forall|k: int| 0 <= k < j ==> entries[k].0 != name,
    ensures
        entry_idx(entries, name) == Some(j),
{
    lemma_entry_idx_props(entries, name);
    match entry_idx(entries, name) {
        Some(j2) => {
            if j2 < j {
                assert(entries[j2].0 != name);
            }
            if j < j2 {
                assert(entries[j].0 != name);
            }
        },
        None => {
            assert(entries[j].0 != name);
        },
    }
}

/// One navigation step: the sub-value that `seg` denotes inside `v`, or
/// nothing when the segment does not apply to `v`'s shape.
pub open spec fn seg_step(v: Val, seg: Seg) -> Option<Val> {
    match seg {
        Seg::Field(name) => match v {
            Val::Struct { tag: _, fields } => entry_lookup(fields, name),
            _ => None,
        },
        Seg::TupleIndex(i) => match v {
            Val::Tuple(items) => if 0 <= i < items.len() {
                Some(items[i])
            } else {
                None
            },
            Val::Opt(o) => if i == 0 {
                match o {
                    Some(b) => Some(*b),
                    None => None,
                }
            } else {
                None
            },
            _ => None,
        },
        Seg::ListIndex(i) => match v {
            Val::List(items) => if 0 <= i < items.len() {
                Some(items[i])
            } else {
                None
            },
            _ => None,
        },
        Seg::MapKey(key) => match v {
            Val::MapVal(entries) => entry_lookup(entries, key),
            _ => None,
        },
    }
}

/// Walking a whole path: repeated single-step navigation, left to right.
pub open spec fn walk_path(v: Val, path: Seq<Seg>) -> Option<Val>
    decreases path.len(),
{
    if path.len() == 0 {
        Some(v)
    } else {
        match seg_step(v, path[0]) {
            Some(child) => walk_path(child, path.drop_first()),
            None => None,
        }
    }
}

/// One write step: `v` with the sub-value that `seg` denotes replaced by
/// `nv`, or nothing when the segment does not apply. The write succeeds
/// exactly when the read step does, except that writing into an empty
/// optional fails.
pub open spec fn seg_store(v: Val, seg: Seg, nv: Val) -> Option<Val> {
    match seg {
        Seg::Field(name) => match v {
            Val::Struct { tag, fields } => match entry_idx(fields, name) {
                Some(j) => Some(Val::Struct { tag, fields: fields.update(j, (name, nv)) }),
                None => None,
            },
            _ => None,
        },
        Seg::TupleIndex(i) => match v {
            Val::Tuple(items) => if 0 <= i < items.len() {
                Some(Val::Tuple(items.update(i, nv)))
            } else {
                None
            },
            Val::Opt(o) => if i == 0 && o is Some {
                Some(Val::Opt(Some(Box::new(nv))))
            } else {
                None
            },
            _ => None,
        },
        Seg::ListIndex(i) => match v {
            Val::List(items) => if 0 <= i < items.len() {
                Some(Val::List(items.update(i, nv)))
            } else {
                None
            },
            _ => None,
        },
        Seg::MapKey(key) => match v {
            Val::MapVal(entries) => match entry_idx(entries, key) {
                Some(j) => Some(Val::MapVal(entries.update(j, (key, nv)))),
                None => None,
            },
            _ => None,
        },
    }
}

/// Writing `nv` at the location `path` denotes inside `v`: the updated
/// whole value, or nothing when the path does not resolve.
pub open spec fn store_path(v: Val, path: Seq<Seg>, nv: Val) -> Option<Val>
    decreases path.len(),
{
    if path.len() == 0 {
        Some(nv)
    } else {
        match seg_step(v, path[0]) {
            Some(child) => match store_path(child, path.drop_first(), nv) {
                Some(nc) => seg_store(v, path[0], nc),
                None => None,
            },
            None => None,
        }
    }
}

/// A write is never refused where a read succeeds: whenever a path walks
/// to some value, storing any value at that path succeeds too.
pub proof fn lemma_store_total_where_walk_succeeds(v: Val, p: Seq<Seg>, nv: Val)
    requires
        walk_path(v, p) is Some,
    ensures
        store_path(v, p, nv) is Some,
    decreases p.len(),
{
    if p.len() == 0 {
    } else {
        let child = seg_step(v, p[0])->Some_0;
        lemma_store_total_where_walk_succeeds(child, p.drop_first(), nv);
        let nc = store_path(child, p.drop_first(), nv)->Some_0;
        match p[0] {
            Seg::Field(name) => match v {
                Val::Struct { tag: _, fields } => {
                    assert(entry_lookup(fields, name) is Some);
                    assert(entry_idx(fields, name) is Some);
                },
                _ => {},
            },
            Seg::TupleIndex(i) => {},
            Seg::ListIndex(i) => {},
            Seg::MapKey(key) => match v {
                Val::MapVal(entries) => {
                    assert(entry_lookup(entries, key) is Some);
                    assert(entry_idx(entries, key) is Some);
                },
                _ => {},
            },
        }
    }
}

/// How many children the value exposes to iteration and bulk operations:
/// field count for structs, element count for tuples, lists and maps,
/// payload count for optionals, nothing for primitives.
pub open spec fn val_len(v: Val) -> Option<int> {
    match v {
        Val::Struct { tag: _, fields } => Some(fields.len() as int),
        Val::Tuple(items) => Some(items.len() as int),
        Val::List(items) => Some(items.len() as int),
        Val::MapVal(entries) => Some(entries.len() as int),
        Val::Opt(o) => Some(
            match o {
                Some(_) => 1int,
                None => 0int,
            },
        ),
        _ => None,
    }
}

/// Whether the value is a primitive that crosses the script boundary by
/// copy rather than by reference.
pub open spec fn is_primitive_val(v: Val) -> bool {
    match v {
        Val::Unit | Val::Bool(_) | Val::Int(_) | Val::Ch(_) | Val::Str(_) => true,
        _ => false,
    }
}

/// The model of a tuple-shaped value is the model of its element vector.
pub proof fn lemma_tuple_view(items: Vec<ReflectValue>)
    ensures
        view_of(ReflectValue::Tuple(items)) == Val::Tuple(items.deep_view()),
{
    assert(view_of(ReflectValue::Tuple(items))->Tuple_0 =~= items.deep_view());
}

/// The model of a list-shaped value is the model of its element vector.
pub proof fn lemma_list_view(items: Vec<ReflectValue>)
    ensures
        view_of(ReflectValue::List(items)) == Val::List(items.deep_view()),
{
    assert(view_of(ReflectValue::List(items))->List_0 =~= items.deep_view());
}

/// The model of a struct-shaped value is the model of its field vector.
pub proof fn lemma_struct_view(tag: Option<crate::TypeTag>, fields: Vec<FieldEntry>)
    ensures
        view_of(ReflectValue::Struct { tag, fields }) == (Val::Struct {
            tag,
            fields: fields.deep_view(),
        }),
{
    assert(view_of(ReflectValue::Struct { tag, fields })->Struct_fields =~= fields.deep_view());
}

/// The model of a map-shaped value is the model of its entry vector.
pub proof fn lemma_map_view(entries: Vec<MapEntry>)
    ensures
        view_of(ReflectValue::MapVal(entries)) == Val::MapVal(entries.deep_view()),
{
    assert(view_of(ReflectValue::MapVal(entries))->MapVal_0 =~= entries.deep_view());
}

/// The position of the first field named `name`, scanning left to right.
pub(crate) fn find_field(fields: &Vec<FieldEntry>, name: &String) -> (r: Option<usize>)
    ensures
        match r {
            Some(j) => j < fields.len() && entry_idx(fields.deep_view(), name@) == Some(j as int),
            None => entry_idx(fields.deep_view(), name@) is None,
        },
{
    let mut j: usize = 0;
    while j < fields.len()
        invariant
            j <= fields.len(),
            forall|k: int| 0 <= k < j ==> fields.deep_view()[k].0 != name@,
        decreases fields.len() - j,
    {
        proof {
            assert(fields.deep_view()[j as int] == fields@[j as int].deep_view());
        }
        if fields[j].name == *name {
            proof {
                lemma_entry_idx_found(fields.deep_view(), name@, j as int);
            }
            return Some(j);
        }
        j += 1;
    }
    proof {
        lemma_entry_idx_props(fields.deep_view(), name@);
    }
    None
}

/// The position of the first map entry keyed `key`, scanning left to right.
fn find_key(entries: &Vec<MapEntry>, key: &String) -> (r: Option<usize>)
    ensures
        match r {
            Some(j) => j < entries.len() && entry_idx(entries.deep_view(), key@) == Some(j as int),
            None => entry_idx(entries.deep_view(), key@) is None,
        },
{
    let mut j: usize = 0;
    while j < entries.len()
        invariant
            j <= entries.len(),
            forall|k: int| 0 <= k < j ==> entries.deep_view()[k].0 != key@,
        decreases entries.len() - j,
    {
        proof {
            assert(entries.deep_view()[j as int] == entries@[j as int].deep_view());
        }
        if entries[j].key == *key {
            proof {
                lemma_entry_idx_found(entries.deep_view(), key@, j as int);
            }
            return Some(j);
        }
        j += 1;
    }
    proof {
        lemma_entry_idx_props(entries.deep_view(), key@);
    }
    None
}

/// Resolves `path` against `v` starting at segment `from`, returning a
/// copy of the value the remaining segments denote.
pub fn walk_from(v: &ReflectValue, path: &AccessPath, from: usize) -> (r: Result<
    ReflectValue,
    InteropError,
>)
    requires
        from <= path.deep_view().len(),
    ensures
        match walk_path(view_of(*v), path.deep_view().skip(from as int)) {
            Some(t) => r matches Ok(out) && view_of(out) == t,
            None => r == Err::<ReflectValue, InteropError>(InteropError::PathError),
        },
    decreases path.deep_view().len() - from,
{
    let ghost rest = path.deep_view().skip(from as int);
    if from == path.segments.len() {
        let out = v.dup();
        return Ok(out);
    }
    proof {
        assert(rest[0] == path.deep_view()[from as int]);
        assert(rest.drop_first() =~= path.deep_view().skip(from as int + 1));
    }
    let seg = &path.segments[from];
    match (v, seg) {
        (ReflectValue::Struct { tag, fields }, PathSegment::Field(name)) => {
            proof {
                lemma_struct_view(*tag, *fields);
            }
            match find_field(fields, name) {
                Some(j) => {
                    proof {
                        assert(fields.deep_view()[j as int] == fields@[j as int].deep_view());
                    }
                    walk_from(&fields[j].value, path, from + 1)
                },
                None => Err(InteropError::PathError),
            }
        },
        (ReflectValue::Tuple(items), PathSegment::TupleIndex(ix)) => {
            proof {
                lemma_tuple_view(*items);
            }
            if *ix < items.len() {
                proof {
                    assert(items.deep_view()[*ix as int] == items@[*ix as int].deep_view());
                }
                walk_from(&items[*ix], path, from + 1)
            } else {
                Err(InteropError::PathError)
            }
        },
        (ReflectValue::List(items), PathSegment::ListIndex(ix)) => {
            proof {
                lemma_list_view(*items);
            }
            if *ix < items.len() {
                proof {
                    assert(items.deep_view()[*ix as int] == items@[*ix as int].deep_view());
                }
                walk_from(&items[*ix], path, from + 1)
            } else {
                Err(InteropError::PathError)
            }
        },
        (ReflectValue::MapVal(entries), PathSegment::MapKey(key)) => {
            proof {
                lemma_map_view(*entries);
            }
            match find_key(entries, key) {
                Some(j) => {
                    proof {
                        assert(entries.deep_view()[j as int] == entries@[j as int].deep_view());
                    }
                    walk_from(&entries[j].value, path, from + 1)
                },
                None => Err(InteropError::PathError),
            }
        },
        (ReflectValue::Opt(o), PathSegment::TupleIndex(ix)) => {
            if *ix == 0 {
                match o {
                    Some(b) => walk_from(b, path, from + 1),
                    None => Err(InteropError::PathError),
                }
            } else {
                Err(InteropError::PathError)
            }
        },
        _ => Err(InteropError::PathError),
    }
}

/// Writes `nv` at the location the segments of `path` from `from` onward
/// denote inside `v`, rebuilding the surrounding value.
pub fn store_from(v: ReflectValue, path: &AccessPath, from: usize, nv: ReflectValue) -> (r: Result<
    ReflectValue,
    InteropError,
>)
    requires
        from <= path.deep_view().len(),
    ensures
        match store_path(view_of(v), path.deep_view().skip(from as int), view_of(nv)) {
            Some(t) => r matches Ok(out) && view_of(out) == t,
            None => r == Err::<ReflectValue, InteropError>(InteropError::PathError),
        },
    decreases path.deep_view().len() - from,
{
    let ghost rest = path.deep_view().skip(from as int);
    if from == path.segments.len() {
        return Ok(nv);
    }
    proof {
        assert(rest[0] == path.deep_view()[from as int]);
        assert(rest.drop_first() =~= path.deep_view().skip(from as int + 1));
    }
    let seg = &path.segments[from];
    match (v, seg) {
        (ReflectValue::Struct { tag, mut fields }, PathSegment::Field(name)) => {
            let ghost f0 = fields.deep_view();
            let ghost f0v = fields@;
            proof {
                lemma_struct_view(tag, fields);
            }
            match find_field(&fields, name) {
                Some(j) => {
                    proof {
                        lemma_entry_idx_props(f0, name@);
                        assert(f0[j as int] == f0v[j as int].deep_view());
                    }
                    let entry = fields.remove(j);
                    let fname = entry.name;
                    match store_from(entry.value, path, from + 1, nv) {
                        Ok(ncv) => {
                            let ghost nve = (name@, view_of(ncv));
                            fields.insert(j, FieldEntry { name: fname, value: ncv });
                            proof {
                                assert forall|k: int|
                                    0 <= k < fields@.len() implies fields.deep_view()[k] == f0.update(
                                    j as int,
                                    nve,
                                )[k] by {
                                    assert(fields.deep_view()[k] == fields@[k].deep_view());
                                    if k != j {
                                        assert(fields@[k] == f0v[k]);
                                        assert(f0[k] == f0v[k].deep_view());
                                    }
                                }
                                assert(fields.deep_view() =~= f0.update(j as int, nve));
                            }
                            let out = ReflectValue::Struct { tag, fields };
                            proof {
                                lemma_struct_view(tag, out->Struct_fields);
                            }
                            Ok(out)
                        },
                        Err(e) => Err(e),
                    }
                },
                None => Err(InteropError::PathError),
            }
        },
        (ReflectValue::Tuple(mut items), PathSegment::TupleIndex(ix)) => {
            let ghost d0 = items.deep_view();
            let ghost d0v = items@;
            proof {
                lemma_tuple_view(items);
            }
            if *ix < items.len() {
                proof {
                    assert(d0[*ix as int] == d0v[*ix as int].deep_view());
                }
                let child = items.remove(*ix);
                match store_from(child, path, from + 1, nv) {
                    Ok(ncv) => {
                        items.insert(*ix, ncv);
                        proof {
                            assert forall|k: int|
                                0 <= k < items@.len() implies items.deep_view()[k] == d0.update(
                                *ix as int,
                                view_of(ncv),
                            )[k] by {
                                assert(items.deep_view()[k] == items@[k].deep_view());
                                if k != *ix {
                                    assert(items@[k] == d0v[k]);
                                    assert(d0[k] == d0v[k].deep_view());
                                }
                            }
                            assert(items.deep_view() =~= d0.update(*ix as int, view_of(ncv)));
                        }
                        let out = ReflectValue::Tuple(items);
                        proof {
                            lemma_tuple_view(out->Tuple_0);
                        }
                        Ok(out)
                    },
                    Err(e) => Err(e),
                }
            } else {
                Err(InteropError::PathError)
            }
        },
        (ReflectValue::List(mut items), PathSegment::ListIndex(ix)) => {
            let ghost d0 = items.deep_view();
            let ghost d0v = items@;
            proof {
                lemma_list_view(items);
            }
            if *ix < items.len() {
                proof {
                    assert(d0[*ix as int] == d0v[*ix as int].deep_view());
                }
                let child = items.remove(*ix);
                match store_from(child, path, from + 1, nv) {
                    Ok(ncv) => {
                        items.insert(*ix, ncv);
                        proof {
                            assert forall|k: int|
                                0 <= k < items@.len() implies items.deep_view()[k] == d0.update(
                                *ix as int,
                                view_of(ncv),
                            )[k] by {
                                assert(items.deep_view()[k] == items@[k].deep_view());
                                if k != *ix {
                                    assert(items@[k] == d0v[k]);
                                    assert(d0[k] == d0v[k].deep_view());
                                }
                            }
                            assert(items.deep_view() =~= d0.update(*ix as int, view_of(ncv)));
                        }
                        let out = ReflectValue::List(items);
                        proof {
                            lemma_list_view(out->List_0);
                        }
                        Ok(out)
                    },
                    Err(e) => Err(e),
                }
            } else {
                Err(InteropError::PathError)
            }
        },
        (ReflectValue::MapVal(mut entries), PathSegment::MapKey(key)) => {
            let ghost e0 = entries.deep_view();
            let ghost e0v = entries@;
            proof {
                lemma_map_view(entries);
            }
            match find_key(&entries, key) {
                Some(j) => {
                    proof {
                        lemma_entry_idx_props(e0, key@);
                        assert(e0[j as int] == e0v[j as int].deep_view());
                    }
                    let entry = entries.remove(j);
                    let kname = entry.key;
                    match store_from(entry.value, path, from + 1, nv) {
                        Ok(ncv) => {
                            let ghost nve = (key@, view_of(ncv));
                            entries.insert(j, MapEntry { key: kname, value: ncv });
                            proof {
                                assert forall|k: int|
                                    0 <= k < entries@.len() implies entries.deep_view()[k]
                                    == e0.update(j as int, nve)[k] by {
                                    assert(entries.deep_view()[k] == entries@[k].deep_view());
                                    if k != j {
                                        assert(entries@[k] == e0v[k]);
                                        assert(e0[k] == e0v[k].deep_view());
                                    }
                                }
                                assert(entries.deep_view() =~= e0.update(j as int, nve));
                            }
                            let out = ReflectValue::MapVal(entries);
                            proof {
                                lemma_map_view(out->MapVal_0);
                            }
                            Ok(out)
                        },
                        Err(e) => Err(e),
                    }
                },
                None => Err(InteropError::PathError),
            }
        },
        (ReflectValue::Opt(o), PathSegment::TupleIndex(ix)) => {
            if *ix == 0 {
                match o {
                    Some(b) => match store_from(*b, path, from + 1, nv) {
                        Ok(ncv) => Ok(ReflectValue::Opt(Some(Box::new(ncv)))),
                        Err(e) => Err(e),
                    },
                    None => Err(InteropError::PathError),
                }
            } else {
                Err(InteropError::PathError)
            }
        },
        _ => Err(InteropError::PathError),
    }
}

impl ReflectValue {
    /// A copy of the sub-value that `path` denotes inside this value, or
    /// a path error exactly when some segment does not apply.
    pub fn get_path(&self, path: &AccessPath) -> (r: Result<ReflectValue, InteropError>)
        ensures
            match walk_path(self.deep_view(), path.deep_view()) {
                Some(t) => r matches Ok(out) && out.deep_view() == t,
                None => r == Err::<ReflectValue, InteropError>(InteropError::PathError),
            },
    {
        proof {
            assert(path.deep_view().skip(0) =~= path.deep_view());
        }
        walk_from(self, path, 0)
    }

    /// This value with `nv` written at the location `path` denotes, or a
    /// path error exactly when some segment does not apply.
    pub fn set_path(self, path: &AccessPath, nv: ReflectValue) -> (r: Result<
        ReflectValue,
        InteropError,
    >)
        ensures
            match store_path(self.deep_view(), path.deep_view(), nv.deep_view()) {
                Some(t) => r matches Ok(out) && out.deep_view() == t,
                None => r == Err::<ReflectValue, InteropError>(InteropError::PathError),
            },
    {
        proof {
            assert(path.deep_view().skip(0) =~= path.deep_view());
        }
        store_from(self, path, 0, nv)
    }
}

} // verus!
