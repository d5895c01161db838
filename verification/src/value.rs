//! The type-erased value shape that the arena stores and references resolve
//! to. A value is self-describing: navigation inspects its shape directly,
//! and the runtime type tag of struct-shaped values records the host type
//! they were registered under.

use vstd::prelude::*;

use crate::error::InteropError;
use crate::path::{AccessPath, PathSegment, Seg};
use crate::TypeTag;

verus! {

/// A named field of a struct-shaped value.
#[derive(Debug)]
pub struct FieldEntry {
    pub name: String,
    pub value: ReflectValue,
}

/// One key-value pair of a map-shaped value.
#[derive(Debug)]
pub struct MapEntry {
    pub key: String,
    pub value: ReflectValue,
}

/// A type-erased host value.
#[derive(Debug)]
pub enum ReflectValue {
    Unit,
    Bool(bool),
    Int(i64),
    Ch(char),
    Str(String),
    /// A tuple or tuple-struct: positions are addressed by index.
    Tuple(Vec<ReflectValue>),
    /// A list or array: elements are addressed by zero-based index.
    List(Vec<ReflectValue>),
    /// A struct: fields are addressed by name. `tag` is the runtime type
    /// identifier the host registered the struct under, if any.
    Struct { tag: Option<TypeTag>, fields: Vec<FieldEntry> },
    /// A map with string-like keys.
    MapVal(Vec<MapEntry>),
    /// An optional wrapper; the payload is addressed as position zero.
    Opt(Option<Box<ReflectValue>>),
}

/// The stand-in type identifier recorded for root values that carry no
/// registered one.
pub const FAKE_TAG: u64 = 0;

/// The fixed type identifiers of the primitive shapes.
pub const UNIT_TAG: u64 = 1;

pub const BOOL_TAG: u64 = 2;

pub const INT_TAG: u64 = 3;

pub const CHAR_TAG: u64 = 4;

pub const STR_TAG: u64 = 5;

/// The mathematical shape of a type-erased value.
#[verifier::ext_equal]
pub enum Val {
    Unit,
    Bool(bool),
    Int(int),
    Ch(char),
    Str(Seq<char>),
    Tuple(Seq<Val>),
    List(Seq<Val>),
    Struct { tag: Option<TypeTag>, fields: Seq<(Seq<char>, Val)> },
    MapVal(Seq<(Seq<char>, Val)>),
    Opt(Option<Box<Val>>),
}

/// The runtime type identifier a value reports: the fixed tag of its
/// primitive shape, the registered tag of a struct shape, nothing for
/// the container shapes.
pub open spec fn tag_of(v: Val) -> Option<TypeTag> {
    match v {
        Val::Unit => Some(TypeTag(UNIT_TAG)),
        Val::Bool(_) => Some(TypeTag(BOOL_TAG)),
        Val::Int(_) => Some(TypeTag(INT_TAG)),
        Val::Ch(_) => Some(TypeTag(CHAR_TAG)),
        Val::Str(_) => Some(TypeTag(STR_TAG)),
        Val::Struct { tag, fields: _ } => tag,
        _ => None,
    }
}

/// The runtime type identifier of a container's elements, as far as the
/// value itself shows it: the tag of the first element, or of the
/// optional payload.
pub open spec fn element_tag(v: Val) -> Option<TypeTag> {
    match v {
        Val::List(items) => if items.len() > 0 {
            tag_of(items[0])
        } else {
            None
        },
        Val::MapVal(entries) => if entries.len() > 0 {
            tag_of(entries[0].1)
        } else {
            None
        },
        Val::Opt(o) => match o {
            Some(b) => tag_of(*b),
            None => None,
        },
        _ => None,
    }
}

/// The runtime type identifier of a container's keys: map keys are
/// string-like; nothing else has keys.
pub open spec fn key_tag(v: Val) -> Option<TypeTag> {
    match v {
        Val::MapVal(_) => Some(TypeTag(STR_TAG)),
        _ => None,
    }
}

/// The model of a type-erased value.
pub open spec fn view_of(v: ReflectValue) -> Val
    decreases v,
{
    match v {
        ReflectValue::Unit => Val::Unit,
        ReflectValue::Bool(b) => Val::Bool(b),
        ReflectValue::Int(i) => Val::Int(i as int),
        ReflectValue::Ch(c) => Val::Ch(c),
        ReflectValue::Str(s) => Val::Str(s@),
        ReflectValue::Tuple(items) => Val::Tuple(
            Seq::new(
                items@.len(),
                |i: int|
                    if 0 <= i < items@.len() {
                        view_of(items@[i])
                    } else {
                        Val::Unit
                    },
            ),
        ),
        ReflectValue::List(items) => Val::List(
            Seq::new(
                items@.len(),
                |i: int|
                    if 0 <= i < items@.len() {
                        view_of(items@[i])
                    } else {
                        Val::Unit
                    },
            ),
        ),
        ReflectValue::Struct { tag, fields } => Val::Struct {
            tag,
            fields: Seq::new(
                fields@.len(),
                |i: int|
                    if 0 <= i < fields@.len() {
                        (fields@[i].name@, view_of(fields@[i].value))
                    } else {
                        (Seq::empty(), Val::Unit)
                    },
            ),
        },
        ReflectValue::MapVal(entries) => Val::MapVal(
            Seq::new(
                entries@.len(),
                |i: int|
                    if 0 <= i < entries@.len() {
                        (entries@[i].key@, view_of(entries@[i].value))
                    } else {
                        (Seq::empty(), Val::Unit)
                    },
            ),
        ),
        ReflectValue::Opt(o) => Val::Opt(
            match o {
                Some(b) => Some(Box::new(view_of(*b))),
                None => None,
            },
        ),
    }
}

impl DeepView for FieldEntry {
    type V = (Seq<char>, Val);

    open spec fn deep_view(&self) -> (Seq<char>, Val) {
        (self.name@, view_of(self.value))
    }
}

impl DeepView for MapEntry {
    type V = (Seq<char>, Val);

    open spec fn deep_view(&self) -> (Seq<char>, Val) {
        (self.key@, view_of(self.value))
    }
}

impl DeepView for ReflectValue {
    type V = Val;

    open spec fn deep_view(&self) -> Val {
        view_of(*self)
    }
}

impl FieldEntry {
    /// An equal copy of this field.
    pub fn dup(&self) -> (r: FieldEntry)
        ensures
            r.deep_view() == self.deep_view(),
        decreases self,
    {
        FieldEntry { name: self.name.clone(), value: self.value.dup() }
    }
}

impl MapEntry {
    /// An equal copy of this entry.
    pub fn dup(&self) -> (r: MapEntry)
        ensures
            r.deep_view() == self.deep_view(),
        decreases self,
    {
        MapEntry { key: self.key.clone(), value: self.value.dup() }
    }
}

impl ReflectValue {
    /// The runtime type identifier this value reports, if any.
    pub fn runtime_tag(&self) -> (r: Option<TypeTag>)
        ensures
            r == tag_of(self.deep_view()),
    {
        match self {
            ReflectValue::Unit => Some(TypeTag(UNIT_TAG)),
            ReflectValue::Bool(_) => Some(TypeTag(BOOL_TAG)),
            ReflectValue::Int(_) => Some(TypeTag(INT_TAG)),
            ReflectValue::Ch(_) => Some(TypeTag(CHAR_TAG)),
            ReflectValue::Str(_) => Some(TypeTag(STR_TAG)),
            ReflectValue::Struct { tag, fields: _ } => *tag,
            _ => None,
        }
    }

    /// A structural copy of this value, equal to it in the model.
    pub fn dup(&self) -> (r: ReflectValue)
        ensures
            r.deep_view() == self.deep_view(),
        decreases self,
    {
        match self {
            ReflectValue::Unit => ReflectValue::Unit,
            ReflectValue::Bool(b) => ReflectValue::Bool(*b),
            ReflectValue::Int(i) => ReflectValue::Int(*i),
            ReflectValue::Ch(c) => ReflectValue::Ch(*c),
            ReflectValue::Str(s) => ReflectValue::Str(s.clone()),
            ReflectValue::Tuple(items) => {
                let out = dup_values(items);
                proof {
                    assert(out.deep_view().len() == out@.len());
                    assert(items.deep_view().len() == items@.len());
                    assert(out@.len() == items@.len());
                    assert forall|k: int| 0 <= k < out@.len() implies view_of(out@[k]) == view_of(
                        items@[k],
                    ) by {
                        assert(out.deep_view()[k] == out@[k].deep_view());
                        assert(items.deep_view()[k] == items@[k].deep_view());
                    }
                }
                let r = ReflectValue::Tuple(out);
                proof {
                    let v1 = r.deep_view();
                    let v2 = self.deep_view();
                    assert(v1 is Tuple && v2 is Tuple);
                    assert(v1->Tuple_0 =~= v2->Tuple_0);
                    assert(v1 == v2);
                }
                r
            },
            ReflectValue::List(items) => {
                let out = dup_values(items);
                proof {
                    assert(out.deep_view().len() == out@.len());
                    assert(items.deep_view().len() == items@.len());
                    assert forall|k: int| 0 <= k < out@.len() implies view_of(out@[k]) == view_of(
                        items@[k],
                    ) by {
                        assert(out.deep_view()[k] == out@[k].deep_view());
                        assert(items.deep_view()[k] == items@[k].deep_view());
                    }
                }
                let r = ReflectValue::List(out);
                proof {
                    let v1 = r.deep_view();
                    let v2 = self.deep_view();
                    assert(v1 is List && v2 is List);
                    assert(v1->List_0 =~= v2->List_0);
                    assert(v1 == v2);
                }
                r
            },
            ReflectValue::Struct { tag, fields } => {
                let out = dup_fields(fields);
                proof {
                    assert(out.deep_view().len() == out@.len());
                    assert(fields.deep_view().len() == fields@.len());
                    assert forall|k: int|
                        0 <= k < out@.len() implies out@[k].deep_view() == fields@[
                        k
                    ].deep_view() by {
                        assert(out.deep_view()[k] == out@[k].deep_view());
                        assert(fields.deep_view()[k] == fields@[k].deep_view());
                    }
                }
                let r = ReflectValue::Struct { tag: *tag, fields: out };
                proof {
                    let v1 = r.deep_view();
                    let v2 = self.deep_view();
                    assert(v1 is Struct && v2 is Struct);
                    assert(v1->Struct_fields =~= v2->Struct_fields);
                    assert(v1 == v2);
                }
                r
            },
            ReflectValue::MapVal(entries) => {
                let out = dup_entries(entries);
                proof {
                    assert(out.deep_view().len() == out@.len());
                    assert(entries.deep_view().len() == entries@.len());
                    assert forall|k: int|
                        0 <= k < out@.len() implies out@[k].deep_view() == entries@[
                        k
                    ].deep_view() by {
                        assert(out.deep_view()[k] == out@[k].deep_view());
                        assert(entries.deep_view()[k] == entries@[k].deep_view());
                    }
                }
                let r = ReflectValue::MapVal(out);
                proof {
                    let v1 = r.deep_view();
                    let v2 = self.deep_view();
                    assert(v1 is MapVal && v2 is MapVal);
                    assert(v1->MapVal_0 =~= v2->MapVal_0);
                    assert(v1 == v2);
                }
                r
            },
            ReflectValue::Opt(o) => match o {
                Some(b) => ReflectValue::Opt(Some(Box::new(b.dup()))),
                None => ReflectValue::Opt(None),
            },
        }
    }
}

/// An elementwise copy of a vector of fields, equal to it in the model.
fn dup_fields(fields: &Vec<FieldEntry>) -> (r: Vec<FieldEntry>)
    ensures
        r.deep_view() == fields.deep_view(),
    decreases fields,
{
    let mut out: Vec<FieldEntry> = Vec::new();
    let mut i: usize = 0;
    while i < fields.len()
        invariant
            i <= fields.len(),
            out.deep_view().len() == i as int,
            forall|k: int| 0 <= k < i ==> out.deep_view()[k] == fields.deep_view()[k],
        decreases fields.len() - i,
    {
        let ghost before = out.deep_view();
        out.push(fields[i].dup());
        proof {
            assert(out.deep_view() =~= before.push(fields.deep_view()[i as int]));
        }
        i += 1;
    }
    proof {
        assert(out.deep_view() =~= fields.deep_view());
    }
    out
}

/// An elementwise copy of a vector of map entries, equal to it in the model.
fn dup_entries(entries: &Vec<MapEntry>) -> (r: Vec<MapEntry>)
    ensures
        r.deep_view() == entries.deep_view(),
    decreases entries,
{
    let mut out: Vec<MapEntry> = Vec::new();
    let mut i: usize = 0;
    while i < entries.len()
        invariant
            i <= entries.len(),
            out.deep_view().len() == i as int,
            forall|k: int| 0 <= k < i ==> out.deep_view()[k] == entries.deep_view()[k],
        decreases entries.len() - i,
    {
        let ghost before = out.deep_view();
        out.push(entries[i].dup());
        proof {
            assert(out.deep_view() =~= before.push(entries.deep_view()[i as int]));
        }
        i += 1;
    }
    proof {
        assert(out.deep_view() =~= entries.deep_view());
    }
    out
}

/// An elementwise copy of a vector of values, equal to it in the model.
fn dup_values(items: &Vec<ReflectValue>) -> (r: Vec<ReflectValue>)
    ensures
        r.deep_view() == items.deep_view(),
    decreases items,
{
    let mut out: Vec<ReflectValue> = Vec::new();
    let mut i: usize = 0;
    while i < items.len()
        invariant
            i <= items.len(),
            out.deep_view().len() == i as int,
            forall|k: int| 0 <= k < i ==> out.deep_view()[k] == items.deep_view()[k],
        decreases items.len() - i,
    {
        let ghost before = out.deep_view();
        out.push(items[i].dup());
        proof {
            assert(out.deep_view() =~= before.push(items.deep_view()[i as int]));
        }
        i += 1;
    }
    proof {
        assert(out.deep_view() =~= items.deep_view());
    }
    out
}

} // verus!
