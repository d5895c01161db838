//! The value-marshaling boundary: decides whether a resolved value
//! crosses to the script side by value or by reference, and performs the
//! mirror operation on assignment.

use vstd::prelude::*;

use crate::access::{can_claim_shared, can_claim_unique};
use crate::error::InteropError;
use crate::nav::{entry_idx, entry_lookup};
use crate::path::{PathSegment, Seg};
use crate::reference::{access_id_of, ReflectReference, RefModel};
use crate::value::{FieldEntry, ReflectValue, Val};
use crate::world::{spec_resolve, spec_store, world_wf, ScriptWorld, WorldModel};

verus! {

/// A script-native value: what the script side receives for a resolved
/// host value, or hands in for an assignment.
#[derive(Debug)]
pub enum ScriptValue {
    Unit,
    Bool(bool),
    Integer(i64),
    Ch(char),
    Str(String),
    /// A compound value crosses as an opaque reference, not by copy.
    Reference(ReflectReference),
}

/// The mathematical shape of a script-native value.
#[verifier::ext_equal]
pub enum ScriptVal {
    Unit,
    Bool(bool),
    Integer(int),
    Ch(char),
    Str(Seq<char>),
    Reference(RefModel),
}

impl DeepView for ScriptValue {
    type V = ScriptVal;

    open spec fn deep_view(&self) -> ScriptVal {
        match self {
            ScriptValue::Unit => ScriptVal::Unit,
            ScriptValue::Bool(b) => ScriptVal::Bool(*b),
            ScriptValue::Integer(i) => ScriptVal::Integer(*i as int),
            ScriptValue::Ch(c) => ScriptVal::Ch(*c),
            ScriptValue::Str(s) => ScriptVal::Str(s@),
            ScriptValue::Reference(r) => ScriptVal::Reference(r.deep_view()),
        }
    }
}

/// The script-visible shape of a resolved value: primitives cross by
/// copy, an optional unwraps one level and recurses (an empty one
/// becomes the script's nothing), everything else crosses as the same
/// reference.
pub open spec fn script_of(v: Val, r: RefModel) -> ScriptVal
    decreases v,
{
    match v {
        Val::Unit => ScriptVal::Unit,
        Val::Bool(b) => ScriptVal::Bool(b),
        Val::Int(i) => ScriptVal::Integer(i),
        Val::Ch(c) => ScriptVal::Ch(c),
        Val::Str(s) => ScriptVal::Str(s),
        Val::Opt(o) => match o {
            Some(b) => script_of(
                *b,
                RefModel { base: r.base, path: r.path.push(Seg::TupleIndex(0)) },
            ),
            None => ScriptVal::Unit,
        },
        _ => ScriptVal::Reference(r),
    }
}

/// The host value an incoming script value stands for: primitives embed
/// directly; a reference resolves (shared) to a copy of its target.
pub open spec fn script_source(m: WorldModel, sv: ScriptVal) -> Result<Val, InteropError> {
    match sv {
        ScriptVal::Unit => Ok(Val::Unit),
        ScriptVal::Bool(b) => Ok(Val::Bool(b)),
        ScriptVal::Integer(i) => Ok(Val::Int(i)),
        ScriptVal::Ch(c) => Ok(Val::Ch(c)),
        ScriptVal::Str(s) => Ok(Val::Str(s)),
        ScriptVal::Reference(rm) => if !can_claim_shared(
            m.accesses,
            access_id_of(rm.base.base_id),
        ) {
            Err(InteropError::AccessConflict)
        } else {
            spec_resolve(m, rm)
        },
    }
}

/// Whether every source field is named after some target field.
pub open spec fn fields_present(tf: Seq<(Seq<char>, Val)>, sf: Seq<(Seq<char>, Val)>) -> bool {
    forall|i: int| 0 <= i < sf.len() ==> #[trigger] entry_idx(tf, sf[i].0) is Some
}

/// A target's fields with every same-named source field written over it.
pub open spec fn merge_fields(
    tf: Seq<(Seq<char>, Val)>,
    sf: Seq<(Seq<char>, Val)>,
) -> Seq<(Seq<char>, Val)> {
    Seq::new(
        tf.len(),
        |j: int|
            match entry_lookup(sf, tf[j].0) {
                Some(sv) => (tf[j].0, sv),
                None => tf[j],
            },
    )
}

/// Applying an incoming value onto a resolved target: primitives are
/// replaced whole by a value of the same shape; a struct takes a
/// field-wise merge, every incoming field named after an existing one;
/// the other compounds are replaced whole by one of the same shape.
/// Nothing else converts.
pub open spec fn apply_val(t: Val, s: Val) -> Option<Val> {
    match t {
        Val::Unit => if s is Unit {
            Some(s)
        } else {
            None
        },
        Val::Bool(_) => if s is Bool {
            Some(s)
        } else {
            None
        },
        Val::Int(_) => if s is Int {
            Some(s)
        } else {
            None
        },
        Val::Ch(_) => if s is Ch {
            Some(s)
        } else {
            None
        },
        Val::Str(_) => if s is Str {
            Some(s)
        } else {
            None
        },
        Val::Struct { tag, fields } => match s {
            Val::Struct { tag: _, fields: sf } => if fields_present(fields, sf) {
                Some(Val::Struct { tag, fields: merge_fields(fields, sf) })
            } else {
                None
            },
            _ => None,
        },
        Val::Tuple(items) => match s {
            Val::Tuple(si) => if si.len() == items.len() {
                Some(s)
            } else {
                None
            },
            _ => None,
        },
        Val::List(_) => if s is List {
            Some(s)
        } else {
            None
        },
        Val::MapVal(_) => if s is MapVal {
            Some(s)
        } else {
            None
        },
        Val::Opt(_) => if s is Opt {
            Some(s)
        } else {
            None
        },
    }
}

/// Converts a resolved value to its script-visible shape, extending the
/// carried reference one step for each unwrapped optional level.
fn to_script(v: ReflectValue, refr: ReflectReference) -> (r: ScriptValue)
    ensures
        r.deep_view() == script_of(v.deep_view(), refr.deep_view()),
    decreases v,
{
    match v {
        ReflectValue::Unit => ScriptValue::Unit,
        ReflectValue::Bool(b) => ScriptValue::Bool(b),
        ReflectValue::Int(i) => ScriptValue::Integer(i),
        ReflectValue::Ch(c) => ScriptValue::Ch(c),
        ReflectValue::Str(s) => ScriptValue::Str(s),
        ReflectValue::Opt(o) => match o {
            Some(b) => {
                let inner = refr.extend_path(&PathSegment::TupleIndex(0));
                to_script(*b, inner)
            },
            None => ScriptValue::Unit,
        },
        other => ScriptValue::Reference(refr),
    }
}

/// Resolves a reference once, inside a shared-claim window, and returns
/// the script-visible shape of the value it denotes: a primitive crosses
/// by copy, a compound as an opaque reference to the same location.
pub fn into_script_ref(self_: ReflectReference, world: &mut ScriptWorld) -> (r: Result<
    ScriptValue,
    InteropError,
>)
    requires
        world_wf(old(world)@),
    ensures
        world_wf(final(world)@),
        final(world)@ == old(world)@,
        ({
            let aid = access_id_of(self_.deep_view().base.base_id);
            if !can_claim_shared(old(world)@.accesses, aid) {
                r == Err::<ScriptValue, InteropError>(InteropError::AccessConflict)
            } else {
                match spec_resolve(old(world)@, self_.deep_view()) {
                    Ok(v) => r matches Ok(sv) && sv.deep_view() == script_of(
                        v,
                        self_.deep_view(),
                    ),
                    Err(e) => r == Err::<ScriptValue, InteropError>(e),
                }
            }
        }),
{
    match self_.read_value(world) {
        Ok(v) => Ok(to_script(v, self_)),
        Err(e) => Err(e),
    }
}

/// Converts an incoming script value to a host value: primitives embed
/// directly, a reference resolves to a copy of its target.
fn script_to_value(sv: ScriptValue, world: &mut ScriptWorld) -> (r: Result<
    ReflectValue,
    InteropError,
>)
    requires
        world_wf(old(world)@),
    ensures
        world_wf(final(world)@),
        final(world)@ == old(world)@,
        match script_source(old(world)@, sv.deep_view()) {
            Ok(v) => r matches Ok(out) && out.deep_view() == v,
            Err(e) => r == Err::<ReflectValue, InteropError>(e),
        },
{
    match sv {
        ScriptValue::Unit => Ok(ReflectValue::Unit),
        ScriptValue::Bool(b) => Ok(ReflectValue::Bool(b)),
        ScriptValue::Integer(i) => Ok(ReflectValue::Int(i)),
        ScriptValue::Ch(c) => Ok(ReflectValue::Ch(c)),
        ScriptValue::Str(s) => Ok(ReflectValue::Str(s)),
        ScriptValue::Reference(r2) => r2.read_value(world),
    }
}

/// Applies an incoming value onto a resolved target value, field-wise
/// for structs and whole for everything else, failing with an impossible
/// conversion when the shapes do not line up.
fn apply_value(t: &ReflectValue, s: &ReflectValue) -> (r: Result<ReflectValue, InteropError>)
    ensures
        match apply_val(t.deep_view(), s.deep_view()) {
            Some(v) => r matches Ok(out) && out.deep_view() == v,
            None => r == Err::<ReflectValue, InteropError>(InteropError::ImpossibleConversion),
        },
{
    match t {
        ReflectValue::Unit => match s {
            ReflectValue::Unit => Ok(ReflectValue::Unit),
            _ => Err(InteropError::ImpossibleConversion),
        },
        ReflectValue::Bool(_) => match s {
            ReflectValue::Bool(b) => Ok(ReflectValue::Bool(*b)),
            _ => Err(InteropError::ImpossibleConversion),
        },
        ReflectValue::Int(_) => match s {
            ReflectValue::Int(i) => Ok(ReflectValue::Int(*i)),
            _ => Err(InteropError::ImpossibleConversion),
        },
        ReflectValue::Ch(_) => match s {
            ReflectValue::Ch(c) => Ok(ReflectValue::Ch(*c)),
            _ => Err(InteropError::ImpossibleConversion),
        },
        ReflectValue::Str(_) => match s {
            ReflectValue::Str(sv) => Ok(ReflectValue::Str(sv.clone())),
            _ => Err(InteropError::ImpossibleConversion),
        },
        ReflectValue::Struct { tag, fields } => match s {
            ReflectValue::Struct { tag: stag, fields: sfields } => {
                let ghost tdv = fields.deep_view();
                let ghost sdv = sfields.deep_view();
                proof {
                    crate::nav::lemma_struct_view(*tag, *fields);
                    crate::nav::lemma_struct_view(*stag, *sfields);
                    assert(t.deep_view() == (Val::Struct { tag: *tag, fields: tdv }));
                    assert(s.deep_view() == (Val::Struct { tag: *stag, fields: sdv }));
                }
                let mut i: usize = 0;
                while i < sfields.len()
                    invariant
                        i <= sfields.len(),
                        forall|k: int| 0 <= k < i ==> #[trigger] entry_idx(tdv, sdv[k].0) is Some,
                        tdv == fields.deep_view(),
                        sdv == sfields.deep_view(),
                        t.deep_view() == (Val::Struct { tag: *tag, fields: tdv }),
                        s.deep_view() == (Val::Struct { tag: *stag, fields: sdv }),
                    decreases sfields.len() - i,
                {
                    proof {
                        assert(sfields.deep_view()[i as int] == sfields@[i as int].deep_view());
                    }
                    match crate::nav::find_field(fields, &sfields[i].name) {
                        Some(_) => {},
                        None => {
                            proof {
                                assert(entry_idx(tdv, sdv[i as int].0) is None);
                                if fields_present(tdv, sdv) {
                                    assert(entry_idx(tdv, sdv[i as int].0) is Some);
                                }
                                assert(!fields_present(tdv, sdv));
                                assert(apply_val(t.deep_view(), s.deep_view()) is None);
                            }
                            return Err(InteropError::ImpossibleConversion);
                        },
                    }
                    i += 1;
                }
                let mut out: Vec<FieldEntry> = Vec::new();
                let mut j: usize = 0;
                while j < fields.len()
                    invariant
                        j <= fields.len(),
                        out.deep_view().len() == j as int,
                        forall|k: int|
                            0 <= k < j ==> #[trigger] out.deep_view()[k] == merge_fields(
                                tdv,
                                sdv,
                            )[k],
                        tdv == fields.deep_view(),
                        sdv == sfields.deep_view(),
                    decreases fields.len() - j,
                {
                    let ghost before = out.deep_view();
                    proof {
                        assert(fields.deep_view()[j as int] == fields@[j as int].deep_view());
                    }
                    match crate::nav::find_field(sfields, &fields[j].name) {
                        Some(k) => {
                            proof {
                                assert(sfields.deep_view()[k as int] == sfields@[
                                    k as int
                                ].deep_view());
                            }
                            out.push(
                                FieldEntry {
                                    name: fields[j].name.clone(),
                                    value: sfields[k].value.dup(),
                                },
                            );
                        },
                        None => {
                            out.push(fields[j].dup());
                        },
                    }
                    proof {
                        assert(out.deep_view() =~= before.push(merge_fields(tdv, sdv)[j as int]));
                    }
                    j += 1;
                }
                let r = ReflectValue::Struct { tag: *tag, fields: out };
                proof {
                    crate::nav::lemma_struct_view(*tag, r->Struct_fields);
                    assert(out.deep_view() =~= merge_fields(tdv, sdv));
                    assert(fields_present(tdv, sdv));
                }
                Ok(r)
            },
            _ => Err(InteropError::ImpossibleConversion),
        },
        ReflectValue::Tuple(items) => match s {
            ReflectValue::Tuple(sitems) => {
                proof {
                    crate::nav::lemma_tuple_view(*items);
                    crate::nav::lemma_tuple_view(*sitems);
                }
                if sitems.len() == items.len() {
                    Ok(s.dup())
                } else {
                    Err(InteropError::ImpossibleConversion)
                }
            },
            _ => Err(InteropError::ImpossibleConversion),
        },
        ReflectValue::List(_) => match s {
            ReflectValue::List(_) => Ok(s.dup()),
            _ => Err(InteropError::ImpossibleConversion),
        },
        ReflectValue::MapVal(_) => match s {
            ReflectValue::MapVal(_) => Ok(s.dup()),
            _ => Err(InteropError::ImpossibleConversion),
        },
        ReflectValue::Opt(_) => match s {
            ReflectValue::Opt(_) => Ok(s.dup()),
            _ => Err(InteropError::ImpossibleConversion),
        },
    }
}

/// The mirror operation of `into_script_ref`: converts the incoming
/// script value under the target's shape and applies it onto the
/// location the reference denotes, inside an exclusive-claim window.
pub fn assign_from_script(self_: &ReflectReference, world: &mut ScriptWorld, sv: ScriptValue) -> (r:
    Result<(), InteropError>)
    requires
        world_wf(old(world)@),
    ensures
        world_wf(final(world)@),
        ({
            let m = old(world)@;
            let aid = access_id_of(self_.deep_view().base.base_id);
            match script_source(m, sv.deep_view()) {
                Err(e) => r == Err::<(), InteropError>(e) && final(world)@ == m,
                Ok(src) => if !can_claim_shared(m.accesses, aid) {
                    r == Err::<(), InteropError>(InteropError::AccessConflict) && final(world)@
                        == m
                } else {
                    match spec_resolve(m, self_.deep_view()) {
                        Err(e) => r == Err::<(), InteropError>(e) && final(world)@ == m,
                        Ok(cur) => match apply_val(cur, src) {
                            None => r == Err::<(), InteropError>(
                                InteropError::ImpossibleConversion,
                            ) && final(world)@ == m,
                            Some(newv) => if !can_claim_unique(m.accesses, aid) {
                                r == Err::<(), InteropError>(InteropError::AccessConflict)
                                    && final(world)@ == m
                            } else {
                                match spec_store(m, self_.deep_view(), newv) {
                                    Ok(m2) => r == Ok::<(), InteropError>(()) && final(world)@
                                        == m2,
                                    Err(e) => r == Err::<(), InteropError>(e) && final(world)@
                                        == m,
                                }
                            },
                        },
                    }
                },
            }
        }),
{
    let incoming = match script_to_value(sv, world) {
        Ok(v) => v,
        Err(e) => {
            return Err(e);
        },
    };
    let current = match self_.read_value(world) {
        Ok(v) => v,
        Err(e) => {
            return Err(e);
        },
    };
    let newv = match apply_value(&current, &incoming) {
        Ok(v) => v,
        Err(e) => {
            return Err(e);
        },
    };
    self_.write_value(world, newv)
}

} // verus!
