//! The guarantees this crate states of itself, written out and proved:
//! collection reclaims exactly the unreferenced allocations, the aliasing
//! discipline admits one writer or many readers and recovers on release,
//! path extension is associative and non-mutating, and marshaling a
//! primitive out and back leaves the context untouched.

use vstd::prelude::*;

use crate::access::{
    access_wf, bump_shared, can_claim_shared, can_claim_unique, claim_idx, drop_shared,
    drop_unique, lemma_claim_idx_props, lemma_shared_round_trip, lemma_state_push,
    lemma_state_skip, lemma_no_key_free, lemma_take_unique_wf, lemma_unique_round_trip,
    take_unique, AccessModel, ClaimState, ReflectAccessId,
};
use crate::arena::{alloc_get, lemma_alloc_idx_props, ArenaModel};
use crate::bridge::{apply_val, script_of, script_source};
use crate::error::InteropError;
use crate::nav::{
    entry_idx, is_primitive_val, lemma_entry_idx_props, seg_step, seg_store, store_path,
    walk_path,
};
use crate::path::Seg;
use crate::reference::{access_id_of, ReflectBase, RefModel};
use crate::value::Val;
use crate::world::{
    host_idx, lemma_host_idx_props, resolve_base, spec_resolve, spec_store, world_wf, HostModel,
    WorldModel,
};

verus! {

/// Collection: a sweep removes exactly the allocations with no
/// outstanding handle. For every allocation whose handle count had
/// dropped to zero before the sweep, a lookup afterwards finds nothing;
/// every allocation that still had a handle is found unchanged.
pub proof fn lemma_collection_reclaims(before: ArenaModel, after: ArenaModel, id: int)
    requires
        forall|i: int|
            #[trigger] alloc_get(after.entries, i) == match alloc_get(before.entries, i) {
                Some(e) => if e.handles > 0 {
                    Some(e)
                } else {
                    None
                },
                None => None,
            },
    ensures
        (alloc_get(before.entries, id) matches Some(e) && e.handles == 0) ==> alloc_get(
            after.entries,
            id,
        ) is None,
        (alloc_get(before.entries, id) matches Some(e) && e.handles > 0) ==> alloc_get(
            after.entries,
            id,
        ) == alloc_get(before.entries, id),
        alloc_get(before.entries, id) is None ==> alloc_get(after.entries, id) is None,
{
}

/// Aliasing: while any claim on an identity is outstanding, the
/// exclusive claim is denied; while the exclusive claim is outstanding,
/// every claim is denied; and after the matching release the exclusive
/// claim is granted exactly as before.
pub proof fn lemma_aliasing_discipline(m: AccessModel, id: ReflectAccessId)
    requires
        access_wf(m),
        can_claim_unique(m, id),
    ensures
        !can_claim_unique(AccessModel { claims: bump_shared(m.claims, id), ..m }, id),
        !can_claim_unique(AccessModel { claims: take_unique(m.claims, id), ..m }, id),
        !can_claim_shared(AccessModel { claims: take_unique(m.claims, id), ..m }, id),
        drop_shared(bump_shared(m.claims, id), id) == m.claims,
        drop_unique(take_unique(m.claims, id), id) == m.claims,
        can_claim_unique(
            AccessModel { claims: drop_shared(bump_shared(m.claims, id), id), ..m },
            id,
        ),
        can_claim_unique(
            AccessModel { claims: drop_unique(take_unique(m.claims, id), id), ..m },
            id,
        ),
{
    lemma_claim_idx_props(m.claims, id);
    match claim_idx(m.claims, id) {
        Some(j) => {
            lemma_state_skip(m.claims, id, j);
            assert(m.claims.skip(j)[0] == m.claims[j]);
            assert(m.claims[j].1 == ClaimState::Free);
            assert(m.claims[j].1 != ClaimState::Free);
        },
        None => {
            lemma_no_key_free(m.claims, id);
            lemma_state_push(m.claims, (id, ClaimState::Shared(1u64)), id);
            lemma_state_push(m.claims, (id, ClaimState::Unique), id);
            lemma_shared_round_trip(m.claims, id);
            lemma_unique_round_trip(m.claims, id);
        },
    }
}

/// Re-entrancy denial, at the context level: the context a scoped write
/// accessor hands its callback — the caller's context with the exclusive
/// claim taken — is well formed, and inside it every nested claim on the
/// same identity is denied. A verified callback uses this to call the
/// library on the context it receives and to conclude that a nested
/// access to the same base returns an access conflict.
pub proof fn lemma_nested_access_denied(m: WorldModel, id: ReflectAccessId)
    requires
        world_wf(m),
        can_claim_unique(m.accesses, id),
    ensures
        world_wf(
            WorldModel {
                accesses: AccessModel {
                    claims: take_unique(m.accesses.claims, id),
                    global: m.accesses.global,
                },
                ..m
            },
        ),
        !can_claim_shared(
            AccessModel { claims: take_unique(m.accesses.claims, id), global: m.accesses.global },
            id,
        ),
        !can_claim_unique(
            AccessModel { claims: take_unique(m.accesses.claims, id), global: m.accesses.global },
            id,
        ),
{
    lemma_take_unique_wf(m.accesses, id);
    assert((AccessModel {
        claims: take_unique(m.accesses.claims, id),
        global: m.accesses.global,
    }) =~= (AccessModel { claims: take_unique(m.accesses.claims, id), ..m.accesses }));
}

/// Path determinism: walking a concatenated path equals walking its two
/// halves in turn. Extension never resolves and never mutates, so a
/// reference extended in two steps denotes the same value as one
/// extended with the concatenation.
pub proof fn lemma_walk_concat(v: Val, p1: Seq<Seg>, p2: Seq<Seg>)
    ensures
        walk_path(v, p1 + p2) == match walk_path(v, p1) {
            Some(mid) => walk_path(mid, p2),
            None => None,
        },
    decreases p1.len(),
{
    if p1.len() == 0 {
        assert(p1 + p2 =~= p2);
    } else {
        assert((p1 + p2)[0] == p1[0]);
        match seg_step(v, p1[0]) {
            Some(child) => {
                assert((p1 + p2).drop_first() =~= p1.drop_first() + p2);
                lemma_walk_concat(child, p1.drop_first(), p2);
            },
            None => {},
        }
    }
}

/// Path determinism, at the reference level: extending by `s1` and then
/// by `s2` builds the same reference as extending by `s1 + s2` at once,
/// so the two resolve identically against every context.
pub proof fn lemma_extension_associative(r: RefModel, s1: Seq<Seg>, s2: Seq<Seg>)
    ensures
        (RefModel { base: r.base, path: (r.path + s1) + s2 }) == (RefModel {
            base: r.base,
            path: r.path + (s1 + s2),
        }),
{
    assert((r.path + s1) + s2 =~= r.path + (s1 + s2));
}

/// Path determinism against a context: a reference extended by `s`
/// resolves to whatever walking `s` onward from the unextended
/// reference's value reaches, whatever the context.
pub proof fn lemma_resolve_extension(m: WorldModel, r: RefModel, s: Seq<Seg>)
    ensures
        spec_resolve(m, RefModel { base: r.base, path: r.path + s }) == match spec_resolve(m, r) {
            Ok(v) => match walk_path(v, s) {
                Some(t) => Ok::<Val, InteropError>(t),
                None => Err::<Val, InteropError>(InteropError::PathError),
            },
            Err(e) => Err::<Val, InteropError>(e),
        },
{
    match resolve_base(m, r.base) {
        Ok(root) => {
            lemma_walk_concat(root, r.path, s);
        },
        Err(_) => {},
    }
}

/// Writing back the value a path already denotes rebuilds the root
/// unchanged.
pub proof fn lemma_store_same(v: Val, p: Seq<Seg>)
    requires
        walk_path(v, p) is Some,
    ensures
        store_path(v, p, walk_path(v, p)->Some_0) == Some(v),
    decreases p.len(),
{
    if p.len() == 0 {
    } else {
        let child = seg_step(v, p[0])->Some_0;
        lemma_store_same(child, p.drop_first());
        match p[0] {
            Seg::Field(name) => match v {
                Val::Struct { tag, fields } => {
                    lemma_entry_idx_props(fields, name);
                    match entry_idx(fields, name) {
                        Some(j) => {
                            assert(fields[j].0 == name);
                            assert(fields.update(j, (name, child)) =~= fields);
                            assert(seg_store(v, p[0], child) == Some(v));
                        },
                        None => {},
                    }
                },
                _ => {},
            },
            Seg::TupleIndex(i) => match v {
                Val::Tuple(items) => {
                    assert(items.update(i, items[i]) =~= items);
                },
                Val::Opt(o) => {
                    assert(seg_store(v, p[0], child) == Some(v));
                },
                _ => {},
            },
            Seg::ListIndex(i) => match v {
                Val::List(items) => {
                    assert(items.update(i, items[i]) =~= items);
                },
                _ => {},
            },
            Seg::MapKey(key) => match v {
                Val::MapVal(entries) => {
                    lemma_entry_idx_props(entries, key);
                    match entry_idx(entries, key) {
                        Some(j) => {
                            assert(entries[j].0 == key);
                            assert(entries.update(j, (key, child)) =~= entries);
                            assert(seg_store(v, p[0], child) == Some(v));
                        },
                        None => {},
                    }
                },
                _ => {},
            },
        }
    }
}

/// Round trip: for a reference denoting a primitive value, marshaling
/// the value out to the script side and assigning the result back is the
/// identity — the source embeds back to the same value, applying it onto
/// the target succeeds, and the store leaves the whole context exactly
/// as it was.
pub proof fn lemma_primitive_round_trip(m: WorldModel, r: RefModel)
    requires
        world_wf(m),
        spec_resolve(m, r) matches Ok(v) && is_primitive_val(v),
    ensures
        spec_resolve(m, r) matches Ok(v) && {
            let sv = script_of(v, r);
            &&& script_source(m, sv) == Ok::<Val, InteropError>(v)
            &&& apply_val(v, v) == Some(v)
            &&& spec_store(m, r, v) == Ok::<WorldModel, InteropError>(m)
        },
{
    let v = spec_resolve(m, r)->Ok_0;
    let root = resolve_base(m, r.base)->Ok_0;
    assert(walk_path(root, r.path) == Some(v));
    lemma_store_same(root, r.path);
    assert(store_path(root, r.path, v) == Some(root));
    match r.base.base_id {
        ReflectBase::Owned(id) => {
            lemma_alloc_idx_props(m.arena.entries, id.0 as int);
            match crate::arena::alloc_idx(m.arena.entries, id.0 as int) {
                Some(j) => {
                    assert(m.arena.entries[j].value == root);
                    assert(m.arena.entries.update(
                        j,
                        crate::arena::AllocModel { value: root, ..m.arena.entries[j] },
                    ) =~= m.arena.entries);
                    assert(spec_store(m, r, v)->Ok_0 =~= m);
                },
                None => {},
            }
        },
        ReflectBase::Component(_, _) | ReflectBase::Resource(_) => {
            let key = access_id_of(r.base.base_id);
            lemma_host_idx_props(m.host, key);
            match host_idx(m.host, key) {
                Some(j) => {
                    assert(m.host[j].value == root);
                    assert(m.host.update(j, HostModel { value: root, ..m.host[j] })
                        =~= m.host);
                    assert(spec_store(m, r, v)->Ok_0 =~= m);
                },
                None => {},
            }
        },
        ReflectBase::World => {},
    }
}

} // verus!
