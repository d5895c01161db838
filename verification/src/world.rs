//! The explicitly threaded context that every resolution runs against:
//! the arena, the aliasing controller, the type registry, and the host
//! graph's stores of singletons and entity-scoped field groups.

use vstd::prelude::*;

use crate::access::{
    access_wf, can_claim_shared, can_claim_unique, claim_idx, drop_shared, drop_unique,
    lemma_claim_idx_props, lemma_shared_round_trip, lemma_state_skip, lemma_unique_round_trip,
    bump_shared, take_unique, AccessMap, AccessModel, ClaimState, ReflectAccessId, state_of,
};
use crate::arena::{
    alloc_get, alloc_idx, arena_wf, AllocModel, ArenaModel, ReflectAllocator,
};
use crate::error::InteropError;
use crate::nav::{store_path, walk_from, walk_path, store_from};
use crate::reference::{access_id_of, ReflectBase, ReflectBaseType, ReflectReference, RefModel};
use crate::value::{view_of, ReflectValue, Val};
use crate::TypeTag;

verus! {

/// One stored host value: a singleton or an entity-scoped field group,
/// keyed by the same identity the aliasing controller uses.
struct HostEntry {
    key: ReflectAccessId,
    tag: TypeTag,
    value: ReflectValue,
}

/// The mathematical shape of one stored host value.
pub struct HostModel {
    pub key: ReflectAccessId,
    pub tag: TypeTag,
    pub value: Val,
}

impl DeepView for HostEntry {
    type V = HostModel;

    closed spec fn deep_view(&self) -> HostModel {
        HostModel { key: self.key, tag: self.tag, value: view_of(self.value) }
    }
}

/// The position of the first host entry stored under `key`, if any.
pub open spec fn host_idx(entries: Seq<HostModel>, key: ReflectAccessId) -> Option<int>
    decreases entries.len(),
{
    if entries.len() == 0 {
        None
    } else if entries[0].key == key {
        Some(0int)
    } else {
        match host_idx(entries.drop_first(), key) {
            Some(j) => Some(j + 1),
            None => None,
        }
    }
}

/// The host entry stored under `key`, if any.
pub open spec fn host_get(entries: Seq<HostModel>, key: ReflectAccessId) -> Option<HostModel> {
    match host_idx(entries, key) {
        Some(j) => Some(entries[j]),
        None => None,
    }
}

/// What `host_idx` returns: the first matching position, in range, and
/// nothing matches when it returns nothing.
pub proof fn lemma_host_idx_props(entries: Seq<HostModel>, key: ReflectAccessId)
    ensures
        match host_idx(entries, key) {
            Some(j) => 0 <= j < entries.len() && entries[j].key == key && forall|k: int|
                0 <= k < j ==> entries[k].key != key,
            None => forall|k: int| 0 <= k < entries.len() ==> entries[k].key != key,
        },
    decreases entries.len(),
{
    if entries.len() == 0 {
    } else if entries[0].key == key {
    } else {
        lemma_host_idx_props(entries.drop_first(), key);
        match host_idx(entries.drop_first(), key) {
            Some(j) => {
                assert(entries.drop_first()[j] == entries[j + 1]);
                assert forall|k: int| 0 <= k < j + 1 implies entries[k].key != key by {
                    if k > 0 {
                        assert(entries.drop_first()[k - 1] == entries[k]);
                    }
                }
            },
            None => {
                assert forall|k: int| 0 <= k < entries.len() implies entries[k].key != key by {
                    if k > 0 {
                        assert(entries.drop_first()[k - 1] == entries[k]);
                    }
                }
            },
        }
    }
}

/// If position `j` matches and no earlier one does, `host_idx` returns `j`.
pub proof fn lemma_host_idx_found(entries: Seq<HostModel>, key: ReflectAccessId, j: int)
    requires
        0 <= j < entries.len(),
        entries[j].key == key,
        forall|k: int| 0 <= k < j ==> entries[k].key != key,
    ensures
        host_idx(entries, key) == Some(j),
{
    lemma_host_idx_props(entries, key);
    match host_idx(entries, key) {
        Some(j2) => {
            if j2 < j {
                assert(entries[j2].key != key);
            }
            if j < j2 {
                assert(entries[j].key != key);
            }
        },
        None => {
            assert(entries[j].key != key);
        },
    }
}

/// Replacing the entry at `j` by one with the same key changes only
/// lookups of that key.
pub proof fn lemma_host_update(entries: Seq<HostModel>, j: int, e: HostModel, key: ReflectAccessId)
    requires
        0 <= j < entries.len(),
        e.key == entries[j].key,
        forall|k1: int, k2: int|
            0 <= k1 < k2 < entries.len() ==> #[trigger] entries[k1].key != #[trigger] entries[
                k2
            ].key,
    ensures
        host_get(entries.update(j, e), key) == if key == entries[j].key {
            Some(e)
        } else {
            host_get(entries, key)
        },
    decreases j,
{
    let t = entries.update(j, e);
    lemma_host_idx_props(entries, key);
    lemma_host_idx_props(t, key);
    if j == 0 {
        assert(t[0] == e);
        if key != entries[0].key {
            assert(t.drop_first() =~= entries.drop_first());
            match host_idx(entries, key) {
                Some(i) => {
                    assert(entries[i].key == key);
                    assert(i != 0);
                    assert(t[i] == entries[i]);
                },
                None => {},
            }
            match host_idx(t, key) {
                Some(i) => {
                    assert(t[i].key == key);
                    assert(i != 0);
                },
                None => {},
            }
        }
    } else {
        assert(t[0] == entries[0]);
        assert(t.drop_first() =~= entries.drop_first().update(j - 1, e));
        assert forall|k1: int, k2: int|
            0 <= k1 < k2 < entries.drop_first().len() implies #[trigger] entries.drop_first()[
            k1
        ].key != #[trigger] entries.drop_first()[k2].key by {
            assert(entries.drop_first()[k1] == entries[k1 + 1]);
            assert(entries.drop_first()[k2] == entries[k2 + 1]);
        }
        assert(entries.drop_first()[j - 1] == entries[j]);
        lemma_host_update(entries.drop_first(), j - 1, e, key);
        if entries[0].key == key {
            assert(entries[0].key != entries[j].key);
        } else {
            match host_idx(entries, key) {
                Some(i) => {
                    assert(entries[i].key == key);
                    assert(i != 0);
                    assert(entries.drop_first()[i - 1] == entries[i]);
                },
                None => {},
            }
            match host_idx(t, key) {
                Some(i) => {
                    assert(t[i].key == key);
                    assert(i != 0);
                    assert(t.drop_first()[i - 1] == t[i]);
                },
                None => {},
            }
        }
    }
}

/// The type registry: the runtime type identifiers for which the host
/// has registered introspection metadata (a from-pointer adapter).
pub struct TypeRegistry {
    tags: Vec<TypeTag>,
}

impl View for TypeRegistry {
    type V = Seq<TypeTag>;

    closed spec fn view(&self) -> Seq<TypeTag> {
        self.tags@
    }
}

impl TypeRegistry {
    /// A fresh registry with nothing registered.
    pub fn new() -> (r: TypeRegistry)
        ensures
            r@ == Seq::<TypeTag>::empty(),
    {
        let r = TypeRegistry { tags: Vec::new() };
        proof {
            assert(r@ =~= Seq::<TypeTag>::empty());
        }
        r
    }

    /// Registers one type identifier.
    pub fn register(&mut self, tag: TypeTag)
        ensures
            final(self)@ == old(self)@.push(tag),
    {
        self.tags.push(tag);
    }

    /// Whether the identifier is registered.
    pub fn contains(&self, tag: TypeTag) -> (r: bool)
        ensures
            r == self@.contains(tag),
    {
        let mut j: usize = 0;
        while j < self.tags.len()
            invariant
                j <= self.tags.len(),
                forall|k: int| 0 <= k < j ==> self.tags@[k] != tag,
            decreases self.tags.len() - j,
        {
            if self.tags[j] == tag {
                return true;
            }
            j += 1;
        }
        false
    }
}

/// The mathematical shape of the whole context.
#[verifier::ext_equal]
pub struct WorldModel {
    pub arena: ArenaModel,
    pub accesses: AccessModel,
    pub registry: Seq<TypeTag>,
    pub host: Seq<HostModel>,
}

/// The context keeps its arena and claim table well formed and never
/// stores two host values under one key.
pub open spec fn world_wf(m: WorldModel) -> bool {
    &&& arena_wf(m.arena)
    &&& access_wf(m.accesses)
    &&& forall|k1: int, k2: int|
        0 <= k1 < k2 < m.host.len() ==> #[trigger] m.host[k1].key != #[trigger] m.host[k2].key
}

/// The explicitly threaded context object.
pub struct ScriptWorld {
    pub arena: ReflectAllocator,
    pub accesses: AccessMap,
    pub registry: TypeRegistry,
    host: Vec<HostEntry>,
}

impl View for ScriptWorld {
    type V = WorldModel;

    closed spec fn view(&self) -> WorldModel {
        WorldModel {
            arena: self.arena@,
            accesses: self.accesses@,
            registry: self.registry@,
            host: self.host.deep_view(),
        }
    }
}

/// The root value a base locator denotes, or why it cannot be resolved:
/// a collected allocation is stale, and a host root resolves only when
/// its type is registered and a value is stored under its key.
pub open spec fn resolve_base(m: WorldModel, base: ReflectBaseType) -> Result<Val, InteropError> {
    match base.base_id {
        ReflectBase::Owned(id) => match alloc_get(m.arena.entries, id.0 as int) {
            Some(e) => Ok(e.value),
            None => Err(InteropError::StaleAllocation),
        },
        ReflectBase::Component(_, _) | ReflectBase::Resource(_) => if !m.registry.contains(
            base.type_id,
        ) {
            Err(InteropError::UnregisteredBase)
        } else {
            match host_get(m.host, access_id_of(base.base_id)) {
                Some(h) => Ok(h.value),
                None => Err(InteropError::UnregisteredBase),
            }
        },
        ReflectBase::World => Err(InteropError::UnregisteredBase),
    }
}

/// The value a reference denotes: its base resolved, then its path
/// walked left to right. Claim checking is not part of this function;
/// the scoped accessors perform it first.
pub open spec fn spec_resolve(m: WorldModel, r: RefModel) -> Result<Val, InteropError> {
    match resolve_base(m, r.base) {
        Ok(root) => match walk_path(root, r.path) {
            Some(v) => Ok(v),
            None => Err(InteropError::PathError),
        },
        Err(e) => Err(e),
    }
}

/// The context after writing `nv` at the location a reference denotes,
/// or why the write cannot happen. Everything but the written-through
/// root value is untouched.
pub open spec fn spec_store(m: WorldModel, r: RefModel, nv: Val) -> Result<
    WorldModel,
    InteropError,
> {
    match resolve_base(m, r.base) {
        Ok(root) => match store_path(root, r.path, nv) {
            Some(newroot) => match r.base.base_id {
                ReflectBase::Owned(id) => match alloc_idx(m.arena.entries, id.0 as int) {
                    Some(j) => Ok(
                        WorldModel {
                            arena: ArenaModel {
                                entries: m.arena.entries.update(
                                    j,
                                    AllocModel { value: newroot, ..m.arena.entries[j] },
                                ),
                                ..m.arena
                            },
                            ..m
                        },
                    ),
                    None => Err(InteropError::StaleAllocation),
                },
                ReflectBase::Component(_, _) | ReflectBase::Resource(_) => match host_idx(
                    m.host,
                    access_id_of(r.base.base_id),
                ) {
                    Some(j) => Ok(
                        WorldModel {
                            host: m.host.update(
                                j,
                                HostModel { value: newroot, ..m.host[j] },
                            ),
                            ..m
                        },
                    ),
                    None => Err(InteropError::UnregisteredBase),
                },
                ReflectBase::World => Err(InteropError::UnregisteredBase),
            },
            None => Err(InteropError::PathError),
        },
        Err(e) => Err(e),
    }
}

/// A write through a reference is never refused where a read succeeds:
/// whenever a reference resolves against a context, storing any value at
/// its location succeeds against the same context. Combined with the
/// scoped write accessor's contract, this gives its full success form
/// whenever the callback hands the context back as it received it.
pub proof fn lemma_write_after_read(m: WorldModel, r: RefModel, nv: Val)
    requires
        spec_resolve(m, r) is Ok,
    ensures
        spec_store(m, r, nv) is Ok,
{
    let root = resolve_base(m, r.base)->Ok_0;
    crate::nav::lemma_store_total_where_walk_succeeds(root, r.path, nv);
    match r.base.base_id {
        ReflectBase::Owned(id) => {
            assert(alloc_get(m.arena.entries, id.0 as int) is Some);
            assert(alloc_idx(m.arena.entries, id.0 as int) is Some);
        },
        ReflectBase::Component(_, _) | ReflectBase::Resource(_) => {
            let key = access_id_of(r.base.base_id);
            assert(host_get(m.host, key) is Some);
            assert(host_idx(m.host, key) is Some);
        },
        ReflectBase::World => {},
    }
}

impl ScriptWorld {
    /// A fresh context: empty arena, nothing claimed, nothing registered,
    /// no host values.
    pub fn new() -> (r: ScriptWorld)
        ensures
            world_wf(r@),
            r@.arena.entries == Seq::<AllocModel>::empty(),
            r@.arena.next == 0,
            r@.accesses.claims == Seq::<(ReflectAccessId, ClaimState)>::empty(),
            !r@.accesses.global,
            r@.registry == Seq::<TypeTag>::empty(),
            r@.host == Seq::<HostModel>::empty(),
    {
        let r = ScriptWorld {
            arena: ReflectAllocator::new(),
            accesses: AccessMap::new(),
            registry: TypeRegistry::new(),
            host: Vec::new(),
        };
        proof {
            assert(r@.host =~= Seq::<HostModel>::empty());
        }
        r
    }

    /// Registers a type identifier with the registry.
    pub fn register_type(&mut self, tag: TypeTag)
        requires
            world_wf(old(self)@),
        ensures
            world_wf(final(self)@),
            final(self)@ == (WorldModel { registry: old(self)@.registry.push(tag), ..old(self)@ }),
    {
        self.registry.register(tag);
        proof {
            assert(final(self)@ =~= (WorldModel {
                registry: old(self)@.registry.push(tag),
                ..old(self)@
            }));
        }
    }

    /// Stores a host value (a singleton or an entity-scoped field group)
    /// under its key, replacing any previous value under the same key.
    pub fn insert_host_value(&mut self, key: ReflectAccessId, tag: TypeTag, value: ReflectValue)
        requires
            world_wf(old(self)@),
        ensures
            world_wf(final(self)@),
            final(self)@.arena == old(self)@.arena,
            final(self)@.accesses == old(self)@.accesses,
            final(self)@.registry == old(self)@.registry,
            host_get(final(self)@.host, key) == Some(
                HostModel { key, tag, value: value.deep_view() },
            ),
            forall|key2: ReflectAccessId|
                key2 != key ==> #[trigger] host_get(final(self)@.host, key2) == host_get(
                    old(self)@.host,
                    key2,
                ),
            final(self)@.host == match host_idx(old(self)@.host, key) {
                Some(j) => old(self)@.host.update(
                    j,
                    HostModel { key, tag, value: value.deep_view() },
                ),
                None => old(self)@.host.push(HostModel { key, tag, value: value.deep_view() }),
            },
    {
        let ghost before = self.host.deep_view();
        let ghost bv = self.host@;
        let ghost em = HostModel { key, tag, value: value.deep_view() };
        match find_host(&self.host, key) {
            Some(j) => {
                proof {
                    lemma_host_idx_props(before, key);
                }
                let _ = self.host.remove(j);
                self.host.insert(j, HostEntry { key, tag, value });
                proof {
                    assert forall|k: int|
                        0 <= k < self.host@.len() implies self.host.deep_view()[k] == before.update(
                        j as int,
                        em,
                    )[k] by {
                        assert(self.host.deep_view()[k] == self.host@[k].deep_view());
                        if k != j {
                            assert(self.host@[k] == bv[k]);
                            assert(before[k] == bv[k].deep_view());
                        }
                    }
                    assert(self.host.deep_view() =~= before.update(j as int, em));
                    assert forall|key2: ReflectAccessId|
                        #[trigger] host_get(self.host.deep_view(), key2) == if key2 == key {
                            Some(em)
                        } else {
                            host_get(before, key2)
                        } by {
                        lemma_host_idx_props(before, key);
                        lemma_host_update(before, j as int, em, key2);
                    }
                    assert forall|k1: int, k2: int|
                        0 <= k1 < k2 < self.host.deep_view().len() implies #[trigger] self.host.deep_view()[
                        k1
                    ].key != #[trigger] self.host.deep_view()[k2].key by {
                        assert(self.host.deep_view()[k1] == before.update(j as int, em)[k1]);
                        assert(self.host.deep_view()[k2] == before.update(j as int, em)[k2]);
                        assert(before[k1].key != before[k2].key);
                        assert(em.key == before[j as int].key);
                    }
                }
            },
            None => {
                self.host.push(HostEntry { key, tag, value });
                proof {
                    assert(self.host.deep_view() =~= before.push(em));
                    assert forall|key2: ReflectAccessId|
                        #[trigger] host_get(self.host.deep_view(), key2) == if key2 == key {
                            Some(em)
                        } else {
                            host_get(before, key2)
                        } by {
                        lemma_host_idx_push(before, em, key2);
                        lemma_host_idx_props(before, key2);
                        lemma_host_idx_props(before, key);
                    }
                    assert forall|k1: int, k2: int|
                        0 <= k1 < k2 < self.host.deep_view().len() implies #[trigger] self.host.deep_view()[
                        k1
                    ].key != #[trigger] self.host.deep_view()[k2].key by {
                        lemma_host_idx_props(before, key);
                        if k2 < before.len() {
                        } else {
                            assert(self.host.deep_view()[k2] == em);
                            assert(self.host.deep_view()[k1] == before[k1]);
                        }
                    }
                }
            },
        }
    }

    /// Borrows this context's arena mutably, tying what the borrower does
    /// to the context model: the arena part of `self@` is exactly the
    /// borrowed allocator's model, before and after.
    pub fn arena_mut(&mut self) -> (r: &mut ReflectAllocator)
        ensures
            (*r)@ == old(self)@.arena,
            final(self)@ == (WorldModel { arena: (*final(r))@, ..old(self)@ }),
    {
        &mut self.arena
    }

    /// Borrows this context's aliasing controller mutably, tying what the
    /// borrower does to the context model.
    pub fn accesses_mut(&mut self) -> (r: &mut AccessMap)
        ensures
            (*r)@ == old(self)@.accesses,
            final(self)@ == (WorldModel { accesses: (*final(r))@, ..old(self)@ }),
    {
        &mut self.accesses
    }

    /// Borrows this context's type registry mutably, tying what the
    /// borrower does to the context model.
    pub fn registry_mut(&mut self) -> (r: &mut TypeRegistry)
        ensures
            (*r)@ == old(self)@.registry,
            final(self)@ == (WorldModel { registry: (*final(r))@, ..old(self)@ }),
    {
        &mut self.registry
    }

    /// Allocates a value in this context's arena and returns a reference
    /// to it, leaving everything but the arena untouched. The companion
    /// of `ReflectReference::new_allocated` for callers that track the
    /// whole context model.
    pub fn allocate(&mut self, value: ReflectValue) -> (r: ReflectReference)
        requires
            world_wf(old(self)@),
            old(self)@.arena.next < usize::MAX,
        ensures
            world_wf(final(self)@),
            final(self)@ == (WorldModel {
                arena: ArenaModel {
                    entries: old(self)@.arena.entries.push(
                        AllocModel {
                            id: old(self)@.arena.next,
                            value: value.deep_view(),
                            tag: crate::value::tag_of(value.deep_view()),
                            handles: 1,
                        },
                    ),
                    next: old(self)@.arena.next + 1,
                },
                ..old(self)@
            }),
            r.deep_view().path == Seq::<crate::path::Seg>::empty(),
            r.deep_view().base.base_id matches ReflectBase::Owned(id) && id.0 as int == old(
                self,
            )@.arena.next,
            r.deep_view().base.type_id == (match crate::value::tag_of(value.deep_view()) {
                Some(t) => t,
                None => TypeTag(crate::value::FAKE_TAG),
            }),
    {
        let ghost m = old(self)@;
        let ghost vdv = value.deep_view();
        let r = ReflectReference::new_allocated(value, &mut self.arena);
        proof {
            assert(self@ =~= (WorldModel {
                arena: ArenaModel {
                    entries: m.arena.entries.push(
                        AllocModel {
                            id: m.arena.next,
                            value: vdv,
                            tag: crate::value::tag_of(vdv),
                            handles: 1,
                        },
                    ),
                    next: m.arena.next + 1,
                },
                ..m
            }));
        }
        r
    }

    /// Allocates an already-boxed value in this context's arena, adopting
    /// it without a further copy, and returns a reference to it.
    pub fn allocate_boxed(&mut self, value: Box<ReflectValue>) -> (r: ReflectReference)
        requires
            world_wf(old(self)@),
            old(self)@.arena.next < usize::MAX,
        ensures
            world_wf(final(self)@),
            final(self)@ == (WorldModel {
                arena: ArenaModel {
                    entries: old(self)@.arena.entries.push(
                        AllocModel {
                            id: old(self)@.arena.next,
                            value: value.deep_view(),
                            tag: crate::value::tag_of(value.deep_view()),
                            handles: 1,
                        },
                    ),
                    next: old(self)@.arena.next + 1,
                },
                ..old(self)@
            }),
            r.deep_view().path == Seq::<crate::path::Seg>::empty(),
            r.deep_view().base.base_id matches ReflectBase::Owned(id) && id.0 as int == old(
                self,
            )@.arena.next,
            r.deep_view().base.type_id == (match crate::value::tag_of(value.deep_view()) {
                Some(t) => t,
                None => TypeTag(crate::value::FAKE_TAG),
            }),
    {
        let ghost m = old(self)@;
        let ghost vdv = value.deep_view();
        let r = ReflectReference::new_allocated_boxed(value, &mut self.arena);
        proof {
            assert(self@ =~= (WorldModel {
                arena: ArenaModel {
                    entries: m.arena.entries.push(
                        AllocModel {
                            id: m.arena.next,
                            value: vdv,
                            tag: crate::value::tag_of(vdv),
                            handles: 1,
                        },
                    ),
                    next: m.arena.next + 1,
                },
                ..m
            }));
        }
        r
    }

    /// The stored host value under a key, if any: its type tag and a copy
    /// of the value.
    pub fn host_value(&self, key: ReflectAccessId) -> (r: Option<(TypeTag, ReflectValue)>)
        ensures
            match host_get(self@.host, key) {
                Some(h) => r matches Some(p) && p.0 == h.tag && p.1.deep_view() == h.value,
                None => r is None,
            },
    {
        match find_host(&self.host, key) {
            Some(j) => {
                proof {
                    assert(self.host.deep_view()[j as int] == self.host@[j as int].deep_view());
                }
                Some((self.host[j].tag, self.host[j].value.dup()))
            },
            None => None,
        }
    }
}

/// Resolves a reference against the context without claiming anything:
/// base lookup, then the path walked left to right, the target copied
/// out. The scoped accessors wrap this in a claim.
fn resolve_value(world: &ScriptWorld, refr: &ReflectReference) -> (r: Result<
    ReflectValue,
    InteropError,
>)
    ensures
        match spec_resolve(world@, refr.deep_view()) {
            Ok(v) => r matches Ok(out) && out.deep_view() == v,
            Err(e) => r == Err::<ReflectValue, InteropError>(e),
        },
{
    proof {
        assert(refr.reflect_path.deep_view().skip(0) =~= refr.reflect_path.deep_view());
    }
    match refr.base.base_id {
        ReflectBase::Owned(id) => match world.arena.peek(id) {
            Some(root) => walk_from(root, &refr.reflect_path, 0),
            None => Err(InteropError::StaleAllocation),
        },
        ReflectBase::Component(_, _) | ReflectBase::Resource(_) => {
            if !world.registry.contains(refr.base.type_id) {
                return Err(InteropError::UnregisteredBase);
            }
            let key = refr.access_id();
            match world.host_value(key) {
                Some(p) => walk_from(&p.1, &refr.reflect_path, 0),
                None => Err(InteropError::UnregisteredBase),
            }
        },
        ReflectBase::World => Err(InteropError::UnregisteredBase),
    }
}

/// Writes `nv` at the location a reference denotes, without claiming
/// anything: base lookup, the path walked, the root rebuilt and put
/// back. The scoped accessors wrap this in an exclusive claim.
fn store_value(world: &mut ScriptWorld, refr: &ReflectReference, nv: ReflectValue) -> (r: Result<
    (),
    InteropError,
>)
    requires
        world_wf(old(world)@),
    ensures
        world_wf(final(world)@),
        final(world)@.accesses == old(world)@.accesses,
        final(world)@.registry == old(world)@.registry,
        match spec_store(old(world)@, refr.deep_view(), nv.deep_view()) {
            Ok(m2) => r == Ok::<(), InteropError>(()) && final(world)@ == m2,
            Err(e) => r == Err::<(), InteropError>(e) && final(world)@ == old(world)@,
        },
{
    proof {
        assert(refr.reflect_path.deep_view().skip(0) =~= refr.reflect_path.deep_view());
    }
    match refr.base.base_id {
        ReflectBase::Owned(id) => {
            let root = match world.arena.peek(id) {
                Some(root) => root.dup(),
                None => {
                    return Err(InteropError::StaleAllocation);
                },
            };
            match store_from(root, &refr.reflect_path, 0, nv) {
                Ok(newroot) => {
                    let ghost m = old(world)@;
                    let _ = world.arena.replace(id, newroot);
                    proof {
                        assert(world@ =~= spec_store(
                            m,
                            refr.deep_view(),
                            nv.deep_view(),
                        )->Ok_0);
                    }
                    Ok(())
                },
                Err(e) => Err(e),
            }
        },
        ReflectBase::Component(_, _) | ReflectBase::Resource(_) => {
            if !world.registry.contains(refr.base.type_id) {
                return Err(InteropError::UnregisteredBase);
            }
            let key = refr.access_id();
            let (tag, root) = match world.host_value(key) {
                Some(p) => p,
                None => {
                    return Err(InteropError::UnregisteredBase);
                },
            };
            match store_from(root, &refr.reflect_path, 0, nv) {
                Ok(newroot) => {
                    let ghost m = old(world)@;
                    proof {
                        lemma_host_idx_props(m.host, key);
                    }
                    world.insert_host_value(key, tag, newroot);
                    proof {
                        assert(world@ =~= spec_store(
                            m,
                            refr.deep_view(),
                            nv.deep_view(),
                        )->Ok_0);
                    }
                    Ok(())
                },
                Err(e) => Err(e),
            }
        },
        ReflectBase::World => Err(InteropError::UnregisteredBase),
    }
}

impl ReflectReference {
    /// Resolves this reference inside a shared-claim window and hands a
    /// copy of the denoted value out. The claim is taken before
    /// resolution and returned unconditionally before this returns, so
    /// the context comes back exactly as it was.
    pub fn read_value(&self, world: &mut ScriptWorld) -> (r: Result<ReflectValue, InteropError>)
        requires
            world_wf(old(world)@),
        ensures
            world_wf(final(world)@),
            final(world)@ == old(world)@,
            ({
                let aid = access_id_of(self.deep_view().base.base_id);
                if !can_claim_shared(old(world)@.accesses, aid) {
                    r == Err::<ReflectValue, InteropError>(InteropError::AccessConflict)
                } else {
                    match spec_resolve(old(world)@, self.deep_view()) {
                        Ok(v) => r matches Ok(out) && out.deep_view() == v,
                        Err(e) => r == Err::<ReflectValue, InteropError>(e),
                    }
                }
            }),
    {
        let ghost m = old(world)@;
        let aid = self.access_id();
        if !world.accesses.claim_shared(aid) {
            return Err(InteropError::AccessConflict);
        }
        let out = resolve_value(world, self);
        let _ = world.accesses.release_shared(aid);
        proof {
            lemma_shared_round_trip(m.accesses.claims, aid);
            assert(world@.accesses =~= m.accesses);
            assert(world@ =~= m);
        }
        out
    }

    /// Writes a value at the location this reference denotes inside an
    /// exclusive-claim window. The claim is taken before resolution and
    /// returned unconditionally before this returns.
    pub fn write_value(&self, world: &mut ScriptWorld, nv: ReflectValue) -> (r: Result<
        (),
        InteropError,
    >)
        requires
            world_wf(old(world)@),
        ensures
            world_wf(final(world)@),
            ({
                let aid = access_id_of(self.deep_view().base.base_id);
                if !can_claim_unique(old(world)@.accesses, aid) {
                    r == Err::<(), InteropError>(InteropError::AccessConflict) && final(world)@
                        == old(world)@
                } else {
                    match spec_store(old(world)@, self.deep_view(), nv.deep_view()) {
                        Ok(m2) => r == Ok::<(), InteropError>(()) && final(world)@ == m2,
                        Err(e) => r == Err::<(), InteropError>(e) && final(world)@ == old(world)@,
                    }
                }
            }),
    {
        let ghost m = old(world)@;
        let aid = self.access_id();
        if !world.accesses.claim_unique(aid) {
            return Err(InteropError::AccessConflict);
        }
        let ghost claimed = world@;
        let out = store_value(world, self, nv);
        let _ = world.accesses.release_unique(aid);
        proof {
            lemma_unique_round_trip(m.accesses.claims, aid);
            assert(world@.accesses =~= m.accesses);
            assert(resolve_base(claimed, self.deep_view().base) == resolve_base(
                m,
                self.deep_view().base,
            ));
            match spec_store(m, self.deep_view(), nv.deep_view()) {
                Ok(m2) => {
                    assert(spec_store(claimed, self.deep_view(), nv.deep_view()) matches Ok(c2)
                        && c2.arena == m2.arena && c2.host == m2.host && c2.registry
                        == m2.registry);
                    assert(world@ =~= m2);
                },
                Err(e) => {
                    assert(spec_store(claimed, self.deep_view(), nv.deep_view()) == Err::<
                        WorldModel,
                        InteropError,
                    >(e));
                    assert(world@ =~= m);
                },
            }
        }
        out
    }
}

impl ReflectReference {
    /// The scoped read accessor: claims this reference's base shared,
    /// resolves, hands the context and a copy of the value to the
    /// callback, and returns the claim unconditionally afterwards. While
    /// the callback runs, the claim stays out: a nested exclusive access
    /// to the same base inside the callback is denied.
    pub fn with_reflect<R, F: FnOnce(ScriptWorld, ReflectValue) -> (ScriptWorld, R)>(
        &self,
        world: ScriptWorld,
        f: F,
    ) -> (out: (ScriptWorld, Result<R, InteropError>))
        requires
            world_wf(world@),
            forall|wc: ScriptWorld, vv: ReflectValue|
                (wc@ == (WorldModel {
                    accesses: AccessModel {
                        claims: bump_shared(
                            world@.accesses.claims,
                            access_id_of(self.deep_view().base.base_id),
                        ),
                        global: world@.accesses.global,
                    },
                    ..world@
                }) && spec_resolve(world@, self.deep_view()) == Ok::<Val, InteropError>(
                    vv.deep_view(),
                )) ==> #[trigger] call_requires(f, (wc, vv)),
            forall|wc: ScriptWorld, vv: ReflectValue, b: (ScriptWorld, R)|
                (wc@ == (WorldModel {
                    accesses: AccessModel {
                        claims: bump_shared(
                            world@.accesses.claims,
                            access_id_of(self.deep_view().base.base_id),
                        ),
                        global: world@.accesses.global,
                    },
                    ..world@
                }) && spec_resolve(world@, self.deep_view()) == Ok::<Val, InteropError>(
                    vv.deep_view(),
                ) && #[trigger] call_ensures(f, (wc, vv), b)) ==> world_wf(b.0@),
        ensures
            world_wf(out.0@),
            ({
                let m = world@;
                let aid = access_id_of(self.deep_view().base.base_id);
                if !can_claim_shared(m.accesses, aid) {
                    out.0@ == m && out.1 == Err::<R, InteropError>(InteropError::AccessConflict)
                } else {
                    match spec_resolve(m, self.deep_view()) {
                        Ok(v) => exists|
                            wc: ScriptWorld,
                            vv: ReflectValue,
                            wmid: ScriptWorld,
                            rr: R,
                        |
                            {
                                &&& wc@ == (WorldModel {
                                    accesses: AccessModel {
                                        claims: bump_shared(m.accesses.claims, aid),
                                        global: m.accesses.global,
                                    },
                                    ..m
                                })
                                &&& vv.deep_view() == v
                                &&& #[trigger] call_ensures(f, (wc, vv), (wmid, rr))
                                &&& out.1 == Ok::<R, InteropError>(rr)
                                &&& out.0@.arena == wmid@.arena
                                &&& out.0@.host == wmid@.host
                                &&& out.0@.registry == wmid@.registry
                                &&& out.0@.accesses.global == wmid@.accesses.global
                                &&& out.0@.accesses.claims == drop_shared(
                                    wmid@.accesses.claims,
                                    aid,
                                )
                            },
                        Err(e) => out.0@ == m && out.1 == Err::<R, InteropError>(e),
                    }
                }
            }),
    {
        let mut w = world;
        let ghost m = w@;
        let aid = self.access_id();
        if !w.accesses.claim_shared(aid) {
            return (w, Err(InteropError::AccessConflict));
        }
        proof {
            assert(w@ =~= (WorldModel {
                accesses: AccessModel {
                    claims: bump_shared(m.accesses.claims, aid),
                    global: m.accesses.global,
                },
                ..m
            }));
            assert(resolve_base(w@, self.deep_view().base) == resolve_base(
                m,
                self.deep_view().base,
            ));
            assert(spec_resolve(w@, self.deep_view()) == spec_resolve(m, self.deep_view()));
        }
        match resolve_value(&w, self) {
            Err(e) => {
                let _ = w.accesses.release_shared(aid);
                proof {
                    lemma_shared_round_trip(m.accesses.claims, aid);
                    assert(w@.accesses =~= m.accesses);
                    assert(w@ =~= m);
                }
                (w, Err(e))
            },
            Ok(vv) => {
                let ghost wcg = w;
                let ghost vvg = vv;
                let (mut wmid, rr) = f(w, vv);
                let ghost wmidg = wmid;
                let ghost rrg = rr;
                let _ = wmid.accesses.release_shared(aid);
                proof {
                    assert(call_ensures(f, (wcg, vvg), (wmidg, rrg)));
                    lemma_claim_idx_props(wmidg@.accesses.claims, aid);
                    match claim_idx(wmidg@.accesses.claims, aid) {
                        Some(j) => {
                            lemma_state_skip(wmidg@.accesses.claims, aid, j);
                            assert(wmidg@.accesses.claims.skip(j)[0] == wmidg@.accesses.claims[j]);
                        },
                        None => {
                            crate::access::lemma_no_key_free(wmidg@.accesses.claims, aid);
                        },
                    }
                    assert(wcg@ == (WorldModel {
                        accesses: AccessModel {
                            claims: bump_shared(m.accesses.claims, aid),
                            global: m.accesses.global,
                        },
                        ..m
                    }));
                    assert(vvg.deep_view() == spec_resolve(m, self.deep_view())->Ok_0);
                    assert(wmid@.arena == wmidg@.arena);
                    assert(wmid@.host == wmidg@.host);
                    assert(wmid@.registry == wmidg@.registry);
                    assert(wmid@.accesses.global == wmidg@.accesses.global);
                    assert(wmid@.accesses.claims == drop_shared(wmidg@.accesses.claims, aid));
                }
                (wmid, Ok(rr))
            },
        }
    }

    /// The scoped write accessor: claims this reference's base
    /// exclusively, resolves, hands the context and the current value to
    /// the callback, writes the value the callback returns back at this
    /// reference's location, and returns the claim unconditionally.
    /// While the callback runs, any nested access to the same base is
    /// denied. When the callback hands the context back as it received
    /// it, the write-back cannot fail and the call returns the callback's
    /// result.
    pub fn with_reflect_mut<
        R,
        F: FnOnce(ScriptWorld, ReflectValue) -> (ScriptWorld, ReflectValue, R),
    >(
        &self,
        world: ScriptWorld,
        f: F,
    ) -> (out: (ScriptWorld, Result<R, InteropError>))
        requires
            world_wf(world@),
            forall|wc: ScriptWorld, vv: ReflectValue|
                (wc@ == (WorldModel {
                    accesses: AccessModel {
                        claims: take_unique(
                            world@.accesses.claims,
                            access_id_of(self.deep_view().base.base_id),
                        ),
                        global: world@.accesses.global,
                    },
                    ..world@
                }) && spec_resolve(world@, self.deep_view()) == Ok::<Val, InteropError>(
                    vv.deep_view(),
                )) ==> #[trigger] call_requires(f, (wc, vv)),
            forall|wc: ScriptWorld, vv: ReflectValue, b: (ScriptWorld, ReflectValue, R)|
                (wc@ == (WorldModel {
                    accesses: AccessModel {
                        claims: take_unique(
                            world@.accesses.claims,
                            access_id_of(self.deep_view().base.base_id),
                        ),
                        global: world@.accesses.global,
                    },
                    ..world@
                }) && spec_resolve(world@, self.deep_view()) == Ok::<Val, InteropError>(
                    vv.deep_view(),
                ) && #[trigger] call_ensures(f, (wc, vv), b)) ==> world_wf(b.0@),
        ensures
            world_wf(out.0@),
            ({
                let m = world@;
                let aid = access_id_of(self.deep_view().base.base_id);
                if !can_claim_unique(m.accesses, aid) {
                    out.0@ == m && out.1 == Err::<R, InteropError>(InteropError::AccessConflict)
                } else {
                    match spec_resolve(m, self.deep_view()) {
                        Ok(v) => exists|
                            wc: ScriptWorld,
                            vv: ReflectValue,
                            wmid: ScriptWorld,
                            nv: ReflectValue,
                            rr: R,
                        |
                            {
                                &&& wc@ == (WorldModel {
                                    accesses: AccessModel {
                                        claims: take_unique(m.accesses.claims, aid),
                                        global: m.accesses.global,
                                    },
                                    ..m
                                })
                                &&& vv.deep_view() == v
                                &&& #[trigger] call_ensures(f, (wc, vv), (wmid, nv, rr))
                                &&& out.0@.registry == wmid@.registry
                                &&& out.0@.accesses.global == wmid@.accesses.global
                                &&& out.0@.accesses.claims == drop_unique(
                                    wmid@.accesses.claims,
                                    aid,
                                )
                                &&& match spec_store(wmid@, self.deep_view(), nv.deep_view()) {
                                    Ok(m2) => out.1 == Ok::<R, InteropError>(rr) && out.0@.arena
                                        == m2.arena && out.0@.host == m2.host,
                                    Err(e) => out.1 == Err::<R, InteropError>(e) && out.0@.arena
                                        == wmid@.arena && out.0@.host == wmid@.host,
                                }
                                &&& (wmid@ == wc@ ==> out.1 == Ok::<R, InteropError>(rr))
                            },
                        Err(e) => out.0@ == m && out.1 == Err::<R, InteropError>(e),
                    }
                }
            }),
    {
        let mut w = world;
        let ghost m = w@;
        let aid = self.access_id();
        if !w.accesses.claim_unique(aid) {
            return (w, Err(InteropError::AccessConflict));
        }
        proof {
            assert(w@ =~= (WorldModel {
                accesses: AccessModel {
                    claims: take_unique(m.accesses.claims, aid),
                    global: m.accesses.global,
                },
                ..m
            }));
            assert(resolve_base(w@, self.deep_view().base) == resolve_base(
                m,
                self.deep_view().base,
            ));
            assert(spec_resolve(w@, self.deep_view()) == spec_resolve(m, self.deep_view()));
        }
        match resolve_value(&w, self) {
            Err(e) => {
                let _ = w.accesses.release_unique(aid);
                proof {
                    lemma_unique_round_trip(m.accesses.claims, aid);
                    assert(w@.accesses =~= m.accesses);
                    assert(w@ =~= m);
                }
                (w, Err(e))
            },
            Ok(vv) => {
                let ghost wcg = w;
                let ghost vvg = vv;
                let (mut wmid, nv, rr) = f(w, vv);
                let ghost wmidg = wmid;
                let ghost nvg = nv;
                let stored = store_value(&mut wmid, self, nv);
                let ghost wstored = wmid@;
                let _ = wmid.accesses.release_unique(aid);
                proof {
                    assert(call_ensures(f, (wcg, vvg), (wmidg, nvg, rr)));
                    if wmidg@ == wcg@ {
                        assert(spec_resolve(wcg@, self.deep_view()) is Ok);
                        lemma_write_after_read(wmidg@, self.deep_view(), nvg.deep_view());
                    }
                    assert(wstored.accesses == wmidg@.accesses);
                    lemma_claim_idx_props(wmidg@.accesses.claims, aid);
                    match claim_idx(wmidg@.accesses.claims, aid) {
                        Some(j) => {
                            lemma_state_skip(wmidg@.accesses.claims, aid, j);
                            assert(wmidg@.accesses.claims.skip(j)[0] == wmidg@.accesses.claims[j]);
                        },
                        None => {
                            crate::access::lemma_no_key_free(wmidg@.accesses.claims, aid);
                        },
                    }
                }
                match stored {
                    Ok(_) => (wmid, Ok(rr)),
                    Err(e) => (wmid, Err(e)),
                }
            },
        }
    }
}

/// How many children a resolved value exposes, as an executable count.
fn value_len(v: &ReflectValue) -> (r: Option<usize>)
    ensures
        match crate::nav::val_len(v.deep_view()) {
            Some(n) => r matches Some(x) && x as int == n,
            None => r is None,
        },
{
    match v {
        ReflectValue::Struct { tag: _, fields } => Some(fields.len()),
        ReflectValue::Tuple(items) => Some(items.len()),
        ReflectValue::List(items) => Some(items.len()),
        ReflectValue::MapVal(entries) => Some(entries.len()),
        ReflectValue::Opt(o) => match o {
            Some(_) => Some(1),
            None => Some(0),
        },
        _ => None,
    }
}

/// The element type identifier a resolved container shows.
fn value_element_tag(v: &ReflectValue) -> (r: Option<TypeTag>)
    ensures
        r == crate::value::element_tag(v.deep_view()),
{
    match v {
        ReflectValue::List(items) => if items.len() > 0 {
            proof {
                assert(v.deep_view()->List_0[0] == view_of(items@[0]));
            }
            items[0].runtime_tag()
        } else {
            None
        },
        ReflectValue::MapVal(entries) => if entries.len() > 0 {
            proof {
                assert(v.deep_view()->MapVal_0[0] == (entries@[0].key@, view_of(
                    entries@[0].value,
                )));
            }
            entries[0].value.runtime_tag()
        } else {
            None
        },
        ReflectValue::Opt(o) => match o {
            Some(b) => b.runtime_tag(),
            None => None,
        },
        _ => None,
    }
}

/// The key type identifier a resolved container shows.
fn value_key_tag(v: &ReflectValue) -> (r: Option<TypeTag>)
    ensures
        r == crate::value::key_tag(v.deep_view()),
{
    match v {
        ReflectValue::MapVal(_) => Some(TypeTag(crate::value::STR_TAG)),
        _ => None,
    }
}

impl ReflectReference {
    /// Allocates a value in the arena and returns a reference to it with
    /// an empty path. The reference itself is the allocation's one
    /// outstanding handle. The root type identifier is the value's
    /// reported one, or the stand-in when it reports none.
    pub fn new_allocated(value: ReflectValue, allocator: &mut ReflectAllocator) -> (r:
        ReflectReference)
        requires
            arena_wf(old(allocator)@),
            old(allocator)@.next < usize::MAX,
        ensures
            arena_wf(final(allocator)@),
            final(allocator)@.next == old(allocator)@.next + 1,
            final(allocator)@.entries == old(allocator)@.entries.push(
                AllocModel {
                    id: old(allocator)@.next,
                    value: value.deep_view(),
                    tag: crate::value::tag_of(value.deep_view()),
                    handles: 1,
                },
            ),
            r.deep_view().path == Seq::<crate::path::Seg>::empty(),
            r.deep_view().base.base_id matches ReflectBase::Owned(id) && id.0 as int == old(
                allocator,
            )@.next,
            r.deep_view().base.type_id == (match crate::value::tag_of(value.deep_view()) {
                Some(t) => t,
                None => TypeTag(crate::value::FAKE_TAG),
            }),
    {
        let tag = value.runtime_tag();
        let (id, _handle) = allocator.allocate(value);
        let type_id = match tag {
            Some(t) => t,
            None => TypeTag(crate::value::FAKE_TAG),
        };
        ReflectReference::new_base(
            ReflectBaseType { type_id, base_id: ReflectBase::Owned(id) },
        )
    }

    /// Allocates an already-boxed value, adopting it without a further
    /// copy, and returns a reference to it with an empty path.
    pub fn new_allocated_boxed(value: Box<ReflectValue>, allocator: &mut ReflectAllocator) -> (r:
        ReflectReference)
        requires
            arena_wf(old(allocator)@),
            old(allocator)@.next < usize::MAX,
        ensures
            arena_wf(final(allocator)@),
            final(allocator)@.next == old(allocator)@.next + 1,
            final(allocator)@.entries == old(allocator)@.entries.push(
                AllocModel {
                    id: old(allocator)@.next,
                    value: value.deep_view(),
                    tag: crate::value::tag_of(value.deep_view()),
                    handles: 1,
                },
            ),
            r.deep_view().path == Seq::<crate::path::Seg>::empty(),
            r.deep_view().base.base_id matches ReflectBase::Owned(id) && id.0 as int == old(
                allocator,
            )@.next,
            r.deep_view().base.type_id == (match crate::value::tag_of(value.deep_view()) {
                Some(t) => t,
                None => TypeTag(crate::value::FAKE_TAG),
            }),
    {
        let tag = value.runtime_tag();
        let (id, _handle) = allocator.allocate_boxed(value);
        let type_id = match tag {
            Some(t) => t,
            None => TypeTag(crate::value::FAKE_TAG),
        };
        ReflectReference::new_base(
            ReflectBaseType { type_id, base_id: ReflectBase::Owned(id) },
        )
    }

    /// A reference to the singleton stored under `comp`, if the context
    /// holds one. The root type identifier is the stored one.
    pub fn new_resource_ref(world: &ScriptWorld, comp: crate::ComponentId) -> (r: Option<
        ReflectReference,
    >)
        ensures
            match host_get(world@.host, ReflectAccessId::Resource(comp)) {
                Some(h) => r matches Some(rf) && rf.deep_view() == (RefModel {
                    base: ReflectBaseType { type_id: h.tag, base_id: ReflectBase::Resource(comp) },
                    path: Seq::<crate::path::Seg>::empty(),
                }),
                None => r is None,
            },
    {
        match world.host_value(ReflectAccessId::Resource(comp)) {
            Some(p) => Some(
                ReflectReference::new_base(
                    ReflectBaseType { type_id: p.0, base_id: ReflectBase::Resource(comp) },
                ),
            ),
            None => None,
        }
    }

    /// A reference to the field group `comp` of entity `entity`, if the
    /// context holds one.
    pub fn new_component_ref(
        world: &ScriptWorld,
        entity: crate::Entity,
        comp: crate::ComponentId,
    ) -> (r: Option<ReflectReference>)
        ensures
            match host_get(world@.host, ReflectAccessId::Component(entity, comp)) {
                Some(h) => r matches Some(rf) && rf.deep_view() == (RefModel {
                    base: ReflectBaseType {
                        type_id: h.tag,
                        base_id: ReflectBase::Component(entity, comp),
                    },
                    path: Seq::<crate::path::Seg>::empty(),
                }),
                None => r is None,
            },
    {
        match world.host_value(ReflectAccessId::Component(entity, comp)) {
            Some(p) => Some(
                ReflectReference::new_base(
                    ReflectBaseType {
                        type_id: p.0,
                        base_id: ReflectBase::Component(entity, comp),
                    },
                ),
            ),
            None => None,
        }
    }

    /// The number of children the referenced value exposes, inside a
    /// shared-claim window: field count, element count, or nothing for a
    /// primitive.
    pub fn len(&self, world: &mut ScriptWorld) -> (r: Result<Option<usize>, InteropError>)
        requires
            world_wf(old(world)@),
        ensures
            world_wf(final(world)@),
            final(world)@ == old(world)@,
            ({
                let aid = access_id_of(self.deep_view().base.base_id);
                if !can_claim_shared(old(world)@.accesses, aid) {
                    r == Err::<Option<usize>, InteropError>(InteropError::AccessConflict)
                } else {
                    match spec_resolve(old(world)@, self.deep_view()) {
                        Ok(v) => r matches Ok(l) && (match crate::nav::val_len(v) {
                            Some(n) => l matches Some(x) && x as int == n,
                            None => l is None,
                        }),
                        Err(e) => r == Err::<Option<usize>, InteropError>(e),
                    }
                }
            }),
    {
        match self.read_value(world) {
            Ok(v) => Ok(value_len(&v)),
            Err(e) => Err(e),
        }
    }

    /// The runtime type identifier of the value the reference points to
    /// after walking the path. An empty path answers from the root hint
    /// without resolving or claiming anything.
    pub fn tail_type_id(&self, world: &mut ScriptWorld) -> (r: Result<
        Option<TypeTag>,
        InteropError,
    >)
        requires
            world_wf(old(world)@),
        ensures
            world_wf(final(world)@),
            final(world)@ == old(world)@,
            ({
                let aid = access_id_of(self.deep_view().base.base_id);
                if self.deep_view().path.len() == 0 {
                    r == Ok::<Option<TypeTag>, InteropError>(Some(self.deep_view().base.type_id))
                } else if !can_claim_shared(old(world)@.accesses, aid) {
                    r == Err::<Option<TypeTag>, InteropError>(InteropError::AccessConflict)
                } else {
                    match spec_resolve(old(world)@, self.deep_view()) {
                        Ok(v) => r == Ok::<Option<TypeTag>, InteropError>(crate::value::tag_of(v)),
                        Err(e) => r == Err::<Option<TypeTag>, InteropError>(e),
                    }
                }
            }),
    {
        if self.reflect_path.is_empty() {
            return Ok(Some(self.base.type_id));
        }
        match self.read_value(world) {
            Ok(v) => Ok(v.runtime_tag()),
            Err(e) => Err(e),
        }
    }

    /// The element type identifier of the referenced container, as far
    /// as the live value shows it.
    pub fn element_type_id(&self, world: &mut ScriptWorld) -> (r: Result<
        Option<TypeTag>,
        InteropError,
    >)
        requires
            world_wf(old(world)@),
        ensures
            world_wf(final(world)@),
            final(world)@ == old(world)@,
            ({
                let aid = access_id_of(self.deep_view().base.base_id);
                if !can_claim_shared(old(world)@.accesses, aid) {
                    r == Err::<Option<TypeTag>, InteropError>(InteropError::AccessConflict)
                } else {
                    match spec_resolve(old(world)@, self.deep_view()) {
                        Ok(v) => r == Ok::<Option<TypeTag>, InteropError>(
                            crate::value::element_tag(v),
                        ),
                        Err(e) => r == Err::<Option<TypeTag>, InteropError>(e),
                    }
                }
            }),
    {
        match self.read_value(world) {
            Ok(v) => Ok(value_element_tag(&v)),
            Err(e) => Err(e),
        }
    }

    /// The key type identifier of the referenced container, as far as
    /// the live value shows it.
    pub fn key_type_id(&self, world: &mut ScriptWorld) -> (r: Result<
        Option<TypeTag>,
        InteropError,
    >)
        requires
            world_wf(old(world)@),
        ensures
            world_wf(final(world)@),
            final(world)@ == old(world)@,
            ({
                let aid = access_id_of(self.deep_view().base.base_id);
                if !can_claim_shared(old(world)@.accesses, aid) {
                    r == Err::<Option<TypeTag>, InteropError>(InteropError::AccessConflict)
                } else {
                    match spec_resolve(old(world)@, self.deep_view()) {
                        Ok(v) => r == Ok::<Option<TypeTag>, InteropError>(crate::value::key_tag(v)),
                        Err(e) => r == Err::<Option<TypeTag>, InteropError>(e),
                    }
                }
            }),
    {
        match self.read_value(world) {
            Ok(v) => Ok(value_key_tag(&v)),
            Err(e) => Err(e),
        }
    }

    /// Takes the referenced value out as an owned value. When the
    /// reference is a whole arena allocation with no other outstanding
    /// handle and the exclusive claim is free, the value is physically
    /// removed from the arena without a copy; otherwise the resolved
    /// value is copied out inside a claim window and the context is left
    /// as it was.
    pub fn to_owned_value(&self, world: &mut ScriptWorld) -> (r: Result<
        ReflectValue,
        InteropError,
    >)
        requires
            world_wf(old(world)@),
        ensures
            world_wf(final(world)@),
            ({
                let m = old(world)@;
                let rm = self.deep_view();
                let aid = access_id_of(rm.base.base_id);
                let fast = rm.base.base_id is Owned && rm.path.len() == 0 && can_claim_unique(
                    m.accesses,
                    aid,
                );
                &&& (fast ==> (rm.base.base_id matches ReflectBase::Owned(id) ==> match alloc_get(
                    m.arena.entries,
                    id.0 as int,
                ) {
                    Some(e) => if e.handles <= 1 {
                        r matches Ok(v) && v.deep_view() == e.value && (alloc_idx(
                            m.arena.entries,
                            id.0 as int,
                        ) matches Some(j) && final(world)@ == (WorldModel {
                            arena: ArenaModel { entries: m.arena.entries.remove(j), ..m.arena },
                            ..m
                        }))
                    } else {
                        r matches Ok(v) && v.deep_view() == e.value && final(world)@ == m
                    },
                    None => r == Err::<ReflectValue, InteropError>(InteropError::StaleAllocation)
                        && final(world)@ == m,
                }))
                &&& (!fast ==> final(world)@ == m && (if !can_claim_shared(m.accesses, aid) {
                    r == Err::<ReflectValue, InteropError>(InteropError::AccessConflict)
                } else {
                    match spec_resolve(m, rm) {
                        Ok(v) => r matches Ok(out) && out.deep_view() == v,
                        Err(e) => r == Err::<ReflectValue, InteropError>(e),
                    }
                }))
            }),
    {
        let ghost m = old(world)@;
        let aid = self.access_id();
        match self.base.base_id {
            ReflectBase::Owned(id) => {
                if self.reflect_path.is_empty() {
                    if world.accesses.claim_unique(aid) {
                        match world.arena.handle_count(id) {
                            None => {
                                let _ = world.accesses.release_unique(aid);
                                proof {
                                    lemma_unique_round_trip(m.accesses.claims, aid);
                                    assert(world@.accesses =~= m.accesses);
                                    assert(world@ =~= m);
                                }
                                Err(InteropError::StaleAllocation)
                            },
                            Some(n) => {
                                if n <= 1 {
                                    let taken = world.arena.take(id);
                                    let _ = world.accesses.release_unique(aid);
                                    proof {
                                        lemma_unique_round_trip(m.accesses.claims, aid);
                                        assert(world@.accesses =~= m.accesses);
                                    }
                                    match taken {
                                        Some(v) => {
                                            proof {
                                                assert(world@ =~= (WorldModel {
                                                    arena: ArenaModel {
                                                        entries: m.arena.entries.remove(
                                                            alloc_idx(
                                                                m.arena.entries,
                                                                id.0 as int,
                                                            )->Some_0,
                                                        ),
                                                        ..m.arena
                                                    },
                                                    ..m
                                                }));
                                            }
                                            Ok(v)
                                        },
                                        None => Err(InteropError::StaleAllocation),
                                    }
                                } else {
                                    let copied = match world.arena.peek(id) {
                                        Some(root) => Ok(root.dup()),
                                        None => Err(InteropError::StaleAllocation),
                                    };
                                    let _ = world.accesses.release_unique(aid);
                                    proof {
                                        lemma_unique_round_trip(m.accesses.claims, aid);
                                        assert(world@.accesses =~= m.accesses);
                                        assert(world@ =~= m);
                                    }
                                    copied
                                }
                            },
                        }
                    } else {
                        self.read_value(world)
                    }
                } else {
                    self.read_value(world)
                }
            },
            _ => self.read_value(world),
        }
    }

    /// Resolves this reference and forces the result down to an integer,
    /// copying it out. A resolved value of any other shape is a type
    /// mismatch.
    pub fn downcast_int(&self, world: &mut ScriptWorld) -> (r: Result<i64, InteropError>)
        requires
            world_wf(old(world)@),
        ensures
            world_wf(final(world)@),
            final(world)@ == old(world)@,
            ({
                let aid = access_id_of(self.deep_view().base.base_id);
                if !can_claim_shared(old(world)@.accesses, aid) {
                    r == Err::<i64, InteropError>(InteropError::AccessConflict)
                } else {
                    match spec_resolve(old(world)@, self.deep_view()) {
                        Ok(v) => match v {
                            Val::Int(i) => r matches Ok(x) && x as int == i,
                            _ => r == Err::<i64, InteropError>(InteropError::TypeMismatch),
                        },
                        Err(e) => r == Err::<i64, InteropError>(e),
                    }
                }
            }),
    {
        match self.read_value(world) {
            Ok(ReflectValue::Int(i)) => Ok(i),
            Ok(_) => Err(InteropError::TypeMismatch),
            Err(e) => Err(e),
        }
    }

    /// Resolves this reference and forces the result down to a unit,
    /// exactly as `downcast_int` does for integers.
    pub fn downcast_unit(&self, world: &mut ScriptWorld) -> (r: Result<(), InteropError>)
        requires
            world_wf(old(world)@),
        ensures
            world_wf(final(world)@),
            final(world)@ == old(world)@,
            ({
                let aid = access_id_of(self.deep_view().base.base_id);
                if !can_claim_shared(old(world)@.accesses, aid) {
                    r == Err::<(), InteropError>(InteropError::AccessConflict)
                } else {
                    match spec_resolve(old(world)@, self.deep_view()) {
                        Ok(v) => r == if v is Unit {
                            Ok::<(), InteropError>(())
                        } else {
                            Err::<(), InteropError>(InteropError::TypeMismatch)
                        },
                        Err(e) => r == Err::<(), InteropError>(e),
                    }
                }
            }),
    {
        match self.read_value(world) {
            Ok(ReflectValue::Unit) => Ok(()),
            Ok(_) => Err(InteropError::TypeMismatch),
            Err(e) => Err(e),
        }
    }

    /// Resolves this reference and forces the result down to a boolean,
    /// copying it out; any other resolved shape is a type mismatch.
    pub fn downcast_bool(&self, world: &mut ScriptWorld) -> (r: Result<bool, InteropError>)
        requires
            world_wf(old(world)@),
        ensures
            world_wf(final(world)@),
            final(world)@ == old(world)@,
            ({
                let aid = access_id_of(self.deep_view().base.base_id);
                if !can_claim_shared(old(world)@.accesses, aid) {
                    r == Err::<bool, InteropError>(InteropError::AccessConflict)
                } else {
                    match spec_resolve(old(world)@, self.deep_view()) {
                        Ok(v) => match v {
                            Val::Bool(b) => r == Ok::<bool, InteropError>(b),
                            _ => r == Err::<bool, InteropError>(InteropError::TypeMismatch),
                        },
                        Err(e) => r == Err::<bool, InteropError>(e),
                    }
                }
            }),
    {
        match self.read_value(world) {
            Ok(ReflectValue::Bool(b)) => Ok(b),
            Ok(_) => Err(InteropError::TypeMismatch),
            Err(e) => Err(e),
        }
    }

    /// Resolves this reference and forces the result down to a character,
    /// copying it out; any other resolved shape is a type mismatch.
    pub fn downcast_char(&self, world: &mut ScriptWorld) -> (r: Result<char, InteropError>)
        requires
            world_wf(old(world)@),
        ensures
            world_wf(final(world)@),
            final(world)@ == old(world)@,
            ({
                let aid = access_id_of(self.deep_view().base.base_id);
                if !can_claim_shared(old(world)@.accesses, aid) {
                    r == Err::<char, InteropError>(InteropError::AccessConflict)
                } else {
                    match spec_resolve(old(world)@, self.deep_view()) {
                        Ok(v) => match v {
                            Val::Ch(c) => r == Ok::<char, InteropError>(c),
                            _ => r == Err::<char, InteropError>(InteropError::TypeMismatch),
                        },
                        Err(e) => r == Err::<char, InteropError>(e),
                    }
                }
            }),
    {
        match self.read_value(world) {
            Ok(ReflectValue::Ch(c)) => Ok(c),
            Ok(_) => Err(InteropError::TypeMismatch),
            Err(e) => Err(e),
        }
    }

    /// Resolves this reference and forces the result down to a string,
    /// copying it out; any other resolved shape is a type mismatch.
    pub fn downcast_str(&self, world: &mut ScriptWorld) -> (r: Result<String, InteropError>)
        requires
            world_wf(old(world)@),
        ensures
            world_wf(final(world)@),
            final(world)@ == old(world)@,
            ({
                let aid = access_id_of(self.deep_view().base.base_id);
                if !can_claim_shared(old(world)@.accesses, aid) {
                    r == Err::<String, InteropError>(InteropError::AccessConflict)
                } else {
                    match spec_resolve(old(world)@, self.deep_view()) {
                        Ok(v) => match v {
                            Val::Str(sv) => r matches Ok(out) && out@ == sv,
                            _ => r == Err::<String, InteropError>(InteropError::TypeMismatch),
                        },
                        Err(e) => r == Err::<String, InteropError>(e),
                    }
                }
            }),
    {
        match self.read_value(world) {
            Ok(ReflectValue::Str(sv)) => Ok(sv),
            Ok(_) => Err(InteropError::TypeMismatch),
            Err(e) => Err(e),
        }
    }

    /// One of the three type queries, chosen by `source`.
    pub fn type_id_of(&self, source: crate::reference::TypeIdSource, world: &mut ScriptWorld) -> (r:
        Result<Option<TypeTag>, InteropError>)
        requires
            world_wf(old(world)@),
        ensures
            world_wf(final(world)@),
            final(world)@ == old(world)@,
            ({
                let aid = access_id_of(self.deep_view().base.base_id);
                if source == crate::reference::TypeIdSource::Tail && self.deep_view().path.len()
                    == 0 {
                    r == Ok::<Option<TypeTag>, InteropError>(Some(self.deep_view().base.type_id))
                } else if !can_claim_shared(old(world)@.accesses, aid) {
                    r == Err::<Option<TypeTag>, InteropError>(InteropError::AccessConflict)
                } else {
                    match spec_resolve(old(world)@, self.deep_view()) {
                        Ok(v) => r == Ok::<Option<TypeTag>, InteropError>(
                            match source {
                                crate::reference::TypeIdSource::Tail => crate::value::tag_of(v),
                                crate::reference::TypeIdSource::Element => crate::value::element_tag(
                                    v,
                                ),
                                crate::reference::TypeIdSource::Key => crate::value::key_tag(v),
                            },
                        ),
                        Err(e) => r == Err::<Option<TypeTag>, InteropError>(e),
                    }
                }
            }),
    {
        match source {
            crate::reference::TypeIdSource::Tail => self.tail_type_id(world),
            crate::reference::TypeIdSource::Element => self.element_type_id(world),
            crate::reference::TypeIdSource::Key => self.key_type_id(world),
        }
    }
}

/// Appending a host entry leaves earlier lookups untouched and makes the
/// new entry found exactly when its key was absent.
pub proof fn lemma_host_idx_push(s: Seq<HostModel>, e: HostModel, key: ReflectAccessId)
    ensures
        host_idx(s.push(e), key) == match host_idx(s, key) {
            Some(j) => Some(j),
            None => if e.key == key {
                Some(s.len() as int)
            } else {
                None
            },
        },
        host_get(s.push(e), key) == match host_idx(s, key) {
            Some(j) => Some(s[j]),
            None => if e.key == key {
                Some(e)
            } else {
                None
            },
        },
    decreases s.len(),
{
    lemma_host_idx_props(s, key);
    if s.len() == 0 {
        reveal_with_fuel(host_idx, 2);
        assert(s.push(e)[0] == e);
        if e.key != key {
            assert(s.push(e).drop_first() =~= Seq::<HostModel>::empty());
        }
    } else {
        assert(s.push(e)[0] == s[0]);
        if s[0].key != key {
            lemma_host_idx_push(s.drop_first(), e, key);
            assert(s.push(e).drop_first() =~= s.drop_first().push(e));
        }
        lemma_host_idx_props(s.push(e), key);
        match host_idx(s, key) {
            Some(j) => {
                assert(s.push(e)[j] == s[j]);
            },
            None => {},
        }
    }
}

/// The position of the first host entry with the given key.
fn find_host(entries: &Vec<HostEntry>, key: ReflectAccessId) -> (r: Option<usize>)
    ensures
        match r {
            Some(j) => j < entries.len() && host_idx(entries.deep_view(), key) == Some(j as int),
            None => host_idx(entries.deep_view(), key) is None,
        },
{
    let mut j: usize = 0;
    while j < entries.len()
        invariant
            j <= entries.len(),
            forall|k: int| 0 <= k < j ==> entries.deep_view()[k].key != key,
        decreases entries.len() - j,
    {
        proof {
            assert(entries.deep_view()[j as int] == entries@[j as int].deep_view());
        }
        if entries[j].key == key {
            proof {
                lemma_host_idx_found(entries.deep_view(), key, j as int);
            }
            return Some(j);
        }
        j += 1;
    }
    proof {
        lemma_host_idx_props(entries.deep_view(), key);
    }
    None
}

} // verus!
