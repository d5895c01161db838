//! The allocation arena: owns type-erased values created by the script
//! side, issues stable identities, and reclaims storage by a handle-count
//! sweep that the host invokes on demand.

use vstd::prelude::*;

use crate::value::{tag_of, view_of, ReflectValue, Val};
use crate::TypeTag;

verus! {

/// The identity of one arena allocation: unique within an arena instance
/// and never reused while the value is live. A lookup key with no
/// ownership semantics of its own.
#[derive(Clone, Copy, PartialEq, Eq, Structural, Hash, Debug)]
pub struct ReflectAllocationId(pub usize);

impl ReflectAllocationId {
    /// The raw identity.
    pub fn id(&self) -> (r: usize)
        ensures
            r == self.0,
    {
        self.0
    }
}

/// An owning indirection around a value adopted from elsewhere: the arena
/// stores it as handed in, without a further copy.
#[derive(Debug)]
pub struct OwningPtr {
    value: Box<ReflectValue>,
}

impl OwningPtr {
    /// The value this pointer owns.
    pub closed spec fn model(&self) -> Val {
        view_of(*self.value)
    }

    /// Adopts an already-boxed value.
    pub fn new(value: Box<ReflectValue>) -> (r: OwningPtr)
        ensures
            r.model() == value.deep_view(),
    {
        OwningPtr { value }
    }

    /// Borrows the owned value.
    pub fn value_ref(&self) -> (r: &ReflectValue)
        ensures
            view_of(*r) == self.model(),
    {
        &self.value
    }

    /// Releases the owned value.
    pub fn into_inner(self) -> (r: Box<ReflectValue>)
        ensures
            r.deep_view() == self.model(),
    {
        self.value
    }
}

/// How one allocation owns its value: moved in directly by the script
/// side, or adopted from an existing owning indirection.
#[derive(Debug)]
enum AllocCell {
    Direct(ReflectValue),
    Adopted(OwningPtr),
}

impl AllocCell {
    spec fn model(&self) -> Val {
        match self {
            AllocCell::Direct(v) => view_of(*v),
            AllocCell::Adopted(p) => p.model(),
        }
    }

    fn value_ref(&self) -> (r: &ReflectValue)
        ensures
            view_of(*r) == self.model(),
    {
        match self {
            AllocCell::Direct(v) => v,
            AllocCell::Adopted(p) => p.value_ref(),
        }
    }

    fn into_value(self) -> (r: ReflectValue)
        ensures
            view_of(r) == self.model(),
    {
        match self {
            AllocCell::Direct(v) => v,
            AllocCell::Adopted(p) => *p.into_inner(),
        }
    }
}

/// One stored allocation.
struct ArenaEntry {
    id: usize,
    cell: AllocCell,
    tag: Option<TypeTag>,
    handles: u64,
}

/// The mathematical shape of one stored allocation.
pub struct AllocModel {
    pub id: int,
    pub value: Val,
    pub tag: Option<TypeTag>,
    pub handles: int,
}

impl DeepView for ArenaEntry {
    type V = AllocModel;

    closed spec fn deep_view(&self) -> AllocModel {
        AllocModel {
            id: self.id as int,
            value: self.cell.model(),
            tag: self.tag,
            handles: self.handles as int,
        }
    }
}

/// The mathematical shape of the arena: the stored allocations in
/// insertion order, and the next identity to hand out.
#[verifier::ext_equal]
pub struct ArenaModel {
    pub entries: Seq<AllocModel>,
    pub next: int,
}

/// The position of the first allocation with identity `id`, if any.
pub open spec fn alloc_idx(entries: Seq<AllocModel>, id: int) -> Option<int>
    decreases entries.len(),
{
    if entries.len() == 0 {
        None
    } else if entries[0].id == id {
        Some(0int)
    } else {
        match alloc_idx(entries.drop_first(), id) {
            Some(j) => Some(j + 1),
            None => None,
        }
    }
}

/// The stored allocation with identity `id`, if any.
pub open spec fn alloc_get(entries: Seq<AllocModel>, id: int) -> Option<AllocModel> {
    match alloc_idx(entries, id) {
        Some(j) => Some(entries[j]),
        None => None,
    }
}

/// What `alloc_idx` returns: the first matching position, in range, and
/// nothing matches when it returns nothing.
pub proof fn lemma_alloc_idx_props(entries: Seq<AllocModel>, id: int)
    ensures
        match alloc_idx(entries, id) {
            Some(j) => 0 <= j < entries.len() && entries[j].id == id && forall|k: int|
                0 <= k < j ==> entries[k].id != id,
            None => forall|k: int| 0 <= k < entries.len() ==> entries[k].id != id,
        },
    decreases entries.len(),
{
    if entries.len() == 0 {
    } else if entries[0].id == id {
    } else {
        lemma_alloc_idx_props(entries.drop_first(), id);
        match alloc_idx(entries.drop_first(), id) {
            Some(j) => {
                assert(entries.drop_first()[j] == entries[j + 1]);
                assert forall|k: int| 0 <= k < j + 1 implies entries[k].id != id by {
                    if k > 0 {
                        assert(entries.drop_first()[k - 1] == entries[k]);
                    }
                }
            },
            None => {
                assert forall|k: int| 0 <= k < entries.len() implies entries[k].id != id by {
                    if k > 0 {
                        assert(entries.drop_first()[k - 1] == entries[k]);
                    }
                }
            },
        }
    }
}

/// If position `j` matches and no earlier one does, `alloc_idx` returns `j`.
pub proof fn lemma_alloc_idx_found(entries: Seq<AllocModel>, id: int, j: int)
    requires
        0 <= j < entries.len(),
        entries[j].id == id,
        forall|k: int| 0 <= k < j ==> entries[k].id != id,
    ensures
        alloc_idx(entries, id) == Some(j),
{
    lemma_alloc_idx_props(entries, id);
    match alloc_idx(entries, id) {
        Some(j2) => {
            if j2 < j {
                assert(entries[j2].id != id);
            }
            if j < j2 {
                assert(entries[j].id != id);
            }
        },
        None => {
            assert(entries[j].id != id);
        },
    }
}

/// The arena keeps issued identities below `next` and never stores two
/// allocations under one identity.
pub open spec fn arena_wf(m: ArenaModel) -> bool {
    &&& forall|k: int| 0 <= k < m.entries.len() ==> 0 <= #[trigger] m.entries[k].id < m.next
    &&& forall|k1: int, k2: int|
        0 <= k1 < k2 < m.entries.len() ==> #[trigger] m.entries[k1].id != #[trigger] m.entries[
            k2
        ].id
}

/// A handle to one live allocation. The arena counts outstanding handles
/// per allocation; its collection pass reclaims exactly the allocations
/// with no outstanding handle.
#[derive(Debug)]
pub struct ReflectAllocation {
    id: ReflectAllocationId,
}

impl ReflectAllocation {
    /// The identity of the allocation this handle keeps live.
    pub fn id(&self) -> (r: ReflectAllocationId)
        ensures
            r.0 as int == self.spec_id(),
    {
        self.id
    }

    /// The identity, for contracts.
    pub closed spec fn spec_id(&self) -> int {
        self.id.0 as int
    }
}

/// The type-erased allocation arena.
pub struct ReflectAllocator {
    entries: Vec<ArenaEntry>,
    next: usize,
}

impl View for ReflectAllocator {
    type V = ArenaModel;

    closed spec fn view(&self) -> ArenaModel {
        ArenaModel { entries: self.entries.deep_view(), next: self.next as int }
    }
}

/// The position of the first entry with the given raw identity.
fn find_entry(entries: &Vec<ArenaEntry>, id: usize) -> (r: Option<usize>)
    ensures
        match r {
            Some(j) => j < entries.len() && alloc_idx(entries.deep_view(), id as int) == Some(
                j as int,
            ),
            None => alloc_idx(entries.deep_view(), id as int) is None,
        },
{
    let mut j: usize = 0;
    while j < entries.len()
        invariant
            j <= entries.len(),
            forall|k: int| 0 <= k < j ==> entries.deep_view()[k].id != id as int,
        decreases entries.len() - j,
    {
        proof {
            assert(entries.deep_view()[j as int] == entries@[j as int].deep_view());
        }
        if entries[j].id == id {
            proof {
                lemma_alloc_idx_found(entries.deep_view(), id as int, j as int);
            }
            return Some(j);
        }
        j += 1;
    }
    proof {
        lemma_alloc_idx_props(entries.deep_view(), id as int);
    }
    None
}

impl ReflectAllocator {
    /// A fresh, empty arena.
    pub fn new() -> (r: ReflectAllocator)
        ensures
            r@.entries == Seq::<AllocModel>::empty(),
            r@.next == 0,
            arena_wf(r@),
    {
        let r = ReflectAllocator { entries: Vec::new(), next: 0 };
        proof {
            assert(r@.entries =~= Seq::<AllocModel>::empty());
        }
        r
    }

    /// Stores one prepared cell under a fresh identity with one
    /// outstanding handle.
    fn store(&mut self, cell: AllocCell, tag: Option<TypeTag>) -> (r: (
        ReflectAllocationId,
        ReflectAllocation,
    ))
        requires
            arena_wf(old(self)@),
            old(self)@.next < usize::MAX,
        ensures
            arena_wf(final(self)@),
            final(self)@.next == old(self)@.next + 1,
            final(self)@.entries == old(self)@.entries.push(
                AllocModel {
                    id: old(self)@.next,
                    value: cell.model(),
                    tag,
                    handles: 1,
                },
            ),
            r.0.0 == old(self)@.next,
            r.1.spec_id() == old(self)@.next,
    {
        let id = self.next;
        let ghost before = self.entries.deep_view();
        self.next = self.next + 1;
        self.entries.push(ArenaEntry { id, cell, tag, handles: 1 });
        proof {
            assert(self.entries.deep_view() =~= before.push(
                AllocModel {
                    id: id as int,
                    value: self.entries@[before.len() as int].cell.model(),
                    tag,
                    handles: 1,
                },
            ));
        }
        (ReflectAllocationId(id), ReflectAllocation { id: ReflectAllocationId(id) })
    }

    /// Allocates a value moved in by the script side, returning its fresh
    /// identity and a handle to it. Always succeeds.
    pub fn allocate(&mut self, value: ReflectValue) -> (r: (
        ReflectAllocationId,
        ReflectAllocation,
    ))
        requires
            arena_wf(old(self)@),
            old(self)@.next < usize::MAX,
        ensures
            arena_wf(final(self)@),
            final(self)@.next == old(self)@.next + 1,
            final(self)@.entries == old(self)@.entries.push(
                AllocModel {
                    id: old(self)@.next,
                    value: value.deep_view(),
                    tag: tag_of(value.deep_view()),
                    handles: 1,
                },
            ),
            r.0.0 == old(self)@.next,
            r.1.spec_id() == old(self)@.next,
    {
        let tag = value.runtime_tag();
        self.store(AllocCell::Direct(value), tag)
    }

    /// Allocates a value already held behind an owning indirection,
    /// adopting it without a further copy. Always succeeds.
    pub fn allocate_boxed(&mut self, value: Box<ReflectValue>) -> (r: (
        ReflectAllocationId,
        ReflectAllocation,
    ))
        requires
            arena_wf(old(self)@),
            old(self)@.next < usize::MAX,
        ensures
            arena_wf(final(self)@),
            final(self)@.next == old(self)@.next + 1,
            final(self)@.entries == old(self)@.entries.push(
                AllocModel {
                    id: old(self)@.next,
                    value: value.deep_view(),
                    tag: tag_of(value.deep_view()),
                    handles: 1,
                },
            ),
            r.0.0 == old(self)@.next,
            r.1.spec_id() == old(self)@.next,
    {
        let tag = value.runtime_tag();
        self.store(AllocCell::Adopted(OwningPtr::new(value)), tag)
    }

    /// A further handle to the allocation with identity `id`, or nothing
    /// if it was collected or never existed. Each vended handle raises the
    /// allocation's outstanding-handle count by one.
    pub fn get(&mut self, id: ReflectAllocationId) -> (r: Option<ReflectAllocation>)
        requires
            match alloc_get(old(self)@.entries, id.0 as int) {
                Some(e) => e.handles < u64::MAX,
                None => true,
            },
        ensures
            final(self)@.next == old(self)@.next,
            arena_wf(old(self)@) ==> arena_wf(final(self)@),
            match alloc_get(old(self)@.entries, id.0 as int) {
                Some(e) => {
                    &&& r matches Some(h) && h.spec_id() == id.0 as int
                    &&& alloc_idx(old(self)@.entries, id.0 as int) matches Some(j)
                        && final(self)@.entries == old(self)@.entries.update(
                        j,
                        AllocModel { handles: e.handles + 1, ..e },
                    )
                },
                None => r is None && final(self)@.entries == old(self)@.entries,
            },
    {
        match find_entry(&self.entries, id.0) {
            Some(j) => {
                let ghost before = self.entries.deep_view();
                let ghost bv = self.entries@;
                let ghost e = before[j as int];
                proof {
                    assert(before[j as int] == bv[j as int].deep_view());
                }
                let entry = self.entries.remove(j);
                let bumped = ArenaEntry { handles: entry.handles + 1, ..entry };
                self.entries.insert(j, bumped);
                proof {
                    assert forall|k: int|
                        0 <= k < self.entries@.len() implies self.entries.deep_view()[k]
                        == before.update(j as int, AllocModel { handles: e.handles + 1, ..e })[
                        k
                    ] by {
                        assert(self.entries.deep_view()[k] == self.entries@[k].deep_view());
                        if k != j {
                            assert(self.entries@[k] == bv[k]);
                            assert(before[k] == bv[k].deep_view());
                        }
                    }
                    assert(self.entries.deep_view() =~= before.update(
                        j as int,
                        AllocModel { handles: e.handles + 1, ..e },
                    ));
                }
                Some(ReflectAllocation { id })
            },
            None => None,
        }
    }

    /// A further handle, exactly as `get`. The arena vends handles the
    /// same way for shared and mutable use: aliasing is policed by the
    /// access controller, not by the arena.
    pub fn get_mut(&mut self, id: ReflectAllocationId) -> (r: Option<ReflectAllocation>)
        requires
            match alloc_get(old(self)@.entries, id.0 as int) {
                Some(e) => e.handles < u64::MAX,
                None => true,
            },
        ensures
            final(self)@.next == old(self)@.next,
            arena_wf(old(self)@) ==> arena_wf(final(self)@),
            match alloc_get(old(self)@.entries, id.0 as int) {
                Some(e) => {
                    &&& r matches Some(h) && h.spec_id() == id.0 as int
                    &&& alloc_idx(old(self)@.entries, id.0 as int) matches Some(j)
                        && final(self)@.entries == old(self)@.entries.update(
                        j,
                        AllocModel { handles: e.handles + 1, ..e },
                    )
                },
                None => r is None && final(self)@.entries == old(self)@.entries,
            },
    {
        self.get(id)
    }

    /// The registered type identifier of the allocation, if the stored
    /// value carries one.
    pub fn get_type_id(&self, id: ReflectAllocationId) -> (r: Option<TypeTag>)
        ensures
            r == match alloc_get(self@.entries, id.0 as int) {
                Some(e) => e.tag,
                None => None,
            },
    {
        match find_entry(&self.entries, id.0) {
            Some(j) => {
                proof {
                    assert(self.entries.deep_view()[j as int] == self.entries@[
                        j as int
                    ].deep_view());
                }
                self.entries[j].tag
            },
            None => None,
        }
    }

    /// Borrows the stored value of the allocation, if it is live.
    pub fn peek(&self, id: ReflectAllocationId) -> (r: Option<&ReflectValue>)
        ensures
            match alloc_get(self@.entries, id.0 as int) {
                Some(e) => r matches Some(v) && view_of(*v) == e.value,
                None => r is None,
            },
    {
        match find_entry(&self.entries, id.0) {
            Some(j) => {
                proof {
                    assert(self.entries.deep_view()[j as int] == self.entries@[
                        j as int
                    ].deep_view());
                }
                Some(self.entries[j].cell.value_ref())
            },
            None => None,
        }
    }

    /// How many handles to the allocation are outstanding, if it is live.
    pub fn handle_count(&self, id: ReflectAllocationId) -> (r: Option<u64>)
        ensures
            match alloc_get(self@.entries, id.0 as int) {
                Some(e) => r matches Some(n) && n as int == e.handles,
                None => r is None,
            },
    {
        match find_entry(&self.entries, id.0) {
            Some(j) => {
                proof {
                    assert(self.entries.deep_view()[j as int] == self.entries@[
                        j as int
                    ].deep_view());
                }
                Some(self.entries[j].handles)
            },
            None => None,
        }
    }

    /// How many allocations the arena currently stores.
    pub fn allocation_count(&self) -> (r: usize)
        ensures
            r as int == self@.entries.len(),
    {
        self.entries.len()
    }

    /// Replaces the stored value of a live allocation, reporting whether
    /// the allocation was found.
    pub fn replace(&mut self, id: ReflectAllocationId, nv: ReflectValue) -> (r: bool)
        ensures
            final(self)@.next == old(self)@.next,
            arena_wf(old(self)@) ==> arena_wf(final(self)@),
            match alloc_get(old(self)@.entries, id.0 as int) {
                Some(e) => r && (alloc_idx(old(self)@.entries, id.0 as int) matches Some(j)
                    && final(self)@.entries == old(self)@.entries.update(
                    j,
                    AllocModel { value: nv.deep_view(), ..e },
                )),
                None => !r && final(self)@.entries == old(self)@.entries,
            },
    {
        match find_entry(&self.entries, id.0) {
            Some(j) => {
                let ghost before = self.entries.deep_view();
                let ghost bv = self.entries@;
                let ghost e = before[j as int];
                proof {
                    assert(before[j as int] == bv[j as int].deep_view());
                }
                let entry = self.entries.remove(j);
                let swapped = ArenaEntry { cell: AllocCell::Direct(nv), ..entry };
                self.entries.insert(j, swapped);
                proof {
                    assert forall|k: int|
                        0 <= k < self.entries@.len() implies self.entries.deep_view()[k]
                        == before.update(j as int, AllocModel { value: view_of(nv), ..e })[k] by {
                        assert(self.entries.deep_view()[k] == self.entries@[k].deep_view());
                        if k != j {
                            assert(self.entries@[k] == bv[k]);
                            assert(before[k] == bv[k].deep_view());
                        }
                    }
                    assert(self.entries.deep_view() =~= before.update(
                        j as int,
                        AllocModel { value: view_of(nv), ..e },
                    ));
                }
                true
            },
            None => false,
        }
    }

    /// Lowers the outstanding-handle count for the allocation the handle
    /// points to, consuming the handle. Releasing a handle whose
    /// allocation is already gone is a quiet no-op.
    pub fn release(&mut self, handle: ReflectAllocation) -> (r: bool)
        ensures
            final(self)@.next == old(self)@.next,
            arena_wf(old(self)@) ==> arena_wf(final(self)@),
            match alloc_get(old(self)@.entries, handle.spec_id()) {
                Some(e) => if e.handles > 0 {
                    r && (alloc_idx(old(self)@.entries, handle.spec_id()) matches Some(j)
                        && final(self)@.entries == old(self)@.entries.update(
                        j,
                        AllocModel { handles: e.handles - 1, ..e },
                    ))
                } else {
                    !r && final(self)@.entries == old(self)@.entries
                },
                None => !r && final(self)@.entries == old(self)@.entries,
            },
    {
        match find_entry(&self.entries, handle.id.0) {
            Some(j) => {
                let ghost before = self.entries.deep_view();
                let ghost bv = self.entries@;
                let ghost e = before[j as int];
                proof {
                    assert(before[j as int] == bv[j as int].deep_view());
                }
                if self.entries[j].handles == 0 {
                    return false;
                }
                let entry = self.entries.remove(j);
                let lowered = ArenaEntry { handles: entry.handles - 1, ..entry };
                self.entries.insert(j, lowered);
                proof {
                    assert forall|k: int|
                        0 <= k < self.entries@.len() implies self.entries.deep_view()[k]
                        == before.update(j as int, AllocModel { handles: e.handles - 1, ..e })[
                        k
                    ] by {
                        assert(self.entries.deep_view()[k] == self.entries@[k].deep_view());
                        if k != j {
                            assert(self.entries@[k] == bv[k]);
                            assert(before[k] == bv[k].deep_view());
                        }
                    }
                    assert(self.entries.deep_view() =~= before.update(
                        j as int,
                        AllocModel { handles: e.handles - 1, ..e },
                    ));
                }
                true
            },
            None => false,
        }
    }

    /// Removes the allocation unconditionally. For callers that have
    /// independently established exclusive ownership.
    pub fn deallocate(&mut self, id: ReflectAllocationId)
        ensures
            final(self)@.next == old(self)@.next,
            arena_wf(old(self)@) ==> arena_wf(final(self)@),
            match alloc_idx(old(self)@.entries, id.0 as int) {
                Some(j) => final(self)@.entries == old(self)@.entries.remove(j),
                None => final(self)@.entries == old(self)@.entries,
            },
    {
        match find_entry(&self.entries, id.0) {
            Some(j) => {
                let ghost before = self.entries.deep_view();
                let ghost bv = self.entries@;
                let _ = self.entries.remove(j);
                proof {
                    assert forall|k: int|
                        0 <= k < self.entries@.len() implies self.entries.deep_view()[k]
                        == before.remove(j as int)[k] by {
                        assert(self.entries.deep_view()[k] == self.entries@[k].deep_view());
                        if k < j {
                            assert(self.entries@[k] == bv[k]);
                            assert(before[k] == bv[k].deep_view());
                        } else {
                            assert(self.entries@[k] == bv[k + 1]);
                            assert(before[k + 1] == bv[k + 1].deep_view());
                        }
                    }
                    assert(self.entries.deep_view() =~= before.remove(j as int));
                }
            },
            None => {},
        }
    }

    /// Removes the allocation and hands its value out, if it is live.
    pub fn take(&mut self, id: ReflectAllocationId) -> (r: Option<ReflectValue>)
        ensures
            final(self)@.next == old(self)@.next,
            arena_wf(old(self)@) ==> arena_wf(final(self)@),
            match alloc_get(old(self)@.entries, id.0 as int) {
                Some(e) => {
                    &&& r matches Some(v) && view_of(v) == e.value
                    &&& alloc_idx(old(self)@.entries, id.0 as int) matches Some(j)
                        && final(self)@.entries == old(self)@.entries.remove(j)
                },
                None => r is None && final(self)@.entries == old(self)@.entries,
            },
    {
        match find_entry(&self.entries, id.0) {
            Some(j) => {
                let ghost before = self.entries.deep_view();
                let ghost bv = self.entries@;
                proof {
                    assert(before[j as int] == bv[j as int].deep_view());
                }
                let entry = self.entries.remove(j);
                proof {
                    assert forall|k: int|
                        0 <= k < self.entries@.len() implies self.entries.deep_view()[k]
                        == before.remove(j as int)[k] by {
                        assert(self.entries.deep_view()[k] == self.entries@[k].deep_view());
                        if k < j {
                            assert(self.entries@[k] == bv[k]);
                            assert(before[k] == bv[k].deep_view());
                        } else {
                            assert(self.entries@[k] == bv[k + 1]);
                            assert(before[k + 1] == bv[k + 1].deep_view());
                        }
                    }
                    assert(self.entries.deep_view() =~= before.remove(j as int));
                }
                Some(entry.cell.into_value())
            },
            None => None,
        }
    }

    /// The sweep: drops every allocation with no outstanding handle and
    /// keeps every other allocation unchanged. Must be invoked
    /// periodically by the host; the arena performs no collection on its
    /// own.
    pub fn clean_garbage_allocations(&mut self)
        requires
            arena_wf(old(self)@),
        ensures
            arena_wf(final(self)@),
            final(self)@.next == old(self)@.next,
            forall|id: int|
                #[trigger] alloc_get(final(self)@.entries, id) == match alloc_get(
                    old(self)@.entries,
                    id,
                ) {
                    Some(e) => if e.handles > 0 {
                        Some(e)
                    } else {
                        None
                    },
                    None => None,
                },
    {
        let ghost orig = self.entries.deep_view();
        let ghost nextg = self@.next;
        let total = self.entries.len();
        proof {
            assert(orig.len() == total as int);
        }
        let mut src: Vec<ArenaEntry> = Vec::new();
        core::mem::swap(&mut src, &mut self.entries);
        let mut out: Vec<ArenaEntry> = Vec::new();
        let mut i: usize = 0;
        proof {
            assert(src.deep_view() =~= orig);
        }
        while src.len() > 0
            invariant
                orig.len() == total as int,
                i as int + src.deep_view().len() == orig.len(),
                src.deep_view() =~= orig.skip(i as int),
                forall|k: int| 0 <= k < out.deep_view().len() ==> 0 <= #[trigger] out.deep_view()[k].id
                    < nextg,
                forall|k1: int, k2: int|
                    0 <= k1 < k2 < out.deep_view().len() ==> #[trigger] out.deep_view()[k1].id
                        != #[trigger] out.deep_view()[k2].id,
                forall|k1: int, k2: int|
                    0 <= k1 < k2 < orig.len() ==> #[trigger] orig[k1].id != #[trigger] orig[k2].id,
                forall|k: int| 0 <= k < orig.len() ==> 0 <= #[trigger] orig[k].id < nextg,
                forall|id: int|
                    #[trigger] alloc_get(out.deep_view(), id) == match alloc_get(
                        orig.take(i as int),
                        id,
                    ) {
                        Some(e) => if e.handles > 0 {
                            Some(e)
                        } else {
                            None
                        },
                        None => None,
                    },
            decreases src.len(),
        {
            let ghost out_before = out.deep_view();
            let ghost src_before = src.deep_view();
            let ghost src_v = src@;
            let entry = src.remove(0);
            let ghost em = orig[i as int];
            proof {
                assert(src_before[0] == src_v[0].deep_view());
                assert(src_before[0] == em);
                assert(entry.deep_view() == em);
                assert(src.deep_view() =~= src_before.drop_first());
                assert(src_before.drop_first() =~= orig.skip(i as int + 1));
            }
            let keep = entry.handles > 0;
            if keep {
                proof {
                    lemma_alloc_idx_props(orig.take(i as int), em.id);
                    match alloc_idx(orig.take(i as int), em.id) {
                        Some(j) => {
                            assert(orig.take(i as int)[j] == orig[j]);
                            assert(orig[j].id != orig[i as int].id);
                        },
                        None => {},
                    }
                    assert(alloc_idx(orig.take(i as int), em.id) is None);
                    let lhs = alloc_get(out.deep_view(), em.id);
                    assert(lhs == alloc_get(out_before, em.id));
                    assert(alloc_get(out_before, em.id) is None);
                    lemma_alloc_idx_props(out_before, em.id);
                }
                out.push(entry);
                proof {
                    assert(out.deep_view() =~= out_before.push(em));
                    assert(forall|k: int|
                        0 <= k < out_before.len() ==> #[trigger] out_before[k].id != em.id);
                }
            }
            proof {
                assert(orig.take(i as int + 1) =~= orig.take(i as int).push(em));
                assert forall|id: int|
                    #[trigger] alloc_get(out.deep_view(), id) == match alloc_get(
                        orig.take(i as int + 1),
                        id,
                    ) {
                        Some(e) => if e.handles > 0 {
                            Some(e)
                        } else {
                            None
                        },
                        None => None,
                    } by {
                    let before_fact = alloc_get(out_before, id);
                    lemma_alloc_idx_push(orig.take(i as int), em, id);
                    lemma_alloc_idx_props(orig.take(i as int), id);
                    match alloc_idx(orig.take(i as int), id) {
                        Some(j) => {
                            assert(orig.take(i as int)[j] == orig[j]);
                            assert(0 <= j < i as int);
                            assert(orig[j].id != orig[i as int].id);
                        },
                        None => {},
                    }
                    if keep {
                        lemma_alloc_idx_push(out_before, em, id);
                        lemma_alloc_idx_props(out_before, id);
                    } else {
                        lemma_alloc_idx_props(out.deep_view(), id);
                    }
                }
            }
            i += 1;
        }
        let ghost result_dv = out.deep_view();
        core::mem::swap(&mut out, &mut self.entries);
        proof {
            assert(orig.take(orig.len() as int) =~= orig);
            assert(self.entries.deep_view() == result_dv);
            assert forall|id: int|
                #[trigger] alloc_get(self@.entries, id) == match alloc_get(orig, id) {
                    Some(e) => if e.handles > 0 {
                        Some(e)
                    } else {
                        None
                    },
                    None => None,
                } by {
                let probe = alloc_get(result_dv, id);
                let probe2 = alloc_get(orig.take(orig.len() as int), id);
            }
        }
    }
}

/// Pushing an entry leaves every earlier lookup untouched and makes the
/// new entry found exactly when nothing earlier holds its identity.
pub proof fn lemma_alloc_idx_push(s: Seq<AllocModel>, e: AllocModel, id: int)
    ensures
        alloc_idx(s.push(e), id) == match alloc_idx(s, id) {
            Some(j) => Some(j),
            None => if e.id == id {
                Some(s.len() as int)
            } else {
                None
            },
        },
        alloc_get(s.push(e), id) == match alloc_idx(s, id) {
            Some(j) => Some(s[j]),
            None => if e.id == id {
                Some(e)
            } else {
                None
            },
        },
    decreases s.len(),
{
    lemma_alloc_idx_props(s, id);
    if s.len() == 0 {
        assert(s.push(e)[0] == e);
        if e.id != id {
            assert(s.push(e).drop_first() =~= Seq::<AllocModel>::empty());
        }
    } else {
        assert(s.push(e)[0] == s[0]);
        if s[0].id != id {
            lemma_alloc_idx_push(s.drop_first(), e, id);
            assert(s.push(e).drop_first() =~= s.drop_first().push(e));
            assert(alloc_idx(s.push(e).drop_first(), id) == alloc_idx(
                s.drop_first().push(e),
                id,
            ));
            lemma_alloc_idx_props(s.drop_first(), id);
            match alloc_idx(s.drop_first(), id) {
                Some(j) => {
                    assert(s.drop_first()[j] == s[j + 1]);
                    assert(s.push(e)[j + 1] == s[j + 1]);
                },
                None => {
                    if e.id == id {
                        assert(s.push(e)[s.len() as int] == e);
                    }
                },
            }
        }
    }
}

} // verus!
