//! The aliasing controller: tracks, per base identity, whether zero, one
//! exclusive, or several shared claims are outstanding, and grants or
//! denies new claims accordingly. Claim failure is immediate and final
//! for the requesting operation; nothing blocks or waits.

use vstd::prelude::*;

use crate::arena::ReflectAllocationId;
use crate::{ComponentId, Entity};

verus! {

/// The granularity at which aliasing is policed: one identity per base
/// object, derived deterministically from a reference's base locator.
/// Two references sharing a root share the identity, whatever their
/// paths: the underlying storage can be mutated as a whole at any write.
#[derive(Clone, Copy, PartialEq, Eq, Structural, Debug)]
pub enum ReflectAccessId {
    /// An arena allocation.
    Allocation(ReflectAllocationId),
    /// An entity-scoped field group of the host graph.
    Component(Entity, ComponentId),
    /// A global singleton of the host graph.
    Resource(ComponentId),
    /// The whole host graph.
    World,
}

/// How one identity is currently claimed.
#[derive(Clone, Copy, PartialEq, Eq, Structural, Debug)]
pub enum ClaimState {
    /// Nobody holds the identity.
    Free,
    /// The given number of shared (read) claims are outstanding.
    Shared(u64),
    /// One exclusive (write) claim is outstanding.
    Unique,
}

/// The mathematical shape of the controller: the outstanding claims in
/// the order they were first taken, and whether the whole table is held
/// by a global claim.
#[verifier::ext_equal]
pub struct AccessModel {
    pub claims: Seq<(ReflectAccessId, ClaimState)>,
    pub global: bool,
}

/// The state of one identity: the first entry holding it, or free.
pub open spec fn state_of(claims: Seq<(ReflectAccessId, ClaimState)>, id: ReflectAccessId) -> ClaimState
    decreases claims.len(),
{
    if claims.len() == 0 {
        ClaimState::Free
    } else if claims[0].0 == id {
        claims[0].1
    } else {
        state_of(claims.drop_first(), id)
    }
}

/// Whether some entry holds the identity.
pub open spec fn has_key(claims: Seq<(ReflectAccessId, ClaimState)>, id: ReflectAccessId) -> bool
    decreases claims.len(),
{
    if claims.len() == 0 {
        false
    } else {
        claims[0].0 == id || has_key(claims.drop_first(), id)
    }
}

/// The controller never stores a free or empty-shared entry, never
/// stores one identity twice, and holds no per-identity claim while the
/// global claim is out.
pub open spec fn access_wf(m: AccessModel) -> bool {
    &&& forall|k1: int, k2: int|
        0 <= k1 < k2 < m.claims.len() ==> #[trigger] m.claims[k1].0 != #[trigger] m.claims[k2].0
    &&& forall|k: int|
        0 <= k < m.claims.len() ==> (#[trigger] m.claims[k].1 matches ClaimState::Shared(n) ==> n
            > 0) && m.claims[k].1 != ClaimState::Free
    &&& (m.global ==> m.claims.len() == 0)
}

/// A shared claim is granted unless the identity is held exclusively,
/// the whole table is held globally, or the shared counter is exhausted.
pub open spec fn can_claim_shared(m: AccessModel, id: ReflectAccessId) -> bool {
    &&& !m.global
    &&& state_of(m.claims, id) != ClaimState::Unique
    &&& (state_of(m.claims, id) matches ClaimState::Shared(n) ==> n < u64::MAX)
}

/// An exclusive claim is granted only when the identity is entirely free.
pub open spec fn can_claim_unique(m: AccessModel, id: ReflectAccessId) -> bool {
    !m.global && state_of(m.claims, id) == ClaimState::Free
}

/// The global claim is granted only when no identity is claimed at all.
pub open spec fn can_claim_global(m: AccessModel) -> bool {
    !m.global && m.claims.len() == 0
}

/// The position of the first entry holding `id`, if any.
pub open spec fn claim_idx(claims: Seq<(ReflectAccessId, ClaimState)>, id: ReflectAccessId) -> Option<
    int,
>
    decreases claims.len(),
{
    if claims.len() == 0 {
        None
    } else if claims[0].0 == id {
        Some(0int)
    } else {
        match claim_idx(claims.drop_first(), id) {
            Some(j) => Some(j + 1),
            None => None,
        }
    }
}

/// What `claim_idx` returns: the first matching position, in range, and
/// nothing matches when it returns nothing.
pub proof fn lemma_claim_idx_props(claims: Seq<(ReflectAccessId, ClaimState)>, id: ReflectAccessId)
    ensures
        match claim_idx(claims, id) {
            Some(j) => 0 <= j < claims.len() && claims[j].0 == id && forall|k: int|
                0 <= k < j ==> claims[k].0 != id,
            None => forall|k: int| 0 <= k < claims.len() ==> claims[k].0 != id,
        },
    decreases claims.len(),
{
    if claims.len() == 0 {
    } else if claims[0].0 == id {
    } else {
        lemma_claim_idx_props(claims.drop_first(), id);
        match claim_idx(claims.drop_first(), id) {
            Some(j) => {
                assert(claims.drop_first()[j] == claims[j + 1]);
                assert forall|k: int| 0 <= k < j + 1 implies claims[k].0 != id by {
                    if k > 0 {
                        assert(claims.drop_first()[k - 1] == claims[k]);
                    }
                }
            },
            None => {
                assert forall|k: int| 0 <= k < claims.len() implies claims[k].0 != id by {
                    if k > 0 {
                        assert(claims.drop_first()[k - 1] == claims[k]);
                    }
                }
            },
        }
    }
}

/// If position `j` matches and no earlier one does, `claim_idx` returns `j`.
pub proof fn lemma_claim_idx_found(
    claims: Seq<(ReflectAccessId, ClaimState)>,
    id: ReflectAccessId,
    j: int,
)
    requires
        0 <= j < claims.len(),
        claims[j].0 == id,
        forall|k: int| 0 <= k < j ==> claims[k].0 != id,
    ensures
        claim_idx(claims, id) == Some(j),
{
    lemma_claim_idx_props(claims, id);
    match claim_idx(claims, id) {
        Some(j2) => {
            if j2 < j {
                assert(claims[j2].0 != id);
            }
            if j < j2 {
                assert(claims[j].0 != id);
            }
        },
        None => {
            assert(claims[j].0 != id);
        },
    }
}

/// Appending an entry changes `claim_idx` only for its own identity, and
/// only when that identity was absent.
pub proof fn lemma_claim_idx_push(
    s: Seq<(ReflectAccessId, ClaimState)>,
    e: (ReflectAccessId, ClaimState),
    id: ReflectAccessId,
)
    ensures
        claim_idx(s.push(e), id) == match claim_idx(s, id) {
            Some(j) => Some(j),
            None => if e.0 == id {
                Some(s.len() as int)
            } else {
                None
            },
        },
    decreases s.len(),
{
    lemma_claim_idx_props(s, id);
    if s.len() == 0 {
        reveal_with_fuel(claim_idx, 2);
        assert(s.push(e)[0] == e);
        if e.0 != id {
            assert(s.push(e).drop_first() =~= Seq::<(ReflectAccessId, ClaimState)>::empty());
        }
    } else {
        assert(s.push(e)[0] == s[0]);
        if s[0].0 != id {
            lemma_claim_idx_push(s.drop_first(), e, id);
            assert(s.push(e).drop_first() =~= s.drop_first().push(e));
        }
    }
}

/// The claim table after one further shared claim on `id`.
pub open spec fn bump_shared(
    claims: Seq<(ReflectAccessId, ClaimState)>,
    id: ReflectAccessId,
) -> Seq<(ReflectAccessId, ClaimState)> {
    match claim_idx(claims, id) {
        Some(j) => match claims[j].1 {
            ClaimState::Shared(n) => claims.update(j, (id, ClaimState::Shared((n + 1) as u64))),
            _ => claims,
        },
        None => claims.push((id, ClaimState::Shared(1))),
    }
}

/// The claim table after taking the exclusive claim on a free `id`.
pub open spec fn take_unique(
    claims: Seq<(ReflectAccessId, ClaimState)>,
    id: ReflectAccessId,
) -> Seq<(ReflectAccessId, ClaimState)> {
    claims.push((id, ClaimState::Unique))
}

/// The claim table after returning one shared claim on `id`.
pub open spec fn drop_shared(
    claims: Seq<(ReflectAccessId, ClaimState)>,
    id: ReflectAccessId,
) -> Seq<(ReflectAccessId, ClaimState)> {
    match claim_idx(claims, id) {
        Some(j) => match claims[j].1 {
            ClaimState::Shared(n) => if n == 1 {
                claims.remove(j)
            } else {
                claims.update(j, (id, ClaimState::Shared((n - 1) as u64)))
            },
            _ => claims,
        },
        None => claims,
    }
}

/// The claim table after returning the exclusive claim on `id`.
pub open spec fn drop_unique(
    claims: Seq<(ReflectAccessId, ClaimState)>,
    id: ReflectAccessId,
) -> Seq<(ReflectAccessId, ClaimState)> {
    match claim_idx(claims, id) {
        Some(j) => match claims[j].1 {
            ClaimState::Unique => claims.remove(j),
            _ => claims,
        },
        None => claims,
    }
}

/// Taking a granted shared claim keeps the controller well formed: the
/// claimed identity reads as shared, nothing else moves.
pub proof fn lemma_bump_shared_wf(m: AccessModel, id: ReflectAccessId)
    requires
        access_wf(m),
        can_claim_shared(m, id),
    ensures
        access_wf(AccessModel { claims: bump_shared(m.claims, id), ..m }),
        state_of(bump_shared(m.claims, id), id) != ClaimState::Free,
{
    lemma_claim_idx_props(m.claims, id);
    match claim_idx(m.claims, id) {
        None => {
            let e = (id, ClaimState::Shared(1u64));
            let t = m.claims.push(e);
            assert forall|k1: int, k2: int|
                0 <= k1 < k2 < t.len() implies #[trigger] t[k1].0 != #[trigger] t[k2].0 by {
                if k2 < m.claims.len() {
                    assert(t[k1] == m.claims[k1]);
                    assert(t[k2] == m.claims[k2]);
                } else {
                    assert(t[k1] == m.claims[k1]);
                    assert(t[k2] == e);
                    assert(m.claims[k1].0 != id);
                }
            }
            assert forall|k: int|
                0 <= k < t.len() implies (#[trigger] t[k].1 matches ClaimState::Shared(n) ==> n
                > 0) && t[k].1 != ClaimState::Free by {
                if k < m.claims.len() {
                    assert(t[k] == m.claims[k]);
                } else {
                    assert(t[k] == e);
                }
            }
            lemma_no_key_free(m.claims, id);
            lemma_state_push(m.claims, e, id);
        },
        Some(j) => {
            lemma_state_skip(m.claims, id, j);
            assert(m.claims.skip(j)[0] == m.claims[j]);
            assert(state_of(m.claims, id) == m.claims[j].1);
            let n = m.claims[j].1->Shared_0;
            assert(m.claims[j].1 == ClaimState::Shared(n));
            let t = m.claims.update(j, (id, ClaimState::Shared((n + 1) as u64)));
            assert forall|k1: int, k2: int|
                0 <= k1 < k2 < t.len() implies #[trigger] t[k1].0 != #[trigger] t[k2].0 by {
                assert(m.claims[k1].0 != m.claims[k2].0);
                assert(t[k1].0 == m.claims[k1].0);
                assert(t[k2].0 == m.claims[k2].0);
            }
            assert forall|k: int|
                0 <= k < t.len() implies (#[trigger] t[k].1 matches ClaimState::Shared(n2) ==> n2
                > 0) && t[k].1 != ClaimState::Free by {
                if k != j {
                    assert(t[k] == m.claims[k]);
                }
            }
            lemma_state_update(m.claims, j, ClaimState::Shared((n + 1) as u64), id);
        },
    }
}

/// Taking a granted exclusive claim keeps the controller well formed:
/// the claimed identity reads as exclusively held, nothing else moves.
pub proof fn lemma_take_unique_wf(m: AccessModel, id: ReflectAccessId)
    requires
        access_wf(m),
        can_claim_unique(m, id),
    ensures
        access_wf(AccessModel { claims: take_unique(m.claims, id), ..m }),
        state_of(take_unique(m.claims, id), id) == ClaimState::Unique,
{
    lemma_claim_idx_props(m.claims, id);
    match claim_idx(m.claims, id) {
        Some(j) => {
            lemma_state_skip(m.claims, id, j);
            assert(m.claims.skip(j)[0] == m.claims[j]);
            assert(m.claims[j].1 == ClaimState::Free);
            assert(m.claims[j].1 != ClaimState::Free);
        },
        None => {
            let e = (id, ClaimState::Unique);
            let t = m.claims.push(e);
            assert forall|k1: int, k2: int|
                0 <= k1 < k2 < t.len() implies #[trigger] t[k1].0 != #[trigger] t[k2].0 by {
                if k2 < m.claims.len() {
                    assert(t[k1] == m.claims[k1]);
                    assert(t[k2] == m.claims[k2]);
                } else {
                    assert(t[k1] == m.claims[k1]);
                    assert(t[k2] == e);
                    assert(m.claims[k1].0 != id);
                }
            }
            assert forall|k: int|
                0 <= k < t.len() implies (#[trigger] t[k].1 matches ClaimState::Shared(n) ==> n
                > 0) && t[k].1 != ClaimState::Free by {
                if k < m.claims.len() {
                    assert(t[k] == m.claims[k]);
                } else {
                    assert(t[k] == e);
                }
            }
            lemma_no_key_free(m.claims, id);
            lemma_state_push(m.claims, e, id);
        },
    }
}

/// A shared claim followed by its release restores the claim table
/// exactly.
pub proof fn lemma_shared_round_trip(claims: Seq<(ReflectAccessId, ClaimState)>, id: ReflectAccessId)
    requires
        forall|k1: int, k2: int|
            0 <= k1 < k2 < claims.len() ==> #[trigger] claims[k1].0 != #[trigger] claims[k2].0,
        forall|k: int|
            0 <= k < claims.len() ==> (#[trigger] claims[k].1 matches ClaimState::Shared(n) ==> n
                > 0) && claims[k].1 != ClaimState::Free,
        state_of(claims, id) != ClaimState::Unique,
        state_of(claims, id) matches ClaimState::Shared(n) ==> n < u64::MAX,
    ensures
        drop_shared(bump_shared(claims, id), id) == claims,
{
    lemma_claim_idx_props(claims, id);
    match claim_idx(claims, id) {
        None => {
            let e = (id, ClaimState::Shared(1u64));
            let t = claims.push(e);
            lemma_claim_idx_push(claims, e, id);
            assert(t[claims.len() as int] == e);
            assert(t.remove(claims.len() as int) =~= claims);
        },
        Some(j) => {
            lemma_state_skip(claims, id, j);
            assert(claims.skip(j)[0] == claims[j]);
            assert(state_of(claims, id) == claims[j].1);
            let n = claims[j].1->Shared_0;
            assert(claims[j].1 == ClaimState::Shared(n));
            let t = claims.update(j, (id, ClaimState::Shared((n + 1) as u64)));
            assert forall|k: int| 0 <= k < j implies t[k].0 != id by {
                assert(t[k] == claims[k]);
            }
            lemma_claim_idx_found(t, id, j);
            assert(t[j].1 == ClaimState::Shared((n + 1) as u64));
            assert(n + 1 > 1);
            assert(t.update(j, (id, ClaimState::Shared(n))) =~= claims);
        },
    }
}

/// An exclusive claim followed by its release restores the claim table
/// exactly.
pub proof fn lemma_unique_round_trip(claims: Seq<(ReflectAccessId, ClaimState)>, id: ReflectAccessId)
    requires
        forall|k: int|
            0 <= k < claims.len() ==> (#[trigger] claims[k].1 matches ClaimState::Shared(n) ==> n
                > 0) && claims[k].1 != ClaimState::Free,
        state_of(claims, id) == ClaimState::Free,
    ensures
        drop_unique(take_unique(claims, id), id) == claims,
{
    lemma_claim_idx_props(claims, id);
    match claim_idx(claims, id) {
        Some(j) => {
            lemma_state_skip(claims, id, j);
            assert(claims.skip(j)[0] == claims[j]);
            assert(claims[j].1 == ClaimState::Free);
        },
        None => {},
    }
    let e = (id, ClaimState::Unique);
    let t = claims.push(e);
    lemma_claim_idx_push(claims, e, id);
    assert(t[claims.len() as int] == e);
    assert(t.remove(claims.len() as int) =~= claims);
}

/// Looking an identity up ignores entries before the first match.
pub proof fn lemma_state_skip(s: Seq<(ReflectAccessId, ClaimState)>, id: ReflectAccessId, j: int)
    requires
        0 <= j <= s.len(),
        forall|k: int| 0 <= k < j ==> s[k].0 != id,
    ensures
        state_of(s, id) == state_of(s.skip(j), id),
        has_key(s, id) == has_key(s.skip(j), id),
    decreases j,
{
    if j == 0 {
        assert(s.skip(0) =~= s);
    } else {
        assert(s[0].0 != id);
        assert forall|k: int| 0 <= k < j - 1 implies s.drop_first()[k].0 != id by {
            assert(s.drop_first()[k] == s[k + 1]);
        }
        lemma_state_skip(s.drop_first(), id, j - 1);
        assert(s.drop_first().skip(j - 1) =~= s.skip(j));
    }
}

/// Appending an entry changes only lookups of identities that were
/// absent, and only to the appended entry's state.
pub proof fn lemma_state_push(
    s: Seq<(ReflectAccessId, ClaimState)>,
    e: (ReflectAccessId, ClaimState),
    id: ReflectAccessId,
)
    ensures
        state_of(s.push(e), id) == if has_key(s, id) {
            state_of(s, id)
        } else if e.0 == id {
            e.1
        } else {
            ClaimState::Free
        },
        has_key(s.push(e), id) == (has_key(s, id) || e.0 == id),
    decreases s.len(),
{
    if s.len() == 0 {
        reveal_with_fuel(state_of, 2);
        reveal_with_fuel(has_key, 2);
        assert(s.push(e)[0] == e);
        if e.0 == id {
            assert(state_of(s.push(e), id) == e.1);
            assert(has_key(s.push(e), id));
        } else {
            assert(s.push(e).drop_first() =~= Seq::<(ReflectAccessId, ClaimState)>::empty());
            assert(state_of(s.push(e), id) == ClaimState::Free);
            assert(!has_key(s.push(e), id));
        }
    } else {
        assert(s.push(e)[0] == s[0]);
        if s[0].0 == id {
            assert(state_of(s.push(e), id) == s[0].1);
            assert(state_of(s, id) == s[0].1);
            assert(has_key(s, id));
            assert(has_key(s.push(e), id));
        } else {
            lemma_state_push(s.drop_first(), e, id);
            assert(s.push(e).drop_first() =~= s.drop_first().push(e));
            assert(state_of(s.push(e), id) == state_of(s.drop_first().push(e), id));
            assert(has_key(s.push(e), id) == has_key(s.drop_first().push(e), id));
            assert(state_of(s, id) == state_of(s.drop_first(), id));
            assert(has_key(s, id) == has_key(s.drop_first(), id));
        }
    }
}

/// Removing the entry at `j` frees exactly its identity, when no other
/// entry holds it.
proof fn lemma_state_remove(s: Seq<(ReflectAccessId, ClaimState)>, j: int, id: ReflectAccessId)
    requires
        0 <= j < s.len(),
        forall|k1: int, k2: int| 0 <= k1 < k2 < s.len() ==> #[trigger] s[k1].0 != #[trigger] s[k2].0,
    ensures
        state_of(s.remove(j), id) == if id == s[j].0 {
            ClaimState::Free
        } else {
            state_of(s, id)
        },
        has_key(s.remove(j), id) == (has_key(s, id) && id != s[j].0),
    decreases j,
{
    if j == 0 {
        assert(s.remove(0) =~= s.drop_first());
        if id == s[0].0 {
            lemma_state_skip(s, id, 0);
            lemma_no_key_free(s.drop_first(), id);
            assert forall|k: int| 0 <= k < s.drop_first().len() implies s.drop_first()[k].0
                != id by {
                assert(s.drop_first()[k] == s[k + 1]);
            }
            lemma_no_key_free(s.drop_first(), id);
        }
    } else {
        assert(s.remove(j).drop_first() =~= s.drop_first().remove(j - 1));
        assert forall|k1: int, k2: int|
            0 <= k1 < k2 < s.drop_first().len() implies #[trigger] s.drop_first()[k1].0
            != #[trigger] s.drop_first()[k2].0 by {
            assert(s.drop_first()[k1] == s[k1 + 1]);
            assert(s.drop_first()[k2] == s[k2 + 1]);
        }
        lemma_state_remove(s.drop_first(), j - 1, id);
        assert(s.drop_first()[j - 1] == s[j]);
        if s[0].0 == id {
            assert(s[0].0 != s[j].0);
            assert(s.remove(j)[0] == s[0]);
        } else {
            assert(s.remove(j)[0] == s[0]);
        }
    }
}

/// An identity held by no entry is free.
pub proof fn lemma_no_key_free(s: Seq<(ReflectAccessId, ClaimState)>, id: ReflectAccessId)
    requires
        forall|k: int| 0 <= k < s.len() ==> #[trigger] s[k].0 != id,
    ensures
        state_of(s, id) == ClaimState::Free,
        !has_key(s, id),
    decreases s.len(),
{
    if s.len() > 0 {
        assert forall|k: int| 0 <= k < s.drop_first().len() implies s.drop_first()[k].0 != id by {
            assert(s.drop_first()[k] == s[k + 1]);
        }
        lemma_no_key_free(s.drop_first(), id);
    }
}

/// Replacing the state stored at `j` changes only that identity's lookup.
proof fn lemma_state_update(
    s: Seq<(ReflectAccessId, ClaimState)>,
    j: int,
    st: ClaimState,
    id: ReflectAccessId,
)
    requires
        0 <= j < s.len(),
        forall|k1: int, k2: int| 0 <= k1 < k2 < s.len() ==> #[trigger] s[k1].0 != #[trigger] s[k2].0,
    ensures
        state_of(s.update(j, (s[j].0, st)), id) == if id == s[j].0 {
            st
        } else {
            state_of(s, id)
        },
        has_key(s.update(j, (s[j].0, st)), id) == has_key(s, id),
    decreases j,
{
    let t = s.update(j, (s[j].0, st));
    if j == 0 {
        assert(t[0] == (s[0].0, st));
        if id != s[0].0 {
            assert(t.drop_first() =~= s.drop_first());
        }
    } else {
        assert(t[0] == s[0]);
        assert(t.drop_first() =~= s.drop_first().update(j - 1, (s[j].0, st)));
        assert forall|k1: int, k2: int|
            0 <= k1 < k2 < s.drop_first().len() implies #[trigger] s.drop_first()[k1].0
            != #[trigger] s.drop_first()[k2].0 by {
            assert(s.drop_first()[k1] == s[k1 + 1]);
            assert(s.drop_first()[k2] == s[k2 + 1]);
        }
        assert(s.drop_first()[j - 1] == s[j]);
        lemma_state_update(s.drop_first(), j - 1, st, id);
        if s[0].0 == id {
            assert(s[0].0 != s[j].0);
        }
    }
}

/// The runtime aliasing-control map.
pub struct AccessMap {
    claims: Vec<(ReflectAccessId, ClaimState)>,
    global: bool,
}

impl View for AccessMap {
    type V = AccessModel;

    closed spec fn view(&self) -> AccessModel {
        AccessModel { claims: self.claims@, global: self.global }
    }
}

/// The position of the first claim entry holding `id`.
fn find_claim(claims: &Vec<(ReflectAccessId, ClaimState)>, id: ReflectAccessId) -> (r: Option<
    usize,
>)
    ensures
        match r {
            Some(j) => j < claims.len() && claims@[j as int].0 == id && forall|k: int|
                0 <= k < j ==> claims@[k].0 != id,
            None => forall|k: int| 0 <= k < claims@.len() ==> claims@[k].0 != id,
        },
{
    let mut j: usize = 0;
    while j < claims.len()
        invariant
            j <= claims.len(),
            forall|k: int| 0 <= k < j ==> claims@[k].0 != id,
        decreases claims.len() - j,
    {
        if claims[j].0 == id {
            return Some(j);
        }
        j += 1;
    }
    None
}

impl AccessMap {
    /// A fresh controller with nothing claimed.
    pub fn new() -> (r: AccessMap)
        ensures
            r@.claims == Seq::<(ReflectAccessId, ClaimState)>::empty(),
            !r@.global,
            access_wf(r@),
    {
        let r = AccessMap { claims: Vec::new(), global: false };
        proof {
            assert(r@.claims =~= Seq::<(ReflectAccessId, ClaimState)>::empty());
        }
        r
    }

    /// The current state of one identity.
    pub fn state(&self, id: ReflectAccessId) -> (r: ClaimState)
        ensures
            r == state_of(self@.claims, id),
    {
        match find_claim(&self.claims, id) {
            Some(j) => {
                proof {
                    lemma_state_skip(self@.claims, id, j as int);
                }
                self.claims[j].1
            },
            None => {
                proof {
                    lemma_no_key_free(self@.claims, id);
                }
                ClaimState::Free
            },
        }
    }

    /// Whether the global claim is outstanding.
    pub fn global_claimed(&self) -> (r: bool)
        ensures
            r == self@.global,
    {
        self.global
    }

    /// Takes one shared claim on `id`. Succeeds unless the identity is
    /// held exclusively or globally; on failure nothing changes.
    pub fn claim_shared(&mut self, id: ReflectAccessId) -> (r: bool)
        requires
            access_wf(old(self)@),
        ensures
            access_wf(final(self)@),
            r == can_claim_shared(old(self)@, id),
            final(self)@.global == old(self)@.global,
            !r ==> final(self)@ == old(self)@,
            r ==> state_of(final(self)@.claims, id) == (match state_of(old(self)@.claims, id) {
                ClaimState::Free => ClaimState::Shared(1),
                ClaimState::Shared(n) => ClaimState::Shared((n + 1) as u64),
                ClaimState::Unique => ClaimState::Unique,
            }),
            r ==> forall|id2: ReflectAccessId|
                id2 != id ==> #[trigger] state_of(final(self)@.claims, id2) == state_of(
                    old(self)@.claims,
                    id2,
                ),
            r ==> final(self)@.claims == bump_shared(old(self)@.claims, id),
    {
        if self.global {
            return false;
        }
        match find_claim(&self.claims, id) {
            Some(j) => {
                proof {
                    lemma_state_skip(self@.claims, id, j as int);
                    lemma_claim_idx_found(self@.claims, id, j as int);
                    assert(self@.claims.skip(j as int)[0] == self@.claims[j as int]);
                }
                match self.claims[j].1 {
                    ClaimState::Shared(n) => {
                        if n == u64::MAX {
                            return false;
                        }
                        let ghost before = self.claims@;
                        self.claims[j] = (id, ClaimState::Shared(n + 1));
                        proof {
                            assert(self.claims@ =~= before.update(
                                j as int,
                                (before[j as int].0, ClaimState::Shared((n + 1) as u64)),
                            ));
                            assert forall|id2: ReflectAccessId|
                                #[trigger] state_of(self.claims@, id2) == if id2 == id {
                                    ClaimState::Shared((n + 1) as u64)
                                } else {
                                    state_of(before, id2)
                                } by {
                                lemma_state_update(
                                    before,
                                    j as int,
                                    ClaimState::Shared((n + 1) as u64),
                                    id2,
                                );
                            }
                        }
                        true
                    },
                    _ => false,
                }
            },
            None => {
                let ghost before = self.claims@;
                proof {
                    lemma_no_key_free(before, id);
                    lemma_claim_idx_props(before, id);
                    match claim_idx(before, id) {
                        Some(j0) => {
                            assert(before[j0].0 != id);
                        },
                        None => {},
                    }
                }
                self.claims.push((id, ClaimState::Shared(1)));
                proof {
                    assert forall|id2: ReflectAccessId|
                        #[trigger] state_of(self.claims@, id2) == if id2 == id {
                            ClaimState::Shared(1)
                        } else {
                            state_of(before, id2)
                        } by {
                        lemma_state_push(before, (id, ClaimState::Shared(1)), id2);
                        lemma_no_key_free(before, id);
                        if has_key(before, id2) {
                            lemma_key_present(before, id2);
                        } else {
                            lemma_not_has_key_free(before, id2);
                        }
                    }
                }
                true
            },
        }
    }

    /// Takes the exclusive claim on `id`. Succeeds only when the
    /// identity is entirely free; on failure nothing changes.
    pub fn claim_unique(&mut self, id: ReflectAccessId) -> (r: bool)
        requires
            access_wf(old(self)@),
        ensures
            access_wf(final(self)@),
            r == can_claim_unique(old(self)@, id),
            final(self)@.global == old(self)@.global,
            !r ==> final(self)@ == old(self)@,
            r ==> state_of(final(self)@.claims, id) == ClaimState::Unique,
            r ==> forall|id2: ReflectAccessId|
                id2 != id ==> #[trigger] state_of(final(self)@.claims, id2) == state_of(
                    old(self)@.claims,
                    id2,
                ),
            r ==> final(self)@.claims == take_unique(old(self)@.claims, id),
    {
        if self.global {
            return false;
        }
        match find_claim(&self.claims, id) {
            Some(j) => {
                proof {
                    lemma_state_skip(self@.claims, id, j as int);
                }
                false
            },
            None => {
                let ghost before = self.claims@;
                proof {
                    lemma_no_key_free(before, id);
                    lemma_claim_idx_props(before, id);
                    match claim_idx(before, id) {
                        Some(j0) => {
                            assert(before[j0].0 != id);
                        },
                        None => {},
                    }
                }
                self.claims.push((id, ClaimState::Unique));
                proof {
                    assert forall|id2: ReflectAccessId|
                        #[trigger] state_of(self.claims@, id2) == if id2 == id {
                            ClaimState::Unique
                        } else {
                            state_of(before, id2)
                        } by {
                        lemma_state_push(before, (id, ClaimState::Unique), id2);
                        lemma_no_key_free(before, id);
                        if has_key(before, id2) {
                            lemma_key_present(before, id2);
                        } else {
                            lemma_not_has_key_free(before, id2);
                        }
                    }
                }
                true
            },
        }
    }

    /// Returns one shared claim on `id`. A release with no matching
    /// shared claim outstanding is a quiet no-op that reports failure.
    pub fn release_shared(&mut self, id: ReflectAccessId) -> (r: bool)
        requires
            access_wf(old(self)@),
        ensures
            access_wf(final(self)@),
            r == (state_of(old(self)@.claims, id) is Shared),
            final(self)@.global == old(self)@.global,
            !r ==> final(self)@ == old(self)@,
            r ==> state_of(final(self)@.claims, id) == (match state_of(old(self)@.claims, id) {
                ClaimState::Shared(n) => if n == 1 {
                    ClaimState::Free
                } else {
                    ClaimState::Shared((n - 1) as u64)
                },
                s => s,
            }),
            r ==> forall|id2: ReflectAccessId|
                id2 != id ==> #[trigger] state_of(final(self)@.claims, id2) == state_of(
                    old(self)@.claims,
                    id2,
                ),
            r ==> final(self)@.claims == drop_shared(old(self)@.claims, id),
    {
        match find_claim(&self.claims, id) {
            Some(j) => {
                proof {
                    lemma_state_skip(self@.claims, id, j as int);
                    lemma_claim_idx_found(self@.claims, id, j as int);
                    assert(self@.claims.skip(j as int)[0] == self@.claims[j as int]);
                }
                match self.claims[j].1 {
                    ClaimState::Shared(n) => {
                        let ghost before = self.claims@;
                        if n == 1 {
                            let _ = self.claims.remove(j);
                            proof {
                                assert forall|id2: ReflectAccessId|
                                    #[trigger] state_of(self.claims@, id2) == if id2 == id {
                                        ClaimState::Free
                                    } else {
                                        state_of(before, id2)
                                    } by {
                                    lemma_state_remove(before, j as int, id2);
                                }
                                assert forall|k1: int, k2: int|
                                    0 <= k1 < k2 < self.claims@.len() implies #[trigger] self.claims@[k1].0
                                    != #[trigger] self.claims@[k2].0 by {
                                    lemma_remove_keeps_distinct(before, j as int, k1, k2);
                                }
                            }
                        } else {
                            self.claims[j] = (id, ClaimState::Shared(n - 1));
                            proof {
                                assert(self.claims@ =~= before.update(
                                    j as int,
                                    (before[j as int].0, ClaimState::Shared((n - 1) as u64)),
                                ));
                                assert forall|id2: ReflectAccessId|
                                    #[trigger] state_of(self.claims@, id2) == if id2 == id {
                                        ClaimState::Shared((n - 1) as u64)
                                    } else {
                                        state_of(before, id2)
                                    } by {
                                    lemma_state_update(
                                        before,
                                        j as int,
                                        ClaimState::Shared((n - 1) as u64),
                                        id2,
                                    );
                                }
                            }
                        }
                        true
                    },
                    _ => false,
                }
            },
            None => {
                proof {
                    lemma_no_key_free(self@.claims, id);
                }
                false
            },
        }
    }

    /// Returns the exclusive claim on `id`. A release with no exclusive
    /// claim outstanding is a quiet no-op that reports failure.
    pub fn release_unique(&mut self, id: ReflectAccessId) -> (r: bool)
        requires
            access_wf(old(self)@),
        ensures
            access_wf(final(self)@),
            r == (state_of(old(self)@.claims, id) == ClaimState::Unique),
            final(self)@.global == old(self)@.global,
            !r ==> final(self)@ == old(self)@,
            r ==> state_of(final(self)@.claims, id) == ClaimState::Free,
            r ==> forall|id2: ReflectAccessId|
                id2 != id ==> #[trigger] state_of(final(self)@.claims, id2) == state_of(
                    old(self)@.claims,
                    id2,
                ),
            r ==> final(self)@.claims == drop_unique(old(self)@.claims, id),
    {
        match find_claim(&self.claims, id) {
            Some(j) => {
                proof {
                    lemma_state_skip(self@.claims, id, j as int);
                    lemma_claim_idx_found(self@.claims, id, j as int);
                    assert(self@.claims.skip(j as int)[0] == self@.claims[j as int]);
                }
                match self.claims[j].1 {
                    ClaimState::Unique => {
                        let ghost before = self.claims@;
                        let _ = self.claims.remove(j);
                        proof {
                            assert forall|id2: ReflectAccessId|
                                #[trigger] state_of(self.claims@, id2) == if id2 == id {
                                    ClaimState::Free
                                } else {
                                    state_of(before, id2)
                                } by {
                                lemma_state_remove(before, j as int, id2);
                            }
                            assert forall|k1: int, k2: int|
                                0 <= k1 < k2 < self.claims@.len() implies #[trigger] self.claims@[k1].0
                                != #[trigger] self.claims@[k2].0 by {
                                lemma_remove_keeps_distinct(before, j as int, k1, k2);
                            }
                        }
                        true
                    },
                    _ => false,
                }
            },
            None => {
                proof {
                    lemma_no_key_free(self@.claims, id);
                }
                false
            },
        }
    }

    /// Takes the global claim, which stands for an exclusive claim on
    /// every identity at once. Succeeds only when nothing at all is
    /// claimed; on failure nothing changes.
    pub fn claim_global(&mut self) -> (r: bool)
        requires
            access_wf(old(self)@),
        ensures
            access_wf(final(self)@),
            r == can_claim_global(old(self)@),
            !r ==> final(self)@ == old(self)@,
            r ==> final(self)@.global && final(self)@.claims == old(self)@.claims,
    {
        if self.global {
            return false;
        }
        if self.claims.len() > 0 {
            return false;
        }
        self.global = true;
        true
    }

    /// Returns the global claim. A release with no global claim
    /// outstanding is a quiet no-op that reports failure.
    pub fn release_global(&mut self) -> (r: bool)
        requires
            access_wf(old(self)@),
        ensures
            access_wf(final(self)@),
            r == old(self)@.global,
            !final(self)@.global,
            final(self)@.claims == old(self)@.claims,
    {
        let was = self.global;
        self.global = false;
        was
    }
}

/// An identity that no entry holds reads as free.
pub proof fn lemma_not_has_key_free(s: Seq<(ReflectAccessId, ClaimState)>, id: ReflectAccessId)
    requires
        !has_key(s, id),
    ensures
        state_of(s, id) == ClaimState::Free,
    decreases s.len(),
{
    if s.len() > 0 {
        lemma_not_has_key_free(s.drop_first(), id);
    }
}

/// A held key is found by the scan that `state_of` performs.
pub proof fn lemma_key_present(s: Seq<(ReflectAccessId, ClaimState)>, id: ReflectAccessId)
    requires
        has_key(s, id),
    ensures
        exists|k: int| 0 <= k < s.len() && #[trigger] s[k].0 == id,
    decreases s.len(),
{
    if s.len() > 0 {
        if s[0].0 == id {
        } else {
            lemma_key_present(s.drop_first(), id);
            let k = choose|k: int|
                0 <= k < s.drop_first().len() && #[trigger] s.drop_first()[k].0 == id;
            assert(s[k + 1].0 == id);
        }
    }
}

/// Removing an entry keeps the remaining keys pairwise distinct.
proof fn lemma_remove_keeps_distinct(
    s: Seq<(ReflectAccessId, ClaimState)>,
    j: int,
    k1: int,
    k2: int,
)
    requires
        0 <= j < s.len(),
        forall|a: int, b: int| 0 <= a < b < s.len() ==> #[trigger] s[a].0 != #[trigger] s[b].0,
        0 <= k1 < k2 < s.len() - 1,
    ensures
        s.remove(j)[k1].0 != s.remove(j)[k2].0,
{
    let t = s.remove(j);
    let a1: int = if k1 < j {
        k1
    } else {
        k1 + 1
    };
    let a2: int = if k2 < j {
        k2
    } else {
        k2 + 1
    };
    assert(t[k1] == s[a1]);
    assert(t[k2] == s[a2]);
}

} // verus!
