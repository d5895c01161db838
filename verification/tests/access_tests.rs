use script_bindings::access::{AccessMap, ClaimState, ReflectAccessId};
use script_bindings::arena::ReflectAllocationId;
use script_bindings::ComponentId;

fn alloc_id(n: usize) -> ReflectAccessId {
    ReflectAccessId::Allocation(ReflectAllocationId(n))
}

#[test]
fn unique_fails_while_shared_outstanding_and_succeeds_after_release() {
    let mut accesses = AccessMap::new();
    let id = alloc_id(0);
    assert!(accesses.claim_shared(id));
    assert!(!accesses.claim_unique(id));
    assert!(accesses.release_shared(id));
    assert!(accesses.claim_unique(id));
}

#[test]
fn unique_fails_while_unique_outstanding_and_succeeds_after_release() {
    let mut accesses = AccessMap::new();
    let id = alloc_id(1);
    assert!(accesses.claim_unique(id));
    assert!(!accesses.claim_unique(id));
    assert!(!accesses.claim_shared(id));
    assert!(accesses.release_unique(id));
    assert!(accesses.claim_unique(id));
}

#[test]
fn shared_claims_stack_and_unblock_only_at_zero() {
    let mut accesses = AccessMap::new();
    let id = alloc_id(2);
    assert!(accesses.claim_shared(id));
    assert!(accesses.claim_shared(id));
    assert_eq!(accesses.state(id), ClaimState::Shared(2));
    assert!(accesses.release_shared(id));
    assert!(!accesses.claim_unique(id));
    assert!(accesses.release_shared(id));
    assert_eq!(accesses.state(id), ClaimState::Free);
    assert!(accesses.claim_unique(id));
}

#[test]
fn distinct_identities_do_not_conflict() {
    let mut accesses = AccessMap::new();
    let a = alloc_id(3);
    let b = ReflectAccessId::Resource(ComponentId(3));
    assert!(accesses.claim_unique(a));
    assert!(accesses.claim_unique(b));
    assert!(accesses.release_unique(a));
    assert!(accesses.release_unique(b));
}

#[test]
fn global_claim_excludes_and_is_excluded() {
    let mut accesses = AccessMap::new();
    let id = alloc_id(4);
    assert!(accesses.claim_shared(id));
    assert!(!accesses.claim_global());
    assert!(accesses.release_shared(id));
    assert!(accesses.claim_global());
    assert!(accesses.global_claimed());
    assert!(!accesses.claim_shared(id));
    assert!(!accesses.claim_unique(id));
    assert!(accesses.release_global());
    assert!(accesses.claim_shared(id));
}

#[test]
fn mismatched_releases_are_quiet_no_ops() {
    let mut accesses = AccessMap::new();
    let id = alloc_id(5);
    assert!(!accesses.release_shared(id));
    assert!(!accesses.release_unique(id));
    assert!(!accesses.release_global());
    assert!(accesses.claim_unique(id));
    assert!(!accesses.release_shared(id));
    assert_eq!(accesses.state(id), ClaimState::Unique);
}
