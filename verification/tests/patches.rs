use mhf_runtime::patch::{errors_result, with_owner, PatchRegistry, PatchReservation};

#[test]
fn patches_reserve_their_full_span_until_explicit_release() {
    let registry = PatchRegistry::new();
    let (registry, first) = with_owner(registry, "test.patch-owner", |mut registry| {
        let reserved = PatchReservation::reserve(&mut registry, "first", 0x7000_0000, 8);
        (registry, reserved)
    });
    let first = first.unwrap();
    let (registry, overlap) = with_owner(registry, "test.patch-consumer", |mut registry| {
        let reserved = PatchReservation::reserve(&mut registry, "second", 0x7000_0004, 8);
        (registry, reserved)
    });
    assert!(matches!(overlap, Err(error) if error.contains("test.patch-owner")));
    let (mut registry, adjacent) = with_owner(registry, "test.patch-consumer", |mut registry| {
        let reserved = PatchReservation::reserve(&mut registry, "adjacent", 0x7000_0008, 4);
        (registry, reserved)
    });
    let adjacent = adjacent.unwrap();
    assert!(registry.ensure_released("test.patch-owner").is_err());
    first.release(&mut registry);
    adjacent.release(&mut registry);
    assert!(registry.ensure_released("test.patch-owner").is_ok());
    assert!(registry.ensure_released("test.patch-consumer").is_ok());
}

#[test]
fn refusals_name_the_occupying_owner_and_the_requester() {
    let mut registry = PatchRegistry::new();
    assert_eq!(registry.owner, "internal");
    PatchReservation::reserve(&mut registry, "entry", 0x1000, 0x10).unwrap();
    let error = PatchReservation::reserve(&mut registry, "late", 0x100f, 1).unwrap_err();
    assert_eq!(
        error,
        "patch conflict at 0x100f: internal (entry) already occupies this range; requested by internal (late)"
    );
    assert_eq!(
        PatchReservation::reserve(&mut registry, "empty", 0x2000, 0).unwrap_err(),
        "cannot reserve an empty patch"
    );
    assert_eq!(
        PatchReservation::reserve(&mut registry, "wrap", usize::MAX, 2).unwrap_err(),
        "patch range overflows address space"
    );
}

#[test]
fn with_owner_restores_the_previous_owner() {
    let registry = PatchRegistry::new();
    let (registry, seen) = with_owner(registry, "example.mod", |registry| {
        let owner = registry.owner.clone();
        (registry, owner)
    });
    assert_eq!(seen, "example.mod");
    assert_eq!(registry.owner, "internal");
}

#[test]
fn hook_targets_claim_one_entry_byte() {
    let mut registry = PatchRegistry::new();
    registry.claim_hook_target("example.hooks", "CreateFileW", 0x5000).unwrap();
    let error = registry.claim_hook_target("other.hooks", "CreateFileW", 0x5000).unwrap_err();
    assert_eq!(
        error,
        "hook conflict at 0x5000: example.hooks (CreateFileW) already owns the target; requested by other.hooks (CreateFileW)"
    );
    assert!(registry.claim_hook_target("other.hooks", "Next", 0x5001).is_ok());
    let remaining = registry.ensure_released("example.hooks").unwrap_err();
    assert_eq!(remaining, "Hook cleanup incomplete: example.hooks (CreateFileW) at 0x5000");
    registry.release_at(0x5000);
    assert!(registry.ensure_released("example.hooks").is_ok());
}

#[test]
fn cleanup_errors_are_joined_in_order() {
    assert!(errors_result(&Vec::new()).is_ok());
    assert_eq!(
        errors_result(&vec!["a failed".to_string(), "b failed".to_string()]).unwrap_err(),
        "a failed; b failed"
    );
}
