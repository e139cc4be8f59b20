use mhf_runtime::hooks::{HookSlot, ModuleReference};

#[test]
fn invocations_share_the_published_state_until_the_last_one_leaves() {
    let mut slot: HookSlot<u32> = HookSlot::new();
    assert!(slot.check_free().is_ok());
    let early = slot.enter();
    assert!(early.state().is_none());
    assert!(!slot.leave(early));
    slot.publish(7);
    assert_eq!(
        slot.check_free().unwrap_err(),
        "hook group is already installed or awaiting cleanup"
    );
    let first = slot.enter();
    let second = slot.enter();
    assert_eq!(first.state(), Some(&7));
    assert_eq!(second.state(), Some(&7));
    assert!(!slot.is_idle());
    assert!(!slot.leave(first));
    assert!(slot.leave(second));
    assert!(slot.is_idle());
}

#[test]
fn retired_slots_send_late_detours_to_the_original_target() {
    let mut slot: HookSlot<String> = HookSlot::new();
    slot.publish("state".to_string());
    let held = slot.enter();
    let retired = slot.retire();
    assert_eq!(retired.as_deref().map(String::as_str), Some("state"));
    let late = slot.enter();
    assert!(late.state().is_none());
    assert_eq!(held.state().map(String::as_str), Some("state"));
    assert!(!slot.is_idle());
    assert!(slot.leave(held));
    assert!(!slot.leave(late));
    assert!(slot.check_free().is_err());
    slot.vacate();
    assert!(slot.check_free().is_ok());
}

#[test]
fn module_references_keep_their_base_after_release() {
    let mut module = ModuleReference::from_owned(0x1000_0000);
    assert!(module.owned());
    module.mark_released();
    assert!(!module.owned());
    assert_eq!(module.base(), 0x1000_0000);
}

#[test]
fn invocations_get_state_only_while_a_group_is_installed() {
    let mut slot: HookSlot<u32> = HookSlot::new();
    let early = slot.enter();
    assert_eq!(early.state(), None);
    slot.leave(early);
    slot.publish(7);
    let during = slot.enter();
    assert_eq!(during.state(), Some(&7));
    assert!(slot.retire().is_some());
    let late = slot.enter();
    assert_eq!(late.state(), None);
    assert!(!slot.leave(late));
    assert_eq!(during.state(), Some(&7));
    assert!(slot.leave(during));
    assert!(slot.is_idle());
}
