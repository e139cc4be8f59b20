use mhf_runtime::ime::{
    active_range, host_target_wanted, ime_apply, ime_begin, ime_character, ime_idle, ime_message, CursorBits,
    ImeApply, ImeCharacter, ImeIdle, ImeMessage, ImeOwner, ImeState, ImeTarget, ImeText, GCS_RESULTSTR,
};

#[test]
fn converts_target_attributes_from_utf16_to_character_indices() {
    assert_eq!(active_range("你😀好", &[0, 1, 1, 0], 0), Some(1..2));
    assert_eq!(active_range("你好世界", &[0, 3, 3, 0], 0), Some(1..3));
}

#[test]
fn converts_cursor_from_utf16_without_splitting_surrogate_pairs() {
    assert_eq!(active_range("你😀好", &[], 3), Some(2..2));
    assert_eq!(active_range("你😀好", &[], 2), Some(1..1));
    assert_eq!(active_range("你😀好", &[], 99), Some(3..3));
    assert_eq!(active_range("你😀好", &[], -1), None);
    assert_eq!(active_range("", &[], 0), None);
}

#[test]
fn only_the_first_targeted_run_is_active() {
    assert_eq!(active_range("abcde", &[1, 2, 3, 3, 0], 0), Some(0..1));
    assert_eq!(active_range("abcde", &[0, 0, 3, 3, 3], 4), Some(2..5));
    assert_eq!(active_range("abc", &[0, 0, 0], 1), Some(1..1));
    assert_eq!(active_range("😀", &[0, 1], 1), Some(0..0));
}

fn cursor(x: u32) -> CursorBits {
    CursorBits { min_x: x, min_y: 0, max_x: x + 1, max_y: 16 }
}

fn host(id: usize, x: u32) -> ImeTarget {
    ImeTarget { owner: ImeOwner::Host(id), cursor: cursor(x) }
}

fn overlay(id: u64) -> ImeTarget {
    ImeTarget { owner: ImeOwner::Overlay(Some(id)), cursor: cursor(7) }
}

fn applied(target: ImeTarget) -> ImeState {
    let mut state = ImeState::new();
    let begin = ime_begin(&mut state, true, Some(target), true, false);
    assert!(begin.create_context);
    let apply = ime_apply(&mut state, target, None, begin.reset, true, true);
    assert_eq!(apply, ImeApply { suspend: false, set_cursor: true, set_context: true });
    state
}

#[test]
fn focused_host_editor_receives_the_context() {
    let state = applied(host(4, 10));
    assert_eq!(state.applied, Some(host(4, 10)));
    assert!(state.has_context && state.owns_messages);
}

#[test]
fn blocking_overlay_takes_input_from_the_host() {
    let mut state = applied(host(4, 10));
    state.requested = Some(overlay(9));
    state.block_host = true;
    assert!(!host_target_wanted(&state, true, false));
    let begin = ime_begin(&mut state, true, Some(host(4, 10)), true, false);
    assert_eq!(begin.target, Some(overlay(9)));
    assert!(begin.reset);
    assert_eq!(begin.cancel, Some(ImeOwner::Host(4)));
    assert_eq!(state.applied, None);
    let apply = ime_apply(&mut state, overlay(9), None, begin.reset, false, true);
    assert_eq!(apply, ImeApply { suspend: false, set_cursor: true, set_context: false });
    assert_eq!(state.applied, Some(overlay(9)));
}

#[test]
fn same_owner_moves_only_the_cursor() {
    let mut state = applied(host(4, 10));
    let begin = ime_begin(&mut state, true, Some(host(4, 20)), true, false);
    assert!(!begin.reset);
    assert_eq!(begin.cancel, None);
    let apply = ime_apply(&mut state, host(4, 20), Some(host(4, 10)), begin.reset, false, true);
    assert!(apply.set_cursor && !apply.set_context);
    let begin = ime_begin(&mut state, true, Some(host(4, 20)), true, false);
    let apply = ime_apply(&mut state, host(4, 20), Some(host(4, 20)), begin.reset, false, true);
    assert!(!apply.set_cursor);
}

#[test]
fn interrupt_cancels_the_current_owner() {
    let mut state = applied(host(4, 10));
    state.composing = true;
    state.interrupt = true;
    let begin = ime_begin(&mut state, true, Some(host(4, 10)), true, false);
    assert!(begin.reset);
    assert_eq!(begin.cancel, Some(ImeOwner::Host(4)));
    assert!(!state.composing && !state.interrupt);
}

#[test]
fn losing_focus_suspends_and_closing_releases() {
    let mut state = applied(host(4, 10));
    let begin = ime_begin(&mut state, false, Some(host(4, 10)), true, false);
    assert_eq!(begin.target, None);
    assert!(!begin.release_context);
    assert_eq!(ime_idle(&mut state, begin.release_context, true), ImeIdle::Suspend);
    assert!(state.owns_messages && state.has_context);
    state.closing = true;
    let begin = ime_begin(&mut state, true, Some(host(4, 10)), true, true);
    assert!(begin.release_context);
    assert_eq!(ime_idle(&mut state, begin.release_context, true), ImeIdle::RestoreAndDestroy);
    assert!(!state.owns_messages && !state.has_context);
}

#[test]
fn failed_association_suspends_the_context() {
    let mut state = ImeState::new();
    let begin = ime_begin(&mut state, true, Some(host(1, 0)), true, false);
    let apply = ime_apply(&mut state, host(1, 0), None, begin.reset, true, false);
    assert_eq!(apply, ImeApply { suspend: true, set_cursor: false, set_context: false });
    assert_eq!(state.applied, None);
}

#[test]
fn messages_are_ignored_until_claimed() {
    let mut state = ImeState::new();
    assert_eq!(ime_message(&mut state, ImeMessage::SetContext, 0, None, None), None);
}

#[test]
fn set_context_hides_the_composition_window() {
    let mut state = applied(host(4, 10));
    let reply = ime_message(&mut state, ImeMessage::SetContext, 0xC000_000F, None, None).unwrap();
    assert!(reply.default_proc);
    assert_eq!(reply.lparam, 0x4000_000F);
    let mut idle = ImeState::new();
    idle.owns_messages = true;
    let reply = ime_message(&mut idle, ImeMessage::SetContext, 0xC000_000F, None, None).unwrap();
    assert_eq!(reply.lparam, 0);
}

#[test]
fn composition_commits_then_continues_with_a_preedit() {
    let mut state = applied(host(4, 10));
    let start = ime_message(&mut state, ImeMessage::StartComposition, 0, None, None).unwrap();
    assert!(start.default_proc && state.composing);
    let flags = (GCS_RESULTSTR | 0x8) as isize;
    let reply = ime_message(
        &mut state,
        ImeMessage::Composition,
        flags,
        Some("你".to_string()),
        Some(("好".to_string(), Some(0..1))),
    )
    .unwrap();
    assert!(!reply.default_proc);
    assert_eq!(reply.owner, Some(ImeOwner::Host(4)));
    assert_eq!(
        reply.events,
        vec![ImeText::Commit("你".to_string()), ImeText::Preedit("好".to_string(), Some(0..1))]
    );
    assert!(state.composing);
    let reply = ime_message(&mut state, ImeMessage::Composition, 0, None, None).unwrap();
    assert_eq!(reply.events, vec![ImeText::Preedit(String::new(), None)]);
    assert!(!state.composing);
}

#[test]
fn end_of_composition_delivers_a_late_result_once() {
    let mut state = applied(host(4, 10));
    ime_message(&mut state, ImeMessage::StartComposition, 0, None, None);
    let reply = ime_message(&mut state, ImeMessage::EndComposition, 0, Some("한".to_string()), None).unwrap();
    assert_eq!(reply.events, vec![ImeText::Commit("한".to_string()), ImeText::Preedit(String::new(), None)]);
    assert!(reply.default_proc && state.ended && !state.composing);
    let late = ime_message(&mut state, ImeMessage::Composition, GCS_RESULTSTR as isize, Some("한".to_string()), None)
        .unwrap();
    assert!(late.events.is_empty() && !late.default_proc);
}

#[test]
fn duplicate_character_messages_are_swallowed_and_others_passed_on() {
    let mut state = applied(host(4, 10));
    let swallowed = ime_message(&mut state, ImeMessage::Swallowed, 5, None, None).unwrap();
    assert!(!swallowed.default_proc && swallowed.events.is_empty());
    let forwarded = ime_message(&mut state, ImeMessage::Forwarded, 5, None, None).unwrap();
    assert!(forwarded.default_proc);
    assert_eq!(ime_message(&mut state, ImeMessage::Other, 5, None, None), None);
}

#[test]
fn host_characters_join_surrogate_pairs_and_keep_controls_native() {
    let mut state = applied(host(4, 10));
    assert_eq!(ime_character(&mut state, 'a' as usize), ImeCharacter::Commit(4, 'a'));
    assert_eq!(ime_character(&mut state, 0xD83D), ImeCharacter::Consumed);
    assert_eq!(ime_character(&mut state, 0xDE00), ImeCharacter::Commit(4, '😀'));
    assert_eq!(ime_character(&mut state, 0x0D), ImeCharacter::PassOn);
    assert_eq!(ime_character(&mut state, 0xDE00), ImeCharacter::Consumed);
    state.composing = true;
    assert_eq!(ime_character(&mut state, 'b' as usize), ImeCharacter::Consumed);
    let mut overlay_state = applied(overlay(2));
    assert_eq!(ime_character(&mut overlay_state, 'b' as usize), ImeCharacter::PassOn);
}
