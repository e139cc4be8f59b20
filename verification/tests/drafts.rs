use mhf_runtime::drafts::{
    any_pending, fail_submitted, flush_end, flush_start, flush_wants, forget_previous, history_step, pack_blocked,
    same_bytes, submitted_revision, Draft, FlushEnd, FlushStart, HistoryStep,
};

#[test]
fn withdrawing_a_draft_never_reuses_a_submitted_revision() {
    let mut draft = Draft::new("0".to_string(), vec![0]);
    draft.change("1".to_string());
    let submitted = draft.revision;
    draft.change("invalid".to_string());
    draft.reset(Ok(("0".to_string(), vec![0])));
    draft.change("2".to_string());
    assert_ne!(draft.revision, submitted);
    assert!(draft.pending);
    assert_eq!(draft.revision, 4);
}

#[test]
fn a_rebuild_acknowledges_only_the_revision_it_carried() {
    let mut draft = Draft::new("0".to_string(), vec![0]);
    draft.change("1".to_string());
    let first = draft.revision;
    draft.change("2".to_string());
    assert!(draft.acknowledge(Some(first)));
    assert_eq!(draft.rebase(Ok(vec![1]), true, "conflict"), Ok(()));
    assert_eq!(draft.original, vec![1]);
    assert_eq!(draft.text, "2");
    assert!(!draft.acknowledge(Some(draft.revision)));
}

#[test]
fn changed_bytes_under_a_waiting_draft_conflict() {
    let mut draft = Draft::new("0".to_string(), vec![0]);
    draft.change("5".to_string());
    assert_eq!(draft.rebase(Ok(vec![0]), false, "conflict"), Ok(()));
    assert!(!draft.conflicted);
    assert_eq!(draft.rebase(Ok(vec![9]), false, "conflict"), Err("conflict".to_string()));
    assert!(draft.conflicted);
    assert_eq!(draft.original, vec![0]);
    assert_eq!(draft.rebase(Err("gone".to_string()), true, "moved"), Err("moved".to_string()));
    draft.change("6".to_string());
    assert_eq!(draft.error, "");
}

#[test]
fn a_failed_reread_keeps_the_text_and_marks_the_conflict() {
    let mut draft = Draft::new("0".to_string(), vec![0]);
    draft.change("7".to_string());
    draft.reset(Err("structure changed".to_string()));
    assert!(draft.conflicted && !draft.pending);
    assert_eq!(draft.error, "structure changed");
    assert_eq!(draft.text, "7");
    draft.change("8".to_string());
    assert_eq!(draft.error, "structure changed");
}

#[test]
fn failed_rebuilds_mark_only_current_submissions() {
    let mut drafts = vec![Draft::new("a".to_string(), vec![1]), Draft::new("b".to_string(), vec![2])];
    drafts[0].change("x".to_string());
    drafts[1].change("y".to_string());
    let submitted = vec![(0, drafts[0].revision), (1, drafts[1].revision + 5), (7, 1)];
    fail_submitted(&mut drafts, &submitted, "rebuild failed");
    assert_eq!(drafts[0].error, "rebuild failed");
    assert_eq!(drafts[1].error, "");
    assert_eq!(submitted_revision(&submitted, 1), Some(6));
    assert_eq!(submitted_revision(&submitted, 3), None);
    assert!(any_pending(&drafts));
    assert!(!any_pending(&vec![Draft::new(String::new(), Vec::new())]));
}

#[test]
fn history_withdraws_drafts_before_undoing() {
    assert_eq!(history_step(false, false, true, true), HistoryStep::Nothing);
    assert_eq!(history_step(true, false, true, true), HistoryStep::Withdraw);
    assert_eq!(history_step(true, true, true, true), HistoryStep::Redo);
    assert_eq!(history_step(true, false, false, true), HistoryStep::Undo);
    assert_eq!(history_step(true, false, false, false), HistoryStep::Nothing);
    assert!(forget_previous(true, false, false, false, false));
    assert!(!forget_previous(true, false, true, false, false));
    assert!(same_bytes(&vec![1, 2], &vec![1, 2]) && !same_bytes(&vec![1], &vec![1, 2]));
}

#[test]
fn flushes_wait_for_typing_unless_packing_or_switching() {
    assert_eq!(flush_start(true, false, false, Some(10)), FlushStart::Skip);
    assert_eq!(flush_start(false, false, false, Some(100)), FlushStart::Wait(50));
    assert_eq!(flush_start(false, false, false, Some(150)), FlushStart::Go);
    assert_eq!(flush_start(false, false, true, Some(0)), FlushStart::Go);
    assert_eq!(flush_start(true, true, false, Some(0)), FlushStart::Go);
    assert_eq!(flush_start(false, false, false, None), FlushStart::Go);
}

#[test]
fn only_valid_waiting_drafts_out_of_focus_are_written() {
    let mut draft = Draft::new("0".to_string(), vec![0]);
    assert!(!flush_wants(&draft, true, false));
    draft.change("1".to_string());
    assert!(flush_wants(&draft, false, false));
    assert!(!flush_wants(&draft, false, true));
    assert!(flush_wants(&draft, true, true));
    assert_eq!(draft.record_write(Ok(true), false), Some(1));
    assert!(draft.pending);
    assert_eq!(draft.record_write(Ok(false), true), None);
    assert!(draft.pending);
    assert_eq!(draft.record_write(Err("bad value".to_string()), false), None);
    assert_eq!(draft.error, "bad value");
    assert!(!flush_wants(&draft, true, false));
    assert!(pack_blocked(&vec![draft]));
    let mut clean = Draft::new("0".to_string(), vec![0]);
    clean.change("0".to_string());
    assert_eq!(clean.record_write(Ok(false), false), None);
    assert!(!clean.pending);
    assert!(!pack_blocked(&vec![clean]));
}

#[test]
fn a_flush_dispatches_before_switching_documents() {
    assert_eq!(flush_end(true, true, true), FlushEnd::Hold);
    assert_eq!(flush_end(false, true, true), FlushEnd::Dispatch);
    assert_eq!(flush_end(false, false, true), FlushEnd::Switch);
    assert_eq!(flush_end(false, false, false), FlushEnd::Idle);
}
