use hephaestus::closing::{
    after_save, close_request, discard_step, perform_step, request_step, CloseDecision,
    PendingAction, SaveOutcome, Step,
};

#[test]
fn closing_a_buffer_asks_only_when_it_is_unsaved() {
    let ids = vec![7, 9, 11];
    let dirty = vec![false, true, false];
    assert_eq!(perform_step(PendingAction::CloseBuffer(9), &ids, &dirty), Step::Confirm(1));
    assert_eq!(perform_step(PendingAction::CloseBuffer(11), &ids, &dirty), Step::RemoveBuffer(2));
    assert_eq!(perform_step(PendingAction::CloseBuffer(3), &ids, &dirty), Step::Nothing);
}

#[test]
fn closing_the_window_asks_about_the_first_unsaved_buffer() {
    let ids = vec![1, 2, 3];
    assert_eq!(
        perform_step(PendingAction::CloseWindow, &ids, &vec![false, true, true]),
        Step::Confirm(1)
    );
    assert_eq!(
        perform_step(PendingAction::CloseWindow, &ids, &vec![false, false, false]),
        Step::CloseWindow
    );
    assert_eq!(
        request_step(PendingAction::CloseWindow, true, false, &ids, &vec![false; 3]),
        Step::Nothing
    );
    assert_eq!(
        request_step(PendingAction::CloseWindow, false, true, &ids, &vec![false; 3]),
        Step::Nothing
    );
}

#[test]
fn the_window_closes_only_when_nothing_is_unsaved() {
    assert_eq!(close_request(true, false, &vec![false]), CloseDecision::Stay);
    assert_eq!(close_request(false, false, &vec![false, false]), CloseDecision::Close);
    assert_eq!(close_request(false, false, &vec![false, true]), CloseDecision::Confirm(1));
    assert_eq!(close_request(false, true, &vec![true]), CloseDecision::Stay);
    assert_eq!(close_request(false, false, &vec![]), CloseDecision::Close);
}

#[test]
fn discard_drops_the_buffer_and_goes_on_closing_the_window() {
    assert_eq!(discard_step(None), (false, None));
    assert_eq!(
        discard_step(Some(PendingAction::CloseWindow)),
        (true, Some(PendingAction::CloseWindow))
    );
    assert_eq!(discard_step(Some(PendingAction::CloseBuffer(4))), (true, None));
}

#[test]
fn a_clean_save_runs_the_close_it_was_for() {
    let saved = SaveOutcome::Saved { name: "main.rs".to_string(), dirty: false };
    let after = after_save(&saved, None, Some(PendingAction::CloseWindow));
    assert_eq!(after.status.as_deref(), Some("Saved main.rs"));
    assert_eq!(after.external_change, Some(false));
    assert_eq!(after.perform, Some(PendingAction::CloseWindow));
    assert_eq!(after.pending, None);

    let after = after_save(
        &saved,
        Some(PendingAction::CloseBuffer(2)),
        Some(PendingAction::CloseWindow),
    );
    assert_eq!(after.perform, Some(PendingAction::CloseBuffer(2)));
    assert_eq!(after.pending, Some(PendingAction::CloseWindow));

    let still_dirty = SaveOutcome::Saved { name: "a.txt".to_string(), dirty: true };
    let after = after_save(&still_dirty, None, Some(PendingAction::CloseWindow));
    assert_eq!(after.status.as_deref(), Some("Saved a.txt"));
    assert_eq!(after.perform, None);
    assert_eq!(after.pending, Some(PendingAction::CloseWindow));

    let after = after_save(&SaveOutcome::SavedClosed, None, None);
    assert_eq!(after.status, None);
    assert_eq!(after.external_change, None);
}

#[test]
fn cancelled_and_failed_saves_say_so() {
    let after = after_save(&SaveOutcome::Cancelled, None, Some(PendingAction::CloseWindow));
    assert_eq!(after.status.as_deref(), Some("Save cancelled"));
    assert_eq!(after.perform, None);
    assert_eq!(after.pending, Some(PendingAction::CloseWindow));

    let failed = SaveOutcome::Failed("/tmp/a: File changed on disk since it was opened".into());
    let after = after_save(&failed, None, None);
    assert_eq!(
        after.status.as_deref(),
        Some("Save failed: /tmp/a: File changed on disk since it was opened")
    );
    assert_eq!(after.external_change, Some(true));

    let after = after_save(&SaveOutcome::Failed("permission denied".into()), None, None);
    assert_eq!(after.status.as_deref(), Some("Save failed: permission denied"));
    assert_eq!(after.external_change, None);
}
