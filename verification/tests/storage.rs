use webhook_catcher::capture::{store_start, store_step, StoreAction, StoreEvent, StoreState};
use webhook_catcher::error::CaptureError;

fn run(events: &[StoreEvent]) -> Vec<StoreAction> {
    let (mut state, first) = store_start();
    let mut actions = vec![first];
    for event in events {
        let (next, action) = store_step(state, *event);
        state = next;
        actions.push(action);
    }
    actions
}

#[test]
fn stores_a_new_delivery_body_first() {
    let actions = run(&[
        StoreEvent::DirectoryReady,
        StoreEvent::Existence { metadata: false, body: false },
        StoreEvent::BodyStored,
        StoreEvent::MetadataStored,
    ]);
    assert_eq!(
        actions,
        vec![
            StoreAction::CreateDirectory,
            StoreAction::CheckExisting,
            StoreAction::WriteBody,
            StoreAction::WriteMetadata,
            StoreAction::Finish { duplicate: false },
        ]
    );
}

#[test]
fn a_complete_pair_is_a_duplicate_and_is_not_written() {
    let actions = run(&[
        StoreEvent::DirectoryReady,
        StoreEvent::Existence { metadata: true, body: true },
        StoreEvent::RegularFilesConfirmed,
        StoreEvent::BodyStored,
    ]);
    assert_eq!(
        actions,
        vec![
            StoreAction::CreateDirectory,
            StoreAction::CheckExisting,
            StoreAction::ConfirmRegularFiles,
            StoreAction::Finish { duplicate: true },
            StoreAction::Abort,
        ]
    );
}

#[test]
fn a_partial_pair_is_refused() {
    let actions = run(&[StoreEvent::DirectoryReady, StoreEvent::Existence { metadata: true, body: false }]);
    assert_eq!(actions[2], StoreAction::Refuse(CaptureError::IncompleteCapture));
}

#[test]
fn a_failed_metadata_write_removes_the_body() {
    let (state, action) = store_step(StoreState::AwaitMetadata, StoreEvent::MetadataFailed);
    assert_eq!(state, StoreState::Finished);
    assert_eq!(action, StoreAction::RemoveBody);
}
