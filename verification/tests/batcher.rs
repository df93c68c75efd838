use paradox_mod_translator::translate::{BatchAction, BatchEvent, TranslationBatcher};

fn done(index: usize) -> BatchEvent {
    BatchEvent::Completed { index, succeeded: true }
}

fn failed(index: usize) -> BatchEvent {
    BatchEvent::Completed { index, succeeded: false }
}

#[test]
fn batcher_remembers_its_bound() {
    assert_eq!(TranslationBatcher::new(4).max_concurrent(), 4);
}

#[test]
fn empty_batch_is_finished_at_once() {
    assert_eq!(TranslationBatcher::new(2).begin(0).next_action(), BatchAction::Finish);
    assert_eq!(TranslationBatcher::new(0).begin(0).next_action(), BatchAction::Finish);
}

#[test]
fn batch_never_runs_more_calls_than_allowed() {
    let mut progress = TranslationBatcher::new(2).begin(3);
    assert_eq!(progress.next_action(), BatchAction::Dispatch(0));
    assert_eq!(progress.step(BatchEvent::Started), BatchAction::Dispatch(1));
    assert_eq!(progress.step(BatchEvent::Started), BatchAction::Wait);
    assert_eq!(progress.step(BatchEvent::Started), BatchAction::Wait);
    assert_eq!(progress.step(done(1)), BatchAction::Dispatch(2));
    assert_eq!(progress.step(BatchEvent::Started), BatchAction::Wait);
    assert_eq!(progress.step(done(0)), BatchAction::Wait);
    assert_eq!(progress.step(done(2)), BatchAction::Finish);
    assert_eq!(progress.step(done(2)), BatchAction::Finish);
    assert_eq!(progress.step(BatchEvent::Started), BatchAction::Finish);
}

#[test]
fn batch_with_one_permit_runs_the_calls_in_turn() {
    let mut progress = TranslationBatcher::new(1).begin(2);
    assert_eq!(progress.next_action(), BatchAction::Dispatch(0));
    assert_eq!(progress.step(BatchEvent::Started), BatchAction::Wait);
    assert_eq!(progress.step(done(0)), BatchAction::Dispatch(1));
    assert_eq!(progress.step(BatchEvent::Started), BatchAction::Wait);
    assert_eq!(progress.step(done(1)), BatchAction::Finish);
}

#[test]
fn batch_gives_up_at_the_first_failure() {
    let mut progress = TranslationBatcher::new(3).begin(5);
    progress.step(BatchEvent::Started);
    progress.step(BatchEvent::Started);
    assert_eq!(progress.step(BatchEvent::Started), BatchAction::Wait);
    assert_eq!(progress.step(failed(1)), BatchAction::Abort(1));
    assert_eq!(progress.step(BatchEvent::Started), BatchAction::Abort(1));
    assert_eq!(progress.step(failed(0)), BatchAction::Abort(1));
    assert_eq!(progress.step(done(2)), BatchAction::Abort(1));
    assert_eq!(progress.next_action(), BatchAction::Abort(1));
}

#[test]
fn batch_without_permits_is_blocked() {
    let mut progress = TranslationBatcher::new(0).begin(2);
    assert_eq!(progress.next_action(), BatchAction::Blocked);
    assert_eq!(progress.step(BatchEvent::Started), BatchAction::Blocked);
    assert_eq!(progress.step(done(0)), BatchAction::Blocked);
}
