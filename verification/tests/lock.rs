use pack_index::lock::{next_delay, on_create_outcome, Action, CreateOutcome, Fail};

#[test]
fn lock_path_appends_to_the_final_segment() {
    assert_eq!(
        pack_index::lock::lock_path_of("dir/resource.ext"),
        "dir/resource.ext.lock",
        "the extension is kept, not replaced"
    );
    assert_eq!(pack_index::lock::lock_path_of("resource"), "resource.lock");
}

#[test]
fn successful_creation_holds_the_lock() {
    let a = on_create_outcome(CreateOutcome::Created, Fail::Immediately, 0, 0, false, false);
    assert_eq!(a, Action::Hold);
}

#[test]
fn contention_fails_immediately_under_that_policy() {
    let a = on_create_outcome(CreateOutcome::AlreadyExists, Fail::Immediately, 0, 0, false, false);
    assert_eq!(a, Action::FailContention);
}

#[test]
fn contention_retries_with_backoff_until_the_budget_ends() {
    let policy = Fail::AfterDurationWithBackoff(100);
    let a = on_create_outcome(CreateOutcome::AlreadyExists, policy, 50, 4, false, false);
    assert_eq!(a, Action::RetryAfter(8));
    let b = on_create_outcome(CreateOutcome::AlreadyExists, policy, 100, 8, false, false);
    assert_eq!(b, Action::FailContention);
}

#[test]
fn missing_parent_fails_not_found_without_a_root() {
    let a = on_create_outcome(CreateOutcome::ParentMissing, Fail::Immediately, 0, 0, false, false);
    assert_eq!(a, Action::FailIoNotFound);
}

#[test]
fn missing_parent_is_created_once_with_a_root() {
    let a = on_create_outcome(CreateOutcome::ParentMissing, Fail::Immediately, 0, 0, true, false);
    assert_eq!(a, Action::CreateParentAndRetry);
    let again = on_create_outcome(CreateOutcome::ParentMissing, Fail::Immediately, 0, 0, true, true);
    assert_eq!(again, Action::FailIoNotFound, "only the one missing parent is created");
}

#[test]
fn other_failures_surface_unchanged() {
    let a = on_create_outcome(CreateOutcome::OtherFailure, Fail::Immediately, 0, 0, true, false);
    assert_eq!(a, Action::FailIo);
}

#[test]
fn backoff_doubles_and_caps() {
    assert_eq!(next_delay(0), 1);
    assert_eq!(next_delay(1), 2);
    assert_eq!(next_delay(2), 4);
    assert_eq!(next_delay(499), 998);
    assert_eq!(next_delay(500), 1000);
    assert_eq!(next_delay(5000), 1000);
}
