use trace_unify::batch::{exit_status, failed_files, FileOutcome, STATUS_FAILED, STATUS_OK};
use trace_unify::entry::Field;
use trace_unify::trace::{ParseError, UnifyError};

#[test]
fn run_without_failure_ends_with_zero() {
    let outcomes = vec![FileOutcome::Written, FileOutcome::Written];
    assert_eq!(failed_files(&outcomes), Vec::<usize>::new());
    assert_eq!(exit_status(&outcomes), 0);
    assert_eq!(STATUS_OK, 0);
}

#[test]
fn run_without_files_ends_with_zero() {
    assert_eq!(failed_files(&[]), Vec::<usize>::new());
    assert_eq!(exit_status(&[]), 0);
}

#[test]
fn failed_files_are_named_in_order() {
    let rejected = FileOutcome::Rejected(UnifyError::Parse(ParseError {
        line: 3,
        field: Field::ProgramCounter,
    }));
    let outcomes = vec![
        FileOutcome::Unreadable,
        FileOutcome::Written,
        rejected,
        FileOutcome::Written,
        FileOutcome::Unwritable,
        FileOutcome::Rejected(UnifyError::IdentifierTooSmall { line: 0 }),
    ];
    assert_eq!(failed_files(&outcomes), vec![0, 2, 4, 5]);
    assert_eq!(exit_status(&outcomes), 1);
    assert_eq!(STATUS_FAILED, 1);
}

#[test]
fn one_failure_among_many_fails_the_run() {
    let mut outcomes = vec![FileOutcome::Written; 9];
    outcomes[7] = FileOutcome::Unwritable;
    assert_eq!(failed_files(&outcomes), vec![7]);
    assert_ne!(exit_status(&outcomes), 0);
}

#[test]
fn only_a_written_file_is_no_failure() {
    assert!(!FileOutcome::Written.is_failure());
    assert!(FileOutcome::Unreadable.is_failure());
    assert!(FileOutcome::Unwritable.is_failure());
    assert!(FileOutcome::Rejected(UnifyError::IdentifierTooSmall { line: 1 }).is_failure());
}
