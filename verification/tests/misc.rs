use file_duplicate_finder::error::{exit_code, ScanError};
use file_duplicate_finder::pool::worker_count;
use file_duplicate_finder::session::{Page, Session};

#[test]
fn a_completed_scan_exits_with_zero() {
    assert_eq!(exit_code(Ok(())), 0);
}

#[test]
fn refused_input_and_failed_walks_exit_with_non_zero() {
    assert_eq!(exit_code(Err(ScanError::InvalidInput)), 1);
    assert_eq!(exit_code(Err(ScanError::IoFailure)), 2);
}

#[test]
fn a_log_that_could_not_be_written_does_not_change_the_exit_code() {
    assert_eq!(exit_code(Err(ScanError::WriteFailure)), 0);
}

#[test]
fn every_error_has_its_message() {
    assert_eq!(ScanError::InvalidInput.message(), "invalid arguments");
    assert_eq!(ScanError::WriteFailure.message(), "Failed to write log");
    assert_eq!(
        ScanError::IoFailure.message(),
        "Error: the scan failed while reading the tree"
    );
}

#[test]
fn one_thread_is_kept_free() {
    assert_eq!(worker_count(8), 7);
    assert_eq!(worker_count(2), 1);
    assert_eq!(worker_count(3), 2);
    assert_eq!(worker_count(usize::MAX), usize::MAX - 1);
}

#[test]
fn there_is_always_one_worker() {
    assert_eq!(worker_count(1), 1);
    assert_eq!(worker_count(0), 1);
}

#[test]
fn a_session_opens_empty_on_the_first_page() {
    let session = Session::new();
    assert!(session.selected_folders().is_empty());
    assert_eq!(session.page(), Page::PreOp);
}

#[test]
fn picked_folders_are_added_behind_those_picked_before() {
    let mut session = Session::new();
    session.add_folders(vec!["/a".to_string(), "/b".to_string()]);
    session.add_folders(vec!["/c".to_string()]);
    session.add_folders(vec![]);
    assert_eq!(session.selected_folders(), &vec!["/a", "/b", "/c"]);
    assert_eq!(session.page(), Page::PreOp);
}

#[test]
fn a_clicked_folder_is_removed_wherever_it_occurs() {
    let mut session = Session::new();
    session.add_folders(vec![
        "/a".to_string(),
        "/b".to_string(),
        "/a".to_string(),
        "/c".to_string(),
    ]);
    session.remove_folder("/a");
    assert_eq!(session.selected_folders(), &vec!["/b", "/c"]);
    session.remove_folder("/missing");
    assert_eq!(session.selected_folders(), &vec!["/b", "/c"]);
    session.remove_folder("/c");
    session.remove_folder("/b");
    assert!(session.selected_folders().is_empty());
}

#[test]
fn exit_code_zero_shows_the_second_page() {
    let mut session = Session::new();
    session.add_folders(vec!["/a".to_string()]);
    assert!(session.scan_finished(Some(0)));
    assert_eq!(session.page(), Page::PostOp);
    assert_eq!(session.selected_folders(), &vec!["/a"]);
}

#[test]
fn any_other_end_of_the_scanner_is_an_error() {
    let mut session = Session::new();
    assert!(!session.scan_finished(Some(1)));
    assert_eq!(session.page(), Page::PreOp);
    assert!(!session.scan_finished(Some(-1)));
    assert!(!session.scan_finished(None));
    assert_eq!(session.page(), Page::PreOp);
}

#[test]
fn going_back_shows_the_first_page_again() {
    let mut session = Session::new();
    session.add_folders(vec!["/a".to_string()]);
    assert!(session.scan_finished(Some(0)));
    session.go_back();
    assert_eq!(session.page(), Page::PreOp);
    assert_eq!(session.selected_folders(), &vec!["/a"]);
    assert!(!session.scan_finished(Some(2)));
    assert_eq!(session.page(), Page::PreOp);
}
