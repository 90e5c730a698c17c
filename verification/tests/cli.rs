use replique::cli::{is_rep_file, outcome, summary, Outcome};

#[test]
fn only_dialogue_files_are_checked() {
    assert!(is_rep_file(Some("rep")));
    assert!(is_rep_file(Some("REP")));
    assert!(is_rep_file(Some("Replique")));
    assert!(!is_rep_file(Some("txt")));
    assert!(!is_rep_file(Some("reps")));
    assert!(!is_rep_file(None));
}

#[test]
fn warnings_fail_a_check_only_when_asked() {
    assert_eq!(outcome(0, 0, false), Outcome::Clean);
    assert_eq!(outcome(0, 3, false), Outcome::Clean);
    assert_eq!(outcome(0, 3, true), Outcome::Errors);
    assert_eq!(outcome(1, 0, false), Outcome::Errors);
}

#[test]
fn the_summary_counts_everything() {
    assert_eq!(summary(2, 1, 3), "2 error(s), 1 warning(s) in 3 file(s)");
    assert_eq!(summary(0, 0, 0), "0 error(s), 0 warning(s) in 0 file(s)");
}
