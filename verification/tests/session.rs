use delfaf::cache::ErrorKind;
use delfaf::session::{
    after_answer, after_load, exit_code, parse_args, Command, Step, StopReason, EXIT_FAILURE,
    EXIT_NO_INPUT, EXIT_OK,
};

fn args(list: &[&str]) -> Vec<String> {
    list.iter().map(|s| s.to_string()).collect()
}

fn delete_of(cmd: Command) -> (Option<String>, bool) {
    match cmd {
        Command::Delete { file, skip_confirm } => (file, skip_confirm),
        _ => panic!("expected a delete command"),
    }
}

#[test]
fn no_arguments_reads_input_and_asks() {
    assert_eq!(delete_of(parse_args(&args(&[]))), (None, false));
}

#[test]
fn yes_flag_and_file() {
    assert_eq!(delete_of(parse_args(&args(&["-y", "hits.txt"]))), (Some("hits.txt".to_string()), true));
    assert_eq!(delete_of(parse_args(&args(&["hits.txt", "--yes"]))), (Some("hits.txt".to_string()), true));
    assert_eq!(delete_of(parse_args(&args(&["a.txt", "b.txt"]))), (Some("b.txt".to_string()), false));
}

#[test]
fn help_and_version_stop_reading() {
    assert!(matches!(parse_args(&args(&["-h"])), Command::ShowHelp));
    assert!(matches!(parse_args(&args(&["-y", "--help", "-V"])), Command::ShowHelp));
    assert!(matches!(parse_args(&args(&["file", "-V", "-h"])), Command::ShowVersion));
    assert!(matches!(parse_args(&args(&["--version"])), Command::ShowVersion));
}

#[test]
fn load_failures_exit_2() {
    match after_load(false, false, Err(ErrorKind::NotFound)) {
        Step::Stop { reason, code } => {
            assert_eq!(reason, StopReason::NoLastHits);
            assert_eq!(code, EXIT_NO_INPUT);
        }
        _ => panic!("expected a stop"),
    }
    match after_load(true, false, Err(ErrorKind::NotFound)) {
        Step::Stop { reason, code } => {
            assert_eq!(reason, StopReason::Unreadable);
            assert_eq!(code, 2);
        }
        _ => panic!("expected a stop"),
    }
    match after_load(true, true, Err(ErrorKind::IsADirectory)) {
        Step::Stop { reason, code } => {
            assert_eq!(reason, StopReason::Unreadable);
            assert_eq!(code, 2);
        }
        _ => panic!("expected a stop"),
    }
}

#[test]
fn empty_input_exits_1() {
    match after_load(false, true, Ok(Vec::new())) {
        Step::Stop { reason, code } => {
            assert_eq!(reason, StopReason::NoPaths);
            assert_eq!(code, EXIT_FAILURE);
        }
        _ => panic!("expected a stop"),
    }
}

#[test]
fn paths_are_confirmed_unless_skipped() {
    match after_load(false, false, Ok(b"/a\n/b\n".to_vec())) {
        Step::Confirm { paths } => assert_eq!(paths, vec![b"/a".to_vec(), b"/b".to_vec()]),
        _ => panic!("expected a confirmation"),
    }
    match after_load(true, true, Ok(b"/a\n".to_vec())) {
        Step::Delete { paths } => assert_eq!(paths, vec![b"/a".to_vec()]),
        _ => panic!("expected a deletion"),
    }
}

#[test]
fn answer_defaults_to_no() {
    let paths = vec![b"/a".to_vec()];
    match after_answer(paths.clone(), true, "y\n") {
        Step::Delete { paths: p } => assert_eq!(p, paths),
        _ => panic!("expected a deletion"),
    }
    for (ok, line) in [(true, "\n"), (true, "yes\n"), (false, "y\n"), (true, "")] {
        match after_answer(paths.clone(), ok, line) {
            Step::Stop { reason, code } => {
                assert_eq!(reason, StopReason::Aborted);
                assert_eq!(code, 1);
            }
            _ => panic!("expected an abort"),
        }
    }
}

#[test]
fn exit_codes_follow_failures() {
    assert_eq!(exit_code(0), EXIT_OK);
    assert_eq!(exit_code(1), EXIT_FAILURE);
    assert_eq!(exit_code(u64::MAX), 1);
}
