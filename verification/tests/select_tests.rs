use clipboard_history::select::{select_step, SelectAction, SelectCommand};

#[test]
fn parse_sticky_option() {
    let args = vec!["--sticky".to_string()];
    let command = SelectCommand::parse(&args).expect("failed to parse sticky option");
    match command {
        SelectCommand::Run(options) => assert!(options.sticky),
        SelectCommand::Help => panic!("expected to run selector"),
    }
}

#[test]
fn parse_help_option() {
    let args = vec!["--help".to_string()];
    let command = SelectCommand::parse(&args).expect("failed to parse help option");
    match command {
        SelectCommand::Run(_) => panic!("expected help"),
        SelectCommand::Help => {}
    }
}

#[test]
fn parse_rejects_unknown_flags() {
    let args = vec!["--unknown".to_string()];
    let err = SelectCommand::parse(&args).unwrap_err();
    assert_eq!(err.to_string(), "unknown select option: --unknown");
}

#[test]
fn parse_defaults_to_not_sticky() {
    let args: Vec<String> = Vec::new();
    match SelectCommand::parse(&args).unwrap() {
        SelectCommand::Run(options) => assert!(!options.sticky),
        SelectCommand::Help => panic!("expected to run selector"),
    }
}

#[test]
fn parse_short_help_flag() {
    let args = vec!["-h".to_string()];
    assert!(matches!(
        SelectCommand::parse(&args).unwrap(),
        SelectCommand::Help
    ));
}

#[test]
fn cancelled_selection_quits() {
    assert!(matches!(select_step(4, None, false), SelectAction::Quit));
    assert!(matches!(select_step(4, None, true), SelectAction::Quit));
}

#[test]
fn selection_in_range_copies() {
    assert!(matches!(select_step(4, Some(2), false), SelectAction::Copy(2)));
    assert!(matches!(select_step(4, Some(0), true), SelectAction::Copy(0)));
}

#[test]
fn sentinel_index_quits_or_retries_by_mode() {
    assert!(matches!(select_step(4, Some(4), false), SelectAction::Quit));
    assert!(matches!(select_step(4, Some(4), true), SelectAction::Retry));
    assert!(matches!(select_step(4, Some(9), true), SelectAction::Retry));
}
