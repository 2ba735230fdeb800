use event_calendar::command::{tokenize, Command};
use event_calendar::error::AppError;

fn toks(line: &str) -> Vec<String> {
    tokenize(line)
}

#[test]
fn tokenize_splits_on_blank_runs() {
    assert_eq!(toks("  add   2024-01-02\tmeeting \r\n"), vec![
        "add".to_string(),
        "2024-01-02".to_string(),
        "meeting".to_string(),
    ]);
    assert_eq!(toks(""), Vec::<String>::new());
    assert_eq!(toks("   \t \n"), Vec::<String>::new());
    assert_eq!(toks("print"), vec!["print".to_string()]);
}

#[test]
fn parse_add_command() {
    let c = Command::parse(&toks("add 2024-03-05 standup")).unwrap();
    match c {
        Command::Add(d, p) => {
            assert_eq!(d.format(), "2024-03-05");
            assert_eq!(p, "standup");
        },
        _ => panic!("wrong variant"),
    }
}

#[test]
fn parse_delete_commands() {
    match Command::parse(&toks("del 2024-03-05 standup")).unwrap() {
        Command::Delete(d, Some(p)) => {
            assert_eq!(d.format(), "2024-03-05");
            assert_eq!(p, "standup");
        },
        _ => panic!("wrong variant"),
    }
    match Command::parse(&toks("del 2024-03-05")).unwrap() {
        Command::Delete(d, None) => assert_eq!(d.format(), "2024-03-05"),
        _ => panic!("wrong variant"),
    }
}

#[test]
fn parse_find_print_exit() {
    assert!(matches!(Command::parse(&toks("find 2024-03-05")), Ok(Command::Find(_))));
    assert!(matches!(Command::parse(&toks("print")), Ok(Command::Print)));
    assert!(matches!(Command::parse(&toks("exit")), Ok(Command::Exit)));
}

#[test]
fn parse_rejects_unknown_command() {
    match Command::parse(&toks("frobnicate 2024-01-01")) {
        Err(AppError::UnknownCommand(t)) => assert_eq!(t, "frobnicate"),
        _ => panic!("expected an unknown-command error"),
    }
}

#[test]
fn parse_rejects_wrong_token_counts() {
    assert!(matches!(Command::parse(&toks("")), Err(AppError::MalformedCommand)));
    assert!(matches!(Command::parse(&toks("add 2024-01-01")), Err(AppError::MalformedCommand)));
    assert!(matches!(
        Command::parse(&toks("add 2024-01-01 a b")),
        Err(AppError::MalformedCommand)
    ));
    assert!(matches!(Command::parse(&toks("del")), Err(AppError::MalformedCommand)));
    assert!(matches!(
        Command::parse(&toks("del 2024-01-01 a b")),
        Err(AppError::MalformedCommand)
    ));
    assert!(matches!(Command::parse(&toks("find")), Err(AppError::MalformedCommand)));
    assert!(matches!(Command::parse(&toks("find 2024-01-01 x")), Err(AppError::MalformedCommand)));
    assert!(matches!(Command::parse(&toks("print x")), Err(AppError::MalformedCommand)));
    assert!(matches!(Command::parse(&toks("exit now")), Err(AppError::MalformedCommand)));
}

#[test]
fn parse_validates_dates_eagerly() {
    assert!(matches!(
        Command::parse(&toks("add 2024-13-01 meeting")),
        Err(AppError::InvalidMonth(13))
    ));
    assert!(matches!(Command::parse(&toks("find 2024-01-32")), Err(AppError::InvalidDay(32))));
    assert!(matches!(Command::parse(&toks("del 2024/01/02")), Err(AppError::InvalidDateFormat)));
    assert!(matches!(
        Command::parse(&toks("del 2024-x-02 ev")),
        Err(AppError::InvalidDateNumber)
    ));
}
