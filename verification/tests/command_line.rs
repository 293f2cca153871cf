use kanban_stale_cards::cli::{parse_args, parse_usize, Command};

fn args(a: &[&str]) -> Vec<String> {
    a.iter().map(|s| s.to_string()).collect()
}

#[test]
fn reads_options() {
    match parse_args(&args(&["board.json", "--json", "--limit", "5", "--list", "In Review"])).unwrap() {
        Command::Run(a) => {
            assert_eq!(a.path, "board.json");
            assert!(a.json_output);
            assert_eq!(a.limit, Some(5));
            assert_eq!(a.list_filter.as_deref(), Some("In Review"));
        },
        Command::Help => panic!("run expected"),
    }
    match parse_args(&args(&["--limit", "+3", "x"])).unwrap() {
        Command::Run(a) => {
            assert_eq!(a.path, "x");
            assert!(!a.json_output);
            assert_eq!(a.limit, Some(3));
            assert_eq!(a.list_filter, None);
        },
        Command::Help => panic!("run expected"),
    }
}

#[test]
fn help_wins_where_it_stands() {
    assert!(matches!(parse_args(&args(&["-h"])), Ok(Command::Help)));
    assert!(matches!(parse_args(&args(&["a", "--help", "b", "c"])), Ok(Command::Help)));
    assert_eq!(parse_args(&args(&["a", "b", "--help"])).err(), Some("unexpected argument 'b'".to_string()));
}

#[test]
fn reports_argument_errors() {
    assert_eq!(parse_args(&args(&[])).err(), Some("missing path to a board export JSON file".to_string()));
    assert_eq!(parse_args(&args(&["--json"])).err(), Some("missing path to a board export JSON file".to_string()));
    assert_eq!(parse_args(&args(&["x", "--limit"])).err(), Some("--limit requires a number".to_string()));
    assert_eq!(parse_args(&args(&["x", "--limit", "-1"])).err(), Some("--limit expects a positive integer".to_string()));
    assert_eq!(parse_args(&args(&["x", "--limit", "five"])).err(), Some("--limit expects a positive integer".to_string()));
    assert_eq!(parse_args(&args(&["x", "--list"])).err(), Some("--list requires a list name".to_string()));
}

#[test]
fn parses_counts() {
    assert_eq!(parse_usize("0"), Some(0));
    assert_eq!(parse_usize("+12"), Some(12));
    assert_eq!(parse_usize(""), None);
    assert_eq!(parse_usize("+"), None);
    assert_eq!(parse_usize("1 "), None);
    assert_eq!(parse_usize("18446744073709551615"), Some(usize::MAX));
    assert_eq!(parse_usize("18446744073709551616"), None);
}
