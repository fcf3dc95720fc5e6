use rust_bot::console::{is_space_char, nav_arg, parse_usize, split_words, DebugCommand, NavArg};
use rust_bot::text::{join, text_eq, to_lower, usize_to_string};

#[test]
fn it_lowercases() {
    assert_eq!(to_lower("ReD Rainbow"), "red rainbow");
    assert_eq!(to_lower("ÀB"), "àb");
}

#[test]
fn it_writes_numbers_in_decimal() {
    assert_eq!(usize_to_string(0), "0");
    assert_eq!(usize_to_string(42), "42");
    assert_eq!(usize_to_string(1007), "1007");
}

#[test]
fn it_joins_with_a_separator() {
    let parts = vec!["r1".to_string(), "g2".to_string(), "b3".to_string()];
    assert_eq!(join(&parts, ","), "r1,g2,b3");
    assert_eq!(join(&Vec::new(), ","), "");
    assert_eq!(join(&vec!["x".to_string()], ", "), "x");
}

#[test]
fn it_compares_texts() {
    assert!(text_eq("nav", "nav"));
    assert!(!text_eq("nav", "navigate"));
    assert!(!text_eq("Nav", "nav"));
}

#[test]
fn it_splits_on_white_space() {
    assert_eq!(split_words("  hand   Bob\tCathy \n"), vec!["hand", "Bob", "Cathy"]);
    assert_eq!(split_words(""), Vec::<String>::new());
    assert_eq!(split_words("a\u{3000}b"), vec!["a", "b"]);
    assert!(is_space_char('\u{85}'));
    assert!(!is_space_char('x'));
}

#[test]
fn it_reads_numbers_as_rust_does() {
    assert_eq!(parse_usize("12"), Some(12));
    assert_eq!(parse_usize("+7"), Some(7));
    assert_eq!(parse_usize("007"), Some(7));
    assert_eq!(parse_usize(""), None);
    assert_eq!(parse_usize("+"), None);
    assert_eq!(parse_usize("-1"), None);
    assert_eq!(parse_usize("1a"), None);
    assert_eq!(parse_usize("18446744073709551615"), "18446744073709551615".parse::<usize>().ok());
    assert_eq!(parse_usize("18446744073709551616"), None);
    for n in [0usize, 9, 10, 99, 12345] {
        assert_eq!(parse_usize(&usize_to_string(n)), Some(n));
    }
}

#[test]
fn it_reads_places_in_a_replay() {
    assert_eq!(nav_arg("++"), Some(NavArg::NextRound));
    assert_eq!(nav_arg("+"), Some(NavArg::Next));
    assert_eq!(nav_arg("--"), Some(NavArg::PrevRound));
    assert_eq!(nav_arg("-"), Some(NavArg::Prev));
    assert_eq!(nav_arg("+3"), Some(NavArg::Turn(3)));
    assert_eq!(nav_arg("x"), None);
}

#[test]
fn it_parses_console_commands() {
    match DebugCommand::parse("hand Bob") {
        Some(DebugCommand::Hand(who, seen_by)) => {
            assert_eq!(who, "Bob");
            assert_eq!(seen_by, None);
        },
        _ => panic!("expected a hand command"),
    }
    match DebugCommand::parse("H Bob Cathy") {
        Some(DebugCommand::Hand(who, seen_by)) => {
            assert_eq!(who, "Bob");
            assert_eq!(seen_by, Some("Cathy".to_string()));
        },
        _ => panic!("expected a hand command"),
    }
    match DebugCommand::parse("NAV 12") {
        Some(DebugCommand::Navigate(arg)) => assert_eq!(arg, NavArg::Turn(12)),
        _ => panic!("expected a navigation"),
    }
    match DebugCommand::parse("navigate ++") {
        Some(DebugCommand::Navigate(arg)) => assert_eq!(arg, NavArg::NextRound),
        _ => panic!("expected a navigation"),
    }
    assert!(DebugCommand::parse("hand").is_none());
    assert!(DebugCommand::parse("show Bob").is_none());
}

#[test]
fn it_refuses_a_navigation_to_nowhere() {
    assert!(DebugCommand::parse_checked("nav somewhere").is_none());
    assert!(matches!(DebugCommand::parse_checked("nav 3"), Some(Some(DebugCommand::Navigate(NavArg::Turn(3))))));
    assert!(matches!(DebugCommand::parse_checked("hello"), Some(None)));
    assert!(matches!(DebugCommand::parse_checked("hand nav"), Some(Some(DebugCommand::Hand(_, _)))));
}
