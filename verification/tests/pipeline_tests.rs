use sheller::executor::{plan_execution, ToQuit};
use sheller::lexer::{
    find_all_separator_positions, get_function_from_string, has_balanced_apostrophes,
    split_by_whitespace, tokenize_atomic_string, tokenize_string, Command, Function, ParseError,
    Token,
};
use sheller::parser::{get_commands_from_line, parse_command};

#[test]
fn separator_scan_escape_rules() {
    let expected: Vec<usize> = vec![1, 3];
    assert_eq!(find_all_separator_positions("a;b;c"), expected);

    // an escaped separator is excluded
    let expected: Vec<usize> = vec![];
    assert_eq!(find_all_separator_positions("a\\;b"), expected);

    // an escaped escape reinstates the separator
    let expected: Vec<usize> = vec![3];
    assert_eq!(find_all_separator_positions("a\\\\;b"), expected);
}

#[test]
fn quoted_span_leads_segment() {
    // with no words before the quoted span, the span itself leads the segment
    let expected = Ok(vec![
        Token::Progname(String::from("\"ls\"")),
        Token::Argument(String::from("x")),
    ]);
    assert_eq!(tokenize_atomic_string("\"ls\" x"), expected);
}

#[test]
fn empty_line_has_no_tokens() {
    assert_eq!(tokenize_string(""), Ok(Vec::new()));
    assert_eq!(get_function_from_string(""), Ok(Vec::new()));
}

#[test]
fn separator_scan_ignores_quoting() {
    // the scanner finds the ; inside the quoted literal, so each half ends up
    // with a lone quote: a known limitation of the quote-unaware scan
    let r = tokenize_string("echo \"a;b\"");
    assert!(matches!(r, Err(ParseError::UnbalancedQuote(_))));
}

#[test]
fn directives_of_a_line() {
    let functions = get_function_from_string("sleep 1 ; sleep 2").unwrap();
    let expected = vec![
        Function::ShellCommand(Command {
            progname: String::from("sleep"),
            arguments: vec![String::from("1")],
        }),
        Function::ShellCommand(Command {
            progname: String::from("sleep"),
            arguments: vec![String::from("2")],
        }),
    ];
    assert_eq!(functions, expected);

    let functions = get_function_from_string("quit").unwrap();
    assert_eq!(functions, vec![Function::Quit]);

    // items trailing a leading quit are accepted and ignored
    let functions = get_function_from_string("quit now").unwrap();
    assert_eq!(functions, vec![Function::Quit]);

    // empty segments contribute no directive
    let functions = get_function_from_string(" ; ").unwrap();
    assert_eq!(functions, Vec::new());

    // a null byte in a command is rejected
    let r = get_function_from_string("echo a\0b");
    assert_eq!(r, Err(ParseError::NullByteError));

    // an unbalanced quote in any segment fails the whole line; the reported
    // span runs from the segment's first quote to its last one
    let r = get_function_from_string("ls ; echo \"x");
    assert_eq!(r, Err(ParseError::UnbalancedQuote(String::from("\""))));
}

#[test]
fn plan_of_a_line() {
    let functions = get_function_from_string("sleep 1 ; sleep 2").unwrap();
    let (commands, verdict) = plan_execution(&functions);
    assert_eq!(commands.len(), 2);
    assert_eq!(commands[0].progname, String::from("sleep"));
    assert_eq!(commands[0].arguments, vec![String::from("1")]);
    assert_eq!(commands[1].progname, String::from("sleep"));
    assert_eq!(commands[1].arguments, vec![String::from("2")]);
    assert_eq!(verdict, ToQuit::Continue);

    let functions = get_function_from_string("quit").unwrap();
    let (commands, verdict) = plan_execution(&functions);
    assert_eq!(commands.len(), 0);
    assert_eq!(verdict, ToQuit::Quit);

    // a quit anywhere in the line still runs the other commands
    let functions = get_function_from_string("ls ; quit ; echo 3").unwrap();
    let (commands, verdict) = plan_execution(&functions);
    assert_eq!(commands.len(), 2);
    assert_eq!(commands[0].progname, String::from("ls"));
    assert_eq!(commands[1].progname, String::from("echo"));
    assert_eq!(verdict, ToQuit::Quit);
}

#[test]
fn balance_follows_occurrence_parity() {
    // zero occurrences: balanced for any delimiter
    assert!(has_balanced_apostrophes("", '"'));
    assert!(has_balanced_apostrophes("no quotes here", '"'));
    // even number of occurrences: balanced
    assert!(has_balanced_apostrophes("x\"y\"z\"w\"", '"'));
    // odd number of occurrences: unbalanced
    assert!(!has_balanced_apostrophes("x\"y\"z\"", '"'));
    assert!(!has_balanced_apostrophes("\"", '"'));
}

#[test]
fn unicode_whitespace_splits_and_trims() {
    // any Unicode White_Space character splits words, exactly as
    // str::split_whitespace does
    let expected = Ok(vec![String::from("a"), String::from("b")]);
    assert_eq!(split_by_whitespace("a\u{a0}b"), expected);
    assert_eq!("a\u{a0}b".split_whitespace().collect::<Vec<&str>>(), vec!["a", "b"]);

    let expected = Ok(vec![
        Token::Progname(String::from("echo")),
        Token::Argument(String::from("3")),
    ]);
    assert_eq!(tokenize_atomic_string("echo\u{2003}3"), expected);

    // and any such character is trimmed, exactly as str::trim does
    let expected = vec![String::from("ls")];
    assert_eq!(get_commands_from_line("\u{2028}ls\u{3000} "), expected);
    assert_eq!("\u{2028}ls\u{3000} ".trim(), "ls");
}

#[test]
fn split_and_trim_lines() {
    let expected = vec![String::from("ls"), String::from("cat file")];
    assert_eq!(get_commands_from_line("ls ; cat file"), expected);

    let expected = vec![String::from("a"), String::from(""), String::from("b")];
    assert_eq!(get_commands_from_line("a;;b"), expected);

    let expected = vec![String::from("ls")];
    assert_eq!(get_commands_from_line("   ls  "), expected);

    let expected = vec![String::from(""), String::from("")];
    assert_eq!(get_commands_from_line(";"), expected);

    // this split has no regard for quoting or escaping
    let expected = vec![String::from("echo \"a"), String::from("b\"")];
    assert_eq!(parse_command("echo \"a;b\""), expected);

    let expected = vec![String::from("one"), String::from("two")];
    assert_eq!(parse_command(" one ; two "), expected);
}

#[test]
fn command_round_trip_reproduces_words() {
    let tokens = tokenize_atomic_string("echo 3 \"blah\" 4").unwrap();
    let command = Command::new(tokens).unwrap();
    assert_eq!(command.progname, String::from("echo"));
    assert_eq!(
        command.arguments,
        vec![
            String::from("3"),
            String::from("\"blah\""),
            String::from("4")
        ]
    );
}
