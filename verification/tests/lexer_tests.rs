use sheller::lexer::{
    exclusive_separate_at_positions, find_all_separator_positions, find_quoted_block_position,
    has_balanced_apostrophes, split_by_whitespace, tokenize_atomic_string, tokenize_string,
    Command, ParseError, Token,
};

#[test]
fn command_new_test() {
    let string = "ls";
    let tokens = tokenize_string(string).unwrap();
    let expected_result = Ok(Command {
        progname: String::from("ls"),
        arguments: Vec::new(),
    });
    assert_eq!(Command::new(tokens), expected_result);

    let string = "ls -l";
    let tokens = tokenize_string(string).unwrap();
    let expected_result = Ok(Command {
        progname: String::from("ls"),
        arguments: vec![String::from("-l")],
    });
    assert_eq!(Command::new(tokens), expected_result);

    let string = "echo 3 \"more\"";
    let tokens = tokenize_string(string).unwrap();
    let expected_result = Ok(Command {
        progname: String::from("echo"),
        arguments: vec![String::from("3"), String::from("\"more\"")],
    });
    assert_eq!(Command::new(tokens), expected_result);

    let string = "quit";
    let tokens = tokenize_string(string).unwrap();
    let expected_result = Err(ParseError::TokenOutOfPlace);
    assert_eq!(Command::new(tokens), expected_result);

    let string = "str\0ing";
    let tokens = tokenize_string(string).unwrap();
    let expected_result = Err(ParseError::NullByteError);
    assert_eq!(Command::new(tokens), expected_result);
}

#[test]
fn tokenize_string_test() {
    let string = ";";
    let expected_result = Ok(vec![Token::Separator]);
    assert_eq!(tokenize_string(string), expected_result);

    let string = ";;";
    let expected_result = Ok(vec![Token::Separator, Token::Separator]);
    assert_eq!(tokenize_string(string), expected_result);

    let string = "echo 3 ; quit";
    let expected_result = Ok(vec![
        Token::Progname(String::from("echo")),
        Token::Argument(String::from("3")),
        Token::Separator,
        Token::Quit,
    ]);
    assert_eq!(tokenize_string(string), expected_result);
}

#[test]
fn tokenize_atomic_string_test() {
    let string = "echo";
    let expected_result = Ok(vec![Token::Progname(String::from("echo"))]);
    assert_eq!(tokenize_atomic_string(string), expected_result);

    let string = "quit";
    let expected_result = Ok(vec![Token::Quit]);
    assert_eq!(tokenize_atomic_string(string), expected_result);

    let string = "echo quit";
    let expected_result = Ok(vec![
        Token::Progname(String::from("echo")),
        Token::Argument(String::from("quit")),
    ]);
    assert_eq!(tokenize_atomic_string(string), expected_result);

    let string = "quit echo";
    let expected_result = Ok(vec![Token::Quit, Token::Argument(String::from("echo"))]);
    assert_eq!(tokenize_atomic_string(string), expected_result);

    let string = "echo \"blah\"";
    let expected_result = Ok(vec![
        Token::Progname(String::from("echo")),
        Token::Argument(String::from("\"blah\"")),
    ]);
    assert_eq!(tokenize_atomic_string(string), expected_result);

    let string = "echo \"bl\"h\"";
    let expected_result = Err(ParseError::UnbalancedQuote(String::from("\"bl\"h\"")));
    assert_eq!(tokenize_atomic_string(string), expected_result);

    let string = "echo 3 \"blah\" 4";
    let expected_result = Ok(vec![
        Token::Progname(String::from("echo")),
        Token::Argument(String::from("3")),
        Token::Argument(String::from("\"blah\"")),
        Token::Argument(String::from("4")),
    ]);
    assert_eq!(tokenize_atomic_string(string), expected_result);

    let string = "  ";
    let expected_result = Ok(Vec::new());
    assert_eq!(tokenize_atomic_string(string), expected_result);
}

#[test]
fn split_by_whitespace_test() {
    let string = "echo";
    let expected_result = Ok(vec![String::from("echo")]);
    assert_eq!(split_by_whitespace(string), expected_result);

    let string = "echo 3";
    let expected_result = Ok(vec![String::from("echo"), String::from("3")]);
    assert_eq!(split_by_whitespace(string), expected_result);

    let string = "echo   3";
    let expected_result = Ok(vec![String::from("echo"), String::from("3")]);
    assert_eq!(split_by_whitespace(string), expected_result);

    let string = "echo \"3\"";
    let expected_result = Err(ParseError::QuoteInAtomicString(String::from("\"3\"")));
    assert_eq!(split_by_whitespace(string), expected_result);
}

#[test]
fn find_quoted_block_position_test() {
    let string = "echo 3";
    let expected_result = Ok(None);
    assert_eq!(find_quoted_block_position(string), expected_result);

    let string = "echo \"";
    let expected_result = Err(ParseError::UnbalancedQuote(String::from("\"")));
    assert_eq!(find_quoted_block_position(string), expected_result);

    let string = "echo \"floof\"";
    let expected_result = Ok(Some((5, 11)));
    assert_eq!(find_quoted_block_position(string), expected_result);

    let string = "echo \"floof\"\"";
    let expected_result = Err(ParseError::UnbalancedQuote(String::from("\"floof\"\"")));
    assert_eq!(find_quoted_block_position(string), expected_result);

    let string = "echo \"fl\"o\"\"";
    let expected_result = Ok(Some((5, 11)));
    assert_eq!(find_quoted_block_position(string), expected_result);
}

#[test]
fn has_balanced_apostrophes_test() {
    let string = "test string without apostrophe";
    assert_eq!(has_balanced_apostrophes(string, '\''), true);
    assert_eq!(has_balanced_apostrophes(string, '\"'), true);

    let string = "test string '";
    assert_eq!(has_balanced_apostrophes(string, '\''), false);
    assert_eq!(has_balanced_apostrophes(string, '\"'), true);

    let string = "test 'string \"even more\"'";
    assert_eq!(has_balanced_apostrophes(string, '\''), true);
    assert_eq!(has_balanced_apostrophes(string, '\"'), true);
}

#[test]
fn find_all_separator_positions_test() {
    let string = ";";
    let expected_result: Vec<usize> = vec![0];
    assert_eq!(find_all_separator_positions(string), expected_result);

    let string = "ls ; cat file";
    let expected_result: Vec<usize> = vec![3];
    assert_eq!(find_all_separator_positions(string), expected_result);

    let string = "ls ; cat file ; echo 3";
    let expected_result: Vec<usize> = vec![3, 14];
    assert_eq!(find_all_separator_positions(string), expected_result);

    let string = "ls ; cat file \\; echo 3";
    let expected_result: Vec<usize> = vec![3];
    assert_eq!(find_all_separator_positions(string), expected_result);

    let string = "ls \\\\; cat file \\; echo 3";
    let expected_result: Vec<usize> = vec![5];
    assert_eq!(find_all_separator_positions(string), expected_result);
}

#[test]
fn exclusive_separate_at_positions_test() {
    let string = "aaaaa";
    let positions: Vec<usize> = Vec::new();
    let expected_result = vec![String::from("aaaaa")];
    assert_eq!(
        exclusive_separate_at_positions(string, positions),
        expected_result
    );

    let string = "aaasaa";
    let positions: Vec<usize> = vec![3];
    let expected_result = vec![String::from("aaa"), String::from("aa")];
    assert_eq!(
        exclusive_separate_at_positions(string, positions),
        expected_result
    );

    let string = "s";
    let positions: Vec<usize> = vec![0];
    let expected_result = vec![String::from(""), String::from("")];
    assert_eq!(
        exclusive_separate_at_positions(string, positions),
        expected_result
    );
}
