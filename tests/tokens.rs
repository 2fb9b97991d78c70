use regexer::error::Error;
use regexer::tokens::{tokenize, Token};

#[test]
fn tokens_test_tokenize() {
    let sut = String::from("letter(upcase=True) | glob(rest=True) | whitespace | number");

    let expected = vec![
        Token::Identifier("letter".to_string()),
        Token::LeftParen,
        Token::Parameter("upcase".to_string()),
        Token::Equal,
        Token::True,
        Token::RightParen,
        Token::Whitespace,
        Token::Pipe,
        Token::Whitespace,
        Token::Identifier("glob".to_string()),
        Token::LeftParen,
        Token::Parameter("rest".to_string()),
        Token::Equal,
        Token::True,
        Token::RightParen,
        Token::Whitespace,
        Token::Pipe,
        Token::Whitespace,
        Token::Identifier("whitespace".to_string()),
        Token::Whitespace,
        Token::Pipe,
        Token::Whitespace,
        Token::Identifier("number".to_string()),
    ];

    assert_eq!(tokenize(sut), Ok(expected));

    let sut = String::from("letters(upcase=True) | glob(rest=True) | whitespace | numbers");

    let expected = vec![
        Token::Identifier("letters".to_string()),
        Token::LeftParen,
        Token::Parameter("upcase".to_string()),
        Token::Equal,
        Token::True,
        Token::RightParen,
        Token::Whitespace,
        Token::Pipe,
        Token::Whitespace,
        Token::Identifier("glob".to_string()),
        Token::LeftParen,
        Token::Parameter("rest".to_string()),
        Token::Equal,
        Token::True,
        Token::RightParen,
        Token::Whitespace,
        Token::Pipe,
        Token::Whitespace,
        Token::Identifier("whitespace".to_string()),
        Token::Whitespace,
        Token::Pipe,
        Token::Whitespace,
        Token::Identifier("numbers".to_string()),
    ];

    assert_eq!(tokenize(sut), Ok(expected));

    let sut = String::from("group(letter(upcase=True) | glob(rest=True) | whitespace) | number");

    let expected = vec![
        Token::Identifier("group".to_string()),
        Token::LeftParen,
        Token::Identifier("letter".to_string()),
        Token::LeftParen,
        Token::Parameter("upcase".to_string()),
        Token::Equal,
        Token::True,
        Token::RightParen,
        Token::Whitespace,
        Token::Pipe,
        Token::Whitespace,
        Token::Identifier("glob".to_string()),
        Token::LeftParen,
        Token::Parameter("rest".to_string()),
        Token::Equal,
        Token::True,
        Token::RightParen,
        Token::Whitespace,
        Token::Pipe,
        Token::Whitespace,
        Token::Identifier("whitespace".to_string()),
        Token::RightParen,
        Token::Whitespace,
        Token::Pipe,
        Token::Whitespace,
        Token::Identifier("number".to_string()),
    ];

    assert_eq!(tokenize(sut), Ok(expected));

    let sut = String::from("group(letters(upcase=True) | glob(rest=True)) | whitespace | group(numbers)");

    let expected = vec![
        Token::Identifier("group".to_string()),
        Token::LeftParen,
        Token::Identifier("letters".to_string()),
        Token::LeftParen,
        Token::Parameter("upcase".to_string()),
        Token::Equal,
        Token::True,
        Token::RightParen,
        Token::Whitespace,
        Token::Pipe,
        Token::Whitespace,
        Token::Identifier("glob".to_string()),
        Token::LeftParen,
        Token::Parameter("rest".to_string()),
        Token::Equal,
        Token::True,
        Token::RightParen,
        Token::RightParen,
        Token::Whitespace,
        Token::Pipe,
        Token::Whitespace,
        Token::Identifier("whitespace".to_string()),
        Token::Whitespace,
        Token::Pipe,
        Token::Whitespace,
        Token::Identifier("group".to_string()),
        Token::LeftParen,
        Token::Identifier("numbers".to_string()),
        Token::RightParen,
    ];

    assert_eq!(tokenize(sut), Ok(expected));
}

#[test]
fn tokenize_numbers_and_parameters() {
    let expected = vec![
        Token::Identifier("number".to_string()),
        Token::LeftParen,
        Token::Parameter("select".to_string()),
        Token::Equal,
        Token::Int(99),
        Token::RightParen,
    ];
    assert_eq!(tokenize(String::from("number(select=99)")), Ok(expected));
}

#[test]
fn tokenize_booleans() {
    assert_eq!(
        tokenize(String::from("True False")),
        Ok(vec![Token::True, Token::Whitespace, Token::False])
    );
}

#[test]
fn tokenize_empty_input() {
    assert_eq!(tokenize(String::new()), Ok(vec![]));
}

#[test]
fn tokenize_largest_select() {
    assert_eq!(
        tokenize(String::from("4294967295")),
        Ok(vec![Token::Int(4294967295)])
    );
    assert_eq!(tokenize(String::from("007")), Ok(vec![Token::Int(7)]));
}

#[test]
fn tokenize_drops_numbers_that_do_not_fit() {
    assert_eq!(tokenize(String::from("4294967296")), Ok(vec![]));
    assert_eq!(
        tokenize(String::from("select=99999999999)")),
        Ok(vec![
            Token::Parameter("select".to_string()),
            Token::Equal,
            Token::RightParen
        ])
    );
}

#[test]
fn tokenize_drops_mixed_runs() {
    assert_eq!(
        tokenize(String::from("3abc (")),
        Ok(vec![Token::Whitespace, Token::LeftParen])
    );
}

#[test]
fn tokenize_unicode_letters_form_words() {
    assert_eq!(
        tokenize(String::from("caf\u{e9}")),
        Ok(vec![Token::Identifier("caf\u{e9}".to_string())])
    );
}

#[test]
fn tokenize_rejects_invalid_character() {
    assert_eq!(
        tokenize(String::from("letter @ glob")),
        Err(Error::InvalidToken('@'))
    );
    assert_eq!(tokenize(String::from(";")), Err(Error::InvalidToken(';')));
}

#[test]
fn tokenize_comma_separates_parameters() {
    assert_eq!(
        tokenize(String::from("select=3, upcase=True")),
        Ok(vec![
            Token::Parameter("select".to_string()),
            Token::Equal,
            Token::Int(3),
            Token::Whitespace,
            Token::Parameter("upcase".to_string()),
            Token::Equal,
            Token::True,
        ])
    );
}

#[test]
fn tokenize_drops_non_ascii_digits() {
    assert_eq!(
        tokenize(String::from("\u{663} |")),
        Ok(vec![Token::Whitespace, Token::Pipe])
    );
}
