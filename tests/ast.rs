use regexer::ast::{parse, Casing, Function};
use regexer::error::Error;
use regexer::tokens::{tokenize, Token};

fn parse_text(input: &str) -> Result<Vec<Function>, Error> {
    parse(tokenize(String::from(input)).unwrap())
}

#[test]
fn ast_test_grouped_tokens() {
    let input = String::from(
        "group(letters(upcase=True) | glob(rest=True)) | whitespace | group(numbers)",
    );

    assert_eq!(
        parse(tokenize(input).unwrap()),
        Ok(vec![
            Function::Group(Box::new(vec![
                Function::Letters {
                    casing: Some(Casing::Upcase),
                },
                Function::Glob { rest: true }
            ])),
            Function::Whitespace,
            Function::Group(Box::new(vec![Function::Numbers]))
        ])
    );
}

#[test]
fn ast_test_basic_tokenize() {
    let input = String::from(
        "letter(upcase=True) | letter(upcase=False) | glob(rest=True) | glob(rest=False) | whitespace | number",
    );

    assert_eq!(
        parse(tokenize(input).unwrap()),
        Ok(vec![
            Function::Letter {
                casing: Some(Casing::Upcase),
                select: None,
            },
            Function::Letter {
                casing: Some(Casing::Downcase),
                select: None
            },
            Function::Glob { rest: true },
            Function::Glob { rest: false },
            Function::Whitespace,
            Function::Number { select: None },
        ])
    );

    let input = String::from("letters(upcase=True) | glob(rest=True) | whitespace | numbers");

    assert_eq!(
        parse(tokenize(input).unwrap()),
        Ok(vec![
            Function::Letters {
                casing: Some(Casing::Upcase),
            },
            Function::Glob { rest: true },
            Function::Whitespace,
            Function::Numbers,
        ])
    );
}

#[test]
fn test_select_parameters() {
    let input = String::from(
        "letter(select=3, upcase=True) | letters(upcase=False) | glob(rest=True) | glob(rest=False) | whitespace | number(select=99)",
    );

    assert_eq!(
        parse(tokenize(input).unwrap()),
        Ok(vec![
            Function::Letter {
                casing: Some(Casing::Upcase),
                select: Some(3),
            },
            Function::Letters {
                casing: Some(Casing::Downcase),
            },
            Function::Glob { rest: true },
            Function::Glob { rest: false },
            Function::Whitespace,
            Function::Number { select: Some(99) },
        ])
    );
}

#[test]
fn functions_test_grouped_tokens() {
    let input = String::from(
        "group(letters(upcase=True) | glob(rest=True)) | whitespace | group(numbers)",
    );

    assert_eq!(
        parse(tokenize(input).unwrap()),
        Ok(vec![
            Function::Group(Box::new(vec![
                Function::Letters {
                    casing: Some(Casing::Upcase)
                },
                Function::Glob { rest: true }
            ])),
            Function::Whitespace,
            Function::Group(Box::new(vec![Function::Numbers])),
        ])
    );
}

#[test]
fn functions_test_basic_tokenize() {
    let input = String::from(
        "letter(upcase=True) | letter(upcase=False) | glob(rest=True) | glob(rest=False) | whitespace | number",
    );

    assert_eq!(
        parse(tokenize(input).unwrap()),
        Ok(vec![
            Function::Letter {
                casing: Some(Casing::Upcase),
                select: None,
            },
            Function::Letter {
                casing: Some(Casing::Downcase),
                select: None,
            },
            Function::Glob { rest: true },
            Function::Glob { rest: false },
            Function::Whitespace,
            Function::Number { select: None },
        ])
    );

    let input = String::from("letters(upcase=True) | glob(rest=True) | whitespace | numbers");

    assert_eq!(
        parse(tokenize(input).unwrap()),
        Ok(vec![
            Function::Letters {
                casing: Some(Casing::Upcase)
            },
            Function::Glob { rest: true },
            Function::Whitespace,
            Function::Numbers,
        ])
    );
}

#[test]
fn parse_unknown_primitive_fails() {
    assert_eq!(
        parse_text("whitespace | foo | numbers"),
        Err(Error::UnknownPrimitive("foo".to_string()))
    );
}

#[test]
fn parse_unknown_primitive_inside_group_fails() {
    assert_eq!(
        parse_text("group(numbers | bar)"),
        Err(Error::UnknownPrimitive("bar".to_string()))
    );
}

#[test]
fn parse_empty_token_list() {
    assert_eq!(parse(vec![]), Ok(vec![]));
    assert_eq!(
        parse(vec![Token::Whitespace, Token::Pipe, Token::Whitespace]),
        Ok(vec![])
    );
}

#[test]
fn parse_casing_with_both_values_is_unset() {
    assert_eq!(
        parse_text("letter(upcase=True, upcase=False)"),
        Ok(vec![Function::Letter {
            casing: None,
            select: None
        }])
    );
}

#[test]
fn parse_select_on_letters_is_ignored() {
    assert_eq!(
        parse_text("letters(select=4)"),
        Ok(vec![Function::Letters { casing: None }])
    );
}

#[test]
fn parse_first_select_wins() {
    assert_eq!(
        parse_text("number(select=2, select=5)"),
        Ok(vec![Function::Number { select: Some(2) }])
    );
}

#[test]
fn parse_malformed_glob_gives_nothing() {
    assert_eq!(
        parse_text("glob(rest=3) | numbers"),
        Ok(vec![Function::Numbers])
    );
    assert_eq!(parse_text("glob | numbers"), Ok(vec![Function::Numbers]));
}

#[test]
fn parse_nested_groups() {
    assert_eq!(
        parse_text("group(group(whitespace) | numbers) | number"),
        Ok(vec![
            Function::Group(Box::new(vec![
                Function::Group(Box::new(vec![Function::Whitespace])),
                Function::Numbers,
            ])),
            Function::Number { select: None },
        ])
    );
}

#[test]
fn parse_unterminated_group_is_empty() {
    assert_eq!(
        parse_text("group(numbers"),
        Ok(vec![Function::Group(Box::new(vec![])), Function::Numbers])
    );
}

#[test]
fn parse_primitive_without_parameters() {
    assert_eq!(
        parse_text("letter | numbers"),
        Ok(vec![
            Function::Letter {
                casing: None,
                select: None
            },
            Function::Numbers,
        ])
    );
}

#[test]
fn parse_bare_primitive_takes_no_span() {
    assert_eq!(
        parse_text("number | glob(rest=True)"),
        Ok(vec![
            Function::Number { select: None },
            Function::Glob { rest: true },
        ])
    );
}
