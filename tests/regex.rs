use regexer::ast::{Casing, Function};
use regexer::error::Error;
use regexer::parse;
use regexer::regex::transpile;

fn compile(input: &str) -> Result<String, Error> {
    parse(String::from(input))
}

#[test]
fn compile_single_letters() {
    assert_eq!(compile("letter(upcase=True)"), Ok("[A-Z]".to_string()));
    assert_eq!(compile("letter(upcase=False)"), Ok("[a-z]".to_string()));
    assert_eq!(
        compile("letter(select=3, upcase=True)"),
        Ok("[A-Z]{3}".to_string())
    );
}

#[test]
fn compile_basic_sequence() {
    assert_eq!(
        compile("letters(upcase=True) | glob(rest=True) | whitespace | numbers"),
        Ok("[A-Z]+.*\\s[0-9]+".to_string())
    );
}

#[test]
fn compile_grouped_sequence() {
    assert_eq!(
        compile("group(letters(upcase=True) | glob(rest=True)) | whitespace | group(numbers)"),
        Ok("([A-Z]+.*)\\s([0-9]+)".to_string())
    );
}

#[test]
fn compile_nested_groups_one_pair_per_level() {
    assert_eq!(compile("group(whitespace)"), Ok("(\\s)".to_string()));
    assert_eq!(compile("group(group(whitespace))"), Ok("((\\s))".to_string()));
    assert_eq!(
        compile("group(group(group(whitespace)))"),
        Ok("(((\\s)))".to_string())
    );
}

#[test]
fn compile_unknown_primitive() {
    assert_eq!(
        compile("foo"),
        Err(Error::UnknownPrimitive("foo".to_string()))
    );
    assert_eq!(
        compile("letters | foo"),
        Err(Error::UnknownPrimitive("foo".to_string()))
    );
}

#[test]
fn compile_invalid_character() {
    assert_eq!(compile("letter@"), Err(Error::InvalidToken('@')));
    assert_eq!(compile("foo @"), Err(Error::InvalidToken('@')));
}

#[test]
fn compile_is_repeatable() {
    let input = "group(letter(select=2)) | glob(rest=False) | number(select=10)";
    assert_eq!(compile(input), compile(input));
    assert_eq!(compile(input), Ok("([a-z]{2}).[0-9]{10}".to_string()));
}

#[test]
fn compile_empty_input() {
    assert_eq!(compile(""), Ok(String::new()));
}

#[test]
fn compile_select_quantifiers() {
    assert_eq!(compile("number(select=0)"), Ok("[0-9]{0}".to_string()));
    assert_eq!(
        compile("number(select=4294967295)"),
        Ok("[0-9]{4294967295}".to_string())
    );
    assert_eq!(compile("number(select=4294967296)"), Ok("[0-9]".to_string()));
}

#[test]
fn compile_defaults_to_lower_case() {
    assert_eq!(compile("letter | letters"), Ok("[a-z][a-z]+".to_string()));
}

#[test]
fn transpile_each_node() {
    let nodes = vec![
        Function::Letter {
            casing: Some(Casing::Upcase),
            select: Some(12),
        },
        Function::Letter {
            casing: None,
            select: None,
        },
        Function::Letters {
            casing: Some(Casing::Downcase),
        },
        Function::Glob { rest: true },
        Function::Glob { rest: false },
        Function::Whitespace,
        Function::Number { select: Some(7) },
        Function::Numbers,
        Function::Group(Box::new(vec![Function::Numbers, Function::Whitespace])),
    ];
    assert_eq!(
        transpile(nodes),
        "[A-Z]{12}[a-z][a-z]+.*.\\s[0-9]{7}[0-9]+([0-9]+\\s)".to_string()
    );
}

#[test]
fn transpile_empty_group_and_empty_list() {
    assert_eq!(transpile(vec![]), String::new());
    assert_eq!(
        transpile(vec![Function::Group(Box::new(vec![]))]),
        "()".to_string()
    );
}

#[test]
fn transpile_concatenates_in_order() {
    let a = transpile(vec![Function::Numbers]);
    let b = transpile(vec![Function::Glob { rest: true }]);
    let ab = transpile(vec![Function::Numbers, Function::Glob { rest: true }]);
    assert_eq!(ab, format!("{}{}", a, b));
}

#[test]
fn compile_bare_primitive_keeps_the_next_one() {
    assert_eq!(compile("number | glob(rest=True)"), Ok("[0-9].*".to_string()));
    assert_eq!(
        compile("letter | letters(upcase=True) | number(select=2)"),
        Ok("[a-z][A-Z]+[0-9]{2}".to_string())
    );
}

#[test]
fn compile_comma_anywhere_gives_nothing() {
    assert_eq!(compile("numbers,whitespace"), Ok("[0-9]+\\s".to_string()));
}
