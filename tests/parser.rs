use std_csv::{ParseError, Parser};

fn parser_over(input: &str) -> Parser {
    Parser::new(input.as_bytes().to_vec())
}

#[test]
fn it_parses_a_part() {
    let mut parser = parser_over("part,another part");
    assert_eq!("part", parser.next_part().unwrap());
}

#[test]
fn parser_it_handles_newline_in_row() {
    let mut parser = parser_over("\"quoted\nnewline\"");
    let expected = "quoted\nnewline";
    assert_eq!(expected, parser.next_part().unwrap());
}

#[test]
fn it_returns_a_line() {
    let mut parser = parser_over("part,another part");
    assert_eq!(vec!["part", "another part"], parser.next().unwrap());
}

#[test]
fn parser_it_handles_multiple_lines() {
    let mut parser = parser_over(
        "name,dob,email
test1,01-12-1980,test1@example.com
test2,20-2-1970,test2@example.com
",
    );
    let expected = vec![
        vec!["name", "dob", "email"],
        vec!["test1", "01-12-1980", "test1@example.com"],
        vec!["test2", "20-2-1970", "test2@example.com"],
    ];
    assert_eq!(expected[0], parser.next().unwrap());
    assert_eq!(expected[1], parser.next().unwrap());
    assert_eq!(expected[2], parser.next().unwrap());
    assert_eq!(None, parser.next());
}

#[test]
fn parts_and_signals_in_order() {
    let mut parser = parser_over("a,\"b,c\"\r\nd");
    assert_eq!(Ok("a".to_string()), parser.next_part());
    assert_eq!(Ok("b,c".to_string()), parser.next_part());
    assert_eq!(Err(ParseError::Eol), parser.next_part());
    assert_eq!(Ok("d".to_string()), parser.next_part());
    assert_eq!(Err(ParseError::Eof), parser.next_part());
    assert_eq!(Err(ParseError::Eof), parser.next_part());
}

#[test]
fn part_bytes_keep_invalid_utf8() {
    let mut parser = Parser::new(vec![0x61, 0xff, 0x2c, 0x62]);
    assert_eq!(Ok(vec![0x61, 0xff]), parser.next_part_bytes());
    assert_eq!(Ok(vec![0x62]), parser.next_part_bytes());
    assert_eq!(Err(ParseError::Eof), parser.next_part_bytes());
}

#[test]
fn invalid_utf8_becomes_replacement_character() {
    let mut parser = Parser::new(vec![0x61, 0xff, 0x2c, 0xc3, 0xa9]);
    assert_eq!(Ok("a\u{fffd}".to_string()), parser.next_part());
    assert_eq!(Ok("\u{e9}".to_string()), parser.next_part());
}

#[test]
fn lone_carriage_return_ends_a_row() {
    let mut parser = parser_over("a\rb");
    assert_eq!(Some(vec!["a".to_string()]), parser.next());
    assert_eq!(Some(vec!["b".to_string()]), parser.next());
    assert_eq!(None, parser.next());
}

#[test]
fn exhausted_parser_stays_exhausted() {
    let mut parser = parser_over("x,y");
    assert_eq!(Some(vec!["x".to_string(), "y".to_string()]), parser.next());
    assert_eq!(None, parser.next());
    assert_eq!(None, parser.next());
    assert_eq!(None, parser.next());
    assert_eq!(Err(ParseError::Eof), parser.next_part());
}

#[test]
fn exhausted_after_trailing_newline() {
    let mut parser = parser_over("x\n");
    assert_eq!(Some(vec!["x".to_string()]), parser.next());
    assert_eq!(None, parser.next());
    assert_eq!(None, parser.next());
}
