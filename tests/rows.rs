use std_csv::parse;

fn rows(input: &str) -> Vec<Vec<String>> {
    parse(input.as_bytes()).unwrap()
}

#[test]
fn simple_row_round_trip() {
    assert_eq!(vec![vec!["a", "comma", "separated", "line"]], rows("a,comma,separated,line"));
}

#[test]
fn quoted_field_holds_a_comma() {
    assert_eq!(vec![vec!["quoted,part", "next"]], rows("\"quoted,part\",next"));
}

#[test]
fn quoted_field_holds_a_newline_and_ends_the_rows() {
    assert_eq!(vec![vec!["quoted\nnewline"]], rows("\"quoted\nnewline\""));
}

#[test]
fn header_and_two_records() {
    let expected = vec![
        vec!["name", "dob", "email"],
        vec!["test1", "01-12-1980", "test1@example.com"],
        vec!["test2", "20-2-1970", "test2@example.com"],
    ];
    assert_eq!(
        expected,
        rows("name,dob,email\ntest1,01-12-1980,test1@example.com\ntest2,20-2-1970,test2@example.com\n")
    );
}

#[test]
fn crlf_gives_the_same_rows() {
    let lf = rows("name,dob,email\ntest1,01-12-1980,test1@example.com\ntest2,20-2-1970,test2@example.com\n");
    let crlf = rows(
        "name,dob,email\r\ntest1,01-12-1980,test1@example.com\r\ntest2,20-2-1970,test2@example.com\r\n",
    );
    assert_eq!(lf, crlf);
    assert!(crlf.iter().all(|row| row.iter().all(|f| !f.contains('\r'))));
}

#[test]
fn plain_lines_split_on_commas() {
    let input = "one,two,three\n,middle,,end\nsolo\n";
    let expected: Vec<Vec<String>> = input
        .lines()
        .map(|line| line.split(',').map(|f| f.to_string()).collect())
        .collect();
    assert_eq!(expected, rows(input));
}

#[test]
fn empty_input_has_no_rows() {
    assert_eq!(Vec::<Vec<String>>::new(), rows(""));
}

#[test]
fn blank_line_is_a_row_without_fields() {
    assert_eq!(vec![vec!["a".to_string()], vec![], vec!["b".to_string()]], rows("a\n\nb\n"));
    assert_eq!(vec![Vec::<String>::new()], rows("\r\n"));
}

#[test]
fn empty_fields_between_commas() {
    assert_eq!(vec![vec!["", "", "x"]], rows(",,x"));
}

#[test]
fn trailing_comma_leaves_no_empty_field() {
    assert_eq!(vec![vec!["a"], vec!["b"]], rows("a,\nb,"));
}

#[test]
fn text_after_closing_quote_joins_the_field() {
    assert_eq!(vec![vec!["abcd", "e"]], rows("\"ab\"cd,e"));
}

#[test]
fn quote_inside_unquoted_field_is_kept() {
    assert_eq!(vec![vec!["a\"b", "c"]], rows("a\"b,c"));
}

#[test]
fn unterminated_quote_runs_to_the_end() {
    assert_eq!(vec![vec!["a", "b,c\nd"]], rows("a,\"b,c\nd"));
}
