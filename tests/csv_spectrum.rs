use std_csv::parse;

fn assert_should_parse(input: &str, expected: Vec<Vec<&str>>) {
    let rows = parse(input.as_bytes()).unwrap();
    assert_eq!(expected, rows);
}

#[test]
fn comma_in_quotes() {
    assert_should_parse(
        "first,last,address,city,zip\nJohn,Doe,120 any st.,\"Anytown, WW\",08123\n",
        vec![
            vec!["first", "last", "address", "city", "zip"],
            vec!["John", "Doe", "120 any st.", "Anytown, WW", "08123"],
        ],
    );
}

#[test]
fn empty() {
    assert_should_parse(
        "a,b,c\n1,\"\",\"\"\n2,3,4\n",
        vec![vec!["a", "b", "c"], vec!["1", "", ""], vec!["2", "3", "4"]],
    );
}

#[test]
fn empty_crlf() {
    assert_should_parse(
        "a,b,c\r\n1,\"\",\"\"\r\n2,3,4\r\n",
        vec![vec!["a", "b", "c"], vec!["1", "", ""], vec!["2", "3", "4"]],
    );
}

#[test]
fn newlines() {
    assert_should_parse(
        "a,b,c\n1,2,3\n\"Once upon \na time\",5,6\n7,8,9\n",
        vec![
            vec!["a", "b", "c"],
            vec!["1", "2", "3"],
            vec!["Once upon \na time", "5", "6"],
            vec!["7", "8", "9"],
        ],
    );
}

#[test]
fn newlines_crlf() {
    assert_should_parse(
        "a,b,c\r\n1,2,3\r\n\"Once upon \r\na time\",5,6\r\n7,8,9\r\n",
        vec![
            vec!["a", "b", "c"],
            vec!["1", "2", "3"],
            vec!["Once upon \r\na time", "5", "6"],
            vec!["7", "8", "9"],
        ],
    );
}

#[test]
fn simple() {
    assert_should_parse("a,b,c\n1,2,3\n", vec![vec!["a", "b", "c"], vec!["1", "2", "3"]]);
}

#[test]
fn simple_crlf() {
    assert_should_parse("a,b,c\r\n1,2,3\r\n", vec![vec!["a", "b", "c"], vec!["1", "2", "3"]]);
}

#[test]
fn utf8() {
    assert_should_parse(
        "a,b,c\n1,2,3\n4,5,Ê¤\n",
        vec![vec!["a", "b", "c"], vec!["1", "2", "3"], vec!["4", "5", "Ê¤"]],
    );
}

#[test]
fn lib_it_handles_newline_in_row() {
    assert_should_parse("\"quoted\nnewline\"", vec![vec!["quoted\nnewline"]]);
}

#[test]
fn lib_it_handles_multiple_lines() {
    assert_should_parse(
        "name,dob,email
test1,01-12-1980,test1@example.com
test2,20-2-1970,test2@example.com
",
        vec![
            vec!["name", "dob", "email"],
            vec!["test1", "01-12-1980", "test1@example.com"],
            vec!["test2", "20-2-1970", "test2@example.com"],
        ],
    );
}
