use std_csv::{parse, Parser};

fn stream_rows(chunks: &[&[u8]]) -> Vec<Vec<String>> {
    let mut parser = Parser::new(Vec::new());
    let mut rows = Vec::new();
    for chunk in chunks {
        parser.feed(chunk);
        while let Some(row) = parser.next_complete() {
            rows.push(row);
        }
        parser.compact();
    }
    while let Some(row) = parser.next() {
        rows.push(row);
    }
    rows
}

#[test]
fn pieces_give_the_same_rows_at_every_split() {
    let inputs: [&[u8]; 4] = [
        b"a,b,c\n1,2,3\n\"Once upon \na time\",5,6\n7,8,9\n",
        b"a,b,c\r\n1,2,3\r\n\"Once upon \r\na time\",5,6\r\n7,8,9\r\n",
        b"x,\"y,z\"\n\nlast",
        b"a\rb\r\n\"q\"\r",
    ];
    for input in inputs.iter() {
        let whole = parse(input).unwrap();
        for cut in 0..=input.len() {
            let (head, tail) = input.split_at(cut);
            assert_eq!(whole, stream_rows(&[head, tail]), "cut at {}", cut);
        }
        let bytes: Vec<&[u8]> = input.chunks(1).collect();
        assert_eq!(whole, stream_rows(&bytes));
    }
}

#[test]
fn row_at_end_of_held_bytes_waits() {
    let mut parser = Parser::new(Vec::new());
    parser.feed(b"a,b");
    assert_eq!(None, parser.next_complete());
    parser.feed(b"c\nd");
    assert_eq!(Some(vec!["a".to_string(), "bc".to_string()]), parser.next_complete());
    assert_eq!(None, parser.next_complete());
    assert_eq!(Some(vec!["d".to_string()]), parser.next());
    assert_eq!(None, parser.next());
}

#[test]
fn carriage_return_at_end_waits_for_line_feed() {
    let mut parser = Parser::new(Vec::new());
    parser.feed(b"a\r");
    assert_eq!(None, parser.next_complete());
    parser.feed(b"\nb");
    assert_eq!(Some(vec!["a".to_string()]), parser.next_complete());
    assert_eq!(Some(vec!["b".to_string()]), parser.next());
}

#[test]
fn compact_keeps_the_rows_to_come() {
    let mut parser = Parser::new(b"one\ntwo\nthree".to_vec());
    assert_eq!(Some(vec!["one".to_string()]), parser.next());
    parser.compact();
    assert_eq!(Some(vec!["two".to_string()]), parser.next());
    parser.compact();
    parser.compact();
    assert_eq!(Some(vec!["three".to_string()]), parser.next());
    parser.compact();
    assert_eq!(None, parser.next());
}

#[test]
fn nothing_is_fed_after_the_end() {
    let mut parser = Parser::new(b"a".to_vec());
    assert_eq!(Some(vec!["a".to_string()]), parser.next());
    assert_eq!(None, parser.next());
    parser.feed(b"b\n");
    assert_eq!(None, parser.next_complete());
    assert_eq!(None, parser.next());
}
