//! A streaming CSV tokenizer: bytes in, rows of text fields out.
//!
//! Fields are separated by commas and rows by line feeds, each optionally
//! preceded by a carriage return. A field that starts with a double quote is
//! quoted up to the next double quote: commas and line terminators inside it
//! are part of its text, and the quote that closes it is dropped. There is no
//! escape for a double quote inside a quoted field: the next one closes it.
//! A blank line is a row with no fields.
use vstd::prelude::*;
use vstd::slice::slice_to_vec;

pub mod laws;
pub mod model;
pub mod parser;
pub mod stream;

pub use model::ParseError;
pub use parser::Parser;

use model::{lemma_row_advances, rows_from, rows_of};
use parser::{strings_view, texts};

verus! {

/// The rows of a whole input as text.
pub open spec fn text_rows(rows: Seq<Seq<Seq<u8>>>) -> Seq<Seq<Seq<char>>> {
    rows.map_values(|row: Seq<Seq<u8>>| texts(row))
}

/// The characters of each field of each row.
pub open spec fn rows_view(rows: Seq<Vec<String>>) -> Seq<Seq<Seq<char>>> {
    rows.map_values(|row: Vec<String>| strings_view(row@))
}

/// Parses a whole input into its rows, in order. An in-memory input cannot
/// fail to be read, so the result is always `Ok`.
pub fn parse(input: &[u8]) -> (r: Result<Vec<Vec<String>>, ()>)
    ensures
        r is Ok,
        rows_view(r->Ok_0@) == text_rows(rows_of(input@)),
{
    let mut parser = Parser::new(slice_to_vec(input));
    let ghost b = input@;
    let ghost mut done_rows: Seq<Seq<Seq<u8>>> = seq![];
    let mut rows: Vec<Vec<String>> = Vec::new();
    assert(done_rows + rows_from(b, 0) =~= rows_from(b, 0));
    loop
        invariant
            parser.wf(),
            parser@.input == b,
            rows_view(rows@) == text_rows(done_rows),
            done_rows + rows_from(b, parser@.pos) == rows_of(b),
        ensures
            rows_view(rows@) == text_rows(rows_of(b)),
        decreases b.len() - parser@.pos,
    {
        let ghost p = parser@.pos;
        proof {
            lemma_row_advances(b, p);
        }
        match parser.next() {
            Some(row) => {
                let ghost fields = row_at_fields(b, p);
                let ghost later = rows_from(b, parser@.pos);
                assert(done_rows + (seq![fields] + later) =~= done_rows.push(fields) + later);
                assert(rows_view(rows@.push(row)) =~= rows_view(rows@).push(strings_view(row@)));
                assert(text_rows(done_rows.push(fields)) =~= text_rows(done_rows).push(texts(fields)));
                rows.push(row);
                proof {
                    done_rows = done_rows.push(fields);
                }
            },
            None => {
                proof {
                    lemma_row_advances(b, parser@.pos);
                }
                assert(rows_from(b, parser@.pos) =~= seq![]);
                assert(done_rows + seq![] =~= done_rows);
                break;
            },
        }
    }
    Ok(rows)
}

/// The fields of the row at `p`, where there is one.
spec fn row_at_fields(b: Seq<u8>, p: int) -> Seq<Seq<u8>> {
    model::row_at(b, p).0->Some_0
}

} // verus!
