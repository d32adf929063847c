//! The tokenizer as mathematics: fields, rows and the row sequence of a byte
//! string, each a function of the input bytes and a read position.
use vstd::prelude::*;

verus! {

/// The double quote that opens and closes a quoted field.
pub const QUOTE: u8 = 0x22;

/// The field delimiter.
pub const COMMA: u8 = 0x2c;

/// Line feed, the line terminator.
pub const LF: u8 = 0x0a;

/// Carriage return; before a line feed the two form one terminator.
pub const CR: u8 = 0x0d;

/// Why a call to the field tokenizer produced no field.
#[derive(Debug, Clone, Copy, PartialEq, Eq, Structural)]
pub enum ParseError {
    /// A line terminator was consumed: the current row is complete.
    Eol,
    /// No bytes are left.
    Eof,
}

/// A byte that ends an unquoted field and, at the start of a field, a row.
pub open spec fn is_terminator(c: u8) -> bool {
    c == LF || c == CR
}

/// Whether `c` has a structural meaning outside a quoted region.
pub open spec fn is_structural(c: u8) -> bool {
    c == COMMA || c == QUOTE || is_terminator(c)
}

/// The number of bytes of the line terminator that starts at `p`: two for a
/// carriage return followed by a line feed, one otherwise.
pub open spec fn terminator_len(b: Seq<u8>, p: int) -> int {
    if b[p] == CR && p + 1 < b.len() && b[p + 1] == LF {
        2
    } else {
        1
    }
}

/// Scans the body of a field from `p`, in quoted mode or not: the bytes that
/// go into the field and the position after the last byte consumed.
/// A quote in quoted mode ends quoted mode and is dropped; a comma outside it
/// ends the field and is consumed; a line terminator outside it ends the field
/// and is left in place.
pub open spec fn scan(b: Seq<u8>, p: int, quoted: bool) -> (Seq<u8>, int)
    decreases b.len() - p,
{
    if p < 0 || p >= b.len() {
        (seq![], p)
    } else if quoted {
        if b[p] == QUOTE {
            scan(b, p + 1, false)
        } else {
            let (rest, end) = scan(b, p + 1, true);
            (seq![b[p]] + rest, end)
        }
    } else if b[p] == COMMA {
        (seq![], p + 1)
    } else if is_terminator(b[p]) {
        (seq![], p)
    } else {
        let (rest, end) = scan(b, p + 1, false);
        (seq![b[p]] + rest, end)
    }
}

/// One call of the field tokenizer at position `p`: the field's bytes or the
/// signal, and the position after what it consumed.
pub open spec fn part_at(b: Seq<u8>, p: int) -> (Result<Seq<u8>, ParseError>, int) {
    if p >= b.len() {
        (Err(ParseError::Eof), p)
    } else if is_terminator(b[p]) {
        (Err(ParseError::Eol), p + terminator_len(b, p))
    } else if b[p] == QUOTE {
        let (f, end) = scan(b, p + 1, true);
        (Ok(f), end)
    } else {
        let (f, end) = scan(b, p, false);
        (Ok(f), end)
    }
}

/// The fields that follow the first one of a row, from `p` up to and
/// including the end of the row, and the position after it.
pub open spec fn row_tail(b: Seq<u8>, p: int) -> (Seq<Seq<u8>>, int)
    decreases b.len() - p,
{
    let (r, q) = part_at(b, p);
    match r {
        Ok(f) => if p < q <= b.len() {
            let (rest, end) = row_tail(b, q);
            (seq![f] + rest, end)
        } else {
            (seq![f], q)
        },
        Err(_) => (seq![], q),
    }
}

/// The row that starts at `p`, if any, and the position after it. A line
/// terminator at `p` is a blank line: a row with no fields.
pub open spec fn row_at(b: Seq<u8>, p: int) -> (Option<Seq<Seq<u8>>>, int) {
    let (r, q) = part_at(b, p);
    match r {
        Ok(f) => {
            let (rest, end) = row_tail(b, q);
            (Some(seq![f] + rest), end)
        },
        Err(ParseError::Eol) => (Some(seq![]), q),
        Err(ParseError::Eof) => (None, q),
    }
}

/// All rows from position `p` to the end of the input, in order.
pub open spec fn rows_from(b: Seq<u8>, p: int) -> Seq<Seq<Seq<u8>>>
    decreases b.len() - p,
{
    let (r, q) = row_at(b, p);
    match r {
        Some(row) => if p < q <= b.len() {
            seq![row] + rows_from(b, q)
        } else {
            seq![row]
        },
        None => seq![],
    }
}

/// The rows of a whole input.
pub open spec fn rows_of(b: Seq<u8>) -> Seq<Seq<Seq<u8>>> {
    rows_from(b, 0)
}

/// A scan consumes bytes only within the input, and never moves backwards.
pub proof fn lemma_scan_bounds(b: Seq<u8>, p: int, quoted: bool)
    requires
        0 <= p <= b.len(),
    ensures
        p <= scan(b, p, quoted).1 <= b.len(),
        !quoted && p < b.len() && !is_terminator(b[p]) ==> p < scan(b, p, quoted).1,
    decreases b.len() - p,
{
    if p < b.len() {
        if quoted && b[p] == QUOTE {
            lemma_scan_bounds(b, p + 1, false);
        } else if quoted {
            lemma_scan_bounds(b, p + 1, true);
        } else if b[p] != COMMA && !is_terminator(b[p]) {
            lemma_scan_bounds(b, p + 1, false);
        }
    }
}

/// Below the end of the input, the tokenizer always consumes something.
pub proof fn lemma_part_advances(b: Seq<u8>, p: int)
    requires
        0 <= p <= b.len(),
    ensures
        p <= part_at(b, p).1 <= b.len(),
        p < b.len() ==> p < part_at(b, p).1,
        part_at(b, p).0 == Err::<Seq<u8>, ParseError>(ParseError::Eof) <==> p == b.len(),
{
    if p < b.len() {
        if is_terminator(b[p]) {
        } else if b[p] == QUOTE {
            lemma_scan_bounds(b, p + 1, true);
        } else {
            lemma_scan_bounds(b, p, false);
        }
    }
}

/// A row ends within the input, and below the end of the input a row
/// consumes something.
pub proof fn lemma_row_tail_bounds(b: Seq<u8>, p: int)
    requires
        0 <= p <= b.len(),
    ensures
        p <= row_tail(b, p).1 <= b.len(),
    decreases b.len() - p,
{
    lemma_part_advances(b, p);
    let (r, q) = part_at(b, p);
    if r is Ok && p < q {
        lemma_row_tail_bounds(b, q);
    }
}

/// A row starts only below the end of the input and always consumes something.
pub proof fn lemma_row_advances(b: Seq<u8>, p: int)
    requires
        0 <= p <= b.len(),
    ensures
        row_at(b, p).0 is None <==> p == b.len(),
        row_at(b, p).0 is None ==> row_at(b, p).1 == p,
        row_at(b, p).0 is Some ==> p < row_at(b, p).1 <= b.len(),
{
    lemma_part_advances(b, p);
    let (r, q) = part_at(b, p);
    if r is Ok {
        lemma_row_tail_bounds(b, q);
    }
}

/// Below the end of the input, the row at `p` is the row tail at `p`: its
/// first field is found the same way as the others.
pub proof fn lemma_row_at_tail(b: Seq<u8>, p: int)
    requires
        0 <= p < b.len(),
    ensures
        row_at(b, p) == (Some(row_tail(b, p).0), row_tail(b, p).1),
{
    lemma_part_advances(b, p);
}

} // verus!
