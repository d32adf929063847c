//! The parser: a field tokenizer and a row assembler over a byte buffer.
use vstd::prelude::*;

use crate::model::{
    lemma_part_advances, part_at, row_at, row_tail, rows_from, scan, ParseError, COMMA, CR, LF, QUOTE,
};

use crate::stream::lemma_rows_agree;

verus! {

/// What `String::from_utf8_lossy` makes of a byte string: the text it encodes,
/// with a replacement character for each invalid sequence.
pub uninterp spec fn lossy_text(b: Seq<u8>) -> Seq<char>;

/// Relies on `String::from_utf8_lossy`: the text depends on the bytes alone.
#[verifier::external_body]
fn decode_lossy(b: &[u8]) -> (r: String)
    ensures
        r@ == lossy_text(b@),
{
    String::from_utf8_lossy(b).into_owned()
}

/// The fields of a row as text.
pub open spec fn texts(row: Seq<Seq<u8>>) -> Seq<Seq<char>> {
    row.map_values(|f: Seq<u8>| lossy_text(f))
}

/// The characters of each string of a row.
pub open spec fn strings_view(row: Seq<String>) -> Seq<Seq<char>> {
    row.map_values(|s: String| s@)
}

/// A tokenizer result with its field as bytes.
pub open spec fn bytes_result(r: Result<Vec<u8>, ParseError>) -> Result<Seq<u8>, ParseError> {
    match r {
        Ok(v) => Ok(v@),
        Err(e) => Err(e),
    }
}

/// Whether `r` is the tokenizer result `m` with its field decoded as text.
pub open spec fn decodes(r: Result<String, ParseError>, m: Result<Seq<u8>, ParseError>) -> bool {
    match (r, m) {
        (Ok(s), Ok(f)) => s@ == lossy_text(f),
        (Err(e), Err(g)) => e == g,
        _ => false,
    }
}

/// The state of a parser: its input, the read position, and whether the end
/// of the input has been reported.
pub struct ParserState {
    pub input: Seq<u8>,
    pub pos: int,
    pub eof: bool,
}

/// A CSV parser over a byte buffer. Rows are produced one call at a time,
/// reading no further than the row returned. The buffer can be the whole
/// input, or the part of a stream that has arrived so far (see `feed`).
pub struct Parser {
    input: Vec<u8>,
    pos: usize,
    eof: bool,
}

impl View for Parser {
    type V = ParserState;

    closed spec fn view(&self) -> ParserState {
        ParserState { input: self.input@, pos: self.pos as int, eof: self.eof }
    }
}

impl Parser {
    /// The read position lies within the input, and the end has been
    /// reported only once it is reached.
    pub open spec fn wf(&self) -> bool {
        &&& 0 <= self@.pos <= self@.input.len()
        &&& self@.eof ==> self@.pos == self@.input.len()
    }

    /// A parser at the start of `input`.
    pub fn new(input: Vec<u8>) -> (p: Parser)
        ensures
            p.wf(),
            p@ == (ParserState { input: input@, pos: 0, eof: false }),
    {
        Parser { input, pos: 0, eof: false }
    }

    /// Appends bytes that have arrived to the end of the input. Once the end
    /// of the input has been reported nothing more is taken.
    pub fn feed(&mut self, more: &[u8])
        requires
            old(self).wf(),
        ensures
            final(self).wf(),
            final(self)@ == (if old(self)@.eof {
                old(self)@
            } else {
                ParserState { input: old(self)@.input + more@, pos: old(self)@.pos, eof: false }
            }),
    {
        if self.eof {
            return;
        }
        let ghost start = self.input@;
        let ghost p0 = self.pos;
        let mut i: usize = 0;
        while i < more.len()
            invariant
                i <= more@.len(),
                self.input@ == start + more@.subrange(0, i as int),
                self.pos == p0,
                p0 <= start.len(),
                !self.eof,
            decreases more@.len() - i,
        {
            self.input.push(more[i]);
            assert(start + more@.subrange(0, i + 1) =~= (start + more@.subrange(0, i as int)).push(
                more@[i as int],
            ));
            i = i + 1;
        }
        assert(more@.subrange(0, more@.len() as int) =~= more@);
    }

    /// Drops the bytes already consumed. The rows still to come are the same.
    pub fn compact(&mut self)
        requires
            old(self).wf(),
        ensures
            final(self).wf(),
            final(self)@ == (ParserState {
                input: old(self)@.input.subrange(old(self)@.pos, old(self)@.input.len() as int),
                pos: 0,
                eof: old(self)@.eof,
            }),
            rows_from(final(self)@.input, 0) == rows_from(old(self)@.input, old(self)@.pos),
    {
        let ghost b = self.input@;
        let n = self.input.len();
        let mut rest: Vec<u8> = Vec::new();
        let mut i: usize = self.pos;
        while i < n
            invariant
                self.input@ == b,
                n == b.len(),
                self.pos <= i <= n,
                rest@ == b.subrange(self.pos as int, i as int),
            decreases n - i,
        {
            rest.push(self.input[i]);
            assert(b.subrange(self.pos as int, i + 1) =~= b.subrange(self.pos as int, i as int).push(
                b[i as int],
            ));
            i = i + 1;
        }
        let ghost p = self.pos as int;
        proof {
            lemma_rows_agree(b, rest@, -p, p);
        }
        self.input = rest;
        self.pos = 0;
    }

    /// Tokenizes one field and returns its bytes, or the signal that a row
    /// ended or that no bytes are left.
    pub fn next_part_bytes(&mut self) -> (r: Result<Vec<u8>, ParseError>)
        requires
            old(self).wf(),
        ensures
            final(self).wf(),
            final(self)@.input == old(self)@.input,
            bytes_result(r) == part_at(old(self)@.input, old(self)@.pos).0,
            final(self)@.pos == part_at(old(self)@.input, old(self)@.pos).1,
            final(self)@.eof == (old(self)@.eof || r == Err::<Vec<u8>, ParseError>(ParseError::Eof)),
    {
        proof {
            lemma_part_advances(self@.input, self@.pos);
        }
        let n = self.input.len();
        let start = self.pos;
        if start >= n {
            self.eof = true;
            return Err(ParseError::Eof);
        }
        let c = self.input[start];
        if c == LF || c == CR {
            let len: usize = if c == CR && start + 1 < n && self.input[start + 1] == LF {
                2
            } else {
                1
            };
            self.pos = start + len;
            return Err(ParseError::Eol);
        }
        let ghost b = self.input@;
        let mut quoted = c == QUOTE;
        let mut i: usize = if quoted {
            start + 1
        } else {
            start
        };
        let ghost first = i as int;
        let ghost quoted0 = quoted;
        let mut bytes: Vec<u8> = Vec::new();
        let mut done = false;
        while !done && i < n
            invariant
                b == self.input@,
                n == b.len(),
                first <= i <= n,
                done ==> scan(b, first, quoted0) == (bytes@, i as int),
                !done ==> scan(b, first, quoted0) == (
                    bytes@ + scan(b, i as int, quoted).0,
                    scan(b, i as int, quoted).1,
                ),
            decreases 2 * (n - i) + if done {
                0int
            } else {
                1int
            },
        {
            let x = self.input[i];
            let ghost acc = bytes@;
            let ghost rest = scan(b, i as int + 1, quoted);
            if quoted {
                if x == QUOTE {
                    quoted = false;
                } else {
                    bytes.push(x);
                    assert(acc + (seq![x] + rest.0) =~= bytes@ + rest.0);
                }
                i = i + 1;
            } else if x == COMMA {
                i = i + 1;
                done = true;
                assert(acc + seq![] =~= acc);
            } else if x == LF || x == CR {
                done = true;
                assert(acc + seq![] =~= acc);
            } else {
                bytes.push(x);
                assert(acc + (seq![x] + rest.0) =~= bytes@ + rest.0);
                i = i + 1;
            }
        }
        if !done {
            assert(bytes@ + seq![] =~= bytes@);
        }
        self.pos = i;
        Ok(bytes)
    }

    /// Tokenizes one field and returns it as text, or the signal that a row
    /// ended or that no bytes are left. Invalid UTF-8 in the field becomes
    /// replacement characters.
    pub fn next_part(&mut self) -> (r: Result<String, ParseError>)
        requires
            old(self).wf(),
        ensures
            final(self).wf(),
            final(self)@.input == old(self)@.input,
            decodes(r, part_at(old(self)@.input, old(self)@.pos).0),
            final(self)@.pos == part_at(old(self)@.input, old(self)@.pos).1,
            final(self)@.eof == (old(self)@.eof || r == Err::<String, ParseError>(ParseError::Eof)),
    {
        match self.next_part_bytes() {
            Ok(bytes) => Ok(decode_lossy(bytes.as_slice())),
            Err(e) => Err(e),
        }
    }

    /// Assembles the next row: the fields up to the next line terminator or
    /// the end of the input. A blank line gives a row with no fields. `None`
    /// once the input is exhausted, and on every call after that.
    pub fn next(&mut self) -> (r: Option<Vec<String>>)
        requires
            old(self).wf(),
        ensures
            final(self).wf(),
            final(self)@.input == old(self)@.input,
            final(self)@.pos == row_at(old(self)@.input, old(self)@.pos).1,
            match row_at(old(self)@.input, old(self)@.pos).0 {
                Some(row) => r is Some && strings_view(r->Some_0@) == texts(row),
                None => r is None,
            },
            old(self)@.eof ==> r is None && final(self)@ == old(self)@,
            r is None ==> final(self)@.eof,
    {
        if self.eof {
            return None;
        }
        let ghost b = self@.input;
        let ghost p0 = self@.pos;
        let mut row: Vec<String> = Vec::new();
        let ghost m0 = part_at(b, p0).0;
        match self.next_part() {
            Ok(first) => {
                row.push(first);
            },
            Err(ParseError::Eol) => {
                assert(strings_view(row@) =~= texts(seq![]));
                return Some(row);
            },
            Err(ParseError::Eof) => {
                return None;
            },
        }
        let ghost mut fields: Seq<Seq<u8>> = seq![m0->Ok_0];
        assert(strings_view(row@) =~= texts(fields));
        assert(fields + row_tail(b, self@.pos).0 =~= seq![m0->Ok_0] + row_tail(b, self@.pos).0);
        let mut done = false;
        while !done
            invariant
                self.wf(),
                self@.input == b,
                strings_view(row@) == texts(fields),
                done ==> row_at(b, p0) == (Some(fields), self@.pos),
                !done ==> row_at(b, p0) == (
                    Some(fields + row_tail(b, self@.pos).0),
                    row_tail(b, self@.pos).1,
                ),
            decreases 2 * (b.len() - self@.pos) + if done {
                0int
            } else {
                1int
            },
        {
            let ghost p = self@.pos;
            let ghost m = part_at(b, p).0;
            proof {
                lemma_part_advances(b, p);
            }
            match self.next_part() {
                Ok(part) => {
                    let ghost f = m->Ok_0;
                    let ghost tail = row_tail(b, self@.pos).0;
                    assert(fields + (seq![f] + tail) =~= fields.push(f) + tail);
                    assert(strings_view(row@.push(part)) =~= strings_view(row@).push(part@));
                    assert(texts(fields.push(f)) =~= texts(fields).push(lossy_text(f)));
                    row.push(part);
                    proof {
                        fields = fields.push(f);
                    }
                },
                Err(_) => {
                    assert(fields + seq![] =~= fields);
                    done = true;
                },
            }
        }
        Some(row)
    }

    /// Assembles the next row only if it ends before the end of the input
    /// held so far, so that no bytes fed later can change it; otherwise
    /// returns `None` and leaves the parser as it was.
    pub fn next_complete(&mut self) -> (r: Option<Vec<String>>)
        requires
            old(self).wf(),
        ensures
            final(self).wf(),
            r is Some <==> row_at(old(self)@.input, old(self)@.pos).0 is Some && row_at(
                old(self)@.input,
                old(self)@.pos,
            ).1 < old(self)@.input.len(),
            r is Some ==> strings_view(r->Some_0@) == texts(
                row_at(old(self)@.input, old(self)@.pos).0->Some_0,
            ) && final(self)@ == (ParserState {
                input: old(self)@.input,
                pos: row_at(old(self)@.input, old(self)@.pos).1,
                eof: false,
            }),
            r is None ==> final(self)@ == old(self)@,
    {
        let pos = self.pos;
        let eof = self.eof;
        match self.next() {
            Some(row) => {
                if self.pos < self.input.len() {
                    Some(row)
                } else {
                    self.pos = pos;
                    self.eof = eof;
                    None
                }
            },
            None => {
                self.pos = pos;
                self.eof = eof;
                None
            },
        }
    }
}

} // verus!
