//! Locality of the tokenizer: what it finds at a position depends only on the
//! bytes from there up to where it stops.
//!
//! This is what lets a parser read a stream in pieces: it holds the bytes
//! that have arrived (`Parser::feed`), hands out each row that ends before
//! the end of what it holds (`Parser::next_complete`), drops what it consumed
//! (`Parser::compact`), and once the stream has ended hands out the rest
//! (`Parser::next`). The rows are then those of the whole stream, in order.
use vstd::prelude::*;

use crate::model::{
    lemma_part_advances, lemma_row_advances, lemma_row_tail_bounds, part_at,
    row_at, row_tail, rows_from, scan, is_terminator, COMMA, QUOTE,
};

verus! {

/// The bytes of `b1` from `p` on appear in `b2` from `p + d` on. The second
/// input may hold more bytes after them.
pub open spec fn agrees_from(b1: Seq<u8>, b2: Seq<u8>, d: int, p: int) -> bool {
    &&& 0 <= p
    &&& 0 <= p + d
    &&& b1.len() + d <= b2.len()
    &&& forall|i: int| p <= i < b1.len() ==> b1[i] == b2[i + d]
}

/// Whether a computation that stopped at `end` in `b1` is settled in `b2`: it
/// stopped before the end of `b1`, or `b2` holds nothing more.
pub open spec fn settled(b1: Seq<u8>, b2: Seq<u8>, d: int, end: int) -> bool {
    end < b1.len() || b1.len() + d == b2.len()
}

proof fn lemma_scan_agrees(b1: Seq<u8>, b2: Seq<u8>, d: int, p: int, quoted: bool)
    requires
        agrees_from(b1, b2, d, p),
        settled(b1, b2, d, scan(b1, p, quoted).1),
    ensures
        scan(b2, p + d, quoted) == (scan(b1, p, quoted).0, scan(b1, p, quoted).1 + d),
    decreases b1.len() - p,
{
    if p < b1.len() {
        assert(b1[p] == b2[p + d]);
        if quoted && b1[p] == QUOTE {
            lemma_scan_agrees(b1, b2, d, p + 1, false);
        } else if quoted {
            lemma_scan_agrees(b1, b2, d, p + 1, true);
        } else if b1[p] != COMMA && !is_terminator(b1[p]) {
            lemma_scan_agrees(b1, b2, d, p + 1, false);
        }
    }
}

proof fn lemma_part_agrees(b1: Seq<u8>, b2: Seq<u8>, d: int, p: int)
    requires
        agrees_from(b1, b2, d, p),
        settled(b1, b2, d, part_at(b1, p).1),
    ensures
        part_at(b2, p + d) == (part_at(b1, p).0, part_at(b1, p).1 + d),
{
    if p < b1.len() {
        assert(b1[p] == b2[p + d]);
        if is_terminator(b1[p]) {
            if p + 1 < b1.len() {
                assert(b1[p + 1] == b2[p + 1 + d]);
            }
        } else if b1[p] == QUOTE {
            lemma_scan_agrees(b1, b2, d, p + 1, true);
        } else {
            lemma_scan_agrees(b1, b2, d, p, false);
        }
    }
}

proof fn lemma_row_tail_agrees(b1: Seq<u8>, b2: Seq<u8>, d: int, p: int)
    requires
        agrees_from(b1, b2, d, p),
        p <= b1.len(),
        settled(b1, b2, d, row_tail(b1, p).1),
    ensures
        row_tail(b2, p + d) == (row_tail(b1, p).0, row_tail(b1, p).1 + d),
    decreases b1.len() - p,
{
    lemma_part_advances(b1, p);
    let (r, q) = part_at(b1, p);
    if r is Ok && p < q {
        lemma_row_tail_bounds(b1, q);
    }
    lemma_part_agrees(b1, b2, d, p);
    if r is Ok && p < q {
        lemma_row_tail_agrees(b1, b2, d, q);
    }
}

/// A row found in `b1` is found in `b2` too, where the bytes agree and the
/// row is settled.
pub proof fn lemma_row_agrees(b1: Seq<u8>, b2: Seq<u8>, d: int, p: int)
    requires
        agrees_from(b1, b2, d, p),
        p <= b1.len(),
        settled(b1, b2, d, row_at(b1, p).1),
    ensures
        row_at(b2, p + d) == (row_at(b1, p).0, row_at(b1, p).1 + d),
{
    lemma_part_advances(b1, p);
    let (r, q) = part_at(b1, p);
    if r is Ok {
        lemma_row_tail_bounds(b1, q);
        lemma_row_tail_agrees(b1, b2, d, q);
    }
    lemma_part_agrees(b1, b2, d, p);
}

/// Where `b2` ends with the bytes of `b1` from `p` on, the rows from there on
/// are the same.
pub proof fn lemma_rows_agree(b1: Seq<u8>, b2: Seq<u8>, d: int, p: int)
    requires
        agrees_from(b1, b2, d, p),
        p <= b1.len(),
        b1.len() + d == b2.len(),
    ensures
        rows_from(b2, p + d) == rows_from(b1, p),
    decreases b1.len() - p,
{
    lemma_row_advances(b1, p);
    lemma_row_agrees(b1, b2, d, p);
    let (r, q) = row_at(b1, p);
    if r is Some {
        lemma_rows_agree(b1, b2, d, q);
    }
}

/// A row that ends before the end of the bytes held so far is the row of the
/// whole stream at that place: bytes that arrive later do not change it.
/// `held` is the part of `stream` that starts at `offset`.
pub proof fn lemma_settled_row_in_stream(stream: Seq<u8>, offset: int, held: Seq<u8>, p: int)
    requires
        0 <= offset,
        0 <= p <= held.len(),
        offset + held.len() <= stream.len(),
        stream.subrange(offset, offset + held.len()) == held,
        row_at(held, p).1 < held.len(),
    ensures
        row_at(stream, offset + p) == (row_at(held, p).0, row_at(held, p).1 + offset),
{
    assert forall|i: int| p <= i < held.len() implies held[i] == stream[i + offset] by {
        assert(stream.subrange(offset, offset + held.len())[i] == stream[offset + i]);
    }
    lemma_row_agrees(held, stream, offset, p);
}

/// Once the stream has ended and all of its rest is held, the rows left in
/// what is held are the rows left in the stream.
pub proof fn lemma_rest_of_stream(stream: Seq<u8>, offset: int, held: Seq<u8>, p: int)
    requires
        0 <= offset <= stream.len(),
        0 <= p <= held.len(),
        held == stream.subrange(offset, stream.len() as int),
    ensures
        rows_from(stream, offset + p) == rows_from(held, p),
{
    assert forall|i: int| p <= i < held.len() implies held[i] == stream[i + offset] by {
        assert(stream.subrange(offset, stream.len() as int)[i] == stream[offset + i]);
    }
    lemma_rows_agree(held, stream, offset, p);
}

} // verus!
