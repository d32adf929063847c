//! Properties of the row sequence that relate several inputs or calls.
use vstd::prelude::*;

use crate::model::{
    is_structural, lemma_part_advances, lemma_row_at_tail, part_at, row_at, row_tail, rows_from,
    rows_of, scan, ParseError, COMMA, CR, LF, QUOTE,
};

verus! {

/// A field with no comma, quote or line terminator in it.
pub open spec fn is_plain_field(f: Seq<u8>) -> bool {
    forall|i: int| 0 <= i < f.len() ==> !is_structural(#[trigger] f[i])
}

/// A field with no double quote in it.
pub open spec fn has_no_quote(f: Seq<u8>) -> bool {
    forall|i: int| 0 <= i < f.len() ==> #[trigger] f[i] != QUOTE
}

/// A row that reads back as itself once written. With quoting, any row whose
/// fields hold no double quote. Without, a row of plain fields that has no
/// fields at all (a blank line) or whose last field is not empty.
pub open spec fn is_writable_row(row: Seq<Seq<u8>>, quoting: bool) -> bool {
    if quoting {
        forall|j: int| 0 <= j < row.len() ==> has_no_quote(#[trigger] row[j])
    } else {
        &&& forall|j: int| 0 <= j < row.len() ==> is_plain_field(#[trigger] row[j])
        &&& row.len() > 0 ==> row.last().len() > 0
    }
}

/// A field as written: with quoting, a field that is empty or holds a comma
/// or a line terminator goes between double quotes; any other field is
/// written as it is.
pub open spec fn field_text(f: Seq<u8>, quoting: bool) -> Seq<u8> {
    if quoting && !(f.len() > 0 && is_plain_field(f)) {
        seq![QUOTE] + f + seq![QUOTE]
    } else {
        f
    }
}

/// A line terminator: carriage return and line feed, or a line feed alone.
pub open spec fn line_end(crlf: bool) -> Seq<u8> {
    if crlf {
        seq![CR, LF]
    } else {
        seq![LF]
    }
}

/// The fields of a row as written, joined by commas.
pub open spec fn join_fields(row: Seq<Seq<u8>>, quoting: bool) -> Seq<u8>
    decreases row.len(),
{
    if row.len() == 0 {
        seq![]
    } else if row.len() == 1 {
        field_text(row[0], quoting)
    } else {
        field_text(row[0], quoting) + seq![COMMA] + join_fields(row.drop_first(), quoting)
    }
}

/// Rows written out one per line, each ended by a line terminator.
pub open spec fn encode_rows(rows: Seq<Seq<Seq<u8>>>, quoting: bool, crlf: bool) -> Seq<u8>
    decreases rows.len(),
{
    if rows.len() == 0 {
        seq![]
    } else {
        join_fields(rows[0], quoting) + line_end(crlf) + encode_rows(rows.drop_first(), quoting, crlf)
    }
}

/// Splitting lines on commas: an input made of plain rows, each written as
/// its unquoted fields joined by commas and ended by a line terminator of
/// either kind, parses to exactly those rows.
pub proof fn lemma_plain_rows_round_trip(rows: Seq<Seq<Seq<u8>>>, crlf: bool)
    requires
        forall|i: int| 0 <= i < rows.len() ==> is_writable_row(#[trigger] rows[i], false),
    ensures
        rows_of(encode_rows(rows, false, crlf)) == rows,
{
    lemma_round_trip(rows, false, crlf);
}

/// Rows whose fields hold no double quote, written with quotes around each
/// field that needs them, parse to exactly those rows.
pub proof fn lemma_quoted_rows_round_trip(rows: Seq<Seq<Seq<u8>>>, crlf: bool)
    requires
        forall|i: int| 0 <= i < rows.len() ==> is_writable_row(#[trigger] rows[i], true),
    ensures
        rows_of(encode_rows(rows, true, crlf)) == rows,
{
    lemma_round_trip(rows, true, crlf);
}

/// Line endings do not matter: rows written with carriage return and line
/// feed parse to the same rows as when written with line feeds alone.
pub proof fn lemma_crlf_same_rows(rows: Seq<Seq<Seq<u8>>>, quoting: bool)
    requires
        forall|i: int| 0 <= i < rows.len() ==> is_writable_row(#[trigger] rows[i], quoting),
    ensures
        rows_of(encode_rows(rows, quoting, true)) == rows_of(encode_rows(rows, quoting, false)),
{
    lemma_round_trip(rows, quoting, true);
    lemma_round_trip(rows, quoting, false);
}

/// Writing rows and parsing them gives them back.
proof fn lemma_round_trip(rows: Seq<Seq<Seq<u8>>>, quoting: bool, crlf: bool)
    requires
        forall|i: int| 0 <= i < rows.len() ==> is_writable_row(#[trigger] rows[i], quoting),
    ensures
        rows_of(encode_rows(rows, quoting, crlf)) == rows,
{
    let b = encode_rows(rows, quoting, crlf);
    assert(b.subrange(0, b.len() as int) =~= b);
    lemma_rows_at(b, 0, rows, quoting, crlf);
}

/// Exhaustion is final: where no row is left, the next request again finds
/// none, and the position stays where it was.
pub proof fn lemma_exhausted_stays_exhausted(b: Seq<u8>, p: int)
    requires
        0 <= p <= b.len(),
        row_at(b, p).0 is None,
    ensures
        row_at(b, row_at(b, p).1) == row_at(b, p),
        rows_from(b, p) == Seq::<Seq<Seq<u8>>>::empty(),
{
    crate::model::lemma_row_advances(b, p);
}

/// Cutting a window of the input in two.
proof fn lemma_split(b: Seq<u8>, p: int, e: int, x: Seq<u8>, y: Seq<u8>)
    requires
        0 <= p <= e <= b.len(),
        b.subrange(p, e) == x + y,
    ensures
        p + x.len() + y.len() == e,
        b.subrange(p, p + x.len()) == x,
        b.subrange(p + x.len(), e) == y,
{
    assert(b.subrange(p, e).len() == x.len() + y.len());
    assert forall|i: int| 0 <= i < x.len() implies b.subrange(p, p + x.len())[i] == x[i] by {
        assert(b.subrange(p, e)[i] == (x + y)[i]);
    }
    assert forall|i: int| 0 <= i < y.len() implies b.subrange(p + x.len(), e)[i] == y[i] by {
        assert(b.subrange(p, e)[x.len() + i] == (x + y)[x.len() + i]);
        assert((x + y)[x.len() + i] == y[i]);
        assert(b.subrange(p, e)[x.len() + i] == b[p + x.len() + i]);
    }
    assert(b.subrange(p, p + x.len()) =~= x);
    assert(b.subrange(p + x.len(), e) =~= y);
}

/// A plain field followed by a comma or a line terminator scans as itself.
proof fn lemma_scan_plain(b: Seq<u8>, p: int, f: Seq<u8>)
    requires
        0 <= p,
        p + f.len() < b.len(),
        b.subrange(p, p + f.len()) == f,
        is_plain_field(f),
        b[p + f.len()] == COMMA || b[p + f.len()] == LF || b[p + f.len()] == CR,
    ensures
        scan(b, p, false) == (f, if b[p + f.len()] == COMMA {
            p + f.len() + 1
        } else {
            p + f.len()
        }),
    decreases f.len(),
{
    if f.len() > 0 {
        assert(b.subrange(p, p + f.len())[0] == b[p]);
        let rest = f.drop_first();
        assert(b.subrange(p + 1, p + 1 + rest.len()) =~= rest) by {
            assert forall|i: int| 0 <= i < rest.len() implies b.subrange(
                p + 1,
                p + 1 + rest.len(),
            )[i] == rest[i] by {
                assert(b.subrange(p, p + f.len())[i + 1] == f[i + 1]);
            }
        }
        assert(is_plain_field(rest)) by {
            assert forall|i: int| 0 <= i < rest.len() implies !is_structural(#[trigger] rest[i]) by {
                assert(!is_structural(f[i + 1]));
            }
        }
        assert(!is_structural(f[0]));
        lemma_scan_plain(b, p + 1, rest);
        assert(seq![f[0]] + rest =~= f);
    }
}

/// A field between double quotes, with no double quote inside, scans as its
/// text and goes on unquoted after the closing quote.
proof fn lemma_scan_quoted(b: Seq<u8>, p: int, f: Seq<u8>)
    requires
        0 <= p,
        p + f.len() < b.len(),
        b.subrange(p, p + f.len()) == f,
        b[p + f.len()] == QUOTE,
        has_no_quote(f),
    ensures
        scan(b, p, true) == (
            f + scan(b, p + f.len() + 1, false).0,
            scan(b, p + f.len() + 1, false).1,
        ),
    decreases f.len(),
{
    let after = scan(b, p + f.len() + 1, false);
    if f.len() == 0 {
        assert(f + after.0 =~= after.0);
    } else {
        assert(b.subrange(p, p + f.len())[0] == b[p]);
        assert(f[0] != QUOTE);
        let rest = f.drop_first();
        assert(b.subrange(p + 1, p + 1 + rest.len()) =~= rest) by {
            assert forall|i: int| 0 <= i < rest.len() implies b.subrange(
                p + 1,
                p + 1 + rest.len(),
            )[i] == rest[i] by {
                assert(b.subrange(p, p + f.len())[i + 1] == f[i + 1]);
            }
        }
        assert(has_no_quote(rest)) by {
            assert forall|i: int| 0 <= i < rest.len() implies #[trigger] rest[i] != QUOTE by {
                assert(f[i + 1] != QUOTE);
            }
        }
        lemma_scan_quoted(b, p + 1, rest);
        assert(seq![f[0]] + (rest + after.0) =~= f + after.0);
    }
}

/// A field as written, followed by a comma or a line terminator, is the field
/// that the tokenizer finds; the comma is consumed with it.
proof fn lemma_part_written(b: Seq<u8>, p: int, f: Seq<u8>, quoting: bool)
    requires
        0 <= p,
        p + field_text(f, quoting).len() < b.len(),
        b.subrange(p, p + field_text(f, quoting).len()) == field_text(f, quoting),
        ({
            let c = b[p + field_text(f, quoting).len()];
            c == COMMA || c == LF || c == CR
        }),
        quoting ==> has_no_quote(f),
        !quoting ==> is_plain_field(f),
        !quoting && f.len() == 0 ==> b[p + f.len()] == COMMA,
    ensures
        part_at(b, p) == (
            Ok::<Seq<u8>, ParseError>(f),
            if b[p + field_text(f, quoting).len()] == COMMA {
                p + field_text(f, quoting).len() + 1
            } else {
                p + field_text(f, quoting).len()
            },
        ),
{
    let t = field_text(f, quoting);
    if t.len() > 0 {
        assert(b.subrange(p, p + t.len())[0] == b[p]);
    }
    if quoting && !(f.len() > 0 && is_plain_field(f)) {
        assert(b[p] == QUOTE);
        lemma_split(b, p, p + t.len(), seq![QUOTE] + f, seq![QUOTE]);
        lemma_split(b, p, p + f.len() + 1, seq![QUOTE], f);
        assert(b.subrange(p + f.len() + 1, p + t.len())[0] == b[p + f.len() + 1]);
        lemma_scan_quoted(b, p + 1, f);
        assert(f + seq![] =~= f);
    } else {
        if f.len() > 0 {
            assert(!is_structural(f[0]));
        }
        lemma_scan_plain(b, p, f);
    }
}

/// The fields `fs` of a row as written, joined by commas and ended by a line
/// terminator, read back as themselves to the end of the row.
proof fn lemma_tail_at(b: Seq<u8>, p: int, fs: Seq<Seq<u8>>, quoting: bool, crlf: bool)
    requires
        0 <= p,
        p + join_fields(fs, quoting).len() + line_end(crlf).len() <= b.len(),
        b.subrange(p, p + join_fields(fs, quoting).len() + line_end(crlf).len()) == join_fields(
            fs,
            quoting,
        ) + line_end(crlf),
        is_writable_row(fs, quoting),
    ensures
        row_tail(b, p) == (fs, p + join_fields(fs, quoting).len() + line_end(crlf).len()),
    decreases fs.len(),
{
    let t = line_end(crlf);
    let j = join_fields(fs, quoting);
    let e = p + j.len() + t.len();
    lemma_split(b, p, e, j, t);
    assert(b.subrange(p + j.len(), e)[0] == b[p + j.len()]);
    if crlf {
        assert(b.subrange(p + j.len(), e)[1] == b[p + j.len() + 1]);
    }
    lemma_part_advances(b, p);
    if fs.len() == 0 {
        assert(part_at(b, p).1 == e);
    } else {
        let f = fs[0];
        let ft = field_text(f, quoting);
        let rest = fs.drop_first();
        if quoting {
            assert(has_no_quote(fs[0]));
        } else {
            assert(is_plain_field(fs[0]));
        }
        assert(is_writable_row(rest, quoting)) by {
            if quoting {
                assert forall|k: int| 0 <= k < rest.len() implies has_no_quote(#[trigger] rest[k]) by {
                    assert(has_no_quote(fs[k + 1]));
                }
            } else {
                assert forall|k: int| 0 <= k < rest.len() implies is_plain_field(#[trigger] rest[k]) by {
                    assert(is_plain_field(fs[k + 1]));
                }
            }
        }
        if fs.len() == 1 {
            assert(j == ft);
            lemma_part_written(b, p, f, quoting);
            let q = p + ft.len();
            assert(join_fields(rest, quoting) =~= Seq::<u8>::empty());
            assert(b.subrange(q, q + join_fields(rest, quoting).len() + t.len()) == join_fields(rest, quoting) + t) by {
                assert(join_fields(rest, quoting) + t =~= t);
            }
            lemma_tail_at(b, q, rest, quoting, crlf);
        } else {
            let jr = join_fields(rest, quoting);
            assert(j == ft + seq![COMMA] + jr);
            assert(j + t =~= (ft + seq![COMMA]) + (jr + t));
            lemma_split(b, p, e, ft + seq![COMMA], jr + t);
            lemma_split(b, p, p + ft.len() + 1, ft, seq![COMMA]);
            assert(b.subrange(p + ft.len(), p + ft.len() + 1)[0] == b[p + ft.len()]);
            lemma_part_written(b, p, f, quoting);
            lemma_tail_at(b, p + ft.len() + 1, rest, quoting, crlf);
        }
        assert(seq![f] + rest =~= fs);
    }
}

/// Rows as written from `p` to the end of the input are the rows from `p`.
proof fn lemma_rows_at(b: Seq<u8>, p: int, rows: Seq<Seq<Seq<u8>>>, quoting: bool, crlf: bool)
    requires
        0 <= p <= b.len(),
        b.subrange(p, b.len() as int) == encode_rows(rows, quoting, crlf),
        forall|i: int| 0 <= i < rows.len() ==> is_writable_row(#[trigger] rows[i], quoting),
    ensures
        rows_from(b, p) == rows,
    decreases rows.len(),
{
    if rows.len() == 0 {
        assert(b.subrange(p, b.len() as int).len() == 0);
        assert(rows_from(b, p) =~= rows);
    } else {
        let first = join_fields(rows[0], quoting) + line_end(crlf);
        let rest = rows.drop_first();
        lemma_split(b, p, b.len() as int, first, encode_rows(rest, quoting, crlf));
        assert(is_writable_row(rows[0], quoting));
        lemma_tail_at(b, p, rows[0], quoting, crlf);
        lemma_row_at_tail(b, p);
        let q = p + first.len();
        assert forall|i: int| 0 <= i < rest.len() implies is_writable_row(#[trigger] rest[i], quoting) by {
            assert(is_writable_row(rows[i + 1], quoting));
        }
        lemma_rows_at(b, q, rest, quoting, crlf);
        assert(seq![rows[0]] + rest =~= rows);
    }
}

} // verus!
