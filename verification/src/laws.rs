//! The laws relating the serializer to the parser.
//!
//! The central result is `lemma_document_round_trip`: a serialized document
//! parses back to itself, provided every row either is empty or ends in a
//! non-empty field (an empty trailing field is the one known non-bijective
//! edge: the tokenizer drops it), and every content row has the header's
//! width (parsing enforces that width).  `lemma_quote_doubling` is the
//! quote-escaping law for a single field.

use vstd::prelude::*;
use crate::charclass::is_space_char;
use crate::doc_codec::{encode_doc, encode_rows, parse_text, rows_from_lines, split_lines, split_step, ParseFailure};
use crate::row_codec::{double_quotes, encode_field, encode_row, needs_quoting, tokenize, tokenize_step};

verus! {

/// A row the tokenizer maps back to itself from its encoded line: either no
/// fields at all, or a non-empty last field (an empty trailing field would
/// be dropped).
pub open spec fn row_round_trippable(row: Seq<Seq<char>>) -> bool {
    row.len() > 0 ==> row.last().len() > 0
}

/// A document the parser maps back to itself from its serialized text:
/// every row is round-trippable and every content row has the header's
/// width.
pub open spec fn doc_round_trippable(header: Seq<Seq<char>>, rows: Seq<Seq<Seq<char>>>) -> bool {
    &&& row_round_trippable(header)
    &&& forall|i: int|
        0 <= i < rows.len() ==> (#[trigger] rows[i]).len() == header.len() && row_round_trippable(
            rows[i],
        )
}

/// The serialized lines of the content rows, one per row.
pub open spec fn encoded_lines(rows: Seq<Seq<Seq<char>>>) -> Seq<Seq<char>> {
    Seq::new(rows.len(), |i: int| encode_row(rows[i]))
}

/// The number of quote characters in a field.
pub open spec fn quote_count(f: Seq<char>) -> nat
    decreases f.len(),
{
    if f.len() == 0 {
        0
    } else {
        (if f[0] == '"' {
            1nat
        } else {
            0nat
        }) + quote_count(f.skip(1))
    }
}

/// A field without special characters is consumed verbatim by the tokenizer
/// in the un-quoted state.
proof fn lemma_tok_plain(f: Seq<char>, rest: Seq<char>, cell: Seq<char>, cells: Seq<Seq<char>>)
    requires
        !needs_quoting(f),
    ensures
        tokenize_step(f + rest, false, cell, cells) == tokenize_step(rest, false, cell + f, cells),
    decreases f.len(),
{
    if f.len() == 0 {
        assert(f + rest =~= rest);
        assert(cell + f =~= cell);
    } else {
        assert(!(f[0] == ',' || f[0] == '"' || is_space_char(f[0])));
        assert((f + rest)[0] == f[0]);
        assert((f + rest).skip(1) =~= f.skip(1) + rest);
        assert forall|i: int| 0 <= i < f.skip(1).len() implies !(f.skip(1)[i] == ','
            || f.skip(1)[i] == '"' || is_space_char(#[trigger] f.skip(1)[i])) by {
            assert(f.skip(1)[i] == f[i + 1]);
            assert(!(f[i + 1] == ',' || f[i + 1] == '"' || is_space_char(f[i + 1])));
        }
        assert(!needs_quoting(f.skip(1)));
        lemma_tok_plain(f.skip(1), rest, cell.push(f[0]), cells);
        assert(cell.push(f[0]) + f.skip(1) =~= cell + f);
    }
}

/// A quote-doubled field is consumed by the tokenizer in the quoted state,
/// appending the original field to the current cell.
proof fn lemma_tok_doubled(f: Seq<char>, rest: Seq<char>, cell: Seq<char>, cells: Seq<Seq<char>>)
    ensures
        tokenize_step(double_quotes(f) + rest, true, cell, cells) == tokenize_step(
            rest,
            true,
            cell + f,
            cells,
        ),
    decreases f.len(),
{
    if f.len() == 0 {
        assert(double_quotes(f) + rest =~= rest);
        assert(cell + f =~= cell);
    } else if f[0] == '"' {
        let s = double_quotes(f) + rest;
        assert(double_quotes(f) == seq!['"', '"'] + double_quotes(f.skip(1)));
        assert(s[0] == '"' && s[1] == '"' && s.len() >= 2);
        assert(s.skip(2) =~= double_quotes(f.skip(1)) + rest);
        lemma_tok_doubled(f.skip(1), rest, cell.push('"'), cells);
        assert(cell.push('"') + f.skip(1) =~= cell + f);
    } else {
        let s = double_quotes(f) + rest;
        assert(double_quotes(f) == seq![f[0]] + double_quotes(f.skip(1)));
        assert(s[0] == f[0]);
        assert(s.skip(1) =~= double_quotes(f.skip(1)) + rest);
        lemma_tok_doubled(f.skip(1), rest, cell.push(f[0]), cells);
        assert(cell.push(f[0]) + f.skip(1) =~= cell + f);
    }
}

/// An encoded field followed by anything that does not begin with a quote is
/// consumed by the tokenizer as exactly that field.
proof fn lemma_tok_field(f: Seq<char>, rest: Seq<char>, cells: Seq<Seq<char>>)
    requires
        rest.len() == 0 || rest[0] != '"',
    ensures
        tokenize_step(encode_field(f) + rest, false, Seq::empty(), cells) == tokenize_step(
            rest,
            false,
            f,
            cells,
        ),
{
    if !needs_quoting(f) {
        lemma_tok_plain(f, rest, Seq::empty(), cells);
        assert(Seq::empty() + f =~= f);
    } else {
        let s = encode_field(f) + rest;
        assert(s[0] == '"');
        assert(s.skip(1) =~= double_quotes(f) + (seq!['"'] + rest));
        lemma_tok_doubled(f, seq!['"'] + rest, Seq::empty(), cells);
        assert(Seq::empty() + f =~= f);
        let t = seq!['"'] + rest;
        assert(t[0] == '"');
        assert(t.len() >= 2 ==> t[1] == rest[0]);
        assert(!(t.len() >= 2 && t[1] == '"'));
        assert(t.skip(1) =~= rest);
    }
}

/// An encoded row tokenizes back to exactly its fields, appended to the
/// fields already produced, provided the last field is non-empty.
proof fn lemma_tok_row(r: Seq<Seq<char>>, cells: Seq<Seq<char>>)
    requires
        row_round_trippable(r),
    ensures
        tokenize_step(encode_row(r), false, Seq::empty(), cells) == Some(cells + r),
    decreases r.len(),
{
    if r.len() == 0 {
        assert(encode_row(r).len() == 0);
        assert(cells + r =~= cells);
    } else if r.len() == 1 {
        assert(encode_row(r) =~= encode_field(r[0]) + Seq::<char>::empty());
        lemma_tok_field(r[0], Seq::empty(), cells);
        assert(r[0].len() > 0);
        assert(cells + r =~= cells.push(r[0]));
    } else {
        let rest = seq![','] + encode_row(r.skip(1));
        assert(encode_row(r) + Seq::<char>::empty() =~= encode_field(r[0]) + rest);
        assert(encode_row(r) =~= encode_field(r[0]) + rest);
        lemma_tok_field(r[0], rest, cells);
        assert(rest[0] == ',');
        assert(rest.skip(1) =~= encode_row(r.skip(1)));
        assert(r.skip(1).last() == r.last());
        lemma_tok_row(r.skip(1), cells.push(r[0]));
        assert(cells.push(r[0]) + r.skip(1) =~= cells + r);
    }
}

/// An encoded row tokenizes back to exactly its fields, provided the last
/// field is non-empty.
pub proof fn lemma_tokenize_encode_row(r: Seq<Seq<char>>)
    requires
        row_round_trippable(r),
    ensures
        tokenize(encode_row(r)) == Some(r),
{
    lemma_tok_row(r, Seq::empty());
    assert(Seq::empty() + r =~= r);
}

/// A field without special characters passes through the line splitter
/// verbatim in the un-quoted state.
proof fn lemma_split_plain(f: Seq<char>, rest: Seq<char>, buf: Seq<char>, lines: Seq<Seq<char>>)
    requires
        !needs_quoting(f),
    ensures
        split_step(f + rest, false, buf, lines) == split_step(rest, false, buf + f, lines),
    decreases f.len(),
{
    if f.len() == 0 {
        assert(f + rest =~= rest);
        assert(buf + f =~= buf);
    } else {
        assert(!(f[0] == ',' || f[0] == '"' || is_space_char(f[0])));
        assert(f[0] != '\n');
        assert((f + rest)[0] == f[0]);
        assert((f + rest).skip(1) =~= f.skip(1) + rest);
        assert forall|i: int| 0 <= i < f.skip(1).len() implies !(f.skip(1)[i] == ','
            || f.skip(1)[i] == '"' || is_space_char(#[trigger] f.skip(1)[i])) by {
            assert(f.skip(1)[i] == f[i + 1]);
            assert(!(f[i + 1] == ',' || f[i + 1] == '"' || is_space_char(f[i + 1])));
        }
        assert(!needs_quoting(f.skip(1)));
        lemma_split_plain(f.skip(1), rest, buf.push(f[0]), lines);
        assert(buf.push(f[0]) + f.skip(1) =~= buf + f);
    }
}

/// A quote-doubled field passes through the line splitter verbatim in the
/// quoted state; in particular none of its newlines ends a line.
proof fn lemma_split_doubled(f: Seq<char>, rest: Seq<char>, buf: Seq<char>, lines: Seq<Seq<char>>)
    ensures
        split_step(double_quotes(f) + rest, true, buf, lines) == split_step(
            rest,
            true,
            buf + double_quotes(f),
            lines,
        ),
    decreases f.len(),
{
    if f.len() == 0 {
        assert(double_quotes(f) + rest =~= rest);
        assert(buf + double_quotes(f) =~= buf);
    } else if f[0] == '"' {
        let s = double_quotes(f) + rest;
        assert(double_quotes(f) == seq!['"', '"'] + double_quotes(f.skip(1)));
        assert(s[0] == '"' && s[1] == '"' && s.len() >= 2);
        assert(s.skip(2) =~= double_quotes(f.skip(1)) + rest);
        lemma_split_doubled(f.skip(1), rest, buf.push('"').push('"'), lines);
        assert(buf.push('"').push('"') + double_quotes(f.skip(1)) =~= buf + double_quotes(f));
    } else {
        let s = double_quotes(f) + rest;
        assert(double_quotes(f) == seq![f[0]] + double_quotes(f.skip(1)));
        assert(s[0] == f[0]);
        assert(s.skip(1) =~= double_quotes(f.skip(1)) + rest);
        lemma_split_doubled(f.skip(1), rest, buf.push(f[0]), lines);
        assert(buf.push(f[0]) + double_quotes(f.skip(1)) =~= buf + double_quotes(f));
    }
}

/// An encoded field followed by anything that does not begin with a quote
/// passes through the line splitter verbatim in the un-quoted state.
proof fn lemma_split_field(f: Seq<char>, rest: Seq<char>, buf: Seq<char>, lines: Seq<Seq<char>>)
    requires
        rest.len() == 0 || rest[0] != '"',
    ensures
        split_step(encode_field(f) + rest, false, buf, lines) == split_step(
            rest,
            false,
            buf + encode_field(f),
            lines,
        ),
{
    if !needs_quoting(f) {
        lemma_split_plain(f, rest, buf, lines);
    } else {
        let s = encode_field(f) + rest;
        assert(s[0] == '"');
        assert(s.skip(1) =~= double_quotes(f) + (seq!['"'] + rest));
        lemma_split_doubled(f, seq!['"'] + rest, buf.push('"'), lines);
        let t = seq!['"'] + rest;
        assert(t[0] == '"');
        assert(t.len() >= 2 ==> t[1] == rest[0]);
        assert(!(t.len() >= 2 && t[1] == '"'));
        assert(t.skip(1) =~= rest);
        assert((buf.push('"') + double_quotes(f)).push('"') =~= buf + encode_field(f));
    }
}

/// An encoded row followed by anything that does not begin with a quote
/// passes through the line splitter verbatim in the un-quoted state.
proof fn lemma_split_row(r: Seq<Seq<char>>, rest: Seq<char>, buf: Seq<char>, lines: Seq<Seq<char>>)
    requires
        rest.len() == 0 || rest[0] != '"',
    ensures
        split_step(encode_row(r) + rest, false, buf, lines) == split_step(
            rest,
            false,
            buf + encode_row(r),
            lines,
        ),
    decreases r.len(),
{
    if r.len() == 0 {
        assert(encode_row(r) + rest =~= rest);
        assert(buf + encode_row(r) =~= buf);
    } else if r.len() == 1 {
        assert(encode_row(r) + rest =~= encode_field(r[0]) + rest);
        lemma_split_field(r[0], rest, buf, lines);
        assert(buf + encode_field(r[0]) =~= buf + encode_row(r));
    } else {
        let mid = seq![','] + encode_row(r.skip(1)) + rest;
        assert(encode_row(r) + rest =~= encode_field(r[0]) + mid);
        lemma_split_field(r[0], mid, buf, lines);
        assert(mid[0] == ',');
        assert(mid.skip(1) =~= encode_row(r.skip(1)) + rest);
        lemma_split_row(r.skip(1), rest, (buf + encode_field(r[0])).push(','), lines);
        assert((buf + encode_field(r[0])).push(',') + encode_row(r.skip(1)) =~= buf + encode_row(
            r,
        ));
    }
}

/// The serialized content rows split into exactly one line per row.
proof fn lemma_split_encode_rows(rows: Seq<Seq<Seq<char>>>, lines: Seq<Seq<char>>)
    ensures
        split_step(encode_rows(rows), false, Seq::empty(), lines) == lines + encoded_lines(rows),
    decreases rows.len(),
{
    if rows.len() == 0 {
        assert(encode_rows(rows).len() == 0);
        assert(lines + encoded_lines(rows) =~= lines);
    } else {
        let tail = seq!['\n'] + encode_rows(rows.skip(1));
        assert(encode_rows(rows) =~= encode_row(rows[0]) + tail);
        lemma_split_row(rows[0], tail, Seq::empty(), lines);
        assert(tail[0] == '\n');
        assert(tail.skip(1) =~= encode_rows(rows.skip(1)));
        assert(Seq::empty() + encode_row(rows[0]) =~= encode_row(rows[0]));
        lemma_split_encode_rows(rows.skip(1), lines.push(encode_row(rows[0])));
        assert(lines.push(encode_row(rows[0])) + encoded_lines(rows.skip(1)) =~= lines
            + encoded_lines(rows));
    }
}

/// The serialized document splits into the header line followed by one line
/// per content row.
pub proof fn lemma_split_encode_doc(header: Seq<Seq<char>>, rows: Seq<Seq<Seq<char>>>)
    ensures
        split_lines(encode_doc(header, rows)) == seq![encode_row(header)] + encoded_lines(rows),
{
    let tail = seq!['\n'] + encode_rows(rows);
    assert(encode_doc(header, rows) =~= encode_row(header) + tail);
    lemma_split_row(header, tail, Seq::empty(), Seq::empty());
    assert(tail[0] == '\n');
    assert(tail.skip(1) =~= encode_rows(rows));
    assert(Seq::empty() + encode_row(header) =~= encode_row(header));
    lemma_split_encode_rows(rows, seq![encode_row(header)]);
}

/// Parsing the encoded lines of round-trippable rows of the right width
/// gives back exactly those rows.
proof fn lemma_rows_from_encoded_lines(rows: Seq<Seq<Seq<char>>>, width: nat)
    requires
        forall|i: int|
            0 <= i < rows.len() ==> (#[trigger] rows[i]).len() == width && row_round_trippable(
                rows[i],
            ),
    ensures
        rows_from_lines(encoded_lines(rows), width) == Ok::<_, ParseFailure>(rows),
    decreases rows.len(),
{
    if rows.len() == 0 {
        assert(encoded_lines(rows).len() == 0);
        assert(rows =~= Seq::<Seq<Seq<char>>>::empty());
    } else {
        assert(encoded_lines(rows)[0] == encode_row(rows[0]));
        lemma_tokenize_encode_row(rows[0]);
        assert(encoded_lines(rows).skip(1) =~= encoded_lines(rows.skip(1)));
        assert forall|i: int| 0 <= i < rows.skip(1).len() implies (#[trigger] rows.skip(
            1,
        )[i]).len() == width && row_round_trippable(rows.skip(1)[i]) by {
            assert(rows.skip(1)[i] == rows[i + 1]);
        }
        lemma_rows_from_encoded_lines(rows.skip(1), width);
        assert(seq![rows[0]] + rows.skip(1) =~= rows);
    }
}

/// The round-trip law: serializing a document and parsing the result gives
/// back the same document, for any document whose content rows have the
/// header's width and whose rows do not end in an empty field.
pub proof fn lemma_document_round_trip(header: Seq<Seq<char>>, rows: Seq<Seq<Seq<char>>>)
    requires
        doc_round_trippable(header, rows),
    ensures
        parse_text(encode_doc(header, rows)) == Ok::<_, ParseFailure>((header, rows)),
{
    lemma_split_encode_doc(header, rows);
    let lines = split_lines(encode_doc(header, rows));
    assert(lines.len() == 1 + rows.len());
    assert(lines[0] == encode_row(header));
    lemma_tokenize_encode_row(header);
    assert(lines.skip(1) =~= encoded_lines(rows));
    lemma_rows_from_encoded_lines(rows, header.len());
}

/// A positive quote count exhibits a quote character.
proof fn lemma_quote_count_pos(f: Seq<char>)
    requires
        quote_count(f) > 0,
    ensures
        exists|i: int| 0 <= i < f.len() && f[i] == '"',
    decreases f.len(),
{
    if f[0] == '"' {
        assert(f[0] == '"');
    } else {
        lemma_quote_count_pos(f.skip(1));
        let i = choose|i: int| 0 <= i < f.skip(1).len() && f.skip(1)[i] == '"';
        assert(f[i + 1] == '"');
    }
}

/// Quote-doubling exactly doubles the quote count.
proof fn lemma_double_quotes_count(f: Seq<char>)
    ensures
        quote_count(double_quotes(f)) == 2 * quote_count(f),
    decreases f.len(),
{
    if f.len() == 0 {
    } else if f[0] == '"' {
        let d = double_quotes(f);
        assert(d == seq!['"', '"'] + double_quotes(f.skip(1)));
        assert(d[0] == '"');
        assert(d.skip(1) =~= seq!['"'] + double_quotes(f.skip(1)));
        assert(d.skip(1)[0] == '"');
        assert(d.skip(1).skip(1) =~= double_quotes(f.skip(1)));
        lemma_double_quotes_count(f.skip(1));
        assert(quote_count(d) == 1 + quote_count(d.skip(1)));
        assert(quote_count(d.skip(1)) == 1 + quote_count(d.skip(1).skip(1)));
        assert(quote_count(f) == 1 + quote_count(f.skip(1)));
    } else {
        let d = double_quotes(f);
        assert(d == seq![f[0]] + double_quotes(f.skip(1)));
        assert(d[0] == f[0]);
        assert(d.skip(1) =~= double_quotes(f.skip(1)));
        lemma_double_quotes_count(f.skip(1));
        assert(d.len() > 0);
        assert(quote_count(d) == quote_count(d.skip(1)));
        assert(quote_count(f) == quote_count(f.skip(1)));
    }
}

/// The quote-escaping law for a single field: a field with a positive quote
/// count is wrapped in quotes around its quote-doubled form, the doubled
/// form has exactly twice as many quote characters, and the encoded field
/// tokenizes back to the original field alone.
pub proof fn lemma_quote_doubling(f: Seq<char>)
    requires
        quote_count(f) > 0,
    ensures
        needs_quoting(f),
        encode_field(f) == seq!['"'] + double_quotes(f) + seq!['"'],
        quote_count(double_quotes(f)) == 2 * quote_count(f),
        tokenize(encode_field(f)) == Some(seq![f]),
{
    lemma_quote_count_pos(f);
    let i = choose|i: int| 0 <= i < f.len() && f[i] == '"';
    assert(f[i] == '"');
    assert(needs_quoting(f));
    lemma_double_quotes_count(f);
    lemma_tok_field(f, Seq::empty(), Seq::empty());
    assert(encode_field(f) + Seq::<char>::empty() =~= encode_field(f));
    assert(f.len() > 0);
    assert(tokenize_step(Seq::empty(), false, f, Seq::empty()) == Some(
        Seq::<Seq<char>>::empty().push(f),
    ));
    assert(Seq::<Seq<char>>::empty().push(f) =~= seq![f]);
}

} // verus!

