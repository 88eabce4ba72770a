//! The mathematical model of a whole document: splitting the input into
//! logical lines with quote tracking, parsing the header and content rows,
//! and the serialized form of a document.

use vstd::prelude::*;
use crate::row_codec::{encode_row, tokenize};

verus! {

/// Why a parse failed: a quoted region never closed before the end of its
/// line, or a content row's field count differed from the header's.
pub enum ParseFailure {
    UnterminatedQuote,
    RowWidthMismatch,
}

/// One step-indexed pass of the line splitter, consuming `rest` with the
/// quote state, the line accumulated so far and the lines already produced.
/// Quote state follows the same transitions as the tokenizer, but every
/// consumed character is kept in the line buffer; a newline seen outside a
/// quoted region ends the current logical line.  A non-empty final buffer is
/// one last logical line (input without a trailing newline).
pub open spec fn split_step(
    rest: Seq<char>,
    in_quotes: bool,
    buf: Seq<char>,
    lines: Seq<Seq<char>>,
) -> Seq<Seq<char>>
    decreases rest.len(),
{
    if rest.len() == 0 {
        if buf.len() > 0 {
            lines.push(buf)
        } else {
            lines
        }
    } else {
        let c = rest[0];
        if c == '"' {
            if !in_quotes {
                split_step(rest.skip(1), true, buf.push(c), lines)
            } else if rest.len() >= 2 && rest[1] == '"' {
                split_step(rest.skip(2), true, buf.push('"').push('"'), lines)
            } else {
                split_step(rest.skip(1), false, buf.push(c), lines)
            }
        } else if c == '\n' && !in_quotes {
            split_step(rest.skip(1), false, Seq::empty(), lines.push(buf))
        } else {
            split_step(rest.skip(1), in_quotes, buf.push(c), lines)
        }
    }
}

/// The logical lines of the input text: maximal runs between newlines that
/// stand outside every quoted region.
pub open spec fn split_lines(text: Seq<char>) -> Seq<Seq<char>> {
    split_step(text, false, Seq::empty(), Seq::empty())
}

/// Tokenizes each logical line after the header as a content row of the
/// given width: the first line that fails to tokenize or whose field count
/// differs from `width` fails the whole parse.
pub open spec fn rows_from_lines(lines: Seq<Seq<char>>, width: nat) -> Result<
    Seq<Seq<Seq<char>>>,
    ParseFailure,
>
    decreases lines.len(),
{
    if lines.len() == 0 {
        Ok(Seq::empty())
    } else {
        match tokenize(lines[0]) {
            None => Err(ParseFailure::UnterminatedQuote),
            Some(row) => if row.len() != width {
                Err(ParseFailure::RowWidthMismatch)
            } else {
                match rows_from_lines(lines.skip(1), width) {
                    Err(e) => Err(e),
                    Ok(rows) => Ok(seq![row] + rows),
                }
            },
        }
    }
}

/// The document denoted by the input text: the first logical line tokenized
/// as the header, every further line as a content row whose field count must
/// equal the header's.  An input with no lines at all (the empty input)
/// yields an empty header and no content rows.  The parse is all-or-nothing.
pub open spec fn parse_text(text: Seq<char>) -> Result<
    (Seq<Seq<char>>, Seq<Seq<Seq<char>>>),
    ParseFailure,
> {
    let lines = split_lines(text);
    if lines.len() == 0 {
        Ok((Seq::empty(), Seq::empty()))
    } else {
        match tokenize(lines[0]) {
            None => Err(ParseFailure::UnterminatedQuote),
            Some(header) => match rows_from_lines(lines.skip(1), header.len()) {
                Err(e) => Err(e),
                Ok(rows) => Ok((header, rows)),
            },
        }
    }
}

/// The serialized content rows: each row's textual form followed by a
/// newline, in order.
pub open spec fn encode_rows(rows: Seq<Seq<Seq<char>>>) -> Seq<char>
    decreases rows.len(),
{
    if rows.len() == 0 {
        Seq::empty()
    } else {
        encode_row(rows[0]) + seq!['\n'] + encode_rows(rows.skip(1))
    }
}

/// The serialized document: the header line, a newline, then every content
/// row each followed by a newline.
pub open spec fn encode_doc(header: Seq<Seq<char>>, rows: Seq<Seq<Seq<char>>>) -> Seq<char> {
    encode_row(header) + seq!['\n'] + encode_rows(rows)
}

/// Appending one row to the content appends its line to the serialized
/// content.
pub proof fn lemma_encode_rows_push(rows: Seq<Seq<Seq<char>>>, row: Seq<Seq<char>>)
    ensures
        encode_rows(rows.push(row)) == encode_rows(rows) + encode_row(row) + seq!['\n'],
    decreases rows.len(),
{
    if rows.len() == 0 {
        assert(rows.push(row)[0] == row);
        assert(rows.push(row).skip(1) =~= Seq::<Seq<Seq<char>>>::empty());
        assert(encode_rows(Seq::<Seq<Seq<char>>>::empty()) == Seq::<char>::empty());
        assert(encode_rows(rows.push(row)) =~= encode_rows(rows) + encode_row(row) + seq!['\n']);
    } else {
        assert(rows.push(row)[0] == rows[0]);
        assert(rows.push(row).skip(1) =~= rows.skip(1).push(row));
        lemma_encode_rows_push(rows.skip(1), row);
        assert(encode_rows(rows.push(row)) =~= encode_rows(rows) + encode_row(row) + seq!['\n']);
    }
}

/// If every line after the first parses to a row of the right width, the
/// parse succeeds with exactly those rows, and failures are those of the
/// first bad line.  Stated stepwise: extending the prefix of lines already
/// consumed by one good line extends the rows.
pub proof fn lemma_rows_from_lines_skip(lines: Seq<Seq<char>>, j: int, width: nat)
    requires
        0 <= j < lines.len(),
    ensures
        rows_from_lines(lines.skip(j), width) == (match tokenize(lines[j]) {
            None => Err::<Seq<Seq<Seq<char>>>, ParseFailure>(ParseFailure::UnterminatedQuote),
            Some(row) => if row.len() != width {
                Err(ParseFailure::RowWidthMismatch)
            } else {
                match rows_from_lines(lines.skip(j + 1), width) {
                    Err(e) => Err(e),
                    Ok(rows) => Ok(seq![row] + rows),
                }
            },
        }),
{
    assert(lines.skip(j)[0] == lines[j]);
    assert(lines.skip(j).skip(1) =~= lines.skip(j + 1));
}

} // verus!
