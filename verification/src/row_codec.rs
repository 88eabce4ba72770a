//! The mathematical model of one row: tokenizing one logical line into
//! fields, and encoding a field sequence back into a line.
//!
//! A logical line is a character sequence with no un-quoted newline in it; it
//! may contain quoted multi-line content.  `tokenize` is the two-state
//! (quoted / un-quoted) machine:
//!
//! * un-quoted: `,` ends the current field; `"` enters the quoted state and
//!   discards whatever the current field had accumulated; any other character
//!   is appended to the current field;
//! * quoted: `""` is consumed as one literal quote character; a lone `"`
//!   leaves the quoted state and is consumed as a delimiter; any other
//!   character (commas and raw newlines included) is appended literally.
//!
//! At the end of the line a still-open quote is an error (`None`), and a
//! non-empty trailing field is emitted while an empty one is dropped.

use vstd::prelude::*;
use crate::charclass::is_space_char;

verus! {

/// One step-indexed pass of the tokenizer, consuming `rest` with the quote
/// state, the field accumulated so far and the fields already produced.
pub open spec fn tokenize_step(
    rest: Seq<char>,
    in_quotes: bool,
    cell: Seq<char>,
    cells: Seq<Seq<char>>,
) -> Option<Seq<Seq<char>>>
    decreases rest.len(),
{
    if rest.len() == 0 {
        if in_quotes {
            None
        } else if cell.len() > 0 {
            Some(cells.push(cell))
        } else {
            Some(cells)
        }
    } else {
        let c = rest[0];
        if c == '"' {
            if !in_quotes {
                tokenize_step(rest.skip(1), true, Seq::empty(), cells)
            } else if rest.len() >= 2 && rest[1] == '"' {
                tokenize_step(rest.skip(2), true, cell.push('"'), cells)
            } else {
                tokenize_step(rest.skip(1), false, cell, cells)
            }
        } else if c == ',' && !in_quotes {
            tokenize_step(rest.skip(1), false, Seq::empty(), cells.push(cell))
        } else {
            tokenize_step(rest.skip(1), in_quotes, cell.push(c), cells)
        }
    }
}

/// The fields of one logical line, or `None` if a quoted region never
/// closes before the end of the line.
pub open spec fn tokenize(line: Seq<char>) -> Option<Seq<Seq<char>>> {
    tokenize_step(line, false, Seq::empty(), Seq::empty())
}

/// Whether serializing `f` must wrap it in quotes: true when the field
/// contains a comma, a quote character, or any whitespace character
/// (newlines are whitespace).
pub open spec fn needs_quoting(f: Seq<char>) -> bool {
    exists|i: int|
        0 <= i < f.len() && (f[i] == ',' || f[i] == '"' || is_space_char(#[trigger] f[i]))
}

/// `f` with every quote character doubled.
pub open spec fn double_quotes(f: Seq<char>) -> Seq<char>
    decreases f.len(),
{
    if f.len() == 0 {
        Seq::empty()
    } else if f[0] == '"' {
        seq!['"', '"'] + double_quotes(f.skip(1))
    } else {
        seq![f[0]] + double_quotes(f.skip(1))
    }
}

/// The textual form of one field: quote-doubled and wrapped in quotes when
/// quoting is required, verbatim otherwise.
pub open spec fn encode_field(f: Seq<char>) -> Seq<char> {
    if needs_quoting(f) {
        seq!['"'] + double_quotes(f) + seq!['"']
    } else {
        f
    }
}

/// The textual form of a row: its fields encoded and joined with commas.
pub open spec fn encode_row(cells: Seq<Seq<char>>) -> Seq<char>
    decreases cells.len(),
{
    if cells.len() == 0 {
        Seq::empty()
    } else if cells.len() == 1 {
        encode_field(cells[0])
    } else {
        encode_field(cells[0]) + seq![','] + encode_row(cells.skip(1))
    }
}

/// Appending one quote character to a field appends a doubled quote to its
/// quote-doubled form; any other character is appended unchanged.
pub proof fn lemma_double_quotes_push(f: Seq<char>, c: char)
    ensures
        c == '"' ==> double_quotes(f.push(c)) == double_quotes(f) + seq!['"', '"'],
        c != '"' ==> double_quotes(f.push(c)) == double_quotes(f) + seq![c],
    decreases f.len(),
{
    let g = f.push(c);
    let tail: Seq<char> = if c == '"' {
        seq!['"', '"']
    } else {
        seq![c]
    };
    if f.len() == 0 {
        assert(g.len() == 1 && g[0] == c);
        assert(g.skip(1) =~= Seq::<char>::empty());
        assert(double_quotes(Seq::<char>::empty()) == Seq::<char>::empty());
        assert(double_quotes(g) =~= double_quotes(f) + tail);
    } else {
        assert(g[0] == f[0]);
        assert(g.skip(1) =~= f.skip(1).push(c));
        lemma_double_quotes_push(f.skip(1), c);
        if f[0] == '"' {
            assert(double_quotes(g) == seq!['"', '"'] + double_quotes(g.skip(1)));
            assert(double_quotes(f) == seq!['"', '"'] + double_quotes(f.skip(1)));
        } else {
            assert(double_quotes(g) == seq![f[0]] + double_quotes(g.skip(1)));
            assert(double_quotes(f) == seq![f[0]] + double_quotes(f.skip(1)));
        }
        assert(double_quotes(g) =~= double_quotes(f) + tail);
    }
}

/// Appending one field to a row appends a comma separator (except for the
/// first field) and the encoded field to the row's textual form.
pub proof fn lemma_encode_row_push(cells: Seq<Seq<char>>, f: Seq<char>)
    ensures
        cells.len() == 0 ==> encode_row(cells.push(f)) == encode_field(f),
        cells.len() > 0 ==> encode_row(cells.push(f)) == encode_row(cells) + seq![',']
            + encode_field(f),
    decreases cells.len(),
{
    if cells.len() == 0 {
        assert(cells.push(f)[0] == f);
    } else if cells.len() == 1 {
        assert(cells.push(f).skip(1) =~= seq![f]);
        assert(encode_row(seq![f]) == encode_field(f));
    } else {
        assert(cells.push(f).skip(1) =~= cells.skip(1).push(f));
        lemma_encode_row_push(cells.skip(1), f);
        assert(encode_row(cells.push(f)) =~= encode_row(cells) + seq![','] + encode_field(f));
    }
}

} // verus!
