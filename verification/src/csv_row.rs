//! One row of a document: an ordered sequence of text fields, with the
//! verified tokenizer and serializer.

use vstd::prelude::*;
use crate::charclass::{is_space_char, space_char};
use crate::row_codec::{
    double_quotes,
    encode_field,
    encode_row,
    lemma_double_quotes_push,
    lemma_encode_row_push,
    needs_quoting,
    tokenize,
    tokenize_step,
};
use crate::strutil::{
    chars_of,
    lemma_rows_view_push,
    rows_view,
    string_from_chars,
    strings_from_char_rows,
    strings_view,
};

verus! {

/// The capability "constructible from a `CSVRow`".  A type declares which
/// rows it accepts (`row_ok`) and what value such a row denotes (`from_row`);
/// `construct_from_row` must decide the former and return the latter.
pub trait CSVParseable: Sized {
    /// Whether a row with these fields can be turned into a value.
    spec fn row_ok(row: Seq<Seq<char>>) -> bool;

    /// The value a convertible row denotes.
    spec fn from_row(row: Seq<Seq<char>>) -> Self;

    /// Builds a value from the row, or reports the conversion failure.
    fn construct_from_row(row: &CSVRow) -> (r: Result<Self, &'static str>)
        ensures
            r is Ok <==> Self::row_ok(row@),
            r is Ok ==> r->Ok_0 == Self::from_row(row@),
    ;
}

/// An ordered sequence of fields, representing one record or the header.
#[derive(Clone)]
pub struct CSVRow {
    pub cells: Vec<String>,
}

impl View for CSVRow {
    type V = Seq<Seq<char>>;

    open spec fn view(&self) -> Seq<Seq<char>> {
        strings_view(self.cells@)
    }
}

/// Runs the tokenizer on a character vector, returning the fields as
/// character vectors, or `None` on an unterminated quoted region.
pub(crate) fn tokenize_chars(chars: &Vec<char>) -> (r: Option<Vec<Vec<char>>>)
    ensures
        (match r {
            Some(cells) => tokenize(chars@) == Some(rows_view(cells@)),
            None => tokenize(chars@) is None,
        }),
{
    let n = chars.len();
    let mut in_quotes = false;
    let mut cell: Vec<char> = Vec::new();
    let mut cells: Vec<Vec<char>> = Vec::new();
    let mut i: usize = 0;
    proof {
        assert(chars@.skip(0) =~= chars@);
        assert(rows_view(cells@) =~= Seq::<Seq<char>>::empty());
        assert(cell@ =~= Seq::<char>::empty());
    }
    while i < n
        invariant
            n == chars@.len(),
            i <= n,
            tokenize_step(chars@.skip(i as int), in_quotes, cell@, rows_view(cells@)) == tokenize(
                chars@,
            ),
        decreases n - i,
    {
        let ghost rest = chars@.skip(i as int);
        proof {
            assert(rest.len() == n - i);
            assert(rest[0] == chars@[i as int]);
        }
        let c = chars[i];
        if c == '"' && !in_quotes {
            in_quotes = true;
            cell = Vec::new();
            proof {
                assert(rest.skip(1) =~= chars@.skip(i as int + 1));
                assert(cell@ =~= Seq::<char>::empty());
            }
            i += 1;
        } else if c == '"' && in_quotes {
            if i + 1 < n && chars[i + 1] == '"' {
                cell.push('"');
                proof {
                    assert(rest[1] == chars@[i as int + 1]);
                    assert(rest.skip(2) =~= chars@.skip(i as int + 2));
                }
                i += 2;
            } else {
                in_quotes = false;
                proof {
                    assert(rest.len() >= 2 ==> rest[1] == chars@[i as int + 1]);
                    assert(rest.skip(1) =~= chars@.skip(i as int + 1));
                }
                i += 1;
            }
        } else if c == ',' && !in_quotes {
            let ghost prev_cells = cells@;
            let ghost prev_cell = cell@;
            cells.push(cell);
            cell = Vec::new();
            proof {
                lemma_rows_view_push(prev_cells, cells@[cells@.len() - 1]);
                assert(rows_view(cells@) == rows_view(prev_cells).push(prev_cell));
                assert(rest.skip(1) =~= chars@.skip(i as int + 1));
                assert(cell@ =~= Seq::<char>::empty());
            }
            i += 1;
        } else {
            cell.push(c);
            proof {
                assert(rest.skip(1) =~= chars@.skip(i as int + 1));
            }
            i += 1;
        }
    }
    proof {
        assert(chars@.skip(n as int) =~= Seq::<char>::empty());
    }
    if in_quotes {
        return None;
    }
    if cell.len() > 0 {
        let ghost prev_cells = cells@;
        let ghost prev_cell = cell@;
        cells.push(cell);
        proof {
            lemma_rows_view_push(prev_cells, cells@[cells@.len() - 1]);
            assert(rows_view(cells@) == rows_view(prev_cells).push(prev_cell));
        }
    }
    Some(cells)
}

impl CSVRow {
    /// A row with no fields.
    pub fn new() -> (r: CSVRow)
        ensures
            r@ == Seq::<Seq<char>>::empty(),
            r.cells@.len() == 0,
    {
        let r = CSVRow { cells: Vec::new() };
        proof {
            assert(r@ =~= Seq::<Seq<char>>::empty());
        }
        r
    }

    /// The number of fields.
    pub fn len(&self) -> (n: usize)
        ensures
            n == self.cells@.len(),
            n == self@.len(),
    {
        self.cells.len()
    }

    /// Replaces this row's fields with the fields tokenized from one logical
    /// line, or leaves the row unchanged and reports an unterminated quoted
    /// region.
    pub fn parse_line(&mut self, line: &String) -> (r: Result<(), &'static str>)
        ensures
            (match r {
                Ok(_) => tokenize(line@) == Some(final(self)@),
                Err(msg) => {
                    &&& tokenize(line@) is None
                    &&& *final(self) == *old(self)
                    &&& msg@ == "Unterminated quotes in cell."@
                },
            }),
    {
        match CSVRow::parse_line_new(line) {
            Ok(row) => {
                self.cells = row.cells;
                Ok(())
            },
            Err(msg) => Err(msg),
        }
    }

    /// Tokenizes one logical line into a fresh row, or reports an
    /// unterminated quoted region.
    pub fn parse_line_new(line: &String) -> (r: Result<CSVRow, &'static str>)
        ensures
            (match r {
                Ok(row) => tokenize(line@) == Some(row@),
                Err(msg) => tokenize(line@) is None && msg@ == "Unterminated quotes in cell."@,
            }),
    {
        let chars = chars_of(line.as_str());
        match tokenize_chars(&chars) {
            Some(cells) => Ok(CSVRow { cells: strings_from_char_rows(&cells) }),
            None => Err("Unterminated quotes in cell."),
        }
    }

    /// The textual form of the row: each field quoted and quote-doubled as
    /// needed, fields joined with commas.
    pub fn to_string(&self) -> (r: String)
        ensures
            r@ == encode_row(self@),
    {
        let mut out: Vec<char> = Vec::new();
        let mut k: usize = 0;
        let n = self.cells.len();
        proof {
            assert(self@.subrange(0, 0) =~= Seq::<Seq<char>>::empty());
            assert(out@ =~= encode_row(self@.subrange(0, 0)));
        }
        while k < n
            invariant
                n == self.cells@.len(),
                k <= n,
                self@.len() == n,
                out@ == encode_row(self@.subrange(0, k as int)),
            decreases n - k,
        {
            let f = chars_of(self.cells[k].as_str());
            if k > 0 {
                out.push(',');
            }
            encode_field_into(&mut out, &f);
            proof {
                let prefix = self@.subrange(0, k as int);
                lemma_encode_row_push(prefix, f@);
                assert(self@.subrange(0, k + 1 as int) =~= prefix.push(self@[k as int]));
                assert(f@ == self@[k as int]);
                if k > 0 {
                    assert(out@ =~= encode_row(prefix) + seq![','] + encode_field(f@));
                } else {
                    assert(out@ =~= encode_field(f@));
                }
            }
            k += 1;
        }
        proof {
            assert(self@.subrange(0, n as int) =~= self@);
        }
        string_from_chars(&out)
    }
}

/// Decides whether a field must be quoted when serialized.
fn needs_quoting_exec(f: &Vec<char>) -> (b: bool)
    ensures
        b == needs_quoting(f@),
{
    let mut i: usize = 0;
    while i < f.len()
        invariant
            i <= f@.len(),
            forall|j: int|
                0 <= j < i ==> !(f@[j] == ',' || f@[j] == '"' || is_space_char(#[trigger] f@[j])),
        decreases f@.len() - i,
    {
        let c = f[i];
        if c == ',' || c == '"' || space_char(c) {
            proof {
                assert(f@[i as int] == ',' || f@[i as int] == '"' || is_space_char(f@[i as int]));
            }
            return true;
        }
        i += 1;
    }
    false
}

/// Appends the encoded form of the field to `out`.
fn encode_field_into(out: &mut Vec<char>, f: &Vec<char>)
    ensures
        final(out)@ == old(out)@ + encode_field(f@),
{
    let n = f.len();
    if needs_quoting_exec(f) {
        out.push('"');
        let mut i: usize = 0;
        proof {
            assert(double_quotes(f@.subrange(0, 0)) =~= Seq::<char>::empty());
            assert(out@ =~= old(out)@ + seq!['"'] + double_quotes(f@.subrange(0, 0)));
        }
        while i < n
            invariant
                n == f@.len(),
                i <= n,
                out@ == old(out)@ + seq!['"'] + double_quotes(f@.subrange(0, i as int)),
            decreases n - i,
        {
            let c = f[i];
            out.push(c);
            if c == '"' {
                out.push('"');
            }
            proof {
                let prefix = f@.subrange(0, i as int);
                lemma_double_quotes_push(prefix, f@[i as int]);
                assert(f@.subrange(0, i + 1 as int) =~= prefix.push(f@[i as int]));
                if c == '"' {
                    assert(out@ =~= old(out)@ + seq!['"'] + (double_quotes(prefix)
                        + seq!['"', '"']));
                } else {
                    assert(out@ =~= old(out)@ + seq!['"'] + (double_quotes(prefix) + seq![c]));
                }
            }
            i += 1;
        }
        out.push('"');
        proof {
            assert(f@.subrange(0, n as int) =~= f@);
            assert(out@ =~= old(out)@ + encode_field(f@));
        }
    } else {
        let mut i: usize = 0;
        while i < n
            invariant
                n == f@.len(),
                i <= n,
                out@ == old(out)@ + f@.subrange(0, i as int),
            decreases n - i,
        {
            out.push(f[i]);
            proof {
                assert(out@ =~= old(out)@ + f@.subrange(0, i + 1 as int));
            }
            i += 1;
        }
        proof {
            assert(f@.subrange(0, n as int) =~= f@);
            assert(out@ =~= old(out)@ + encode_field(f@));
        }
    }
}

} // verus!
