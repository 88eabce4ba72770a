//! A document: one header row plus an ordered sequence of content rows, with
//! the verified parser and serializer.

use vstd::prelude::*;
use vstd::string::StringExecFns;
use crate::csv_row::{tokenize_chars, CSVParseable, CSVRow};
use crate::doc_codec::{
    encode_doc,
    encode_rows,
    lemma_encode_rows_push,
    lemma_rows_from_lines_skip,
    parse_text,
    rows_from_lines,
    split_lines,
    split_step,
    ParseFailure,
};
use crate::row_codec::{encode_row, tokenize};
use crate::strutil::{chars_of, rows_view, strings_from_char_rows};

verus! {

/// The views of a sequence of rows, elementwise.
pub open spec fn content_rows_view(v: Seq<CSVRow>) -> Seq<Seq<Seq<char>>> {
    Seq::new(v.len(), |i: int| v[i]@)
}

pub proof fn lemma_content_rows_view_push(v: Seq<CSVRow>, x: CSVRow)
    ensures
        content_rows_view(v.push(x)) == content_rows_view(v).push(x@),
{
    assert(content_rows_view(v.push(x)) =~= content_rows_view(v).push(x@));
}

pub proof fn lemma_content_rows_view_remove(v: Seq<CSVRow>, i: int)
    requires
        0 <= i < v.len(),
    ensures
        content_rows_view(v.remove(i)) == content_rows_view(v).remove(i),
{
    assert(content_rows_view(v.remove(i)) =~= content_rows_view(v).remove(i));
}

/// A header row plus an ordered sequence of content rows.
pub struct CSVDocument {
    pub header: CSVRow,
    pub contents: Vec<CSVRow>,
}

/// Splits the input characters into logical lines, tracking quoted regions
/// so that a newline inside quotes is data rather than a line break.
fn split_chars(chars: &Vec<char>) -> (lines: Vec<Vec<char>>)
    ensures
        rows_view(lines@) == split_lines(chars@),
{
    let n = chars.len();
    let mut in_quotes = false;
    let mut buf: Vec<char> = Vec::new();
    let mut lines: Vec<Vec<char>> = Vec::new();
    let mut i: usize = 0;
    proof {
        assert(chars@.skip(0) =~= chars@);
        assert(rows_view(lines@) =~= Seq::<Seq<char>>::empty());
        assert(buf@ =~= Seq::<char>::empty());
    }
    while i < n
        invariant
            n == chars@.len(),
            i <= n,
            split_step(chars@.skip(i as int), in_quotes, buf@, rows_view(lines@)) == split_lines(
                chars@,
            ),
        decreases n - i,
    {
        let ghost rest = chars@.skip(i as int);
        proof {
            assert(rest.len() == n - i);
            assert(rest[0] == chars@[i as int]);
        }
        let c = chars[i];
        if c == '"' {
            if !in_quotes {
                in_quotes = true;
                buf.push(c);
                proof {
                    assert(rest.skip(1) =~= chars@.skip(i as int + 1));
                }
                i += 1;
            } else if i + 1 < n && chars[i + 1] == '"' {
                buf.push('"');
                buf.push('"');
                proof {
                    assert(rest[1] == chars@[i as int + 1]);
                    assert(rest.skip(2) =~= chars@.skip(i as int + 2));
                }
                i += 2;
            } else {
                in_quotes = false;
                buf.push(c);
                proof {
                    assert(rest.len() >= 2 ==> rest[1] == chars@[i as int + 1]);
                    assert(rest.skip(1) =~= chars@.skip(i as int + 1));
                }
                i += 1;
            }
        } else if c == '\n' && !in_quotes {
            let ghost prev_lines = lines@;
            let ghost prev_buf = buf@;
            lines.push(buf);
            buf = Vec::new();
            proof {
                crate::strutil::lemma_rows_view_push(prev_lines, lines@[lines@.len() - 1]);
                assert(rows_view(lines@) == rows_view(prev_lines).push(prev_buf));
                assert(rest.skip(1) =~= chars@.skip(i as int + 1));
                assert(buf@ =~= Seq::<char>::empty());
            }
            i += 1;
        } else {
            buf.push(c);
            proof {
                assert(rest.skip(1) =~= chars@.skip(i as int + 1));
            }
            i += 1;
        }
    }
    proof {
        assert(chars@.skip(n as int) =~= Seq::<char>::empty());
    }
    if buf.len() > 0 {
        let ghost prev_lines = lines@;
        let ghost prev_buf = buf@;
        lines.push(buf);
        proof {
            crate::strutil::lemma_rows_view_push(prev_lines, lines@[lines@.len() - 1]);
            assert(rows_view(lines@) == rows_view(prev_lines).push(prev_buf));
        }
    }
    lines
}

impl CSVDocument {
    /// The views of the content rows, in order.
    pub open spec fn rows(&self) -> Seq<Seq<Seq<char>>> {
        content_rows_view(self.contents@)
    }

    /// A document with an empty header and no content rows.
    pub fn new() -> (doc: CSVDocument)
        ensures
            doc.header@ == Seq::<Seq<char>>::empty(),
            doc.rows() == Seq::<Seq<Seq<char>>>::empty(),
            doc.contents@.len() == 0,
    {
        let doc = CSVDocument { header: CSVRow::new(), contents: Vec::new() };
        proof {
            assert(doc.rows() =~= Seq::<Seq<Seq<char>>>::empty());
        }
        doc
    }

    /// Appends a content row.  No field-count validation happens here: width
    /// against the header is enforced only during parsing.
    pub fn add_row(&mut self, row: CSVRow)
        ensures
            final(self).header == old(self).header,
            final(self).contents@ == old(self).contents@.push(row),
            final(self).rows() == old(self).rows().push(row@),
    {
        let ghost prev = self.contents@;
        self.contents.push(row);
        proof {
            lemma_content_rows_view_push(prev, self.contents@[self.contents@.len() - 1]);
        }
    }

    /// Removes the content row at `index`, preserving the order of the
    /// remaining rows; an index that is not less than the current content
    /// length leaves the document unchanged and reports the failure.
    pub fn remove_row(&mut self, index: usize) -> (r: Result<(), &'static str>)
        ensures
            (match r {
                Ok(_) => {
                    &&& index < old(self).contents@.len()
                    &&& final(self).header == old(self).header
                    &&& final(self).contents@ == old(self).contents@.remove(index as int)
                    &&& final(self).rows() == old(self).rows().remove(index as int)
                },
                Err(msg) => {
                    &&& index >= old(self).contents@.len()
                    &&& *final(self) == *old(self)
                    &&& msg@ == "Index is too large."@
                },
            }),
    {
        if index >= self.contents.len() {
            return Err("Index is too large.");
        }
        let ghost prev = self.contents@;
        self.contents.remove(index);
        proof {
            lemma_content_rows_view_remove(prev, index as int);
        }
        Ok(())
    }

    /// The number of content rows.
    pub fn row_count(&self) -> (n: usize)
        ensures
            n == self.contents@.len(),
            n == self.rows().len(),
    {
        self.contents.len()
    }

    /// The serialized document: the header line, a newline, then every
    /// content row each followed by a newline.
    pub fn to_string(&self) -> (r: String)
        ensures
            r@ == encode_doc(self.header@, self.rows()),
    {
        let mut s = self.header.to_string();
        s.push('\n');
        let n = self.contents.len();
        let mut i: usize = 0;
        proof {
            assert(self.rows().subrange(0, 0) =~= Seq::<Seq<Seq<char>>>::empty());
            assert(encode_rows(Seq::<Seq<Seq<char>>>::empty()) == Seq::<char>::empty());
            assert(s@ =~= encode_row(self.header@) + seq!['\n'] + encode_rows(
                self.rows().subrange(0, 0),
            ));
        }
        while i < n
            invariant
                n == self.contents@.len(),
                i <= n,
                s@ == encode_row(self.header@) + seq!['\n'] + encode_rows(
                    self.rows().subrange(0, i as int),
                ),
            decreases n - i,
        {
            let line = self.contents[i].to_string();
            s.append(line.as_str());
            s.push('\n');
            proof {
                let prefix = self.rows().subrange(0, i as int);
                lemma_encode_rows_push(prefix, self.rows()[i as int]);
                assert(self.rows().subrange(0, i + 1 as int) =~= prefix.push(
                    self.rows()[i as int],
                ));
                assert(line@ == encode_row(self.rows()[i as int]));
                assert(s@ =~= encode_row(self.header@) + seq!['\n'] + encode_rows(
                    self.rows().subrange(0, i + 1 as int),
                ));
            }
            i += 1;
        }
        proof {
            assert(self.rows().subrange(0, n as int) =~= self.rows());
        }
        s
    }

    /// Parses the full input text into a document: the first logical line is
    /// the header, every further line a content row whose field count must
    /// equal the header's.  All-or-nothing: no partial document is returned
    /// on error.
    pub fn parse_string(input: &String) -> (r: Result<CSVDocument, &'static str>)
        ensures
            (match r {
                Ok(doc) => {
                    &&& parse_text(input@) is Ok
                    &&& parse_text(input@)->Ok_0.0 == doc.header@
                    &&& parse_text(input@)->Ok_0.1 == doc.rows()
                    &&& forall|i: int|
                        0 <= i < doc.rows().len() ==> (#[trigger] doc.rows()[i]).len()
                            == doc.header@.len()
                },
                Err(msg) => {
                    &&& parse_text(input@) is Err
                    &&& (parse_text(input@)->Err_0 == ParseFailure::UnterminatedQuote ==> msg@
                        == "Unterminated quotes in cell."@)
                    &&& (parse_text(input@)->Err_0 == ParseFailure::RowWidthMismatch ==> msg@
                        == "The amount of cells in the row was invalid."@)
                },
            }),
    {
        let chars = chars_of(input.as_str());
        let lines = split_chars(&chars);
        let ghost lseq = split_lines(input@);
        if lines.len() == 0 {
            let doc = CSVDocument { header: CSVRow::new(), contents: Vec::new() };
            proof {
                assert(doc.rows() =~= Seq::<Seq<Seq<char>>>::empty());
            }
            return Ok(doc);
        }
        let header = match tokenize_chars(&lines[0]) {
            Some(cells) => CSVRow { cells: strings_from_char_rows(&cells) },
            None => {
                proof {
                    assert(lseq[0] == lines@[0]@);
                }
                return Err("Unterminated quotes in cell.");
            },
        };
        proof {
            assert(lseq[0] == lines@[0]@);
            assert(tokenize(lseq[0]) == Some(header@));
        }
        let width = header.len();
        let mut contents: Vec<CSVRow> = Vec::new();
        let mut j: usize = 1;
        proof {
            assert(content_rows_view(contents@) =~= Seq::<Seq<Seq<char>>>::empty());
            assert(rows_from_lines(lseq.skip(1), width as nat) == (match rows_from_lines(
                lseq.skip(1),
                width as nat,
            ) {
                Ok(rest) => Ok::<_, ParseFailure>(content_rows_view(contents@) + rest),
                Err(e) => Err(e),
            })) by {
                if rows_from_lines(lseq.skip(1), width as nat) is Ok {
                    assert(content_rows_view(contents@) + rows_from_lines(
                        lseq.skip(1),
                        width as nat,
                    )->Ok_0 =~= rows_from_lines(lseq.skip(1), width as nat)->Ok_0);
                }
            }
        }
        while j < lines.len()
            invariant
                1 <= j <= lines@.len(),
                lseq == split_lines(input@),
                rows_view(lines@) == lseq,
                tokenize(lseq[0]) == Some(header@),
                width == header@.len(),
                contents@.len() == j - 1,
                forall|i: int|
                    0 <= i < contents@.len() ==> (#[trigger] content_rows_view(
                        contents@,
                    )[i]).len() == width,
                rows_from_lines(lseq.skip(1), width as nat) == (match rows_from_lines(
                    lseq.skip(j as int),
                    width as nat,
                ) {
                    Ok(rest) => Ok::<_, ParseFailure>(content_rows_view(contents@) + rest),
                    Err(e) => Err(e),
                }),
            decreases lines@.len() - j,
        {
            proof {
                lemma_rows_from_lines_skip(lseq, j as int, width as nat);
                assert(lseq[j as int] == lines@[j as int]@);
            }
            let row = match tokenize_chars(&lines[j]) {
                Some(cells) => CSVRow { cells: strings_from_char_rows(&cells) },
                None => {
                    return Err("Unterminated quotes in cell.");
                },
            };
            proof {
                assert(tokenize(lseq[j as int]) == Some(row@));
            }
            if row.len() != width {
                return Err("The amount of cells in the row was invalid.");
            }
            let ghost prev = contents@;
            let ghost rowv = row@;
            contents.push(row);
            proof {
                lemma_content_rows_view_push(prev, contents@[contents@.len() - 1]);
                let rest_next = rows_from_lines(lseq.skip(j as int + 1), width as nat);
                if rest_next is Ok {
                    assert(content_rows_view(prev) + (seq![rowv] + rest_next->Ok_0)
                        =~= content_rows_view(contents@) + rest_next->Ok_0);
                }
            }
            j += 1;
        }
        proof {
            assert(lseq.skip(lines@.len() as int).len() == 0);
            assert(rows_from_lines(lseq.skip(lines@.len() as int), width as nat)
                == Ok::<_, ParseFailure>(Seq::<Seq<Seq<char>>>::empty()));
            assert(content_rows_view(contents@) + Seq::<Seq<Seq<char>>>::empty()
                =~= content_rows_view(contents@));
        }
        let doc = CSVDocument { header, contents };
        Ok(doc)
    }

    /// Converts every content row, in order, into a value of `T`, or fails
    /// with the conversion failure of the first row that `T` rejects.
    pub fn convert_rows<T: CSVParseable>(&self) -> (r: Result<Vec<T>, &'static str>)
        ensures
            (r is Ok <==> (forall|i: int|
                0 <= i < self.rows().len() ==> T::row_ok(#[trigger] self.rows()[i]))),
            r is Ok ==> r->Ok_0@.len() == self.rows().len(),
            r is Ok ==> (forall|i: int|
                0 <= i < self.rows().len() ==> r->Ok_0@[i] == T::from_row(
                    #[trigger] self.rows()[i],
                )),
            r is Err ==> (exists|i: int|
                0 <= i < self.rows().len() && !T::row_ok(#[trigger] self.rows()[i]) && (forall|
                    j: int,
                |
                    0 <= j < i ==> T::row_ok(#[trigger] self.rows()[j]))),
    {
        let mut out: Vec<T> = Vec::new();
        let n = self.contents.len();
        let mut i: usize = 0;
        while i < n
            invariant
                n == self.contents@.len(),
                i <= n,
                out@.len() == i,
                forall|j: int|
                    0 <= j < i ==> T::row_ok(#[trigger] self.rows()[j]) && out@[j] == T::from_row(
                        self.rows()[j],
                    ),
            decreases n - i,
        {
            match T::construct_from_row(&self.contents[i]) {
                Ok(v) => {
                    out.push(v);
                },
                Err(msg) => {
                    proof {
                        assert(!T::row_ok(self.rows()[i as int]));
                    }
                    return Err(msg);
                },
            }
            i += 1;
        }
        Ok(out)
    }
}

} // verus!
