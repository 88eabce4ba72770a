use csvdoc::{CSVDocument, CSVParseable, CSVRow};

fn row(cells: Vec<&str>) -> CSVRow {
    CSVRow {
        cells: cells.into_iter().map(String::from).collect(),
    }
}

#[test]
fn scenario_two_column_document() {
    let input = "cats,dogs\n1,2\n".to_string();
    let doc = CSVDocument::parse_string(&input).unwrap();
    assert_eq!(doc.header.cells, vec!["cats", "dogs"]);
    assert_eq!(doc.row_count(), 1);
    assert_eq!(doc.contents[0].cells, vec!["1", "2"]);
}

#[test]
fn scenario_doubled_quotes_collapse() {
    let input = "a,b\nnone,\"\"\"x\"\"\"".to_string();
    let doc = CSVDocument::parse_string(&input).unwrap();
    assert_eq!(doc.row_count(), 1);
    assert_eq!(doc.contents[0].cells, vec!["none", "\"x\""]);
}

#[test]
fn scenario_embedded_newline_is_data() {
    let input = "a,b\n\"line1\nline2\",y".to_string();
    let doc = CSVDocument::parse_string(&input).unwrap();
    assert_eq!(doc.row_count(), 1);
    assert_eq!(doc.contents[0].cells[0], "line1\nline2");
}

#[test]
fn scenario_row_width_mismatch() {
    let input = "a,b\n1,2,3".to_string();
    let res = CSVDocument::parse_string(&input);
    assert_eq!(res.err(), Some("The amount of cells in the row was invalid."));
}

#[test]
fn scenario_unterminated_quote() {
    let input = "a,b\n1,\"unterminated".to_string();
    let res = CSVDocument::parse_string(&input);
    assert_eq!(res.err(), Some("Unterminated quotes in cell."));
}

#[test]
fn scenario_comma_field_serialization() {
    let r = row(vec!["james,", "none"]);
    assert_eq!(r.to_string(), "\"james,\",none");
}

#[test]
fn round_trip_document() {
    let doc = CSVDocument {
        header: row(vec!["name", "notes"]),
        contents: vec![
            row(vec!["james", "likes \"cats\", dogs"]),
            row(vec!["multi\nline", "plain"]),
            row(vec!["", "trailing nonempty"]),
        ],
    };
    let text = doc.to_string();
    let back = CSVDocument::parse_string(&text).unwrap();
    assert_eq!(back.header.cells, doc.header.cells);
    assert_eq!(back.contents.len(), doc.contents.len());
    for i in 0..doc.contents.len() {
        assert_eq!(back.contents[i].cells, doc.contents[i].cells);
    }
}

#[test]
fn quote_doubling_counts() {
    // two quote characters in the field: the serialized field holds four,
    // plus the two wrapping quotes, and parses back to the original.
    let r = row(vec!["a\"b\"c"]);
    let text = r.to_string();
    assert_eq!(text, "\"a\"\"b\"\"c\"");
    assert_eq!(text.matches('"').count(), 6);
    let back = CSVRow::parse_line_new(&text).unwrap();
    assert_eq!(back.cells, vec!["a\"b\"c"]);
}

#[test]
fn field_count_invariant_after_parse() {
    let input = "a,b,c\n1,2,3\n\"x,y\",z,w\n".to_string();
    let doc = CSVDocument::parse_string(&input).unwrap();
    for r in &doc.contents {
        assert_eq!(r.len(), doc.header.len());
    }
}

#[test]
fn remove_row_keeps_order() {
    let mut doc = CSVDocument {
        header: row(vec!["k"]),
        contents: vec![row(vec!["first"]), row(vec!["second"]), row(vec!["third"])],
    };
    assert!(doc.remove_row(1).is_ok());
    assert_eq!(doc.row_count(), 2);
    assert_eq!(doc.contents[0].cells, vec!["first"]);
    assert_eq!(doc.contents[1].cells, vec!["third"]);
}

#[test]
fn remove_row_invalid_index_leaves_document() {
    let mut doc = CSVDocument {
        header: row(vec!["k"]),
        contents: vec![row(vec!["only"])],
    };
    let res = doc.remove_row(1);
    assert_eq!(res.err(), Some("Index is too large."));
    assert_eq!(doc.row_count(), 1);
    assert_eq!(doc.contents[0].cells, vec!["only"]);
}

#[test]
fn new_document_and_row_are_empty() {
    let doc = CSVDocument::new();
    assert_eq!(doc.header.cells.len(), 0);
    assert_eq!(doc.row_count(), 0);
    let r = CSVRow::new();
    assert_eq!(r.len(), 0);
}

#[test]
fn empty_input_gives_empty_document() {
    let input = String::new();
    let doc = CSVDocument::parse_string(&input).unwrap();
    assert_eq!(doc.header.cells.len(), 0);
    assert_eq!(doc.row_count(), 0);
}

#[test]
fn whitespace_field_is_quoted() {
    let r = row(vec!["two words", "plain"]);
    assert_eq!(r.to_string(), "\"two words\",plain");
}

#[test]
fn empty_trailing_field_is_dropped() {
    // Known limitation: an empty trailing field does not survive a
    // serialize/parse cycle; the tokenizer drops it.
    let r = row(vec!["a", ""]);
    let text = r.to_string();
    assert_eq!(text, "a,");
    let back = CSVRow::parse_line_new(&text).unwrap();
    assert_eq!(back.cells, vec!["a"]);
}

#[test]
fn empty_middle_field_survives() {
    let back = CSVRow::parse_line_new(&",b".to_string()).unwrap();
    assert_eq!(back.cells, vec!["", "b"]);
}

#[test]
fn mid_field_quote_discards_prefix() {
    // Quote-reset policy: a quote opening mid-field discards what the field
    // had accumulated.
    let back = CSVRow::parse_line_new(&"ab\"cd\"".to_string()).unwrap();
    assert_eq!(back.cells, vec!["cd"]);
}

#[test]
fn add_row_is_permissive_about_width() {
    let mut doc = CSVDocument {
        header: row(vec!["a", "b"]),
        contents: vec![],
    };
    doc.add_row(row(vec!["lone"]));
    assert_eq!(doc.row_count(), 1);
    assert_eq!(doc.contents[0].cells, vec!["lone"]);
}

#[test]
fn parse_line_replaces_fields_in_place() {
    let mut r = row(vec!["stale"]);
    assert!(r.parse_line(&"x,y".to_string()).is_ok());
    assert_eq!(r.cells, vec!["x", "y"]);
}

#[test]
fn parse_line_error_keeps_fields() {
    let mut r = row(vec!["kept"]);
    let res = r.parse_line(&"\"open".to_string());
    assert_eq!(res.err(), Some("Unterminated quotes in cell."));
    assert_eq!(r.cells, vec!["kept"]);
}

struct Point {
    x: String,
    y: String,
}

impl CSVParseable for Point {
    // `row_ok` and `from_row` are ghost items of the verified library; they
    // are never called at runtime.
    fn row_ok(_: vstd::seq::Seq<vstd::seq::Seq<char>>) -> bool {
        unreachable!()
    }

    fn from_row(_: vstd::seq::Seq<vstd::seq::Seq<char>>) -> Self {
        unreachable!()
    }

    fn construct_from_row(r: &CSVRow) -> Result<Self, &'static str> {
        if r.cells.len() == 2 {
            Ok(Point {
                x: r.cells[0].clone(),
                y: r.cells[1].clone(),
            })
        } else {
            Err("a point needs exactly two fields")
        }
    }
}

#[test]
fn convert_rows_builds_records_in_order() {
    let doc = CSVDocument::parse_string(&"x,y\n1,2\n3,4\n".to_string()).unwrap();
    let points: Vec<Point> = doc.convert_rows().unwrap();
    assert_eq!(points.len(), 2);
    assert_eq!(points[0].x, "1");
    assert_eq!(points[0].y, "2");
    assert_eq!(points[1].x, "3");
    assert_eq!(points[1].y, "4");
}

#[test]
fn convert_rows_fails_fast() {
    let mut doc = CSVDocument::parse_string(&"x,y\n1,2\n".to_string()).unwrap();
    doc.add_row(row(vec!["lone"]));
    doc.add_row(row(vec!["5", "6"]));
    let res: Result<Vec<Point>, &'static str> = doc.convert_rows();
    assert_eq!(res.err(), Some("a point needs exactly two fields"));
}
