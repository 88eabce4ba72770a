use csvdoc::{CSVDocument, CSVRow};

#[test]
fn test_parse_string_1() {
    let string: String = "cats,dogs,cars,humans".to_string();
    let doc: CSVDocument = CSVDocument::parse_string(&string).unwrap_or_else(|err| {
        panic!("{}", err);
    });

    assert_eq!(doc.header.cells, vec!["cats", "dogs", "cars", "humans"]);
}

#[test]
fn test_parse_string_2() {
    let string: String = "cats,dogs,cars,humans\n1,500,0,500\n".to_string();
    let doc: CSVDocument = CSVDocument::parse_string(&string).unwrap_or_else(|err| {
        panic!("{}", err);
    });

    assert_eq!(doc.header.cells, vec!["cats", "dogs", "cars", "humans"]);
    assert_eq!(doc.contents.len(), 1);
    assert_eq!(doc.contents[0].cells, vec!["1", "500", "0", "500"]);
}

#[test]
fn test_parse_string_3() {
    let string: String = "cats,dogs,cars,humans\n1,500,0,500\n2,20,0,20\n".to_string();
    let doc: CSVDocument = CSVDocument::parse_string(&string).unwrap_or_else(|err| {
        panic!("{}", err);
    });

    assert_eq!(doc.header.cells, vec!["cats", "dogs", "cars", "humans"]);
    assert_eq!(doc.contents.len(), 2);
    assert_eq!(doc.contents[0].cells, vec!["1", "500", "0", "500"]);
    assert_eq!(doc.contents[1].cells, vec!["2", "20", "0", "20"]);
}

#[test]
fn test_parse_string_embedded_quotes() {
    let string: String = "cats,dogs,cars,humans\nnone,\"\"\"james\"\"\",none,none".to_string();
    let doc: CSVDocument = CSVDocument::parse_string(&string).unwrap_or_else(|err| {
        panic!("{}", err);
    });

    assert_eq!(doc.header.cells, vec!["cats", "dogs", "cars", "humans"]);
    assert_eq!(doc.contents.len(), 1);
    assert_eq!(
        doc.contents[0].cells,
        vec!["none", "\"james\"", "none", "none"]
    );
}

#[test]
fn test_parse_string_embedded_quotes_2() {
    let string: String = "cats,dogs,cars,humans\nnone,\"\"\"james\"\"\",none,none\n\"james,\"\"cars!\"\"\",none,none,none".to_string();
    let doc: CSVDocument = CSVDocument::parse_string(&string).unwrap_or_else(|err| {
        panic!("{}", err);
    });

    assert_eq!(doc.header.cells, vec!["cats", "dogs", "cars", "humans"]);
    assert_eq!(doc.contents.len(), 2);
    assert_eq!(
        doc.contents[0].cells,
        vec!["none", "\"james\"", "none", "none"]
    );
    assert_eq!(
        doc.contents[1].cells,
        vec!["james,\"cars!\"", "none", "none", "none"]
    );
}

#[test]
fn test_parse_string_embedded_nl() {
    let string: String =
        "cats,dogs,cars,humans\nnone,\"james,\njohn\n catherine!\",none,none".to_string();
    let doc: CSVDocument = CSVDocument::parse_string(&string).unwrap_or_else(|err| {
        panic!("{}", err);
    });

    assert_eq!(doc.header.cells, vec!["cats", "dogs", "cars", "humans"]);
    assert_eq!(doc.contents.len(), 1);
    assert_eq!(
        doc.contents[0].cells,
        vec!["none", "james,\njohn\n catherine!", "none", "none"]
    );
}

#[test]
fn test_parse_string_embedded_nl_2() {
    let string: String = "cats,dogs,cars,humans\nnone,\"james,\njohn\n catherine!\",none,none\nnone,none,none,none\n".to_string();
    let doc: CSVDocument = CSVDocument::parse_string(&string).unwrap_or_else(|err| {
        panic!("{}", err);
    });

    assert_eq!(doc.header.cells, vec!["cats", "dogs", "cars", "humans"]);
    assert_eq!(doc.contents.len(), 2);
    assert_eq!(
        doc.contents[0].cells,
        vec!["none", "james,\njohn\n catherine!", "none", "none"]
    );
    assert_eq!(doc.contents[1].cells, vec!["none", "none", "none", "none"]);
}

#[test]
fn test_to_string_single_line() {
    let doc: CSVDocument = CSVDocument {
        header: CSVRow {
            cells: vec![
                String::from("name"),
                String::from("dob"),
                String::from("location"),
            ],
        },
        contents: vec![],
    };
    assert_eq!(doc.to_string(), "name,dob,location\n");
}

#[test]
fn test_to_string_multi_line() {
    let doc: CSVDocument = CSVDocument {
        header: CSVRow {
            cells: vec![
                String::from("name"),
                String::from("dob"),
                String::from("location"),
            ],
        },
        contents: vec![CSVRow {
            cells: vec![
                String::from("james"),
                String::from("14/03/2000"),
                String::from("NYC"),
            ],
        }],
    };
    assert_eq!(doc.to_string(), "name,dob,location\njames,14/03/2000,NYC\n");
}

#[test]
fn test_to_string_multi_line_2() {
    let doc: CSVDocument = CSVDocument {
        header: CSVRow {
            cells: vec![
                String::from("name"),
                String::from("dob"),
                String::from("location"),
            ],
        },
        contents: vec![CSVRow {
            cells: vec![
                String::from("james"),
                String::from("14/03/2000"),
                String::from("\"Jersey\""),
            ],
        }],
    };
    assert_eq!(
        doc.to_string(),
        "name,dob,location\njames,14/03/2000,\"\"\"Jersey\"\"\"\n"
    );
}

#[test]
fn test_row_count() {
    let doc: CSVDocument = CSVDocument {
        header: CSVRow {
            cells: vec![
                String::from("name"),
                String::from("dob"),
                String::from("location"),
            ],
        },
        contents: vec![CSVRow {
            cells: vec![
                String::from("james"),
                String::from("14/03/2000"),
                String::from("\"Jersey\""),
            ],
        }],
    };
    assert_eq!(doc.row_count(), 1);
}

#[test]
fn test_add_row() {
    let mut doc: CSVDocument = CSVDocument {
        header: CSVRow {
            cells: vec![
                String::from("name"),
                String::from("dob"),
                String::from("location"),
            ],
        },
        contents: vec![CSVRow {
            cells: vec![
                String::from("james"),
                String::from("14/03/2000"),
                String::from("\"Jersey\""),
            ],
        }],
    };
    assert_eq!(doc.row_count(), 1);
    let row = CSVRow {
        cells: vec![
            String::from("james"),
            String::from("14/03/2000"),
            String::from("\"Jersey\""),
        ],
    };
    doc.add_row(row);
    assert_eq!(doc.row_count(), 2);
}

#[test]
#[should_panic(expected = "Index is too large.")]
fn test_remove_row_fail() {
    let mut doc: CSVDocument = CSVDocument {
        header: CSVRow {
            cells: vec![
                String::from("name"),
                String::from("dob"),
                String::from("location"),
            ],
        },
        contents: vec![CSVRow {
            cells: vec![
                String::from("james"),
                String::from("14/03/2000"),
                String::from("\"Jersey\""),
            ],
        }],
    };
    assert_eq!(doc.row_count(), 1);
    let row = CSVRow {
        cells: vec![
            String::from("james"),
            String::from("14/03/2000"),
            String::from("\"Jersey\""),
        ],
    };
    doc.add_row(row);
    assert_eq!(doc.row_count(), 2);
    match doc.remove_row(3) {
        Ok(_) => (),
        Err(e) => panic!("{}", e),
    }
}

#[test]
fn test_remove_row() {
    let mut doc: CSVDocument = CSVDocument {
        header: CSVRow {
            cells: vec![
                String::from("name"),
                String::from("dob"),
                String::from("location"),
            ],
        },
        contents: vec![CSVRow {
            cells: vec![
                String::from("james"),
                String::from("14/03/2000"),
                String::from("\"Jersey\""),
            ],
        }],
    };
    assert_eq!(doc.row_count(), 1);
    let row = CSVRow {
        cells: vec![
            String::from("james"),
            String::from("14/03/2000"),
            String::from("\"Jersey\""),
        ],
    };
    doc.add_row(row);
    assert_eq!(doc.row_count(), 2);
    match doc.remove_row(0) {
        Ok(_) => (),
        Err(e) => panic!("{}", e),
    }
    assert_eq!(doc.row_count(), 1);
}
