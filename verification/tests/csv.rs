use lineitems::csv::{parse, CsvError};

#[test]
fn parses_header_in_any_column_order() {
    let input = "unit_price,description,quantity\n10.00,Widget,2\n";
    let items = parse(input).unwrap();
    assert_eq!(items.len(), 1);
    assert_eq!(items[0].description, "Widget");
    assert_eq!(items[0].quantity.to_string(), "2.000");
    assert_eq!(items[0].unit_price.to_string(), "10.00");
    assert_eq!(items[0].discount_bps, 0);
    assert_eq!(items[0].tax_bps, Vec::<u32>::new());
}

#[test]
fn quoted_field_can_contain_a_comma() {
    let input = "description,quantity,unit_price\n\"Consulting, on-site\",1,50.00\n";
    let items = parse(input).unwrap();
    assert_eq!(items[0].description, "Consulting, on-site");
}

#[test]
fn skips_blank_and_comment_lines_before_and_after_header() {
    let input = "# invoice\n\ndescription,quantity,unit_price\n\n# a widget\nWidget,1,5.00\n";
    let items = parse(input).unwrap();
    assert_eq!(items.len(), 1);
}

#[test]
fn optional_columns_default_to_zero() {
    let input = "description,quantity,unit_price,tax_bps\nWidget,1,5.00,825\n";
    let items = parse(input).unwrap();
    assert_eq!(items[0].discount_bps, 0);
    assert_eq!(items[0].tax_bps, vec![825]);
}

#[test]
fn multiple_tax_rates_are_semicolon_separated() {
    let input = "description,quantity,unit_price,tax_bps\nWidget,1,5.00,500;300\n";
    let items = parse(input).unwrap();
    assert_eq!(items[0].tax_bps, vec![500, 300]);
}

#[test]
fn missing_required_column_is_an_error() {
    let input = "quantity,unit_price\n1,5.00\n";
    assert_eq!(parse(input), Err(CsvError::MissingColumn("description")));
}

#[test]
fn unknown_column_is_an_error() {
    let input = "description,quantity,unit_price,sku\nWidget,1,5.00,ABC\n";
    assert_eq!(parse(input), Err(CsvError::UnknownColumn("sku".to_string())));
}

#[test]
fn wrong_field_count_is_an_error() {
    let input = "description,quantity,unit_price\nWidget,1\n";
    assert_eq!(parse(input), Err(CsvError::WrongFieldCount { line: 2, expected: 3, got: 2 }));
}

#[test]
fn empty_input_is_an_error() {
    assert_eq!(parse(""), Err(CsvError::MissingHeader));
}

#[test]
fn readme_invoice() {
    let input = "# invoice.csv\ndescription,quantity,unit_price,discount_bps,tax_bps\n\"Consulting, on-site\",2.5,150.00,1000,825\nWidget,10,4.99,0,825\nReturned widget,-2,4.99,0,825\n";
    let items = parse(input).unwrap();
    assert_eq!(items.len(), 3);
    assert_eq!(items[2].description, "Returned widget");
    assert_eq!(items[2].quantity.as_thousandths(), -2000);
    let totals: Vec<i64> = items.iter().map(|i| i.totals().unwrap().total.cents()).collect();
    assert_eq!(totals, vec![36534, 5402, -1080]);
    assert_eq!(totals.iter().sum::<i64>(), 40856);
}

#[test]
fn header_is_case_insensitive_and_crlf_is_accepted() {
    let input = "Description,QUANTITY,Unit_Price\r\nWidget,1,2.00\r\n";
    let items = parse(input).unwrap();
    assert_eq!(items[0].description, "Widget");
    assert_eq!(items[0].unit_price.cents(), 200);
}

#[test]
fn quoted_fields_keep_spaces_and_escaped_quotes() {
    let input = "description,quantity,unit_price\n\" 6\"\" pipe \" , 1 ,1.00\n";
    let items = parse(input).unwrap();
    assert_eq!(items[0].description, " 6\" pipe  ");
    assert_eq!(items[0].quantity.as_thousandths(), 1000);
}

#[test]
fn invalid_fields_are_reported_with_their_line() {
    let input = "description,quantity,unit_price,discount_bps,tax_bps\n\n# c\nW,1,1.00,x,1\nV,1,1.00,0,5;y\n";
    assert_eq!(
        parse(input),
        Err(CsvError::InvalidField {
            line: 4,
            column: "discount_bps",
            message: "invalid integer \"x\"".to_string(),
        })
    );
    let input = "description,quantity,unit_price,tax_bps\nV,1,1.00,5; y\n";
    assert_eq!(
        parse(input),
        Err(CsvError::InvalidField { line: 2, column: "tax_bps", message: "invalid integer \" y\"".to_string() })
    );
    let input = "description,quantity,unit_price\nW,1.2345,1.00\n";
    let err = parse(input).unwrap_err();
    assert_eq!(
        err.to_string(),
        "line 2: column \"quantity\": invalid quantity \"1.2345\" (expected e.g. \"2.5\", up to 3 decimal places)"
    );
    let input = "description,quantity,unit_price\nW,1,abc\n";
    assert!(matches!(parse(input), Err(CsvError::InvalidField { line: 2, column: "unit_price", .. })));
}

#[test]
fn tax_rates_edge_cases() {
    let input = "description,quantity,unit_price,tax_bps\nW,1,1.00,\nV,1,1.00, 7 ; +8 \n";
    let items = parse(input).unwrap();
    assert_eq!(items[0].tax_bps, Vec::<u32>::new());
    assert_eq!(items[1].tax_bps, vec![7, 8]);
    let input = "description,quantity,unit_price,tax_bps\nW,1,1.00,5;\n";
    assert!(matches!(parse(input), Err(CsvError::InvalidField { column: "tax_bps", .. })));
}

#[test]
fn csv_error_messages() {
    assert_eq!(CsvError::MissingHeader.to_string(), "file has no header row");
    assert_eq!(
        CsvError::MissingColumn("description").to_string(),
        "header is missing required column \"description\""
    );
    assert_eq!(CsvError::UnknownColumn("sku".to_string()).to_string(), "header has unrecognized column \"sku\"");
    assert_eq!(
        CsvError::WrongFieldCount { line: 12, expected: 3, got: 2 }.to_string(),
        "line 12: expected 3 fields (matching the header), got 2"
    );
}

#[test]
fn only_comments_means_no_header() {
    assert_eq!(parse("# nothing\n   \n"), Err(CsvError::MissingHeader));
}

#[test]
fn first_unknown_column_wins_over_missing_ones() {
    assert_eq!(parse("sku,color\n"), Err(CsvError::UnknownColumn("sku".to_string())));
    assert_eq!(parse("description,unit_price\n"), Err(CsvError::MissingColumn("quantity")));
}

#[test]
fn column_order_and_comment_lines_do_not_change_items() {
    let a = parse("description,quantity,unit_price,tax_bps\nW,1.5,2.00,1;2\n").unwrap();
    let b = parse("# c\n\ntax_bps,unit_price,description,quantity\n  \n1;2,2.00,W,1.5\n# end\n").unwrap();
    assert_eq!(a, b);
}

#[test]
fn every_field_quoted_splits_back_to_the_same_fields() {
    let input = "\"description\",\"quantity\",\"unit_price\"\n\"Say \"\"hi\"\", then, bye\",\"3\",\"1.25\"\n";
    let items = parse(input).unwrap();
    assert_eq!(items.len(), 1);
    assert_eq!(items[0].description, "Say \"hi\", then, bye");
    assert_eq!(items[0].quantity.to_string(), "3.000");
    assert_eq!(items[0].unit_price.to_string(), "1.25");
}

#[test]
fn inserted_comment_only_shifts_error_lines_after_it() {
    let bad = "description,quantity,unit_price\nW,1,1.00\nV,2\n";
    assert_eq!(parse(bad), Err(CsvError::WrongFieldCount { line: 3, expected: 3, got: 2 }));
    let before = "# note\ndescription,quantity,unit_price\nW,1,1.00\nV,2\n";
    assert_eq!(parse(before), Err(CsvError::WrongFieldCount { line: 4, expected: 3, got: 2 }));
    let after = "description,quantity,unit_price\nW,1,1.00\nV,2\n\n# done\n";
    assert_eq!(parse(after), Err(CsvError::WrongFieldCount { line: 3, expected: 3, got: 2 }));
    let good = "description,quantity,unit_price\nW,1,1.00\n";
    let with_blank = "description,quantity,unit_price\n   \nW,1,1.00\n";
    assert_eq!(parse(good), parse(with_blank));
}
