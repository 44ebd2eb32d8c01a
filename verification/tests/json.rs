use lineitems::json::{parse, JsonError};

#[test]
fn parses_required_fields_with_defaults() {
    let input = r#"[{"description":"Widget","quantity":"2","unit_price":"5.00"}]"#;
    let items = parse(input).unwrap();
    assert_eq!(items.len(), 1);
    assert_eq!(items[0].description, "Widget");
    assert_eq!(items[0].quantity.to_string(), "2.000");
    assert_eq!(items[0].unit_price.to_string(), "5.00");
    assert_eq!(items[0].discount_bps, 0);
    assert_eq!(items[0].tax_bps, Vec::<u32>::new());
}

#[test]
fn parses_optional_fields_across_whitespace_and_newlines() {
    let input = "  [\n  {\n    \"description\": \"Consulting, on-site\",\n    \"quantity\": \"2.5\",\n    \"unit_price\": \"150.00\",\n    \"discount_bps\": 1000,\n    \"tax_bps\": 825\n  }\n]\n";
    let items = parse(input).unwrap();
    assert_eq!(items[0].discount_bps, 1000);
    assert_eq!(items[0].tax_bps, vec![825]);
}

#[test]
fn multiple_tax_rates_are_a_json_array() {
    let input = r#"[{"description":"Widget","quantity":"1","unit_price":"5.00","tax_bps":[500,300]}]"#;
    let items = parse(input).unwrap();
    assert_eq!(items[0].tax_bps, vec![500, 300]);
}

#[test]
fn empty_array_is_valid() {
    assert_eq!(parse("[]").unwrap().len(), 0);
}

#[test]
fn escaped_quote_in_description() {
    let input = r#"[{"description":"6\" pipe","quantity":"1","unit_price":"1.00"}]"#;
    let items = parse(input).unwrap();
    assert_eq!(items[0].description, "6\" pipe");
}

#[test]
fn top_level_must_be_an_array() {
    let input = r#"{"description":"Widget"}"#;
    assert_eq!(parse(input), Err(JsonError::NotAnArray));
}

#[test]
fn missing_required_field_is_an_error() {
    let input = r#"[{"quantity":"1","unit_price":"1.00"}]"#;
    assert_eq!(parse(input), Err(JsonError::MissingField { index: 0, field: "description" }));
}

#[test]
fn unknown_field_is_an_error() {
    let input = r#"[{"description":"Widget","quantity":"1","unit_price":"1.00","sku":"ABC"}]"#;
    assert_eq!(parse(input), Err(JsonError::UnknownField { index: 0, field: "sku".to_string() }));
}

#[test]
fn quantity_must_be_a_string_not_a_number() {
    let input = r#"[{"description":"Widget","quantity":2,"unit_price":"1.00"}]"#;
    assert_eq!(
        parse(input),
        Err(JsonError::WrongType { index: 0, field: "quantity", expected: "string" })
    );
}

#[test]
fn malformed_json_is_a_syntax_error() {
    let input = r#"[{"description":"Widget",}]"#;
    assert!(matches!(parse(input), Err(JsonError::Syntax { .. })));
}

#[test]
fn invalid_quantity_string_is_reported() {
    let input = r#"[{"description":"Widget","quantity":"1.2345","unit_price":"1.00"}]"#;
    assert!(matches!(parse(input), Err(JsonError::InvalidField { field: "quantity", .. })));
}

#[test]
fn second_item_index_is_reported_in_errors() {
    let input = r#"[{"description":"Widget","quantity":"1","unit_price":"1.00"},{"quantity":"1","unit_price":"1.00"}]"#;
    assert_eq!(parse(input), Err(JsonError::MissingField { index: 1, field: "description" }));
}

fn syntax(input: &str) -> (usize, String) {
    match parse(input) {
        Err(JsonError::Syntax { pos, message }) => (pos, message),
        other => panic!("expected a syntax error, got {:?}", other),
    }
}

#[test]
fn syntax_error_positions_and_messages() {
    assert_eq!(syntax(r#"[{"description":"Widget",}]"#), (25, "expected a string key".to_string()));
    assert_eq!(syntax(""), (0, "unexpected end of input".to_string()));
    assert_eq!(syntax("  "), (2, "unexpected end of input".to_string()));
    assert_eq!(syntax("[] x"), (3, "unexpected trailing data after JSON value".to_string()));
    assert_eq!(syntax("[1 2]"), (4, "expected ',' or ']' in array".to_string()));
    assert_eq!(syntax(r#"{"a" 1}"#), (6, "expected ':' after object key".to_string()));
    assert_eq!(syntax(r#"{"a":1 "#), (7, "expected ',' or '}' in object".to_string()));
    assert_eq!(syntax("[tru]"), (5, "expected literal \"true\"".to_string()));
    assert_eq!(syntax("[nul"), (4, "expected literal \"null\"".to_string()));
    assert_eq!(syntax("[-]"), (2, "invalid number".to_string()));
    assert_eq!(syntax("[1.]"), (3, "invalid number: expected a digit after '.'".to_string()));
    assert_eq!(syntax("[1e+]"), (4, "invalid number: expected a digit in exponent".to_string()));
    assert_eq!(syntax("[@]"), (1, "unexpected character".to_string()));
    assert_eq!(syntax("[\"abc"), (5, "unterminated string".to_string()));
    assert_eq!(syntax(r#"["\x"]"#), (4, "invalid escape sequence".to_string()));
    assert_eq!(syntax(r#"["\u12G4"]"#), (7, "invalid hex digit in unicode escape".to_string()));
    assert_eq!(syntax(r#"["\u12"#), (6, "unterminated unicode escape".to_string()));
    assert_eq!(syntax(r#"["\uD800x"]"#), (9, "unpaired high surrogate in unicode escape".to_string()));
    assert_eq!(syntax(r#"["\uD800\uD800"]"#), (14, "invalid low surrogate in unicode escape".to_string()));
    assert_eq!(syntax(r#"["\uDC00"]"#), (8, "invalid unicode escape".to_string()));
}

#[test]
fn string_escapes_are_decoded() {
    let input = r#"[{"description":"a\\b\/c\n\t\u00e9\ud83d\ude00","quantity":"1","unit_price":"1.00"}]"#;
    let items = parse(input).unwrap();
    assert_eq!(items[0].description, "a\\b/c\n\té😀");
}

#[test]
fn rates_are_exact_decimal_integers() {
    let input = r#"[{"description":"W","quantity":"1","unit_price":"1.00","discount_bps":1.5e3,"tax_bps":[0.5e1, 7E0, -0, 4294967295, 42.000]}]"#;
    let items = parse(input).unwrap();
    assert_eq!(items[0].discount_bps, 1500);
    assert_eq!(items[0].tax_bps, vec![5, 7, 0, 4294967295, 42]);
}

#[test]
fn rates_that_are_not_integers_are_rejected() {
    for bad in ["-1", "2.5", "4294967296", "1e10", "1e-1", "5e99999999999999999999999"] {
        let input = format!(
            "[{{\"description\":\"W\",\"quantity\":\"1\",\"unit_price\":\"1.00\",\"discount_bps\":{}}}]",
            bad
        );
        assert_eq!(
            parse(&input),
            Err(JsonError::InvalidField {
                index: 0,
                field: "discount_bps",
                message: format!("expected a non-negative integer, got {}", bad),
            })
        );
    }
}

#[test]
fn tax_rate_types_are_checked() {
    let input = r#"[{"description":"W","quantity":"1","unit_price":"1.00","tax_bps":"5"}]"#;
    assert_eq!(
        parse(input),
        Err(JsonError::WrongType { index: 0, field: "tax_bps", expected: "integer or array of integers" })
    );
    let input = r#"[{"description":"W","quantity":"1","unit_price":"1.00","tax_bps":[5,"6"]}]"#;
    assert_eq!(
        parse(input),
        Err(JsonError::WrongType { index: 0, field: "tax_bps", expected: "integer or array of integers" })
    );
    let input = r#"[{"description":"W","quantity":"1","unit_price":"1.00","discount_bps":null}]"#;
    assert_eq!(parse(input), Err(JsonError::WrongType { index: 0, field: "discount_bps", expected: "integer" }));
}

#[test]
fn items_must_be_objects_and_first_duplicate_wins() {
    assert_eq!(parse("[1]"), Err(JsonError::NotAnObject { index: 0 }));
    let input = r#"[{"description":"A","description":"B","quantity":"1","unit_price":"1.00"}]"#;
    assert_eq!(parse(input).unwrap()[0].description, "A");
}

#[test]
fn readme_json_invoice() {
    let input = "[\n  {\"description\": \"Consulting, on-site\", \"quantity\": \"2.5\", \"unit_price\": \"150.00\", \"discount_bps\": 1000, \"tax_bps\": 825},\n  {\"description\": \"Widget\", \"quantity\": \"10\", \"unit_price\": \"4.99\", \"tax_bps\": 825}\n]\n";
    let items = parse(input).unwrap();
    let totals: Vec<i64> = items.iter().map(|i| i.totals().unwrap().total.cents()).collect();
    assert_eq!(totals, vec![36534, 5402]);
}

#[test]
fn member_order_does_not_matter() {
    let a = r#"[{"description":"W","quantity":"1.5","unit_price":"2.00","discount_bps":100,"tax_bps":[1,2]}]"#;
    let b = r#"[{"tax_bps":[1,2],"unit_price":"2.00","discount_bps":100,"quantity":"1.5","description":"W"}]"#;
    assert_eq!(parse(a).unwrap(), parse(b).unwrap());
}
