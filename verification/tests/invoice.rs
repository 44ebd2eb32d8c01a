use lineitems::amount::parse_fixed_point;
use lineitems::csv::{parse as parse_csv, split_line, parse_tax_rates, Columns, CsvError};
use lineitems::invoice::{price_invoice, LineReport};
use lineitems::json::syntax::Value;
use lineitems::json::{line_item_from_value, JsonError};
use lineitems::pricing::{proportional, round_half_away_from_zero};
use lineitems::{LineItem, LineItemError, Money, Quantity};

fn item(description: &str, quantity: i64, unit_price: i64, discount_bps: u32, tax_bps: Vec<u32>) -> LineItem {
    LineItem {
        description: description.to_string(),
        quantity: Quantity::from_thousandths(quantity),
        unit_price: Money::from_cents(unit_price),
        discount_bps,
        tax_bps,
    }
}

fn chars(s: &str) -> Vec<char> {
    s.chars().collect()
}

#[test]
fn readme_invoice_grand_total() {
    let input = "description,quantity,unit_price,discount_bps,tax_bps\n\"Consulting, on-site\",2.5,150.00,1000,825\nWidget,10,4.99,0,825\nReturned widget,-2,4.99,0,825\n";
    let items = parse_csv(input).unwrap();
    let report = price_invoice(&items);
    assert_eq!(report.grand_total.to_string(), "408.56");
    assert!(!report.had_error);
    assert_eq!(report.lines.len(), 3);
    assert!(matches!(report.lines[2], LineReport::Priced(t) if t.total.cents() == -1080));
}

#[test]
fn failed_line_is_reported_and_left_out_of_the_total() {
    let items = vec![item("A", 1000, 100, 0, vec![]), item("B", 1000, 100, 10_001, vec![]), item("C", 2000, 50, 0, vec![])];
    let report = price_invoice(&items);
    assert_eq!(report.grand_total.cents(), 200);
    assert!(report.had_error);
    assert_eq!(report.lines[1], LineReport::Failed(LineItemError::InvalidDiscount(10_001)));
}

#[test]
fn running_total_overflow_is_reported() {
    let items = vec![item("big", 1000, i64::MAX, 0, vec![]), item("one", 1000, 1, 0, vec![]), item("back", -1000, 5, 0, vec![])];
    let report = price_invoice(&items);
    assert_eq!(report.lines[1], LineReport::RunningTotalOverflow);
    assert_eq!(report.grand_total.cents(), i64::MAX - 5);
    assert!(report.had_error);
}

#[test]
fn empty_invoice_totals_zero() {
    let report = price_invoice(&Vec::new());
    assert_eq!(report.grand_total.cents(), 0);
    assert!(!report.had_error);
    assert!(report.lines.is_empty());
}

#[test]
fn rounding_helper_works_on_its_whole_range() {
    assert_eq!(round_half_away_from_zero(15, 10), 2);
    assert_eq!(round_half_away_from_zero(-15, 10), -2);
    assert_eq!(round_half_away_from_zero(14, 10), 1);
    assert_eq!(round_half_away_from_zero(i128::MAX - 1, 2), i128::MAX / 2);
    assert_eq!(round_half_away_from_zero(-(i128::MAX - 1), 2), -(i128::MAX / 2));
    assert_eq!(round_half_away_from_zero(i128::MAX - 2, 4), i128::MAX / 4);
    assert_eq!(round_half_away_from_zero(7, i128::MAX), 0);
    assert_eq!(proportional(1, 5000, 10_000), Ok(Money::from_cents(1)));
    assert_eq!(proportional(i64::MAX, 2, 1), Err(LineItemError::Overflow));
}

#[test]
fn split_line_quoting_round_trip() {
    let fields = split_line(&chars("\"a,b\",\"say \"\"hi\"\"\",\"\""));
    assert_eq!(fields, vec![chars("a,b"), chars("say \"hi\""), chars("")]);
}

#[test]
fn header_columns_and_tax_rates() {
    let header = vec![chars("quantity"), chars("description"), chars("unit_price"), chars("description")];
    let cols = Columns::from_header(&header).ok().unwrap();
    assert_eq!((cols.description, cols.quantity, cols.unit_price), (1, 0, 2));
    assert_eq!(cols.discount_bps, None);
    let header = vec![chars("description"), chars("unit_price")];
    assert!(matches!(Columns::from_header(&header), Err(CsvError::MissingColumn("quantity"))));
    assert_eq!(parse_tax_rates(&chars("")), Ok(vec![]));
    assert_eq!(parse_tax_rates(&chars("5; 7")), Ok(vec![5, 7]));
    assert_eq!(parse_tax_rates(&chars("5;x;y")), Err("invalid integer \"x\"".to_string()));
}

#[test]
fn one_item_per_content_row_described_by_first_description_column() {
    let input = "\n# c\ndescription,quantity,unit_price\n\nA,1,1.00\n# x\nB,2,2.00\n";
    let items = parse_csv(input).unwrap();
    assert_eq!(items.len(), 2);
    assert_eq!(items[1].description, "B");
    assert_eq!(parse_csv("\n# only\n  \n"), Err(CsvError::MissingHeader));
}

#[test]
fn item_errors_carry_their_index() {
    assert_eq!(line_item_from_value(4, &Value::Null), Err(JsonError::NotAnObject { index: 4 }));
    let obj = Value::Object(vec![
        ("quantity".to_string(), Value::Null),
        ("sku".to_string(), Value::Null),
        ("zzz".to_string(), Value::Null),
    ]);
    assert_eq!(line_item_from_value(2, &obj), Err(JsonError::UnknownField { index: 2, field: "sku".to_string() }));
    let obj = Value::Object(vec![("description".to_string(), Value::String("W".to_string()))]);
    assert_eq!(line_item_from_value(7, &obj), Err(JsonError::MissingField { index: 7, field: "quantity" }));
}

#[test]
fn fixed_point_scales_up_to_eighteen_decimals() {
    assert_eq!(parse_fixed_point("1.5", 18), Ok(1_500_000_000_000_000_000));
    assert_eq!(parse_fixed_point("9.3", 18), Err(()));
    assert_eq!(parse_fixed_point("-0.000000000000000001", 18), Ok(-1));
    assert_eq!(parse_fixed_point("0", 19), Err(()));
    assert_eq!(parse_fixed_point(" 12 ", 0), Ok(12));
    assert_eq!(parse_fixed_point("1.", 0), Ok(1));
    assert_eq!(parse_fixed_point("1.0", 0), Err(()));
}

#[test]
fn closed_form_totals_on_concrete_values() {
    // s = R(333 * 1500, 1000) = 500, c = R(500 * 825, 10000) = 41, a = 459,
    // T = R(459 * 50, 10000) * 2 + R(459 * 700, 10000) = 2 + 2 + 32 = 36.
    let line = item("x", 1500, 333, 825, vec![50, 50, 700]);
    let t = line.totals().unwrap();
    assert_eq!((t.subtotal.cents(), t.discount.cents(), t.tax.cents(), t.total.cents()), (500, 41, 36, 495));
    // The tax sum alone overflows although the subtotal fits.
    let line = item("y", 1000, i64::MAX / 2, 0, vec![10_000, 10_000, 10_000]);
    assert_eq!(line.totals(), Err(LineItemError::Overflow));
}

#[test]
fn sale_and_return_that_both_price_mirror() {
    let sale = item("s", 2500, 3333, 1250, vec![50, 700]).totals().unwrap();
    let ret = item("r", -2500, 3333, 1250, vec![50, 700]).totals().unwrap();
    assert_eq!(ret.subtotal.cents(), -sale.subtotal.cents());
    assert_eq!(ret.discount.cents(), -sale.discount.cents());
    assert_eq!(ret.tax.cents(), -sale.tax.cents());
    assert_eq!(ret.total.cents(), -sale.total.cents());
}
