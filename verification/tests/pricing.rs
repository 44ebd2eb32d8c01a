use lineitems::invoice::{detect_format, InvoiceFormat};
use lineitems::json::JsonError;
use lineitems::{LineItem, LineItemError, Money, Quantity};

/// One row per awkward case: fractional quantities, credits (negative
/// quantities), a discount that zeroes tax, rounding exactly on a half cent in
/// both directions, multiple tax rates that round independently, and the two
/// error paths (overflow, out-of-range discount).
struct Case {
    name: &'static str,
    quantity: i64,
    unit_price: i64,
    discount_bps: u32,
    tax_bps: Vec<u32>,
    expected: Result<(i64, i64, i64, i64), LineItemError>,
}

fn cases() -> Vec<Case> {
    vec![
        Case {
            name: "whole units, no discount or tax",
            quantity: 2000,
            unit_price: 500,
            discount_bps: 0,
            tax_bps: vec![],
            expected: Ok((1000, 0, 0, 1000)),
        },
        Case {
            name: "fractional quantity rounds an exact half cent up",
            quantity: 500,
            unit_price: 3,
            discount_bps: 0,
            tax_bps: vec![],
            expected: Ok((2, 0, 0, 2)),
        },
        Case {
            name: "negative quantity (a credit) rounds an exact half away from zero",
            quantity: -500,
            unit_price: 3,
            discount_bps: 0,
            tax_bps: vec![],
            expected: Ok((-2, 0, 0, -2)),
        },
        Case {
            name: "zero quantity zeroes everything even with discount and tax set",
            quantity: 0,
            unit_price: 999,
            discount_bps: 500,
            tax_bps: vec![800],
            expected: Ok((0, 0, 0, 0)),
        },
        Case {
            name: "discount rounds an exact half away from zero",
            quantity: 1000,
            unit_price: 100,
            discount_bps: 150,
            tax_bps: vec![],
            expected: Ok((100, 2, 0, 98)),
        },
        Case {
            name: "a 100% discount leaves nothing for tax to apply to",
            quantity: 1000,
            unit_price: 500,
            discount_bps: 10_000,
            tax_bps: vec![2000],
            expected: Ok((500, 500, 0, 0)),
        },
        Case {
            name: "discount then tax each round independently",
            quantity: 1000,
            unit_price: 999,
            discount_bps: 1000,
            tax_bps: vec![825],
            expected: Ok((999, 100, 74, 973)),
        },
        Case {
            name: "two tax rates round independently and can sum to more than one \
                   combined rate would",
            quantity: 1000,
            unit_price: 100,
            discount_bps: 0,
            tax_bps: vec![50, 50],
            expected: Ok((100, 0, 2, 102)),
        },
        Case {
            name: "quantity times price overflows an i64 cent count",
            quantity: 2000,
            unit_price: i64::MAX,
            discount_bps: 0,
            tax_bps: vec![],
            expected: Err(LineItemError::Overflow),
        },
        Case {
            name: "a discount above 100% is rejected outright",
            quantity: 1000,
            unit_price: 100,
            discount_bps: 10_001,
            tax_bps: vec![],
            expected: Err(LineItemError::InvalidDiscount(10_001)),
        },
    ]
}

fn item(quantity: i64, unit_price: i64, discount_bps: u32, tax_bps: Vec<u32>) -> LineItem {
    LineItem {
        description: "line".to_string(),
        quantity: Quantity::from_thousandths(quantity),
        unit_price: Money::from_cents(unit_price),
        discount_bps,
        tax_bps,
    }
}

fn cents(item: &LineItem) -> Result<(i64, i64, i64, i64), LineItemError> {
    item.totals().map(|t| (t.subtotal.cents(), t.discount.cents(), t.tax.cents(), t.total.cents()))
}

#[test]
fn totals_table() {
    for case in cases() {
        let item = LineItem {
            description: case.name.to_string(),
            quantity: Quantity::from_thousandths(case.quantity),
            unit_price: Money::from_cents(case.unit_price),
            discount_bps: case.discount_bps,
            tax_bps: case.tax_bps.clone(),
        };

        let got = item
            .totals()
            .map(|t| (t.subtotal.cents(), t.discount.cents(), t.tax.cents(), t.total.cents()));

        assert_eq!(got, case.expected, "case: {}", case.name);
    }
}

#[test]
fn money_parses_dollars_and_cents() {
    assert_eq!("12.34".parse::<Money>().unwrap(), Money::from_cents(1234));
    assert_eq!("-5".parse::<Money>().unwrap(), Money::from_cents(-500));
    assert_eq!("0.05".parse::<Money>().unwrap(), Money::from_cents(5));
    assert!("1.234".parse::<Money>().is_err());
    assert!("abc".parse::<Money>().is_err());
}

#[test]
fn quantity_parses_up_to_three_decimal_places() {
    assert_eq!("2.5".parse::<Quantity>().unwrap(), Quantity::from_thousandths(2500));
    assert_eq!("-0.5".parse::<Quantity>().unwrap(), Quantity::from_thousandths(-500));
    assert!("1.2345".parse::<Quantity>().is_err());
}

#[test]
fn money_display_pads_single_digit_cents() {
    assert_eq!(Money::from_cents(105).to_string(), "1.05");
    assert_eq!(Money::from_cents(-105).to_string(), "-1.05");
}

#[test]
fn readme_consulting_line() {
    let item = LineItem {
        description: "Consulting, on-site".to_string(),
        quantity: "2.5".parse::<Quantity>().unwrap(),
        unit_price: "150.00".parse::<Money>().unwrap(),
        discount_bps: 1000,
        tax_bps: vec![825],
    };
    let totals = item.totals().unwrap();
    assert_eq!(totals.subtotal.to_string(), "375.00");
    assert_eq!(totals.discount.to_string(), "37.50");
    assert_eq!(totals.tax.to_string(), "27.84");
    assert_eq!(totals.total.to_string(), "365.34");
}

#[test]
fn readme_widget_lines() {
    let sale = item(10_000, 499, 0, vec![825]);
    assert_eq!(cents(&sale), Ok((4990, 0, 412, 5402)));
    let credit = item(-2000, 499, 0, vec![825]);
    assert_eq!(cents(&credit), Ok((-998, 0, -82, -1080)));
}

#[test]
fn credit_mirrors_sale() {
    for (q, p, d, t) in [(1500, 333, 825, vec![825]), (2500, 3333, 1250, vec![50, 50, 700]), (1, 1, 10_000, vec![1])] {
        let sale = cents(&item(q, p, d, t.clone())).unwrap();
        let credit = cents(&item(-q, p, d, t)).unwrap();
        assert_eq!(credit, (-sale.0, -sale.1, -sale.2, -sale.3));
    }
}

#[test]
fn total_is_subtotal_less_discount_plus_tax() {
    let (s, d, t, total) = cents(&item(3333, 777, 1234, vec![825, 100])).unwrap();
    assert_eq!(total, s - d + t);
    assert!(0 <= d && d <= s);
}

#[test]
fn full_discount_leaves_nothing() {
    assert_eq!(cents(&item(-7777, 1234, 10_000, vec![825, 300])), Ok((-9597, -9597, 0, 0)));
}

#[test]
fn zero_quantity_is_free() {
    assert_eq!(cents(&item(0, i64::MAX, 10_000, vec![u32::MAX])), Ok((0, 0, 0, 0)));
}

#[test]
fn rounding_half_cases() {
    // 0.5 cent rounds up, -0.5 cent rounds down, 0.499 rounds to zero.
    assert_eq!(cents(&item(500, 1, 0, vec![])), Ok((1, 0, 0, 1)));
    assert_eq!(cents(&item(-500, 1, 0, vec![])), Ok((-1, 0, 0, -1)));
    assert_eq!(cents(&item(499, 1, 0, vec![])), Ok((0, 0, 0, 0)));
    assert_eq!(cents(&item(-499, 1, 0, vec![])), Ok((0, 0, 0, 0)));
}

#[test]
fn huge_tax_rate_overflows() {
    assert_eq!(cents(&item(1000, i64::MAX / 2, 0, vec![u32::MAX])), Err(LineItemError::Overflow));
    assert_eq!(cents(&item(1000, i64::MAX / 2, 0, vec![10_000, 10_000])), Err(LineItemError::Overflow));
}

#[test]
fn line_item_error_messages() {
    assert_eq!(LineItemError::Overflow.to_string(), "arithmetic overflow while computing line totals");
    assert_eq!(LineItemError::InvalidDiscount(10_001).to_string(), "discount_bps 10001 exceeds 10000 (100%)");
}

#[test]
fn money_and_quantity_checked_arithmetic() {
    let a = Money::from_cents(i64::MAX);
    assert_eq!(a.checked_add(Money::from_cents(1)), None);
    assert_eq!(Money::from_cents(5).checked_add(Money::from_cents(-7)), Some(Money::from_cents(-2)));
    assert_eq!(Money::from_cents(i64::MIN).checked_sub(Money::from_cents(1)), None);
    assert_eq!(Money::from_cents(5).checked_sub(Money::from_cents(7)), Some(Money::from_cents(-2)));
    assert_eq!(Quantity::from_thousandths(-42).as_thousandths(), -42);
}

#[test]
fn fixed_point_edge_cases() {
    assert_eq!("  7.1 ".parse::<Money>().unwrap(), Money::from_cents(710));
    assert_eq!("5.".parse::<Money>().unwrap(), Money::from_cents(500));
    assert!(".5".parse::<Money>().is_err());
    assert!("+5".parse::<Money>().is_err());
    assert!("".parse::<Money>().is_err());
    assert!("-".parse::<Money>().is_err());
    assert!("1.2.3".parse::<Money>().is_err());
    assert_eq!("92233720368547758.07".parse::<Money>().unwrap(), Money::from_cents(i64::MAX));
    assert!("92233720368547758.08".parse::<Money>().is_err());
    assert_eq!("-92233720368547758.07".parse::<Money>().unwrap(), Money::from_cents(-i64::MAX));
    assert_eq!("0000000000000000000000001".parse::<Quantity>().unwrap(), Quantity::from_thousandths(1000));
    assert_eq!(Quantity::from_thousandths(-2500).to_string(), "-2.500");
    assert_eq!(Quantity::from_thousandths(7).to_string(), "0.007");
    assert_eq!(Money::from_cents(i64::MIN).to_string(), "-92233720368547758.08");
}

#[test]
fn parse_error_messages_quote_the_input() {
    let e = "a\"b".parse::<Money>().unwrap_err();
    assert_eq!(e.to_string(), "invalid money value \"a\\\"b\" (expected e.g. \"12.34\" or \"-5\")");
    let e = "1.2345".parse::<Quantity>().unwrap_err();
    assert_eq!(e.to_string(), "invalid quantity \"1.2345\" (expected e.g. \"2.5\", up to 3 decimal places)");
}

#[test]
fn invoice_format_follows_extension_or_leading_bracket() {
    assert_eq!(detect_format(Some("invoice.json"), "description,quantity"), InvoiceFormat::Json);
    assert_eq!(detect_format(Some("invoice.csv"), "[]"), InvoiceFormat::Json);
    assert_eq!(detect_format(None, "[{}]"), InvoiceFormat::Json);
    assert_eq!(detect_format(None, " [{}]"), InvoiceFormat::Csv);
    assert_eq!(detect_format(Some("invoice.csv"), "description"), InvoiceFormat::Csv);
    assert_eq!(detect_format(Some("json"), ""), InvoiceFormat::Csv);
}

#[test]
fn json_error_messages_count_items_from_one() {
    assert_eq!(
        JsonError::MissingField { index: 1, field: "description" }.to_string(),
        "item 2: missing required field \"description\""
    );
    assert_eq!(
        JsonError::Syntax { pos: 25, message: "expected a string key".to_string() }.to_string(),
        "syntax error at character 25: expected a string key"
    );
    assert_eq!(
        JsonError::WrongType { index: 0, field: "quantity", expected: "string" }.to_string(),
        "item 1: field \"quantity\" must be a string"
    );
}

#[test]
fn printed_amounts_parse_back() {
    for cents in [0, 1, -1, 5, 99, 100, 105, -105, 123_456_789, i64::MAX, i64::MIN + 1] {
        let m = Money::from_cents(cents);
        assert_eq!(m.to_string().parse::<Money>().unwrap(), m);
        let q = Quantity::from_thousandths(cents);
        assert_eq!(q.to_string().parse::<Quantity>().unwrap(), q);
    }
    assert!(Money::from_cents(i64::MIN).to_string().parse::<Money>().is_err());
}

#[test]
fn tax_has_the_sign_of_the_discounted_subtotal() {
    let (_, _, tax, _) = cents(&item(-3000, 1999, 250, vec![825, 50])).unwrap();
    assert!(tax < 0);
    let (_, _, tax, _) = cents(&item(3000, 1999, 250, vec![825, 50])).unwrap();
    assert!(tax > 0);
}
