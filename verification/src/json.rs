//! Reading a JSON invoice into line items: a top-level array of objects,
//! one per line. `quantity` and `unit_price` must be JSON strings (a JSON
//! number is a float, which this library exists to avoid); `discount_bps` is
//! a plain integer and defaults to 0; `tax_bps` is an integer or an array of
//! integers and defaults to no rates.
use vstd::prelude::*;
use crate::amount::{
    fixed_point_value, money_error_text, quantity_error_text, Money, Quantity,
};
use crate::csv::is_known_column;
use crate::pricing::{item_views, LineItem, LineItemView};
use crate::text::{chars_equal, chars_of, debug_quoted, debug_str, decimal_text, push_decimal, push_str, string_of};
use number::{number_bps, number_to_bps};
use syntax::{document, members_model, parse_document, syntax_error_view, values_model, JsonValue, Value};

pub mod number;
pub mod syntax;

verus! {

/// Why a JSON document was refused.
#[derive(Debug, Clone, PartialEq, Eq)]
pub enum JsonError {
    Syntax { pos: usize, message: String },
    NotAnArray,
    NotAnObject { index: usize },
    MissingField { index: usize, field: &'static str },
    WrongType { index: usize, field: &'static str, expected: &'static str },
    InvalidField { index: usize, field: &'static str, message: String },
    UnknownField { index: usize, field: String },
}

/// A `JsonError` with its strings as character sequences.
pub enum JsonErrorView {
    Syntax { pos: nat, message: Seq<char> },
    NotAnArray,
    NotAnObject { index: nat },
    MissingField { index: nat, field: Seq<char> },
    WrongType { index: nat, field: Seq<char>, expected: Seq<char> },
    InvalidField { index: nat, field: Seq<char>, message: Seq<char> },
    UnknownField { index: nat, field: Seq<char> },
}

impl View for JsonError {
    type V = JsonErrorView;

    open spec fn view(&self) -> JsonErrorView {
        match self {
            JsonError::Syntax { pos, message } => JsonErrorView::Syntax { pos: *pos as nat, message: message@ },
            JsonError::NotAnArray => JsonErrorView::NotAnArray,
            JsonError::NotAnObject { index } => JsonErrorView::NotAnObject { index: *index as nat },
            JsonError::MissingField { index, field } => JsonErrorView::MissingField {
                index: *index as nat,
                field: field@,
            },
            JsonError::WrongType { index, field, expected } => JsonErrorView::WrongType {
                index: *index as nat,
                field: field@,
                expected: expected@,
            },
            JsonError::InvalidField { index, field, message } => JsonErrorView::InvalidField {
                index: *index as nat,
                field: field@,
                message: message@,
            },
            JsonError::UnknownField { index, field } => JsonErrorView::UnknownField {
                index: *index as nat,
                field: field@,
            },
        }
    }
}


/// The first member name that is not a known field.
pub open spec fn first_unknown_field(fields: Seq<(Seq<char>, JsonValue)>) -> Option<Seq<char>>
    decreases fields.len(),
{
    if fields.len() == 0 {
        None
    } else {
        match first_unknown_field(fields.drop_last()) {
            Some(n) => Some(n),
            None => if is_known_column(fields.last().0) {
                None
            } else {
                Some(fields.last().0)
            },
        }
    }
}

/// The value of the first member named `name`.
pub open spec fn find_field(fields: Seq<(Seq<char>, JsonValue)>, name: Seq<char>) -> Option<JsonValue>
    decreases fields.len(),
{
    if fields.len() == 0 {
        None
    } else {
        match find_field(fields.drop_last(), name) {
            Some(v) => Some(v),
            None => if fields.last().0 == name {
                Some(fields.last().1)
            } else {
                None
            },
        }
    }
}

/// The message for a number that is not a basis-point rate. It repeats the
/// number literal exactly as it is written in the document (`1.50`, `1e10`),
/// since the literal is never turned into a float.
pub open spec fn not_a_rate_text(text: Seq<char>) -> Seq<char> {
    "expected a non-negative integer, got "@ + text
}

/// The `description` member: a string.
pub open spec fn description_of(index: nat, fields: Seq<(Seq<char>, JsonValue)>) -> Result<Seq<char>, JsonErrorView> {
    match find_field(fields, "description"@) {
        Some(JsonValue::Str(s)) => Ok(s),
        Some(_) => Err(JsonErrorView::WrongType { index, field: "description"@, expected: "string"@ }),
        None => Err(JsonErrorView::MissingField { index, field: "description"@ }),
    }
}

/// The `quantity` member: a string holding a quantity.
pub open spec fn quantity_of(index: nat, fields: Seq<(Seq<char>, JsonValue)>) -> Result<int, JsonErrorView> {
    match find_field(fields, "quantity"@) {
        Some(JsonValue::Str(s)) => match fixed_point_value(s, 3) {
            Some(q) => Ok(q),
            None => Err(JsonErrorView::InvalidField { index, field: "quantity"@, message: quantity_error_text(s) }),
        },
        Some(_) => Err(JsonErrorView::WrongType { index, field: "quantity"@, expected: "string"@ }),
        None => Err(JsonErrorView::MissingField { index, field: "quantity"@ }),
    }
}

/// The `unit_price` member: a string holding an amount of money.
pub open spec fn unit_price_of(index: nat, fields: Seq<(Seq<char>, JsonValue)>) -> Result<int, JsonErrorView> {
    match find_field(fields, "unit_price"@) {
        Some(JsonValue::Str(s)) => match fixed_point_value(s, 2) {
            Some(p) => Ok(p),
            None => Err(JsonErrorView::InvalidField { index, field: "unit_price"@, message: money_error_text(s) }),
        },
        Some(_) => Err(JsonErrorView::WrongType { index, field: "unit_price"@, expected: "string"@ }),
        None => Err(JsonErrorView::MissingField { index, field: "unit_price"@ }),
    }
}

/// A rate given as a number literal in the member `field`.
pub open spec fn rate_of(index: nat, field: Seq<char>, text: Seq<char>) -> Result<u32, JsonErrorView> {
    match number_bps(text) {
        Some(b) => Ok(b),
        None => Err(JsonErrorView::InvalidField { index, field, message: not_a_rate_text(text) }),
    }
}

/// The optional `discount_bps` member: an integer, 0 when absent.
pub open spec fn discount_of(index: nat, fields: Seq<(Seq<char>, JsonValue)>) -> Result<u32, JsonErrorView> {
    match find_field(fields, "discount_bps"@) {
        Some(JsonValue::Number(t)) => rate_of(index, "discount_bps"@, t),
        Some(_) => Err(JsonErrorView::WrongType { index, field: "discount_bps"@, expected: "integer"@ }),
        None => Ok(0),
    }
}

/// The rates of a `tax_bps` array, or the error for its first bad element.
pub open spec fn rates_of_values(index: nat, values: Seq<JsonValue>) -> Result<Seq<u32>, JsonErrorView>
    decreases values.len(),
{
    if values.len() == 0 {
        Ok(Seq::empty())
    } else {
        match rates_of_values(index, values.drop_last()) {
            Err(e) => Err(e),
            Ok(rates) => match values.last() {
                JsonValue::Number(t) => match rate_of(index, "tax_bps"@, t) {
                    Ok(b) => Ok(rates.push(b)),
                    Err(e) => Err(e),
                },
                _ => Err(
                    JsonErrorView::WrongType {
                        index,
                        field: "tax_bps"@,
                        expected: "integer or array of integers"@,
                    },
                ),
            },
        }
    }
}

/// The optional `tax_bps` member: one integer or an array of integers, no
/// rates when absent.
pub open spec fn tax_of(index: nat, fields: Seq<(Seq<char>, JsonValue)>) -> Result<Seq<u32>, JsonErrorView> {
    match find_field(fields, "tax_bps"@) {
        Some(JsonValue::Number(t)) => match rate_of(index, "tax_bps"@, t) {
            Ok(b) => Ok(seq![b]),
            Err(e) => Err(e),
        },
        Some(JsonValue::Array(values)) => rates_of_values(index, values),
        Some(_) => Err(
            JsonErrorView::WrongType { index, field: "tax_bps"@, expected: "integer or array of integers"@ },
        ),
        None => Ok(Seq::empty()),
    }
}

/// The line item of the `index`-th element of the top-level array. Members
/// are checked in order: unknown names, then description, quantity, unit
/// price, discount, tax rates.
pub open spec fn item_of_value(index: nat, value: JsonValue) -> Result<LineItemView, JsonErrorView> {
    match value {
        JsonValue::Object(fields) => match first_unknown_field(fields) {
            Some(n) => Err(JsonErrorView::UnknownField { index, field: n }),
            None => match description_of(index, fields) {
                Err(e) => Err(e),
                Ok(description) => match quantity_of(index, fields) {
                    Err(e) => Err(e),
                    Ok(quantity) => match unit_price_of(index, fields) {
                        Err(e) => Err(e),
                        Ok(unit_price) => match discount_of(index, fields) {
                            Err(e) => Err(e),
                            Ok(discount_bps) => match tax_of(index, fields) {
                                Err(e) => Err(e),
                                Ok(tax_bps) => Ok(LineItemView { description, quantity, unit_price, discount_bps, tax_bps }),
                            },
                        },
                    },
                },
            },
        },
        _ => Err(JsonErrorView::NotAnObject { index }),
    }
}

/// The items of the elements of the top-level array, or the error of the
/// first element that fails.
pub open spec fn items_of_values(values: Seq<JsonValue>) -> Result<Seq<LineItemView>, JsonErrorView>
    decreases values.len(),
{
    if values.len() == 0 {
        Ok(Seq::empty())
    } else {
        match items_of_values(values.drop_last()) {
            Err(e) => Err(e),
            Ok(items) => match item_of_value((values.len() - 1) as nat, values.last()) {
                Err(e) => Err(e),
                Ok(item) => Ok(items.push(item)),
            },
        }
    }
}

/// What `parse` gives for a JSON document.
pub open spec fn parse_spec(input: Seq<char>) -> Result<Seq<LineItemView>, JsonErrorView> {
    match document(input) {
        Err(e) => Err(syntax_error_view(e)),
        Ok(JsonValue::Array(values)) => items_of_values(values),
        Ok(_) => Err(JsonErrorView::NotAnArray),
    }
}


/// Whether `name` is a known field.
fn is_known_name(name: &String) -> (b: bool)
    ensures
        b == is_known_column(name@),
{
    let c = chars_of(name.as_str());
    chars_equal(&c, "description") || chars_equal(&c, "quantity") || chars_equal(&c, "unit_price")
        || chars_equal(&c, "discount_bps") || chars_equal(&c, "tax_bps")
}

proof fn lemma_first_unknown_field_extends(fields: Seq<(Seq<char>, JsonValue)>, k: int)
    requires
        0 <= k <= fields.len(),
        first_unknown_field(fields.take(k)) is Some,
    ensures
        first_unknown_field(fields) == first_unknown_field(fields.take(k)),
    decreases fields.len() - k,
{
    if k < fields.len() {
        assert(fields.take(k + 1).drop_last() == fields.take(k));
        lemma_first_unknown_field_extends(fields, k + 1);
    } else {
        assert(fields.take(k) == fields);
    }
}

proof fn lemma_find_field_extends(fields: Seq<(Seq<char>, JsonValue)>, name: Seq<char>, k: int)
    requires
        0 <= k <= fields.len(),
        find_field(fields.take(k), name) is Some,
    ensures
        find_field(fields, name) == find_field(fields.take(k), name),
    decreases fields.len() - k,
{
    if k < fields.len() {
        assert(fields.take(k + 1).drop_last() == fields.take(k));
        lemma_find_field_extends(fields, name, k + 1);
    } else {
        assert(fields.take(k) == fields);
    }
}

/// The first member whose name is not a known field.
fn unknown_field(fields: &Vec<(String, Value)>) -> (r: Option<usize>)
    ensures
        match first_unknown_field(members_model(fields@)) {
            Some(n) => r matches Some(i) && i < fields.len() && fields@[i as int].0@ == n,
            None => r is None,
        },
{
    let ghost m = members_model(fields@);
    let mut i: usize = 0;
    while i < fields.len()
        invariant
            i <= fields.len(),
            m == members_model(fields@),
            first_unknown_field(m.take(i as int)) is None,
        decreases fields.len() - i,
    {
        assert(m.take(i + 1).drop_last() == m.take(i as int));
        assert(m.take(i + 1).last() == m[i as int]);
        if !is_known_name(&fields[i].0) {
            proof { lemma_first_unknown_field_extends(m, i + 1); }
            return Some(i);
        }
        i = i + 1;
    }
    assert(m.take(fields.len() as int) == m);
    None
}

/// The first member named `name`.
fn find(fields: &Vec<(String, Value)>, name: &str) -> (r: Option<usize>)
    ensures
        match find_field(members_model(fields@), name@) {
            Some(v) => r matches Some(i) && i < fields.len() && fields@[i as int].1.model() == v,
            None => r is None,
        },
{
    let ghost m = members_model(fields@);
    let mut i: usize = 0;
    while i < fields.len()
        invariant
            i <= fields.len(),
            m == members_model(fields@),
            find_field(m.take(i as int), name@) is None,
        decreases fields.len() - i,
    {
        assert(m.take(i + 1).drop_last() == m.take(i as int));
        assert(m.take(i + 1).last() == m[i as int]);
        let c = chars_of(fields[i].0.as_str());
        if chars_equal(&c, name) {
            proof { lemma_find_field_extends(m, name@, i + 1); }
            return Some(i);
        }
        i = i + 1;
    }
    assert(m.take(fields.len() as int) == m);
    None
}

/// A rate given as the number literal `text` in the member `field`. A literal
/// that is not an integer from 0 to `u32::MAX` is refused with a message that
/// repeats the literal as written.
fn rate_from_text(index: usize, field: &'static str, text: &String) -> (r: Result<u32, JsonError>)
    ensures
        match rate_of(index as nat, field@, text@) {
            Ok(b) => r == Ok::<u32, JsonError>(b),
            Err(e) => r matches Err(err) && err@ == e,
        },
{
    let t = chars_of(text.as_str());
    match number_to_bps(&t) {
        Some(b) => Ok(b),
        None => {
            let mut out: Vec<char> = Vec::new();
            push_str(&mut out, "expected a non-negative integer, got ");
            push_str(&mut out, text.as_str());
            Err(JsonError::InvalidField { index, field, message: string_of(&out) })
        },
    }
}

proof fn lemma_rates_of_values_err_extends(index: nat, values: Seq<JsonValue>, k: int)
    requires
        0 <= k <= values.len(),
        rates_of_values(index, values.take(k)) is Err,
    ensures
        rates_of_values(index, values) == rates_of_values(index, values.take(k)),
    decreases values.len() - k,
{
    if k < values.len() {
        assert(values.take(k + 1).drop_last() == values.take(k));
        lemma_rates_of_values_err_extends(index, values, k + 1);
    } else {
        assert(values.take(k) == values);
    }
}

/// The rates of a `tax_bps` array.
fn rates_from_values(index: usize, values: &Vec<Value>) -> (r: Result<Vec<u32>, JsonError>)
    ensures
        match rates_of_values(index as nat, values_model(values@)) {
            Ok(rates) => r matches Ok(v) && v@ == rates,
            Err(e) => r matches Err(err) && err@ == e,
        },
{
    let ghost m = values_model(values@);
    let mut rates: Vec<u32> = Vec::new();
    let mut k: usize = 0;
    assert(m.take(0) == Seq::<JsonValue>::empty());
    while k < values.len()
        invariant
            k <= values.len(),
            m == values_model(values@),
            rates_of_values(index as nat, m.take(k as int)) == Ok::<Seq<u32>, JsonErrorView>(rates@),
        decreases values.len() - k,
    {
        assert(m.take(k + 1).drop_last() == m.take(k as int));
        assert(m.take(k + 1).last() == values@[k as int].model());
        match &values[k] {
            Value::Number(t) => match rate_from_text(index, "tax_bps", t) {
                Ok(b) => rates.push(b),
                Err(e) => {
                    proof { lemma_rates_of_values_err_extends(index as nat, m, k + 1); }
                    return Err(e);
                },
            },
            _ => {
                proof { lemma_rates_of_values_err_extends(index as nat, m, k + 1); }
                return Err(
                    JsonError::WrongType { index, field: "tax_bps", expected: "integer or array of integers" },
                );
            },
        }
        k = k + 1;
    }
    assert(m.take(values.len() as int) == m);
    Ok(rates)
}

/// The line item of the `index`-th element of the top-level array.
#[verifier::rlimit(30)]
pub fn line_item_from_value(index: usize, value: &Value) -> (r: Result<LineItem, JsonError>)
    ensures
        match item_of_value(index as nat, value.model()) {
            Ok(v) => r matches Ok(item) && item@ == v,
            Err(e) => r matches Err(err) && err@ == e,
        },
{
    let fields = match value {
        Value::Object(fields) => fields,
        _ => return Err(JsonError::NotAnObject { index }),
    };
    let ghost m = members_model(fields@);
    assert(value.model() == JsonValue::Object(m)) by {
        assert(value.model()->Object_0 =~= m);
    }
    if let Some(i) = unknown_field(fields) {
        return Err(JsonError::UnknownField { index, field: fields[i].0.clone() });
    }
    let description = match find(fields, "description") {
        Some(i) => match &fields[i].1 {
            Value::String(s) => s.clone(),
            _ => return Err(JsonError::WrongType { index, field: "description", expected: "string" }),
        },
        None => return Err(JsonError::MissingField { index, field: "description" }),
    };
    let quantity = match find(fields, "quantity") {
        Some(i) => match &fields[i].1 {
            Value::String(s) => match Quantity::parse_decimal(s.as_str()) {
                Ok(q) => q,
                Err(e) => return Err(JsonError::InvalidField { index, field: "quantity", message: e.to_string() }),
            },
            _ => return Err(JsonError::WrongType { index, field: "quantity", expected: "string" }),
        },
        None => return Err(JsonError::MissingField { index, field: "quantity" }),
    };
    let unit_price = match find(fields, "unit_price") {
        Some(i) => match &fields[i].1 {
            Value::String(s) => match Money::parse_decimal(s.as_str()) {
                Ok(p) => p,
                Err(e) => return Err(JsonError::InvalidField { index, field: "unit_price", message: e.to_string() }),
            },
            _ => return Err(JsonError::WrongType { index, field: "unit_price", expected: "string" }),
        },
        None => return Err(JsonError::MissingField { index, field: "unit_price" }),
    };
    let discount_bps = match find(fields, "discount_bps") {
        Some(i) => match &fields[i].1 {
            Value::Number(t) => match rate_from_text(index, "discount_bps", t) {
                Ok(b) => b,
                Err(e) => return Err(e),
            },
            _ => return Err(JsonError::WrongType { index, field: "discount_bps", expected: "integer" }),
        },
        None => 0,
    };
    let tax_bps = match find(fields, "tax_bps") {
        Some(i) => match &fields[i].1 {
            Value::Number(t) => match rate_from_text(index, "tax_bps", t) {
                Ok(b) => {
                    let mut v: Vec<u32> = Vec::new();
                    v.push(b);
                    assert(v@ == seq![b]);
                    v
                },
                Err(e) => return Err(e),
            },
            Value::Array(values) => {
                assert(fields@[i as int].1.model()->Array_0 =~= values_model(values@));
                match rates_from_values(index, values) {
                    Ok(v) => v,
                    Err(e) => return Err(e),
                }
            },
            _ => return Err(
                JsonError::WrongType { index, field: "tax_bps", expected: "integer or array of integers" },
            ),
        },
        None => Vec::new(),
    };
    Ok(LineItem { description, quantity, unit_price, discount_bps, tax_bps })
}

proof fn lemma_items_of_values_err_extends(values: Seq<JsonValue>, k: int)
    requires
        0 <= k <= values.len(),
        items_of_values(values.take(k)) is Err,
    ensures
        items_of_values(values) == items_of_values(values.take(k)),
    decreases values.len() - k,
{
    if k < values.len() {
        assert(values.take(k + 1).drop_last() == values.take(k));
        lemma_items_of_values_err_extends(values, k + 1);
    } else {
        assert(values.take(k) == values);
    }
}

/// Parses a full JSON document into line items.
pub fn parse(input: &str) -> (r: Result<Vec<LineItem>, JsonError>)
    ensures
        match parse_spec(input@) {
            Ok(items) => r matches Ok(v) && item_views(v@) == items,
            Err(e) => r matches Err(err) && err@ == e,
        },
{
    let value = match parse_document(input) {
        Ok(v) => v,
        Err(e) => return Err(e),
    };
    let values = match &value {
        Value::Array(values) => values,
        _ => return Err(JsonError::NotAnArray),
    };
    let ghost m = values_model(values@);
    assert(value.model()->Array_0 =~= m);
    let mut items: Vec<LineItem> = Vec::new();
    let mut k: usize = 0;
    assert(m.take(0) == Seq::<JsonValue>::empty());
    assert(item_views(items@) == Seq::<LineItemView>::empty());
    while k < values.len()
        invariant
            k <= values.len(),
            m == values_model(values@),
            parse_spec(input@) == items_of_values(m),
            items_of_values(m.take(k as int)) == Ok::<Seq<LineItemView>, JsonErrorView>(item_views(items@)),
        decreases values.len() - k,
    {
        assert(m.take(k + 1).drop_last() == m.take(k as int));
        assert(m.take(k + 1).last() == values@[k as int].model());
        match line_item_from_value(k, &values[k]) {
            Ok(item) => {
                let ghost before = items@;
                items.push(item);
                assert(item_views(items@) == item_views(before).push(item@));
            },
            Err(e) => {
                proof { lemma_items_of_values_err_extends(m, k + 1); }
                return Err(e);
            },
        }
        k = k + 1;
    }
    assert(m.take(values.len() as int) == m);
    Ok(items)
}


/// The message of a JSON error; items are counted from 1.
pub open spec fn json_error_text(e: JsonErrorView) -> Seq<char> {
    match e {
        JsonErrorView::Syntax { pos, message } => "syntax error at character "@ + decimal_text(pos) + ": "@ + message,
        JsonErrorView::NotAnArray => "top-level JSON value must be an array of line items"@,
        JsonErrorView::NotAnObject { index } => "item "@ + decimal_text(index + 1) + ": expected an object"@,
        JsonErrorView::MissingField { index, field } => "item "@ + decimal_text(index + 1)
            + ": missing required field "@ + debug_quoted(field),
        JsonErrorView::WrongType { index, field, expected } => "item "@ + decimal_text(index + 1) + ": field "@
            + debug_quoted(field) + " must be a "@ + expected,
        JsonErrorView::InvalidField { index, field, message } => "item "@ + decimal_text(index + 1)
            + ": field "@ + debug_quoted(field) + ": "@ + message,
        JsonErrorView::UnknownField { index, field } => "item "@ + decimal_text(index + 1)
            + ": unrecognized field "@ + debug_quoted(field),
    }
}

impl JsonError {
    /// The error message, e.g. `item 2: missing required field "description"`.
    pub fn to_string(&self) -> (r: String)
        ensures
            r@ == json_error_text(self@),
    {
        let mut out: Vec<char> = Vec::new();
        match self {
            JsonError::Syntax { pos, message } => {
                push_str(&mut out, "syntax error at character ");
                push_decimal(&mut out, *pos as u128);
                push_str(&mut out, ": ");
                push_str(&mut out, message.as_str());
            },
            JsonError::NotAnArray => push_str(&mut out, "top-level JSON value must be an array of line items"),
            JsonError::NotAnObject { index } => {
                push_str(&mut out, "item ");
                push_decimal(&mut out, *index as u128 + 1);
                push_str(&mut out, ": expected an object");
            },
            JsonError::MissingField { index, field } => {
                push_str(&mut out, "item ");
                push_decimal(&mut out, *index as u128 + 1);
                push_str(&mut out, ": missing required field ");
                push_str(&mut out, debug_str(field).as_str());
            },
            JsonError::WrongType { index, field, expected } => {
                push_str(&mut out, "item ");
                push_decimal(&mut out, *index as u128 + 1);
                push_str(&mut out, ": field ");
                push_str(&mut out, debug_str(field).as_str());
                push_str(&mut out, " must be a ");
                push_str(&mut out, expected);
            },
            JsonError::InvalidField { index, field, message } => {
                push_str(&mut out, "item ");
                push_decimal(&mut out, *index as u128 + 1);
                push_str(&mut out, ": field ");
                push_str(&mut out, debug_str(field).as_str());
                push_str(&mut out, ": ");
                push_str(&mut out, message.as_str());
            },
            JsonError::UnknownField { index, field } => {
                push_str(&mut out, "item ");
                push_decimal(&mut out, *index as u128 + 1);
                push_str(&mut out, ": unrecognized field ");
                push_str(&mut out, debug_str(field.as_str()).as_str());
            },
        }
        string_of(&out)
    }
}


proof fn lemma_find_field_meaning(fields: Seq<(Seq<char>, JsonValue)>, name: Seq<char>)
    ensures
        find_field(fields, name) is None ==> forall|j: int| 0 <= j < fields.len() ==> #[trigger] fields[j].0 != name,
        find_field(fields, name) is Some ==> exists|i: int|
            0 <= i < fields.len() && #[trigger] fields[i].0 == name && find_field(fields, name) == Some(fields[i].1),
    decreases fields.len(),
{
    if fields.len() > 0 {
        let front = fields.drop_last();
        lemma_find_field_meaning(front, name);
        match find_field(front, name) {
            Some(v) => {
                let i = choose|i: int| 0 <= i < front.len() && #[trigger] front[i].0 == name && find_field(front, name) == Some(front[i].1);
                assert(fields[i] == front[i]);
            },
            None => {
                assert forall|j: int| 0 <= j < front.len() implies #[trigger] fields[j].0 != name by {
                    assert(front[j] == fields[j]);
                }
                if fields.last().0 == name {
                    assert(fields[fields.len() - 1].0 == name);
                }
            },
        }
    }
}

proof fn lemma_find_field_reordered(
    fields: Seq<(Seq<char>, JsonValue)>,
    order: Seq<int>,
    back: Seq<int>,
    name: Seq<char>,
)
    requires
        order.len() == fields.len(),
        back.len() == fields.len(),
        forall|i: int| 0 <= i < fields.len() ==> 0 <= #[trigger] order[i] < fields.len() && back[order[i]] == i,
        forall|k: int| 0 <= k < fields.len() ==> 0 <= #[trigger] back[k] < fields.len() && order[back[k]] == k,
        forall|i: int, j: int| 0 <= i < fields.len() && 0 <= j < fields.len() && i != j ==> fields[i].0 != fields[j].0,
    ensures
        find_field(Seq::new(fields.len(), |i: int| fields[order[i]]), name) == find_field(fields, name),
{
    let moved = Seq::new(fields.len(), |i: int| fields[order[i]]);
    lemma_find_field_meaning(fields, name);
    lemma_find_field_meaning(moved, name);
    if find_field(fields, name) is Some {
        let k = choose|i: int| 0 <= i < fields.len() && #[trigger] fields[i].0 == name && find_field(fields, name) == Some(fields[i].1);
        assert(moved[back[k]] == fields[k]);
        assert(moved[back[k]].0 == name);
        let c = choose|i: int| 0 <= i < moved.len() && #[trigger] moved[i].0 == name && find_field(moved, name) == Some(moved[i].1);
        assert(moved[c] == fields[order[c]]);
        if order[c] != k {
            assert(fields[order[c]].0 != fields[k].0);
        }
    } else if find_field(moved, name) is Some {
        let c = choose|i: int| 0 <= i < moved.len() && #[trigger] moved[i].0 == name && find_field(moved, name) == Some(moved[i].1);
        assert(fields[order[c]].0 == name);
    }
}

proof fn lemma_first_unknown_field_none(fields: Seq<(Seq<char>, JsonValue)>)
    ensures
        first_unknown_field(fields) is None <==> forall|j: int| 0 <= j < fields.len() ==> is_known_column(
            #[trigger] fields[j].0,
        ),
    decreases fields.len(),
{
    if fields.len() > 0 {
        let front = fields.drop_last();
        lemma_first_unknown_field_none(front);
        assert forall|j: int| 0 <= j < front.len() implies #[trigger] front[j] == fields[j] by {}
        if first_unknown_field(fields) is None {
            assert forall|j: int| 0 <= j < fields.len() implies is_known_column(#[trigger] fields[j].0) by {
                if j < front.len() {
                    assert(front[j] == fields[j]);
                }
            }
        }
    }
}

/// The order of an item's members does not matter: when no name occurs
/// twice, reordering the members (member `i` of the new object is member
/// `order[i]` of the old, `back` undoing it) reads the same item or the same
/// error, provided every name is known (with two unknown names, the first of
/// them is the one reported).
pub proof fn lemma_member_order_is_irrelevant(
    index: nat,
    fields: Seq<(Seq<char>, JsonValue)>,
    order: Seq<int>,
    back: Seq<int>,
)
    requires
        order.len() == fields.len(),
        back.len() == fields.len(),
        forall|i: int| 0 <= i < fields.len() ==> 0 <= #[trigger] order[i] < fields.len() && back[order[i]] == i,
        forall|k: int| 0 <= k < fields.len() ==> 0 <= #[trigger] back[k] < fields.len() && order[back[k]] == k,
        forall|i: int, j: int| 0 <= i < fields.len() && 0 <= j < fields.len() && i != j ==> fields[i].0 != fields[j].0,
        forall|j: int| 0 <= j < fields.len() ==> is_known_column(#[trigger] fields[j].0),
    ensures
        item_of_value(index, JsonValue::Object(Seq::new(fields.len(), |i: int| fields[order[i]]))) == item_of_value(
            index,
            JsonValue::Object(fields),
        ),
{
    let moved = Seq::new(fields.len(), |i: int| fields[order[i]]);
    lemma_first_unknown_field_none(fields);
    lemma_first_unknown_field_none(moved);
    assert forall|j: int| 0 <= j < moved.len() implies is_known_column(#[trigger] moved[j].0) by {
        assert(moved[j] == fields[order[j]]);
    }
    lemma_find_field_reordered(fields, order, back, "description"@);
    lemma_find_field_reordered(fields, order, back, "quantity"@);
    lemma_find_field_reordered(fields, order, back, "unit_price"@);
    lemma_find_field_reordered(fields, order, back, "discount_bps"@);
    lemma_find_field_reordered(fields, order, back, "tax_bps"@);
}


/// The index of the item an error names, if it names one.
pub open spec fn error_index(e: JsonErrorView) -> Option<nat> {
    match e {
        JsonErrorView::Syntax { .. } => None,
        JsonErrorView::NotAnArray => None,
        JsonErrorView::NotAnObject { index } => Some(index),
        JsonErrorView::MissingField { index, .. } => Some(index),
        JsonErrorView::WrongType { index, .. } => Some(index),
        JsonErrorView::InvalidField { index, .. } => Some(index),
        JsonErrorView::UnknownField { index, .. } => Some(index),
    }
}

proof fn lemma_rates_of_values_index(index: nat, values: Seq<JsonValue>)
    ensures
        rates_of_values(index, values) matches Err(e) ==> error_index(e) == Some(index),
    decreases values.len(),
{
    if values.len() > 0 {
        lemma_rates_of_values_index(index, values.drop_last());
    }
}

/// How an element of the top-level array is read: an element that is not an
/// object is refused as such; an object with a member name that is not a
/// known field is refused with the first such name, whatever its other
/// members hold; and every error names the element's own index.
pub proof fn lemma_item_errors_name_their_index(index: nat, value: JsonValue)
    ensures
        !(value is Object) ==> item_of_value(index, value) == Err::<LineItemView, JsonErrorView>(
            JsonErrorView::NotAnObject { index },
        ),
        value is Object && first_unknown_field(value->Object_0) is Some ==> item_of_value(index, value)
            == Err::<LineItemView, JsonErrorView>(
            JsonErrorView::UnknownField { index, field: first_unknown_field(value->Object_0)->0 },
        ),
        item_of_value(index, value) matches Err(e) ==> error_index(e) == Some(index),
{
    if let JsonValue::Object(fields) = value {
        if let Some(JsonValue::Array(values)) = find_field(fields, "tax_bps"@) {
            lemma_rates_of_values_index(index, values);
        }
    }
}

} // verus!
