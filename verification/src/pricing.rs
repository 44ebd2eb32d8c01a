//! Pricing one invoice line: subtotal, discount, tax and total, each
//! step rounded to the nearest cent with exact halves rounded away from zero.
use vstd::prelude::*;
use crate::amount::{fits_i64, Money, Quantity};
use crate::amount::{lemma_money_in_range, lemma_quantity_in_range};
use crate::text::{decimal_text, push_decimal, push_str, string_of};
use vstd::arithmetic::div_mod::{lemma_div_is_ordered, lemma_fundamental_div_mod, lemma_mod_bound};
use vstd::arithmetic::mul::{lemma_mul_inequality, lemma_mul_unary_negation};

verus! {

broadcast use {lemma_money_in_range, lemma_quantity_in_range};

/// `n / d` rounded to the nearest integer, exact halves away from zero
/// (for `d > 0`).
pub open spec fn round_half_away(n: int, d: int) -> int {
    if n >= 0 {
        (n + d / 2) / d
    } else {
        -((-n + d / 2) / d)
    }
}

/// `amount * multiplier / denominator`, rounded as `round_half_away` does.
pub open spec fn proportional_spec(amount: int, multiplier: int, denominator: int) -> int {
    round_half_away(amount * multiplier, denominator)
}

/// The tax one basis-point rate charges on `base`.
pub open spec fn rate_tax(base: int, rate: u32) -> int {
    proportional_spec(base, rate as int, 10000)
}

/// The tax that all `rates` charge on `base`, each rate rounded on its own
/// and the results summed in order; `None` when one rate's tax or a
/// running sum does not fit in an `i64`.
pub open spec fn tax_total(base: int, rates: Seq<u32>) -> Option<int>
    decreases rates.len(),
{
    if rates.len() == 0 {
        Some(0)
    } else {
        match tax_total(base, rates.drop_last()) {
            None => None,
            Some(t) => {
                let rt = rate_tax(base, rates.last());
                if fits_i64(rt) && fits_i64(t + rt) {
                    Some(t + rt)
                } else {
                    None
                }
            },
        }
    }
}

/// The error a line item can fail with.
#[derive(Debug, Clone, Copy, PartialEq, Eq, Structural)]
pub enum LineItemError {
    Overflow,
    InvalidDiscount(u32),
}

/// The message of a pricing error.
pub open spec fn line_item_error_text(e: LineItemError) -> Seq<char> {
    match e {
        LineItemError::Overflow => "arithmetic overflow while computing line totals"@,
        LineItemError::InvalidDiscount(bps) => "discount_bps "@ + decimal_text(bps as nat)
            + " exceeds 10000 (100%)"@,
    }
}

impl LineItemError {
    /// The error message, e.g. `discount_bps 10001 exceeds 10000 (100%)`.
    pub fn to_string(&self) -> (r: String)
        ensures
            r@ == line_item_error_text(*self),
    {
        let mut out: Vec<char> = Vec::new();
        match self {
            LineItemError::Overflow => push_str(&mut out, "arithmetic overflow while computing line totals"),
            LineItemError::InvalidDiscount(bps) => {
                push_str(&mut out, "discount_bps ");
                push_decimal(&mut out, *bps as u128);
                push_str(&mut out, " exceeds 10000 (100%)");
            },
        }
        string_of(&out)
    }
}

/// The priced line: `(subtotal, discount, tax, total)` in cents, computed from
/// a unit price in cents, a quantity in thousandths, a discount and tax rates
/// in basis points.
pub open spec fn totals_spec(unit_price: int, quantity: int, discount_bps: u32, tax_bps: Seq<u32>)
    -> Result<(int, int, int, int), LineItemError>
{
    if discount_bps > 10000 {
        Err(LineItemError::InvalidDiscount(discount_bps))
    } else {
        let subtotal = proportional_spec(unit_price, quantity, 1000);
        let discount = proportional_spec(subtotal, discount_bps as int, 10000);
        let after = subtotal - discount;
        if !fits_i64(subtotal) || !fits_i64(discount) || !fits_i64(after) {
            Err(LineItemError::Overflow)
        } else {
            match tax_total(after, tax_bps) {
                None => Err(LineItemError::Overflow),
                Some(tax) => if fits_i64(after + tax) {
                    Ok((subtotal, discount, tax, after + tax))
                } else {
                    Err(LineItemError::Overflow)
                },
            }
        }
    }
}

/// One priced line on an invoice: some quantity of a thing, a unit price,
/// a discount, and zero or more tax rates. `discount_bps` and each entry
/// in `tax_bps` are basis points (1/100 of a percent), so 825 means 8.25%.
/// Each tax rate rounds to the nearest cent on its own.
#[derive(Debug, Clone, PartialEq, Eq)]
pub struct LineItem {
    pub description: String,
    pub quantity: Quantity,
    pub unit_price: Money,
    pub discount_bps: u32,
    pub tax_bps: Vec<u32>,
}

/// What a `LineItem` holds: the description's characters, the quantity in
/// thousandths, the unit price in cents, and the rates in basis points.
pub struct LineItemView {
    pub description: Seq<char>,
    pub quantity: int,
    pub unit_price: int,
    pub discount_bps: u32,
    pub tax_bps: Seq<u32>,
}

impl View for LineItem {
    type V = LineItemView;

    open spec fn view(&self) -> LineItemView {
        LineItemView {
            description: self.description@,
            quantity: self.quantity@,
            unit_price: self.unit_price@,
            discount_bps: self.discount_bps,
            tax_bps: self.tax_bps@,
        }
    }
}

/// The views of a list of line items.
pub open spec fn item_views(items: Seq<LineItem>) -> Seq<LineItemView> {
    items.map_values(|it: LineItem| it@)
}

/// The result of pricing a `LineItem`: subtotal, the discount taken off it,
/// tax charged on what's left, and the final total.
#[derive(Debug, Clone, Copy, PartialEq, Eq, Structural)]
pub struct LineTotals {
    pub subtotal: Money,
    pub discount: Money,
    pub tax: Money,
    pub total: Money,
}

impl LineTotals {
    /// The four amounts in cents.
    pub open spec fn cents(self) -> (int, int, int, int) {
        (self.subtotal@, self.discount@, self.tax@, self.total@)
    }
}

impl LineItem {
    /// The priced line, as `totals_spec` gives it for this item.
    pub open spec fn totals_of(&self) -> Result<(int, int, int, int), LineItemError> {
        totals_spec(self.unit_price@, self.quantity@, self.discount_bps, self.tax_bps@)
    }

    /// Computes subtotal, discount, tax, and total.
    ///
    /// Discount is taken off the subtotal first, then each tax rate is
    /// applied to what's left and summed; every step rounds to the nearest
    /// cent independently, rounding exact halves away from zero.
    pub fn totals(&self) -> (r: Result<LineTotals, LineItemError>)
        ensures
            match r {
                Ok(t) => self.totals_of() == Ok::<(int, int, int, int), LineItemError>(t.cents()),
                Err(e) => self.totals_of() == Err::<(int, int, int, int), LineItemError>(e),
            },
    {
        if self.discount_bps > 10_000 {
            return Err(LineItemError::InvalidDiscount(self.discount_bps));
        }
        let subtotal = match proportional(self.unit_price.cents(), self.quantity.as_thousandths(), 1000) {
            Ok(m) => m,
            Err(e) => return Err(e),
        };
        let discount = match proportional(subtotal.cents(), self.discount_bps as i64, 10_000) {
            Ok(m) => m,
            Err(e) => return Err(e),
        };
        let after_discount = match subtotal.checked_sub(discount) {
            Some(m) => m,
            None => return Err(LineItemError::Overflow),
        };
        let ghost base = after_discount@;
        let mut tax = Money::from_cents(0);
        let n = self.tax_bps.len();
        let mut i: usize = 0;
        while i < n
            invariant
                n == self.tax_bps@.len(),
                i <= n,
                base == after_discount@,
                self.discount_bps <= 10000,
                subtotal@ == proportional_spec(self.unit_price@, self.quantity@, 1000),
                discount@ == proportional_spec(subtotal@, self.discount_bps as int, 10000),
                after_discount@ == subtotal@ - discount@,
                tax_total(base, self.tax_bps@.take(i as int)) == Some(tax@),
            decreases n - i,
        {
            let rate = self.tax_bps[i];
            assert(self.tax_bps@.take(i + 1).drop_last() == self.tax_bps@.take(i as int));
            let rate_tax = match proportional(after_discount.cents(), rate as i64, 10_000) {
                Ok(m) => m,
                Err(e) => {
                    proof { lemma_tax_total_none_extends(base, self.tax_bps@, i + 1); }
                    return Err(e);
                },
            };
            assert(self.tax_bps@.take(i + 1).last() == rate);
            tax = match tax.checked_add(rate_tax) {
                Some(m) => m,
                None => {
                    proof { lemma_tax_total_none_extends(base, self.tax_bps@, i + 1); }
                    return Err(LineItemError::Overflow);
                },
            };
            i = i + 1;
        }
        assert(self.tax_bps@.take(n as int) == self.tax_bps@);
        let total = match after_discount.checked_add(tax) {
            Some(m) => m,
            None => return Err(LineItemError::Overflow),
        };
        Ok(LineTotals { subtotal, discount, tax, total })
    }
}

/// Once the running tax fails on a prefix of the rates, it fails on the
/// whole list.
proof fn lemma_tax_total_none_extends(base: int, rates: Seq<u32>, k: int)
    requires
        0 <= k <= rates.len(),
        tax_total(base, rates.take(k)) is None,
    ensures
        tax_total(base, rates) is None,
    decreases rates.len() - k,
{
    if k < rates.len() {
        assert(rates.take(k + 1).drop_last() == rates.take(k));
        lemma_tax_total_none_extends(base, rates, k + 1);
    } else {
        assert(rates.take(k) == rates);
    }
}

/// Computes `round_half_away(amount_cents * multiplier, denominator)` as a
/// `Money`, widening to i128 so the intermediate product cannot overflow,
/// and reporting overflow if the result does not fit in an `i64` cent count.
pub fn proportional(amount_cents: i64, multiplier: i64, denominator: i64) -> (r: Result<Money, LineItemError>)
    requires
        0 < denominator,
    ensures
        match r {
            Ok(m) => m@ == proportional_spec(amount_cents as int, multiplier as int, denominator as int),
            Err(e) => e == LineItemError::Overflow && !fits_i64(
                proportional_spec(amount_cents as int, multiplier as int, denominator as int),
            ),
        },
{
    proof { lemma_product_bound(amount_cents, multiplier); }
    let product = (amount_cents as i128) * (multiplier as i128);
    let rounded = round_half_away_from_zero(product, denominator as i128);
    if rounded < i64::MIN as i128 || rounded > i64::MAX as i128 {
        return Err(LineItemError::Overflow);
    }
    Ok(Money::from_cents(rounded as i64))
}

proof fn lemma_product_bound(a: i64, b: i64)
    ensures
        -0x4000_0000_0000_0000_0000_0000_0000_0000 <= (a as int) * (b as int)
            <= 0x4000_0000_0000_0000_0000_0000_0000_0000,
{
    let x = a as int;
    let y = b as int;
    assert(-0x8000_0000_0000_0000 <= x <= 0x8000_0000_0000_0000);
    assert(-0x8000_0000_0000_0000 <= y <= 0x8000_0000_0000_0000);
    assert(-0x4000_0000_0000_0000_0000_0000_0000_0000 <= x * y <= 0x4000_0000_0000_0000_0000_0000_0000_0000)
        by (nonlinear_arith)
        requires
            -0x8000_0000_0000_0000 <= x <= 0x8000_0000_0000_0000,
            -0x8000_0000_0000_0000 <= y <= 0x8000_0000_0000_0000,
    ;
}

/// `numerator / denominator` rounded to the nearest integer, exact halves
/// away from zero.
pub fn round_half_away_from_zero(numerator: i128, denominator: i128) -> (r: i128)
    requires
        0 < denominator,
        -(i128::MAX - denominator / 2) <= numerator <= i128::MAX - denominator / 2,
    ensures
        r == round_half_away(numerator as int, denominator as int),
{
    let half = denominator / 2;
    if numerator >= 0 {
        (numerator + half) / denominator
    } else {
        -((-numerator + half) / denominator)
    }
}


/// Rounding goes to the nearest integer: `round_half_away(n, d) * d` is
/// within half of `d` of `n`, and where `n` lies exactly halfway the result is
/// the one farther from zero.
pub proof fn lemma_round_is_nearest_half_away(n: int, d: int)
    requires
        0 < d,
    ensures
        -d <= 2 * (n - round_half_away(n, d) * d) <= d,
        2 * (n - round_half_away(n, d) * d) == d || 2 * (n - round_half_away(n, d) * d) == -d
            ==> (if n >= 0 { round_half_away(n, d) * d > n } else { round_half_away(n, d) * d < n }),
{
    let h = d / 2;
    lemma_fundamental_div_mod(d, 2);
    if n >= 0 {
        let x = n + h;
        let r = x / d;
        lemma_fundamental_div_mod(x, d);
        lemma_mod_bound(x, d);
        assert(r * d == d * r) by (nonlinear_arith);
        assert(round_half_away(n, d) == r);
    } else {
        let x = -n + h;
        let r = x / d;
        lemma_fundamental_div_mod(x, d);
        lemma_mod_bound(x, d);
        assert(r * d == d * r) by (nonlinear_arith);
        assert(round_half_away(n, d) == -r);
        assert((-r) * d == -(r * d)) by (nonlinear_arith);
    }
}

/// Rounding is symmetric about zero: a negative amount rounds to the
/// negation of what the positive amount rounds to.
pub proof fn lemma_round_is_odd(n: int, d: int)
    requires
        0 < d,
    ensures
        round_half_away(-n, d) == -round_half_away(n, d),
{
    if n == 0 {
        assert(round_half_away(0, d) == (d / 2) / d);
        assert(-n == 0);
        lemma_div_is_ordered(0, d / 2, d);
        assert(d / 2 < d);
        assert((d / 2) / d == 0) by {
            lemma_fundamental_div_mod(d / 2, d);
            lemma_mod_bound(d / 2, d);
            assert(d * ((d / 2) / d) <= d / 2);
            if (d / 2) / d >= 1 {
                lemma_mul_inequality(1, (d / 2) / d, d);
                assert(d * ((d / 2) / d) == ((d / 2) / d) * d) by (nonlinear_arith);
            }
        }
    }
}

proof fn lemma_proportional_odd(a: int, m: int, d: int)
    requires
        0 < d,
    ensures
        proportional_spec(-a, m, d) == -proportional_spec(a, m, d),
        proportional_spec(a, -m, d) == -proportional_spec(a, m, d),
{
    lemma_mul_unary_negation(a, m);
    lemma_round_is_odd(a * m, d);
}

/// The sign of a rounded proportion follows the sign of the product, and its
/// magnitude is at most that of `whole` when `m <= d`.
proof fn lemma_proportional_between(a: int, m: int, d: int)
    requires
        0 < d,
        0 <= m <= d,
    ensures
        a >= 0 ==> 0 <= proportional_spec(a, m, d) <= a,
        a <= 0 ==> a <= proportional_spec(a, m, d) <= 0,
    decreases (if a < 0 { 1int } else { 0int }),
{
    let h = d / 2;
    lemma_fundamental_div_mod(d, 2);
    if a >= 0 {
        lemma_mul_inequality(m, d, a);
        assert(0 <= a * m) by (nonlinear_arith) requires a >= 0, m >= 0;
        assert(a * m == m * a && a * d == d * a) by (nonlinear_arith);
        lemma_div_is_ordered(0, a * m + h, d);
        assert(0int / d == 0);
        lemma_div_is_ordered(a * m + h, a * d + h, d);
        lemma_fundamental_div_mod(a * d + h, d);
        lemma_mod_bound(a * d + h, d);
        let q = (a * d + h) / d;
        assert(q == a) by {
            assert(d * q + (a * d + h) % d == a * d + h);
            if q > a {
                lemma_mul_inequality(a + 1, q, d);
                assert((a + 1) * d == a * d + d) by (nonlinear_arith);
                assert(q * d == d * q) by (nonlinear_arith);
            } else if q < a {
                lemma_mul_inequality(q + 1, a, d);
                assert((q + 1) * d == q * d + d) by (nonlinear_arith);
                assert(q * d == d * q) by (nonlinear_arith);
            }
        }
    } else {
        lemma_proportional_between(-a, m, d);
        lemma_proportional_odd(a, m, d);
        assert(-(-a) == a);
        lemma_proportional_odd(-a, m, d);
    }
}

/// Every rate's tax, and so the running sum, has the sign of the base it is
/// charged on.
proof fn lemma_tax_total_sign(base: int, rates: Seq<u32>)
    requires
        tax_total(base, rates) is Some,
    ensures
        base >= 0 ==> tax_total(base, rates)->0 >= 0,
        base <= 0 ==> tax_total(base, rates)->0 <= 0,
    decreases rates.len(),
{
    if rates.len() > 0 {
        lemma_tax_total_sign(base, rates.drop_last());
        lemma_rate_tax_sign(base, rates.last());
    }
}

proof fn lemma_rate_tax_sign(base: int, rate: u32)
    ensures
        base >= 0 ==> rate_tax(base, rate) >= 0,
        base <= 0 ==> rate_tax(base, rate) <= 0,
{
    let r = rate as int;
    if base >= 0 {
        assert(base * r >= 0) by (nonlinear_arith) requires base >= 0, r >= 0;
        lemma_div_is_ordered(0, base * r + 5000, 10000);
    } else {
        assert(-base * r >= 0) by (nonlinear_arith) requires base <= 0, r >= 0;
        assert(-(base * r) == -base * r) by (nonlinear_arith);
        lemma_div_is_ordered(0, -(base * r) + 5000, 10000);
    }
}

/// Charging the rates on the negated base gives the negated tax, as long as
/// that negation still fits in an `i64`.
proof fn lemma_tax_total_mirrors(base: int, rates: Seq<u32>)
    requires
        tax_total(base, rates) is Some,
        tax_total(base, rates)->0 > i64::MIN,
    ensures
        tax_total(-base, rates) == Some(-tax_total(base, rates)->0),
    decreases rates.len(),
{
    if rates.len() > 0 {
        let t = tax_total(base, rates)->0;
        let t0 = tax_total(base, rates.drop_last())->0;
        let rt = rate_tax(base, rates.last());
        lemma_tax_total_sign(base, rates.drop_last());
        lemma_rate_tax_sign(base, rates.last());
        lemma_tax_total_mirrors(base, rates.drop_last());
        lemma_proportional_odd(base, rates.last() as int, 10000);
        assert(rate_tax(-base, rates.last()) == -rt);
    }
}

/// A line's total is its subtotal, less the discount, plus the tax.
pub proof fn lemma_total_is_discounted_subtotal_plus_tax(
    unit_price: int,
    quantity: int,
    discount_bps: u32,
    tax_bps: Seq<u32>,
)
    requires
        totals_spec(unit_price, quantity, discount_bps, tax_bps) is Ok,
    ensures
        ({
            let (subtotal, discount, tax, total) = totals_spec(unit_price, quantity, discount_bps, tax_bps)->Ok_0;
            total == subtotal - discount + tax
        }),
{
}

/// The discount never takes off more than the subtotal, and never turns a
/// sale into a credit or the other way round.
pub proof fn lemma_discount_within_subtotal(
    unit_price: int,
    quantity: int,
    discount_bps: u32,
    tax_bps: Seq<u32>,
)
    requires
        totals_spec(unit_price, quantity, discount_bps, tax_bps) is Ok,
    ensures
        ({
            let (subtotal, discount, tax, total) = totals_spec(unit_price, quantity, discount_bps, tax_bps)->Ok_0;
            &&& subtotal >= 0 ==> 0 <= discount <= subtotal
            &&& subtotal <= 0 ==> subtotal <= discount <= 0
        }),
{
    let subtotal = proportional_spec(unit_price, quantity, 1000);
    lemma_proportional_between(subtotal, discount_bps as int, 10000);
}

/// Tax on a line has the sign of the discounted subtotal it is charged on:
/// sales are taxed upward and credits downward.
pub proof fn lemma_tax_follows_discounted_subtotal(
    unit_price: int,
    quantity: int,
    discount_bps: u32,
    tax_bps: Seq<u32>,
)
    requires
        totals_spec(unit_price, quantity, discount_bps, tax_bps) is Ok,
    ensures
        ({
            let (subtotal, discount, tax, total) = totals_spec(unit_price, quantity, discount_bps, tax_bps)->Ok_0;
            &&& subtotal - discount >= 0 ==> tax >= 0
            &&& subtotal - discount <= 0 ==> tax <= 0
        }),
{
    let subtotal = proportional_spec(unit_price, quantity, 1000);
    let discount = proportional_spec(subtotal, discount_bps as int, 10000);
    lemma_tax_total_sign(subtotal - discount, tax_bps);
}

/// A 100% discount takes the whole subtotal off and leaves nothing for tax
/// to apply to.
pub proof fn lemma_full_discount_leaves_nothing(unit_price: int, quantity: int, tax_bps: Seq<u32>)
    ensures
        ({
            let subtotal = proportional_spec(unit_price, quantity, 1000);
            totals_spec(unit_price, quantity, 10000, tax_bps) == if fits_i64(subtotal) {
                Ok::<(int, int, int, int), LineItemError>((subtotal, subtotal, 0, 0))
            } else {
                Err::<(int, int, int, int), LineItemError>(LineItemError::Overflow)
            }
        }),
{
    let subtotal = proportional_spec(unit_price, quantity, 1000);
    lemma_proportional_between(subtotal, 10000, 10000);
    assert(proportional_spec(subtotal, 10000, 10000) == subtotal) by {
        lemma_round_is_nearest_half_away(subtotal * 10000, 10000);
        let r = proportional_spec(subtotal, 10000, 10000);
        assert(-10000 <= 2 * (subtotal * 10000 - r * 10000) <= 10000);
        assert(subtotal * 10000 - r * 10000 == (subtotal - r) * 10000) by (nonlinear_arith);
    }
    lemma_tax_of_nothing(tax_bps);
}

/// No rate charges anything on a base of zero.
proof fn lemma_tax_of_nothing(rates: Seq<u32>)
    ensures
        tax_total(0, rates) == Some(0int),
    decreases rates.len(),
{
    if rates.len() > 0 {
        lemma_tax_of_nothing(rates.drop_last());
        lemma_rate_tax_sign(0, rates.last());
    }
}

/// A zero quantity prices to zero everywhere, whatever the discount (up to
/// 100%) and tax rates.
pub proof fn lemma_zero_quantity_is_free(unit_price: int, discount_bps: u32, tax_bps: Seq<u32>)
    requires
        discount_bps <= 10000,
    ensures
        totals_spec(unit_price, 0, discount_bps, tax_bps) == Ok::<(int, int, int, int), LineItemError>(
            (0, 0, 0, 0),
        ),
{
    lemma_proportional_between(0, 1000, 1000);
    assert(unit_price * 0 == 0);
    lemma_proportional_between(0, discount_bps as int, 10000);
    lemma_tax_of_nothing(tax_bps);
}

/// A return (negative quantity) is priced as the exact mirror of the sale:
/// every amount is negated. This holds whenever the sale prices without error
/// and its negated subtotal and total are still `i64` cent counts.
pub proof fn lemma_credit_mirrors_sale(
    unit_price: int,
    quantity: int,
    discount_bps: u32,
    tax_bps: Seq<u32>,
)
    requires
        totals_spec(unit_price, quantity, discount_bps, tax_bps) is Ok,
        totals_spec(unit_price, quantity, discount_bps, tax_bps)->Ok_0.0 > i64::MIN,
        totals_spec(unit_price, quantity, discount_bps, tax_bps)->Ok_0.3 > i64::MIN,
    ensures
        ({
            let (subtotal, discount, tax, total) = totals_spec(unit_price, quantity, discount_bps, tax_bps)->Ok_0;
            totals_spec(unit_price, -quantity, discount_bps, tax_bps)
                == Ok::<(int, int, int, int), LineItemError>((-subtotal, -discount, -tax, -total))
        }),
{
    let subtotal = proportional_spec(unit_price, quantity, 1000);
    let discount = proportional_spec(subtotal, discount_bps as int, 10000);
    let after = subtotal - discount;
    let tax = tax_total(after, tax_bps)->0;
    lemma_proportional_odd(unit_price, quantity, 1000);
    lemma_proportional_odd(subtotal, discount_bps as int, 10000);
    lemma_proportional_between(subtotal, discount_bps as int, 10000);
    lemma_tax_total_sign(after, tax_bps);
    lemma_tax_total_mirrors(after, tax_bps);
    assert(-subtotal - -discount == -after);
}


/// The sum of the tax each of `rates` charges on `base`, each rate's tax
/// rounded on its own, with no bound on the size of the sum.
pub open spec fn tax_sum(base: int, rates: Seq<u32>) -> int
    decreases rates.len(),
{
    if rates.len() == 0 {
        0
    } else {
        tax_sum(base, rates.drop_last()) + rate_tax(base, rates.last())
    }
}

proof fn lemma_tax_sum_sign(base: int, rates: Seq<u32>)
    ensures
        base >= 0 ==> tax_sum(base, rates) >= 0,
        base <= 0 ==> tax_sum(base, rates) <= 0,
    decreases rates.len(),
{
    if rates.len() > 0 {
        lemma_tax_sum_sign(base, rates.drop_last());
        lemma_rate_tax_sign(base, rates.last());
    }
}

proof fn lemma_tax_sum_odd(base: int, rates: Seq<u32>)
    ensures
        tax_sum(-base, rates) == -tax_sum(base, rates),
    decreases rates.len(),
{
    if rates.len() > 0 {
        lemma_tax_sum_odd(base, rates.drop_last());
        lemma_proportional_odd(base, rates.last() as int, 10000);
    }
}

/// The running tax succeeds exactly when the whole sum fits in an `i64`:
/// every rate's tax has the sign of the base, so no partial sum or single
/// tax is larger in size than the whole.
proof fn lemma_tax_total_is_checked_sum(base: int, rates: Seq<u32>)
    ensures
        tax_total(base, rates) == if fits_i64(tax_sum(base, rates)) {
            Some(tax_sum(base, rates))
        } else {
            None::<int>
        },
    decreases rates.len(),
{
    if rates.len() > 0 {
        lemma_tax_total_is_checked_sum(base, rates.drop_last());
        lemma_tax_sum_sign(base, rates.drop_last());
        lemma_rate_tax_sign(base, rates.last());
    }
}

/// The pricing of a line in closed form. With `s` the subtotal (unit price
/// times quantity, rounded to the cent), `c` the discount on it, `a = s - c`,
/// and `T` the sum of each rate's rounded tax on `a`: a discount above 10000
/// is refused; otherwise the line prices as `(s, c, T, a + T)` when `s`, `T`
/// and `a + T` fit in an `i64`, and overflows when one of them does not.
pub proof fn lemma_totals_closed_form(unit_price: int, quantity: int, discount_bps: u32, tax_bps: Seq<u32>)
    ensures
        discount_bps > 10000 ==> totals_spec(unit_price, quantity, discount_bps, tax_bps) == Err::<
            (int, int, int, int),
            LineItemError,
        >(LineItemError::InvalidDiscount(discount_bps)),
        discount_bps <= 10000 ==> totals_spec(unit_price, quantity, discount_bps, tax_bps) == ({
            let s = proportional_spec(unit_price, quantity, 1000);
            let c = proportional_spec(s, discount_bps as int, 10000);
            let a = s - c;
            let t = tax_sum(a, tax_bps);
            if fits_i64(s) && fits_i64(t) && fits_i64(a + t) {
                Ok::<(int, int, int, int), LineItemError>((s, c, t, a + t))
            } else {
                Err::<(int, int, int, int), LineItemError>(LineItemError::Overflow)
            }
        }),
{
    if discount_bps <= 10000 {
        let s = proportional_spec(unit_price, quantity, 1000);
        let c = proportional_spec(s, discount_bps as int, 10000);
        lemma_proportional_between(s, discount_bps as int, 10000);
        lemma_tax_total_is_checked_sum(s - c, tax_bps);
    }
}

/// When a sale and its return (the same line with the quantity negated) both
/// price, the return is the exact mirror of the sale: every amount negated.
pub proof fn lemma_sale_and_return_mirror(
    unit_price: int,
    quantity: int,
    discount_bps: u32,
    tax_bps: Seq<u32>,
)
    requires
        totals_spec(unit_price, quantity, discount_bps, tax_bps) is Ok,
        totals_spec(unit_price, -quantity, discount_bps, tax_bps) is Ok,
    ensures
        ({
            let (subtotal, discount, tax, total) = totals_spec(unit_price, quantity, discount_bps, tax_bps)->Ok_0;
            totals_spec(unit_price, -quantity, discount_bps, tax_bps)
                == Ok::<(int, int, int, int), LineItemError>((-subtotal, -discount, -tax, -total))
        }),
{
    lemma_totals_closed_form(unit_price, quantity, discount_bps, tax_bps);
    lemma_totals_closed_form(unit_price, -quantity, discount_bps, tax_bps);
    let s = proportional_spec(unit_price, quantity, 1000);
    let c = proportional_spec(s, discount_bps as int, 10000);
    lemma_proportional_odd(unit_price, quantity, 1000);
    lemma_proportional_odd(s, discount_bps as int, 10000);
    lemma_tax_sum_odd(s - c, tax_bps);
    assert(-s - -c == -(s - c));
}

} // verus!
