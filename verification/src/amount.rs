//! Fixed-point amounts: money as integer cents, quantities as thousandths.
use vstd::prelude::*;
use crate::text::{
    debug_quoted, debug_str, decimal_text, padded_text, push_decimal, push_padded, push_str,
    string_of, all_digits, all_digits_in, chars_of, digits_value, digits_value_within, find_char,
    first_index_of, lemma_decimal_text, lemma_digits_value_bound, lemma_first_index_of, lemma_padded_text,
    lemma_pow10_add, lemma_pow10_monotone, lemma_pow10_positive, pow10, trim, trim_bounds, trim_end, trim_start, is_digit,
    is_white_space,
};

verus! {

/// True when `x` can be held in an `i64`.
pub open spec fn fits_i64(x: int) -> bool {
    i64::MIN <= x <= i64::MAX
}

/// An amount of money, stored as integer cents.
#[derive(Debug, Clone, Copy, PartialEq, Eq, PartialOrd, Ord, Structural)]
pub struct Money(i64);

impl View for Money {
    type V = int;

    /// The amount in cents.
    closed spec fn view(&self) -> int {
        self.0 as int
    }
}

/// A cent count always lies in the range of an `i64`.
pub broadcast proof fn lemma_money_in_range(m: Money)
    ensures
        i64::MIN <= #[trigger] m@ <= i64::MAX,
{
}

impl Money {
    pub fn from_cents(cents: i64) -> (m: Money)
        ensures
            m@ == cents,
    {
        Money(cents)
    }

    pub fn cents(self) -> (c: i64)
        ensures
            c == self@,
    {
        self.0
    }

    /// The sum, or `None` when it does not fit in an `i64` cent count.
    pub fn checked_add(self, other: Money) -> (r: Option<Money>)
        ensures
            r.is_some() <==> fits_i64(self@ + other@),
            r matches Some(m) ==> m@ == self@ + other@,
    {
        match self.0.checked_add(other.0) {
            Some(c) => Some(Money(c)),
            None => None,
        }
    }

    /// The difference, or `None` when it does not fit in an `i64` cent count.
    pub fn checked_sub(self, other: Money) -> (r: Option<Money>)
        ensures
            r.is_some() <==> fits_i64(self@ - other@),
            r matches Some(m) ==> m@ == self@ - other@,
    {
        match self.0.checked_sub(other.0) {
            Some(c) => Some(Money(c)),
            None => None,
        }
    }
}

/// A quantity of units, stored as thousandths (three decimal places).
#[derive(Debug, Clone, Copy, PartialEq, Eq, PartialOrd, Ord, Structural)]
pub struct Quantity(i64);

impl View for Quantity {
    type V = int;

    /// The quantity in thousandths of a unit.
    closed spec fn view(&self) -> int {
        self.0 as int
    }
}

/// A count of thousandths always lies in the range of an `i64`.
pub broadcast proof fn lemma_quantity_in_range(q: Quantity)
    ensures
        i64::MIN <= #[trigger] q@ <= i64::MAX,
{
}

impl Quantity {
    pub fn from_thousandths(thousandths: i64) -> (q: Quantity)
        ensures
            q@ == thousandths,
    {
        Quantity(thousandths)
    }

    pub fn as_thousandths(self) -> (t: i64)
        ensures
            t == self@,
    {
        self.0
    }
}


/// The decimal string `s` (such as "12.34" or "-0.5"), with surrounding
/// whitespace ignored, as an integer scaled by `10^decimals`: an optional `-`,
/// at least one digit, then optionally `.` and at most `decimals` digits.
/// `None` when `s` has another shape or the value does not fit in an `i64`.
pub open spec fn fixed_point_value(s: Seq<char>, decimals: nat) -> Option<int> {
    let t = trim(s);
    let negative = t.len() > 0 && t[0] == '-';
    let body = if negative { t.drop_first() } else { t };
    let k = first_index_of(body, '.') as int;
    let whole = body.take(k);
    let frac = if k < body.len() { body.skip(k + 1) } else { Seq::<char>::empty() };
    let magnitude = digits_value(whole) * pow10(decimals) + digits_value(frac) * pow10(
        (decimals - frac.len()) as nat,
    );
    if t.len() == 0 || whole.len() == 0 || !all_digits(whole) || frac.len() > decimals || !all_digits(
        frac,
    ) || magnitude > i64::MAX {
        None
    } else {
        Some(if negative { -magnitude } else { magnitude as int })
    }
}

/// `10^n` for a small `n`.
fn pow10_exec(n: usize) -> (r: i64)
    requires
        n <= 18,
    ensures
        r == pow10(n as nat),
{
    let mut r: i64 = 1;
    let mut i: usize = 0;
    while i < n
        invariant
            i <= n <= 18,
            r == pow10(i as nat),
            r <= 1_000_000_000_000_000_000,
        decreases n - i,
    {
        proof {
            lemma_pow10_monotone(i as nat, 17);
            reveal_with_fuel(pow10, 18);
            assert(pow10(17) == 100_000_000_000_000_000);
        }
        r = r * 10;
        i = i + 1;
    }
    r
}

/// `whole * 10^decimals + frac * 10^(decimals - frac_len)` for the digit runs
/// `s[ws..we]` (whole) and `s[fs..fe]` (frac), or `None` when that exceeds
/// `i64::MAX`.
fn scaled_magnitude(s: &Vec<char>, ws: usize, we: usize, fs: usize, fe: usize, decimals: usize) -> (r:
    Option<i64>)
    requires
        ws <= we <= s.len(),
        fs <= fe <= s.len(),
        fe - fs <= decimals <= 18,
        all_digits(s@.subrange(ws as int, we as int)),
        all_digits(s@.subrange(fs as int, fe as int)),
    ensures
        ({
            let m = digits_value(s@.subrange(ws as int, we as int)) * pow10(decimals as nat) + digits_value(
                s@.subrange(fs as int, fe as int),
            ) * pow10((decimals - (fe - fs)) as nat);
            match r {
                Some(v) => v == m && m <= i64::MAX,
                None => m > i64::MAX,
            }
        }),
{
    let ghost w = digits_value(s@.subrange(ws as int, we as int));
    let ghost f = digits_value(s@.subrange(fs as int, fe as int));
    let ghost k = (fe - fs) as nat;
    let ghost p = pow10(decimals as nat);
    let ghost q = pow10((decimals - (fe - fs)) as nat);
    proof {
        lemma_digits_value_bound(s@.subrange(fs as int, fe as int));
        lemma_pow10_monotone(decimals as nat, 18);
        lemma_pow10_positive(k);
        lemma_pow10_positive((decimals - (fe - fs)) as nat);
        lemma_pow10_positive(decimals as nat);
        lemma_pow10_add(k, (decimals - (fe - fs)) as nat);
        assert((k + (decimals - (fe - fs)) as nat) as nat == decimals as nat);
        reveal_with_fuel(pow10, 19);
        assert(pow10(18) == 1_000_000_000_000_000_000);
        assert(f * q < p) by (nonlinear_arith)
            requires
                0 <= f < pow10(k),
                q >= 1,
                p == pow10(k) * q,
        ;
    }
    let whole_val = match digits_value_within(s, ws, we, i64::MAX as u128) {
        Some(v) => v as i64,
        None => {
            proof {
                assert(w * p >= w) by (nonlinear_arith) requires p >= 1, w >= 0;
                assert(f * q >= 0) by (nonlinear_arith) requires q >= 1, f >= 0;
            }
            return None;
        },
    };
    let frac_digits = match digits_value_within(s, fs, fe, 1_000_000_000_000_000_000) {
        Some(v) => v as i64,
        None => {
            proof {
                assert(f <= f * q) by (nonlinear_arith) requires q >= 1, f >= 0;
            }
            return None;
        },
    };
    let frac_scale = pow10_exec(decimals - (fe - fs));
    let frac_val = frac_digits * frac_scale;
    let scale = pow10_exec(decimals);
    assert(frac_val >= 0) by (nonlinear_arith)
        requires
            frac_digits >= 0,
            frac_scale >= 0,
            frac_val == frac_digits * frac_scale,
    ;
    match whole_val.checked_mul(scale) {
        Some(v) => v.checked_add(frac_val),
        None => {
            assert(w * p + f * q >= w * p) by (nonlinear_arith) requires f >= 0, q >= 1;
            None
        },
    }
}

/// Parses a decimal string like "12.34" or "-0.5" into an integer scaled by
/// `10^decimals`. More fractional digits than `decimals` are rejected rather
/// than truncated; a scale `10^decimals` beyond an `i64` (more than 18
/// decimals) is an error too.
#[verifier::rlimit(30)]
pub fn parse_fixed_point(s: &str, decimals: usize) -> (r: Result<i64, ()>)
    ensures
        decimals > 18 ==> r is Err,
        decimals <= 18 ==> match fixed_point_value(s@, decimals as nat) {
            Some(v) => r == Ok::<i64, ()>(v as i64),
            None => r is Err,
        },
{
    if decimals > 18 {
        return Err(());
    }
    let chars = chars_of(s);
    let (start, end) = trim_bounds(&chars, 0, chars.len());
    let ghost t = chars@.subrange(start as int, end as int);
    assert(chars@.subrange(0, chars@.len() as int) == chars@);
    if start == end {
        return Err(());
    }
    let negative = chars[start] == '-';
    let body_start = if negative { start + 1 } else { start };
    let ghost body = chars@.subrange(body_start as int, end as int);
    assert(body == (if negative { t.drop_first() } else { t }));
    let dot = find_char(&chars, body_start, end, '.');
    let frac_start = if dot < end { dot + 1 } else { end };
    let ghost k = dot - body_start;
    assert(body.take(k) == chars@.subrange(body_start as int, dot as int));
    assert((if k < body.len() { body.skip(k + 1) } else { Seq::<char>::empty() }) == chars@.subrange(
        frac_start as int,
        end as int,
    ));
    if dot == body_start || !all_digits_in(&chars, body_start, dot) {
        return Err(());
    }
    if end - frac_start > decimals || !all_digits_in(&chars, frac_start, end) {
        return Err(());
    }
    let magnitude = match scaled_magnitude(&chars, body_start, dot, frac_start, end, decimals) {
        Some(m) => m,
        None => return Err(()),
    };
    Ok(if negative { -magnitude } else { magnitude })
}


/// `|v|` for an `i64`, as the `u64` that `unsigned_abs` gives.
fn magnitude_of(v: i64) -> (m: u64)
    ensures
        m == (if v < 0 { -v } else { v as int }),
{
    if v < 0 {
        (-(v as i128)) as u64
    } else {
        v as u64
    }
}

/// `v` scaled by `10^decimals` written as a decimal: a `-` for negative
/// values, the whole part, a `.`, and exactly `decimals` fraction digits.
pub open spec fn fixed_point_text(v: int, scale: nat, decimals: nat) -> Seq<char> {
    let m = if v < 0 { -v } else { v };
    (if v < 0 { seq!['-'] } else { Seq::<char>::empty() }) + decimal_text((m / scale as int) as nat) + seq![
        '.',
    ] + padded_text((m % scale as int) as nat, decimals)
}

fn fixed_point_string(v: i64, scale: u64, decimals: usize) -> (s: String)
    requires
        0 < scale,
    ensures
        s@ == fixed_point_text(v as int, scale as nat, decimals as nat),
{
    let mut out: Vec<char> = Vec::new();
    if v < 0 {
        out.push('-');
    }
    let m = magnitude_of(v);
    push_decimal(&mut out, (m / scale) as u128);
    out.push('.');
    push_padded(&mut out, m % scale, decimals);
    let ghost sign = if v < 0 { seq!['-'] } else { Seq::<char>::empty() };
    assert(out@ == sign + decimal_text((m / scale) as nat) + seq!['.'] + padded_text((m % scale) as nat, decimals as nat));
    string_of(&out)
}

impl Money {
    /// Parses a decimal amount of money such as "12.34" or "-5" (at most two
    /// decimal places, surrounding whitespace ignored).
    pub fn parse_decimal(s: &str) -> (r: Result<Money, ParseMoneyError>)
        ensures
            match fixed_point_value(s@, 2) {
                Some(v) => r matches Ok(m) && m@ == v,
                None => r matches Err(e) && e@ == s@,
            },
    {
        match parse_fixed_point(s, 2) {
            Ok(v) => Ok(Money(v)),
            Err(()) => Err(ParseMoneyError(s.to_owned())),
        }
    }

    /// The amount as dollars and cents, e.g. "1.05" or "-1.05".
    pub fn to_string(&self) -> (s: String)
        ensures
            s@ == fixed_point_text(self@, 100, 2),
    {
        fixed_point_string(self.0, 100, 2)
    }
}

impl Quantity {
    /// Parses a decimal quantity such as "2.5" (at most three decimal places,
    /// surrounding whitespace ignored).
    pub fn parse_decimal(s: &str) -> (r: Result<Quantity, ParseQuantityError>)
        ensures
            match fixed_point_value(s@, 3) {
                Some(v) => r matches Ok(q) && q@ == v,
                None => r matches Err(e) && e@ == s@,
            },
    {
        match parse_fixed_point(s, 3) {
            Ok(v) => Ok(Quantity(v)),
            Err(()) => Err(ParseQuantityError(s.to_owned())),
        }
    }

    /// The quantity with three decimal places, e.g. "2.500".
    pub fn to_string(&self) -> (s: String)
        ensures
            s@ == fixed_point_text(self@, 1000, 3),
    {
        fixed_point_string(self.0, 1000, 3)
    }
}

impl core::str::FromStr for Money {
    type Err = ParseMoneyError;

    fn from_str(s: &str) -> (r: Result<Money, ParseMoneyError>)
        ensures
            match fixed_point_value(s@, 2) {
                Some(v) => r matches Ok(m) && m@ == v,
                None => r matches Err(e) && e@ == s@,
            },
    {
        Money::parse_decimal(s)
    }
}

impl core::str::FromStr for Quantity {
    type Err = ParseQuantityError;

    fn from_str(s: &str) -> (r: Result<Quantity, ParseQuantityError>)
        ensures
            match fixed_point_value(s@, 3) {
                Some(v) => r matches Ok(q) && q@ == v,
                None => r matches Err(e) && e@ == s@,
            },
    {
        Quantity::parse_decimal(s)
    }
}

/// A string that is not a valid amount of money; it holds the string.
#[derive(Debug, Clone, PartialEq, Eq)]
pub struct ParseMoneyError(String);

impl View for ParseMoneyError {
    type V = Seq<char>;

    /// The rejected string.
    closed spec fn view(&self) -> Seq<char> {
        self.0@
    }
}

/// The message for a rejected money string `s`.
pub open spec fn money_error_text(s: Seq<char>) -> Seq<char> {
    "invalid money value "@ + debug_quoted(s) + " (expected e.g. \"12.34\" or \"-5\")"@
}

impl ParseMoneyError {
    /// The error message, e.g. `invalid money value "abc" (expected e.g. "12.34" or "-5")`.
    pub fn to_string(&self) -> (r: String)
        ensures
            r@ == money_error_text(self@),
    {
        let mut out: Vec<char> = Vec::new();
        push_str(&mut out, "invalid money value ");
        push_str(&mut out, debug_str(self.0.as_str()).as_str());
        push_str(&mut out, " (expected e.g. \"12.34\" or \"-5\")");
        string_of(&out)
    }
}

/// A string that is not a valid quantity; it holds the string.
#[derive(Debug, Clone, PartialEq, Eq)]
pub struct ParseQuantityError(String);

impl View for ParseQuantityError {
    type V = Seq<char>;

    /// The rejected string.
    closed spec fn view(&self) -> Seq<char> {
        self.0@
    }
}

/// The message for a rejected quantity string `s`.
pub open spec fn quantity_error_text(s: Seq<char>) -> Seq<char> {
    "invalid quantity "@ + debug_quoted(s) + " (expected e.g. \"2.5\", up to 3 decimal places)"@
}

impl ParseQuantityError {
    /// The error message, e.g. `invalid quantity "1.2345" (expected e.g. "2.5", up to 3 decimal places)`.
    pub fn to_string(&self) -> (r: String)
        ensures
            r@ == quantity_error_text(self@),
    {
        let mut out: Vec<char> = Vec::new();
        push_str(&mut out, "invalid quantity ");
        push_str(&mut out, debug_str(self.0.as_str()).as_str());
        push_str(&mut out, " (expected e.g. \"2.5\", up to 3 decimal places)");
        string_of(&out)
    }
}


/// The text `fixed_point_text` gives for `v` reads back as `v`, for every `v`
/// whose magnitude fits in an `i64` (all but `i64::MIN`).
#[verifier::spinoff_prover]
#[verifier::rlimit(40)]
proof fn lemma_fixed_point_round_trip(v: int, decimals: nat)
    requires
        decimals >= 1,
        i64::MIN < v <= i64::MAX,
    ensures
        fixed_point_value(fixed_point_text(v, pow10(decimals), decimals), decimals) == Some(v),
{
    let scale = pow10(decimals);
    lemma_pow10_monotone(1, decimals);
    assert(pow10(1) == 10) by {
        reveal_with_fuel(pow10, 2);
    }
    let m = if v < 0 { -v } else { v };
    let w = decimal_text((m / scale as int) as nat);
    let p = padded_text((m % scale as int) as nat, decimals);
    let sign = if v < 0 { seq!['-'] } else { Seq::<char>::empty() };
    let body = w + seq!['.'] + p;
    let t = fixed_point_text(v, scale, decimals);
    assert(t == sign + body);
    lemma_decimal_text((m / scale as int) as nat);
    lemma_padded_text((m % scale as int) as nat, decimals);
    // No character of the text is whitespace at either end.
    assert(t.len() >= 3);
    assert(!is_white_space(t[0])) by {
        if v < 0 {
            assert(t[0] == '-');
        } else {
            assert(t[0] == w[0]);
            assert(is_digit(w[0]));
        }
    }
    assert(!is_white_space(t.last())) by {
        assert(t.last() == p.last());
        assert(is_digit(p[p.len() - 1]));
    }
    assert(trim_start(t) == t);
    assert(trim_end(t) == t);
    assert(trim(t) == t);
    // The sign and the body.
    if v >= 0 {
        assert(t[0] == w[0] && is_digit(w[0]));
        assert(t == body);
    } else {
        assert(t.drop_first() == body);
    }
    // The point comes right after the whole digits.
    assert forall|j: int| 0 <= j < w.len() implies #[trigger] body[j] != '.' by {
        assert(body[j] == w[j]);
        assert(is_digit(w[j]));
    }
    assert(body[w.len() as int] == '.');
    lemma_first_index_of(body, '.', w.len() as int);
    assert(body.take(w.len() as int) == w);
    assert(body.skip(w.len() as int + 1) == p);
    vstd::arithmetic::div_mod::lemma_fundamental_div_mod(m, scale as int);
    lemma_pow10_positive(decimals);
    vstd::arithmetic::div_mod::lemma_mod_bound(m, scale as int);
    assert(pow10(0) == 1);
    assert((m / scale as int) * scale + (m % scale as int) == m) by (nonlinear_arith)
        requires
            m == scale * (m / scale as int) + (m % scale as int),
    ;
    let negative = t.len() > 0 && t[0] == '-';
    assert(negative == (v < 0));
    let b = if negative { t.drop_first() } else { t };
    assert(b == body);
    let k = first_index_of(b, '.') as int;
    assert(k == w.len());
    assert(k < b.len());
    let whole = b.take(k);
    let frac = b.skip(k + 1);
    assert(whole == w);
    assert(frac == p);
    assert(frac.len() == decimals);
    assert((decimals - frac.len()) as nat == 0);
    let magnitude = digits_value(whole) * pow10(decimals) + digits_value(frac) * pow10((decimals - frac.len()) as nat);
    assert(magnitude == m);
}

/// What `Money::to_string` prints, `Money::parse_decimal` reads back as the
/// same amount (for every amount but `i64::MIN` cents, whose magnitude is
/// not an `i64`).
pub proof fn lemma_money_text_parses_back(m: Money)
    requires
        m@ > i64::MIN,
    ensures
        fixed_point_value(fixed_point_text(m@, 100, 2), 2) == Some(m@),
{
    assert(pow10(2) == 100) by {
        reveal_with_fuel(pow10, 3);
    }
    lemma_fixed_point_round_trip(m@, 2);
}

/// What `Quantity::to_string` prints, `Quantity::parse_decimal` reads back as
/// the same quantity (for every quantity but `i64::MIN` thousandths).
pub proof fn lemma_quantity_text_parses_back(q: Quantity)
    requires
        q@ > i64::MIN,
    ensures
        fixed_point_value(fixed_point_text(q@, 1000, 3), 3) == Some(q@),
{
    assert(pow10(3) == 1000) by {
        reveal_with_fuel(pow10, 4);
    }
    lemma_fixed_point_round_trip(q@, 3);
}


/// The text of a decimal: an optional `-`, the whole digits, and, when `dot`
/// holds, a `.` and the fraction digits.
pub open spec fn decimal_text_of(negative: bool, whole: Seq<char>, dot: bool, frac: Seq<char>) -> Seq<char> {
    (if negative { seq!['-'] } else { Seq::<char>::empty() }) + whole + (if dot {
        seq!['.'] + frac
    } else {
        Seq::<char>::empty()
    })
}

/// The magnitude of `whole.frac` scaled by `10^decimals`.
pub open spec fn scaled_magnitude_of(whole: Seq<char>, frac: Seq<char>, decimals: nat) -> int {
    (digits_value(whole) * pow10(decimals) + digits_value(frac) * pow10((decimals - frac.len()) as nat)) as int
}

/// The parts make a decimal that reads at `decimals` places: one or more
/// whole digits, at most `decimals` fraction digits (none without a point),
/// and a magnitude no larger than `i64::MAX`.
pub open spec fn readable_decimal(whole: Seq<char>, dot: bool, frac: Seq<char>, decimals: nat) -> bool {
    &&& whole.len() > 0
    &&& all_digits(whole)
    &&& all_digits(frac)
    &&& (dot || frac.len() == 0)
    &&& frac.len() <= decimals
    &&& scaled_magnitude_of(whole, frac, decimals) <= i64::MAX
}

proof fn lemma_first_index_of_bounds(s: Seq<char>, c: char)
    ensures
        first_index_of(s, c) <= s.len(),
        first_index_of(s, c) < s.len() ==> s[first_index_of(s, c) as int] == c,
        forall|j: int| 0 <= j < first_index_of(s, c) ==> #[trigger] s[j] != c,
    decreases s.len(),
{
    if s.len() > 0 && s[0] != c {
        let t = s.drop_first();
        lemma_first_index_of_bounds(t, c);
        assert forall|j: int| 0 <= j < first_index_of(s, c) implies #[trigger] s[j] != c by {
            if j > 0 {
                assert(s[j] == t[j - 1]);
            }
        }
    }
}

/// The decimal grammar: after trimming, a string reads as a fixed-point value
/// exactly when it is an optional `-`, one or more digits, then optionally a
/// `.` and at most `decimals` digits, with a magnitude (the digits scaled by
/// `10^decimals`) no larger than `i64::MAX`; the value is that magnitude,
/// negated after a `-`.
pub proof fn lemma_fixed_point_grammar(
    s: Seq<char>,
    decimals: nat,
    negative: bool,
    whole: Seq<char>,
    dot: bool,
    frac: Seq<char>,
)
    ensures
        readable_decimal(whole, dot, frac, decimals) && trim(s) == decimal_text_of(negative, whole, dot, frac)
            ==> fixed_point_value(s, decimals) == Some(
            if negative { -scaled_magnitude_of(whole, frac, decimals) } else { scaled_magnitude_of(whole, frac, decimals) },
        ),
        fixed_point_value(s, decimals) is Some ==> exists|n: bool, w: Seq<char>, dt: bool, f: Seq<char>|
            #![trigger decimal_text_of(n, w, dt, f)]
            readable_decimal(w, dt, f, decimals) && trim(s) == decimal_text_of(n, w, dt, f)
                && fixed_point_value(s, decimals) == Some(
                if n { -scaled_magnitude_of(w, f, decimals) } else { scaled_magnitude_of(w, f, decimals) },
            ),
{
    let t = trim(s);
    let neg = t.len() > 0 && t[0] == '-';
    let body = if neg { t.drop_first() } else { t };
    let k = first_index_of(body, '.') as int;
    lemma_first_index_of_bounds(body, '.');
    if readable_decimal(whole, dot, frac, decimals) && t == decimal_text_of(negative, whole, dot, frac) {
        let sign = if negative { seq!['-'] } else { Seq::<char>::empty() };
        let tail = if dot { seq!['.'] + frac } else { Seq::<char>::empty() };
        assert(t == sign + (whole + tail));
        assert(is_digit(whole[0]));
        if negative {
            assert(t[0] == '-');
            assert(t.drop_first() == whole + tail);
        } else {
            assert(t[0] == whole[0]);
            assert(t == whole + tail);
        }
        assert(neg == negative);
        assert(body == whole + tail);
        assert forall|j: int| 0 <= j < whole.len() implies #[trigger] body[j] != '.' by {
            assert(body[j] == whole[j]);
            assert(is_digit(whole[j]));
        }
        if dot {
            assert(body[whole.len() as int] == '.');
        }
        lemma_first_index_of(body, '.', whole.len() as int);
        assert(body.take(k) == whole);
        if dot {
            assert(body.skip(k + 1) == frac);
        }
    }
    if fixed_point_value(s, decimals) is Some {
        let w = body.take(k);
        let dt = k < body.len();
        let f = if dt { body.skip(k + 1) } else { Seq::<char>::empty() };
        let sign = if neg { seq!['-'] } else { Seq::<char>::empty() };
        if dt {
            assert(body == w + (seq!['.'] + f));
        } else {
            assert(body == w);
        }
        if neg {
            assert(t == sign + body);
        } else {
            assert(t == body);
        }
        assert(t == decimal_text_of(neg, w, dt, f));
        assert(readable_decimal(w, dt, f, decimals));
    }
}

} // verus!
