//! Reading a JSON number literal as a basis-point rate: the literal must
//! stand for a non-negative integer no larger than `u32::MAX`. The literal is
//! read as the exact decimal it spells, never through a float.
use vstd::prelude::*;
use crate::text::{
    all_digits, digit_value, digits_value, is_digit, lemma_digits_value_bound, lemma_digits_value_concat,
    lemma_pow10_add, lemma_pow10_monotone, lemma_pow10_positive, lemma_zeros_value, pow10,
};
use vstd::arithmetic::div_mod::{lemma_div_multiples_vanish, lemma_mod_multiples_basic};
use vstd::arithmetic::mul::{lemma_mul_equality_converse, lemma_mul_is_associative, lemma_mul_strictly_positive};

verus! {

/// The number of ASCII digits at the start of `u`.
pub open spec fn leading_digits(u: Seq<char>) -> nat
    decreases u.len(),
{
    if u.len() > 0 && is_digit(u[0]) {
        1 + leading_digits(u.drop_first())
    } else {
        0
    }
}

/// The parts of a number literal `-int.fracE-exp`: its sign, the digits
/// before and after the point, and the exponent's sign and digits.
pub struct DecimalParts {
    pub negative: bool,
    pub int_digits: Seq<char>,
    pub frac_digits: Seq<char>,
    pub exp_negative: bool,
    pub exp_digits: Seq<char>,
}

/// The fraction digits at the start of `u` (after a `.`), and what follows them.
pub open spec fn fraction_split(u: Seq<char>) -> (Seq<char>, Seq<char>) {
    if u.len() > 0 && u[0] == '.' {
        let fl = leading_digits(u.drop_first()) as int;
        (u.subrange(1, 1 + fl), u.skip(1 + fl))
    } else {
        (Seq::empty(), u)
    }
}

/// The exponent at the start of `u` (after `e` or `E`): whether it is
/// negative, and its digits.
pub open spec fn exponent_part(u: Seq<char>) -> (bool, Seq<char>) {
    if u.len() > 0 && (u[0] == 'e' || u[0] == 'E') {
        let b = u.drop_first();
        let digits = if b.len() > 0 && (b[0] == '+' || b[0] == '-') { b.drop_first() } else { b };
        (b.len() > 0 && b[0] == '-', digits.take(leading_digits(digits) as int))
    } else {
        (false, Seq::empty())
    }
}

/// The parts of the number literal `t`.
pub open spec fn decimal_parts(t: Seq<char>) -> DecimalParts {
    let negative = t.len() > 0 && t[0] == '-';
    let body = if negative { t.drop_first() } else { t };
    let il = leading_digits(body) as int;
    let (frac, rest) = fraction_split(body.skip(il));
    let (exp_negative, exp_digits) = exponent_part(rest);
    DecimalParts { negative, int_digits: body.take(il), frac_digits: frac, exp_negative, exp_digits }
}

/// The basis-point rate a number literal stands for: its exact decimal value
/// `±digits × 10^exponent` when that is an integer from 0 to `u32::MAX`
/// (a negative zero counts as 0), else `None`.
pub open spec fn number_bps(t: Seq<char>) -> Option<u32> {
    let d = decimal_parts(t);
    let ev = digits_value(d.exp_digits) as int;
    bps_of_value(
        digits_value(d.int_digits + d.frac_digits) as int,
        (if d.exp_negative { -ev } else { ev }) - d.frac_digits.len(),
        d.negative,
    )
}

/// The rate `±m × 10^e` stands for, when it is an integer in `0..=u32::MAX`.
pub open spec fn bps_of_value(m: int, e: int, negative: bool) -> Option<u32> {
    if m == 0 {
        Some(0)
    } else if negative {
        None
    } else if e >= 0 {
        if m * pow10(e as nat) <= u32::MAX {
            Some((m * pow10(e as nat)) as u32)
        } else {
            None
        }
    } else if m % pow10((-e) as nat) as int == 0 && m / pow10((-e) as nat) as int <= u32::MAX {
        Some((m / pow10((-e) as nat) as int) as u32)
    } else {
        None
    }
}

/// Digits that start with a non-zero digit spell at least `10^(len - 1)`.
proof fn lemma_leading_nonzero(s: Seq<char>)
    requires
        s.len() >= 1,
        all_digits(s),
        s[0] != '0',
    ensures
        digits_value(s) >= pow10((s.len() - 1) as nat),
{
    let head = s.take(1);
    let rest = s.skip(1);
    assert(s == head + rest);
    lemma_digits_value_concat(head, rest);
    assert(head.drop_last() == Seq::<char>::empty());
    assert(head.last() == s[0]);
    assert(digits_value(Seq::<char>::empty()) == 0);
    assert(digits_value(head) == digit_value(s[0]));
    assert(digit_value(s[0]) >= 1);
    assert(digits_value(head) * pow10(rest.len()) >= pow10(rest.len())) by (nonlinear_arith)
        requires
            digits_value(head) >= 1,
    ;
}

/// Digits that end with a non-zero digit spell a number not divisible by 10.
proof fn lemma_trailing_nonzero(s: Seq<char>)
    requires
        s.len() >= 1,
        all_digits(s),
        s.last() != '0',
    ensures
        digits_value(s) % 10 != 0,
{
    let x = digits_value(s.drop_last()) as int;
    let d = digit_value(s.last()) as int;
    assert(is_digit(s[s.len() - 1]));
    assert(1 <= d <= 9);
    assert((x * 10 + d) % 10 == d) by (nonlinear_arith)
        requires
            1 <= d <= 9,
            x >= 0,
    ;
}

/// For `v` not divisible by 10, `v * 10^a` is a multiple of `10^b` exactly when
/// `a >= b`, and then the quotient is `v * 10^(a - b)`.
proof fn lemma_shifted_divisibility(v: int, a: nat, b: nat)
    requires
        v > 0,
        v % 10 != 0,
    ensures
        (v * pow10(a)) % (pow10(b) as int) == 0 <==> a >= b,
        a >= b ==> (v * pow10(a)) / (pow10(b) as int) == v * pow10((a - b) as nat),
{
    lemma_pow10_positive(b);
    lemma_pow10_positive(a);
    if a >= b {
        lemma_pow10_add((a - b) as nat, b);
        assert(((a - b) as nat + b) as nat == a);
        let w = v * pow10((a - b) as nat);
        lemma_mul_is_associative(v, pow10((a - b) as nat) as int, pow10(b) as int);
        assert(v * pow10(a) == w * pow10(b));
        lemma_mod_multiples_basic(w, pow10(b) as int);
        assert(w * pow10(b) == pow10(b) * w) by (nonlinear_arith);
        lemma_div_multiples_vanish(w, pow10(b) as int);
    } else {
        if (v * pow10(a)) % (pow10(b) as int) == 0 {
            let q = (v * pow10(a)) / (pow10(b) as int);
            vstd::arithmetic::div_mod::lemma_fundamental_div_mod(v * pow10(a), pow10(b) as int);
            assert(v * pow10(a) == pow10(b) * q);
            lemma_pow10_add((b - a) as nat, a);
            assert(((b - a) as nat + a) as nat == b);
            assert(pow10(b) * q == pow10(a) * (pow10((b - a) as nat) * q)) by (nonlinear_arith)
                requires
                    pow10(b) == pow10((b - a) as nat) * pow10(a),
            ;
            assert(v * pow10(a) == pow10(a) * v) by (nonlinear_arith);
            lemma_mul_equality_converse(pow10(a) as int, v, pow10((b - a) as nat) * q);
            let c = (b - a - 1) as nat;
            assert(pow10((b - a) as nat) == 10 * pow10(c));
            assert(v == 10 * (pow10(c) * q)) by (nonlinear_arith)
                requires
                    v == pow10((b - a) as nat) * q,
                    pow10((b - a) as nat) == 10 * pow10(c),
            ;
            assert((10 * (pow10(c) * q)) % 10 == 0) by (nonlinear_arith);
        }
    }
}


/// For `v` not divisible by 10, `v × 10^tz × 10^e` is an integer exactly when
/// `tz + e >= 0`, and is then `v × 10^(tz + e)`.
proof fn lemma_bps_of_shifted(v: int, tz: nat, e: int)
    requires
        v > 0,
        v % 10 != 0,
    ensures
        bps_of_value(v * pow10(tz), e, false) == (if tz + e < 0 {
            None::<u32>
        } else if v * pow10((tz + e) as nat) <= u32::MAX {
            Some((v * pow10((tz + e) as nat)) as u32)
        } else {
            None::<u32>
        }),
{
    lemma_pow10_positive(tz);
    lemma_mul_strictly_positive(v, pow10(tz) as int);
    if e >= 0 {
        lemma_pow10_add(tz, e as nat);
        lemma_mul_is_associative(v, pow10(tz) as int, pow10(e as nat) as int);
        assert((tz + e) as nat == (tz + e as nat) as nat);
    } else {
        lemma_shifted_divisibility(v, tz, (-e) as nat);
        if tz + e >= 0 {
            assert((tz - (-e) as nat) as nat == (tz + e) as nat);
        }
    }
}

/// A number spelled by `n` digits, the first of them non-zero, times
/// `10^k`, exceeds `u32::MAX` once `n + k > 10`.
proof fn lemma_too_many_digits(v: int, n: nat, k: nat)
    requires
        n >= 1,
        v >= pow10((n - 1) as nat),
        n + k > 10,
    ensures
        v * pow10(k) > u32::MAX,
{
    lemma_pow10_add((n - 1) as nat, k);
    lemma_pow10_monotone(10, ((n - 1) as nat + k) as nat);
    reveal_with_fuel(pow10, 11);
    assert(pow10(10) == 10_000_000_000);
    lemma_pow10_positive(k);
    assert(v * pow10(k) >= pow10((n - 1) as nat) * pow10(k)) by (nonlinear_arith)
        requires
            v >= pow10((n - 1) as nat),
            pow10(k) >= 1,
    ;
}

proof fn lemma_leading_digits(u: Seq<char>, k: int)
    requires
        0 <= k <= u.len(),
        forall|j: int| 0 <= j < k ==> is_digit(#[trigger] u[j]),
        k == u.len() || !is_digit(u[k]),
    ensures
        leading_digits(u) == k,
    decreases k,
{
    if k > 0 {
        let w = u.drop_first();
        assert forall|j: int| 0 <= j < k - 1 implies is_digit(#[trigger] w[j]) by {
            assert(w[j] == u[j + 1]);
        }
        if k < u.len() {
            assert(w[k - 1] == u[k]);
        }
        lemma_leading_digits(w, k - 1);
    } else if u.len() > 0 {
        assert(!is_digit(u[0]));
    }
}

/// The number of digits in `t` from `from` on.
fn count_digits(t: &Vec<char>, from: usize) -> (n: usize)
    requires
        from <= t.len(),
    ensures
        from + n <= t.len(),
        n == leading_digits(t@.subrange(from as int, t.len() as int)),
        all_digits(t@.subrange(from as int, from + n)),
{
    let mut k = from;
    while k < t.len() && '0' <= t[k] && t[k] <= '9'
        invariant
            from <= k <= t.len(),
            forall|j: int| from <= j < k ==> is_digit(#[trigger] t@[j]),
        decreases t.len() - k,
    {
        k = k + 1;
    }
    let ghost u = t@.subrange(from as int, t.len() as int);
    assert forall|j: int| 0 <= j < k - from implies is_digit(#[trigger] u[j]) by {
        assert(u[j] == t@[from + j]);
    }
    if k < t.len() {
        assert(u[k - from] == t@[k as int]);
    }
    proof { lemma_leading_digits(u, k - from); }
    assert forall|j: int| 0 <= j < k - from implies is_digit(#[trigger] t@.subrange(from as int, k as int)[j]) by {
        assert(t@.subrange(from as int, k as int)[j] == t@[from + j]);
    }
    k - from
}

/// `value × 10^shift`.
fn scale_up(value: u64, shift: u64) -> (r: u64)
    requires
        value * pow10(shift as nat) <= 10_000_000_000,
    ensures
        r == value * pow10(shift as nat),
{
    let mut r = value;
    let mut i: u64 = 0;
    assert(pow10(0) == 1);
    while i < shift
        invariant
            i <= shift,
            r == value * pow10(i as nat),
            value * pow10(shift as nat) <= 10_000_000_000,
        decreases shift - i,
    {
        proof {
            lemma_pow10_monotone((i + 1) as nat, shift as nat);
            assert(pow10((i + 1) as nat) == 10 * pow10(i as nat));
            lemma_mul_is_associative(value as int, 10, pow10(i as nat) as int);
            assert(value * pow10((i + 1) as nat) <= value * pow10(shift as nat)) by (nonlinear_arith)
                requires
                    pow10((i + 1) as nat) <= pow10(shift as nat),
                    value >= 0,
            ;
            assert(r * 10 == value * pow10((i + 1) as nat)) by (nonlinear_arith)
                requires
                    r == value * pow10(i as nat),
                    pow10((i + 1) as nat) == 10 * pow10(i as nat),
            ;
        }
        r = r * 10;
        i = i + 1;
    }
    r
}

/// The bounds `(z, end)` of the significant digits of `d`: zeros before
/// `z` and from `end` on, non-zero digits at `z` and `end - 1`; `z == end ==
/// d.len()` when `d` is all zeros.
fn significant_range(d: &Vec<char>) -> (r: (usize, usize))
    ensures
        r.0 <= r.1 <= d.len(),
        forall|j: int| 0 <= j < r.0 ==> #[trigger] d@[j] == '0',
        forall|j: int| r.1 <= j < d.len() ==> #[trigger] d@[j] == '0',
        r.0 == r.1 ==> r.0 == d.len(),
        r.0 < r.1 ==> d@[r.0 as int] != '0' && d@[r.1 - 1] != '0',
{
    let n = d.len();
    let mut z: usize = 0;
    while z < n && d[z] == '0'
        invariant
            z <= n == d.len(),
            forall|j: int| 0 <= j < z ==> #[trigger] d@[j] == '0',
        decreases n - z,
    {
        z = z + 1;
    }
    if z == n {
        return (n, n);
    }
    let mut end: usize = n;
    while end > z + 1 && d[end - 1] == '0'
        invariant
            z < end <= n == d.len(),
            d@[z as int] != '0',
            forall|j: int| end <= j < n ==> #[trigger] d@[j] == '0',
        decreases end,
    {
        end = end - 1;
    }
    (z, end)
}

/// The rate `±d × 10^(±exp - frac_len)` stands for, for the digit runs `d`
/// and `exp`.
#[verifier::rlimit(50)]
#[verifier::spinoff_prover]
fn digits_to_bps(d: &Vec<char>, negative: bool, exp: &Vec<char>, exp_negative: bool, frac_len: usize) -> (r:
    Option<u32>)
    requires
        all_digits(d@),
        all_digits(exp@),
        frac_len <= d.len(),
    ensures
        r == bps_of_value(
            digits_value(d@) as int,
            (if exp_negative { -(digits_value(exp@) as int) } else { digits_value(exp@) as int }) - frac_len,
            negative,
        ),
{
    let ghost e = (if exp_negative { -(digits_value(exp@) as int) } else { digits_value(exp@) as int }) - frac_len;
    let n = d.len();
    let (z, end) = significant_range(d);
    let ghost zeros = d@.take(z as int);
    let ghost core = d@.subrange(z as int, end as int);
    let ghost tail = d@.skip(end as int);
    assert(d@ == zeros + core + tail);
    proof {
        lemma_zeros_value(zeros);
        lemma_zeros_value(tail);
        lemma_digits_value_concat(zeros, core);
        lemma_digits_value_concat(zeros + core, tail);
        lemma_pow10_positive(tail.len());
    }
    if z == end {
        assert(core == Seq::<char>::empty());
        return Some(0);
    }
    assert(all_digits(core)) by {
        assert forall|j: int| 0 <= j < core.len() implies is_digit(#[trigger] core[j]) by {
            assert(core[j] == d@[z + j]);
        }
    }
    proof {
        assert(core.last() == d@[end - 1]);
        assert(core[0] == d@[z as int]);
        lemma_trailing_nonzero(core);
        lemma_leading_nonzero(core);
        lemma_pow10_positive((core.len() - 1) as nat);
    }
    let tz = n - end;
    let mlen = end - z;
    let ghost v = digits_value(core) as int;
    assert(digits_value(d@) == v * pow10(tz as nat));
    proof {
        lemma_pow10_positive(tz as nat);
        lemma_mul_strictly_positive(v, pow10(tz as nat) as int);
    }
    if negative {
        return None;
    }
    proof {
        lemma_bps_of_shifted(v, tz as nat, e);
    }
    let cap: u128 = n as u128 + 11;
    assert(exp@.subrange(0, exp@.len() as int) == exp@);
    let ev = match crate::text::digits_value_within(exp, 0, exp.len(), cap) {
        Some(x) => x,
        None => {
            proof {
                if !exp_negative {
                    lemma_too_many_digits(v, mlen as nat, (tz + e) as nat);
                }
            }
            return None;
        },
    };
    let shift: i128 = tz as i128 + (if exp_negative { -(ev as i128) } else { ev as i128 }) - frac_len as i128;
    if shift < 0 {
        return None;
    }
    if mlen as i128 + shift > 10 {
        proof { lemma_too_many_digits(v, mlen as nat, shift as nat); }
        return None;
    }
    proof {
        lemma_digits_value_bound(core);
        lemma_pow10_add(mlen as nat, shift as nat);
        lemma_pow10_monotone((mlen + shift) as nat, 10);
        reveal_with_fuel(pow10, 11);
        assert(pow10(10) == 10_000_000_000);
        lemma_pow10_positive(shift as nat);
        assert(v * pow10(shift as nat) <= pow10(mlen as nat) * pow10(shift as nat)) by (nonlinear_arith)
            requires
                0 <= v < pow10(mlen as nat),
                pow10(shift as nat) >= 1,
        ;
        lemma_pow10_monotone(mlen as nat, 10);
    }
    let value = match crate::text::digits_value_within(d, z, end, 10_000_000_000) {
        Some(x) => x as u64,
        None => return None,
    };
    let scaled = scale_up(value, shift as u64);
    if scaled > u32::MAX as u64 {
        None
    } else {
        Some(scaled as u32)
    }
}


/// Where the fraction digits of `t[from..]` lie, and where what follows them
/// starts.
fn fraction_layout(t: &Vec<char>, from: usize) -> (r: (usize, usize))
    requires
        from <= t.len(),
    ensures
        from <= r.0 <= r.1 <= t.len(),
        all_digits(t@.subrange(r.0 as int, r.1 as int)),
        fraction_split(t@.subrange(from as int, t.len() as int)) == (
            t@.subrange(r.0 as int, r.1 as int),
            t@.subrange(r.1 as int, t.len() as int),
        ),
{
    let n = t.len();
    let ghost u = t@.subrange(from as int, n as int);
    if from < n && t[from] == '.' {
        let fl = count_digits(t, from + 1);
        assert(u.drop_first() == t@.subrange(from + 1, n as int));
        assert(u.subrange(1, 1 + fl) == t@.subrange(from + 1, from + 1 + fl));
        assert(u.skip(1 + fl) == t@.subrange(from + 1 + fl, n as int));
        (from + 1, from + 1 + fl)
    } else {
        assert(t@.subrange(from as int, from as int) == Seq::<char>::empty());
        (from, from)
    }
}

/// Where the exponent digits of `t[from..]` lie, and whether the exponent is
/// negative.
fn exponent_layout(t: &Vec<char>, from: usize) -> (r: (bool, usize, usize))
    requires
        from <= t.len(),
    ensures
        r.1 <= r.2 <= t.len(),
        all_digits(t@.subrange(r.1 as int, r.2 as int)),
        exponent_part(t@.subrange(from as int, t.len() as int)) == (r.0, t@.subrange(r.1 as int, r.2 as int)),
{
    let n = t.len();
    let ghost u = t@.subrange(from as int, n as int);
    if from < n && (t[from] == 'e' || t[from] == 'E') {
        let eb = from + 1;
        let ghost b = u.drop_first();
        assert(b == t@.subrange(eb as int, n as int));
        let negative = eb < n && t[eb] == '-';
        let eu = if eb < n && (t[eb] == '+' || t[eb] == '-') { eb + 1 } else { eb };
        assert((if b.len() > 0 && (b[0] == '+' || b[0] == '-') { b.drop_first() } else { b }) == t@.subrange(
            eu as int,
            n as int,
        ));
        let el = count_digits(t, eu);
        assert(t@.subrange(eu as int, n as int).take(el as int) == t@.subrange(eu as int, eu + el));
        (negative, eu, eu + el)
    } else {
        assert(t@.subrange(n as int, n as int) == Seq::<char>::empty());
        (false, n, n)
    }
}

/// Where the parts of the number literal `t` lie: its sign, the digits
/// `int_start..int_end` and `frac_start..frac_end`, the exponent's sign and
/// its digits `exp_start..exp_end`.
fn number_layout(t: &Vec<char>) -> (r: (bool, usize, usize, usize, usize, bool, usize, usize))
    ensures
        ({
            let (negative, int_start, int_end, frac_start, frac_end, exp_negative, exp_start, exp_end) = r;
            &&& int_start <= int_end <= t.len()
            &&& frac_start <= frac_end <= t.len()
            &&& exp_start <= exp_end <= t.len()
            &&& all_digits(t@.subrange(int_start as int, int_end as int))
            &&& all_digits(t@.subrange(frac_start as int, frac_end as int))
            &&& all_digits(t@.subrange(exp_start as int, exp_end as int))
            &&& decimal_parts(t@) == (DecimalParts {
                negative,
                int_digits: t@.subrange(int_start as int, int_end as int),
                frac_digits: t@.subrange(frac_start as int, frac_end as int),
                exp_negative,
                exp_digits: t@.subrange(exp_start as int, exp_end as int),
            })
        }),
{
    let ghost s = t@;
    let n = t.len();
    let negative = n > 0 && t[0] == '-';
    let b: usize = if negative { 1 } else { 0 };
    let ghost body = if negative { s.drop_first() } else { s };
    assert(body == s.subrange(b as int, n as int));
    let il = count_digits(t, b);
    let ai = b + il;
    assert(body.take(il as int) == s.subrange(b as int, ai as int));
    assert(body.skip(il as int) == s.subrange(ai as int, n as int));
    let (fs, fe) = fraction_layout(t, ai);
    let (exp_negative, es, ee) = exponent_layout(t, fe);
    (negative, b, ai, fs, fe, exp_negative, es, ee)
}

/// The exact basis-point rate that the number literal `t` stands for.
pub fn number_to_bps(t: &Vec<char>) -> (r: Option<u32>)
    ensures
        r == number_bps(t@),
{
    let (negative, int_start, int_end, frac_start, frac_end, exp_negative, exp_start, exp_end) = number_layout(t);
    let ghost int_part = t@.subrange(int_start as int, int_end as int);
    let ghost frac_part = t@.subrange(frac_start as int, frac_end as int);
    let mut digits = crate::text::slice_chars(t, int_start, int_end);
    let mut k = frac_start;
    while k < frac_end
        invariant
            frac_start <= k <= frac_end <= t.len(),
            digits@ == int_part + t@.subrange(frac_start as int, k as int),
        decreases frac_end - k,
    {
        digits.push(t[k]);
        assert(t@.subrange(frac_start as int, k + 1) == t@.subrange(frac_start as int, k as int).push(t@[k as int]));
        k = k + 1;
    }
    assert(digits@ == int_part + frac_part);
    assert(all_digits(digits@)) by {
        assert forall|j: int| 0 <= j < digits@.len() implies is_digit(#[trigger] digits@[j]) by {
            if j < int_part.len() {
                assert(digits@[j] == int_part[j]);
            } else {
                assert(digits@[j] == frac_part[j - int_part.len()]);
            }
        }
    }
    let exp = crate::text::slice_chars(t, exp_start, exp_end);
    digits_to_bps(&digits, negative, &exp, exp_negative, frac_end - frac_start)
}

} // verus!
