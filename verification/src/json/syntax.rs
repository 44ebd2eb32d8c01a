//! The JSON grammar: a recursive-descent reader over the characters of a
//! document, giving a value tree or the position and message of the first
//! syntax error.
use vstd::prelude::*;
use super::{JsonError, JsonErrorView};
use crate::text::{chars_of, slice_chars, string_of};

verus! {

/// A JSON value. Numbers are kept as the text of the literal.
pub enum JsonValue {
    Null,
    Bool(bool),
    Number(Seq<char>),
    Str(Seq<char>),
    Array(Seq<JsonValue>),
    Object(Seq<(Seq<char>, JsonValue)>),
}

/// A syntax error: the character position and the message.
pub struct SyntaxError {
    pub pos: int,
    pub message: Seq<char>,
}

/// The error for a syntax error.
pub open spec fn syntax_error_view(e: SyntaxError) -> JsonErrorView {
    JsonErrorView::Syntax { pos: e.pos as nat, message: e.message }
}

/// JSON whitespace.
pub open spec fn is_json_ws(c: char) -> bool {
    c == ' ' || c == '\t' || c == '\n' || c == '\r'
}

/// The number of whitespace characters starting at `p`.
pub open spec fn ws_run(s: Seq<char>, p: int) -> nat
    decreases s.len() - p,
{
    if 0 <= p < s.len() && is_json_ws(s[p]) {
        1 + ws_run(s, p + 1)
    } else {
        0
    }
}

/// The first position at or after `p` that is not whitespace.
pub open spec fn skip_ws(s: Seq<char>, p: int) -> int {
    p + ws_run(s, p)
}

pub proof fn lemma_skip_ws(s: Seq<char>, p: int)
    requires
        0 <= p <= s.len(),
    ensures
        p <= skip_ws(s, p) <= s.len(),
        skip_ws(s, p) < s.len() ==> !is_json_ws(s[skip_ws(s, p)]),
    decreases s.len() - p,
{
    if p < s.len() && is_json_ws(s[p]) {
        lemma_skip_ws(s, p + 1);
    }
}

/// The position after reading one character at `p` (none is read at the end).
pub open spec fn after(s: Seq<char>, p: int) -> int {
    if p < s.len() {
        p + 1
    } else {
        p
    }
}

/// The value of a hexadecimal digit, as `char::to_digit(16)` gives it.
pub open spec fn hex_value(c: char) -> Option<int> {
    if '0' <= c <= '9' {
        Some(c as int - '0' as int)
    } else if 'a' <= c <= 'f' {
        Some(c as int - 'a' as int + 10)
    } else if 'A' <= c <= 'F' {
        Some(c as int - 'A' as int + 10)
    } else {
        None
    }
}

/// The four hex digits at `p..p + 4` read into a code unit, continuing with
/// `acc` after the first `i`.
pub open spec fn hex4_from(s: Seq<char>, p: int, i: int, acc: int) -> Result<int, SyntaxError>
    decreases 4 - i,
{
    if i >= 4 {
        Ok(acc)
    } else if p + i >= s.len() {
        Err(SyntaxError { pos: p + i, message: "unterminated unicode escape"@ })
    } else {
        match hex_value(s[p + i]) {
            None => Err(SyntaxError { pos: p + i + 1, message: "invalid hex digit in unicode escape"@ }),
            Some(d) => hex4_from(s, p, i + 1, acc * 16 + d),
        }
    }
}

/// The four hex digits of a `\u` escape at `p`.
pub open spec fn hex4(s: Seq<char>, p: int) -> Result<int, SyntaxError> {
    hex4_from(s, p, 0, 0)
}

pub proof fn lemma_hex4_from(s: Seq<char>, p: int, i: int, acc: int)
    requires
        0 <= i <= 4,
        0 <= acc < pow16(i),
        p + i <= s.len(),
    ensures
        hex4_from(s, p, i, acc) matches Ok(v) ==> p + 4 <= s.len() && 0 <= v < 0x10000,
    decreases 4 - i,
{
    if i < 4 && p + i < s.len() {
        if let Some(d) = hex_value(s[p + i]) {
            assert(0 <= acc * 16 + d < pow16(i + 1)) by (nonlinear_arith)
                requires
                    0 <= acc < pow16(i),
                    0 <= d < 16,
                    pow16(i + 1) == 16 * pow16(i),
            ;
            lemma_hex4_from(s, p, i + 1, acc * 16 + d);
        }
    } else if i >= 4 {
        assert(pow16(4) == 0x10000) by {
            reveal_with_fuel(pow16, 5);
        }
    }
}

/// `16` to the power `i`.
pub open spec fn pow16(i: int) -> int
    decreases i,
{
    if i <= 0 {
        1
    } else {
        16 * pow16(i - 1)
    }
}

/// The character a one-letter escape (`\n`, `\"`, ...) stands for.
pub open spec fn escape_char(e: char) -> Option<char> {
    if e == '"' {
        Some('"')
    } else if e == '\\' {
        Some('\\')
    } else if e == '/' {
        Some('/')
    } else if e == 'b' {
        Some('\u{8}')
    } else if e == 'f' {
        Some('\u{c}')
    } else if e == 'n' {
        Some('\n')
    } else if e == 'r' {
        Some('\r')
    } else if e == 't' {
        Some('\t')
    } else {
        None
    }
}

/// The code point of a surrogate pair.
pub open spec fn surrogate_pair(high: int, low: int) -> int {
    0x10000 + (high - 0xD800) * 0x400 + (low - 0xDC00)
}

/// The rest of a string literal from `p` (just after the opening quote or a
/// character already read), with `acc` read so far: the text and the
/// position after the closing quote.
pub open spec fn string_from(s: Seq<char>, p: int, acc: Seq<char>) -> Result<(Seq<char>, int), SyntaxError>
    decreases s.len() - p,
{
    if p >= s.len() {
        Err(SyntaxError { pos: p, message: "unterminated string"@ })
    } else if s[p] == '"' {
        Ok((acc, p + 1))
    } else if s[p] != '\\' {
        string_from(s, p + 1, acc.push(s[p]))
    } else if p + 1 >= s.len() {
        Err(SyntaxError { pos: p + 1, message: "invalid escape sequence"@ })
    } else if escape_char(s[p + 1]) is Some {
        string_from(s, p + 2, acc.push(escape_char(s[p + 1])->0))
    } else if s[p + 1] != 'u' {
        Err(SyntaxError { pos: p + 2, message: "invalid escape sequence"@ })
    } else {
        match hex4(s, p + 2) {
            Err(e) => Err(e),
            Ok(cp) => {
                proof {
                    lemma_hex4_from(s, p + 2, 0, 0);
                }
                let p3 = p + 6;
                if 0xD800 <= cp <= 0xDBFF {
                    if !(p3 < s.len() && s[p3] == '\\') {
                        Err(SyntaxError { pos: after(s, p3), message: "unpaired high surrogate in unicode escape"@ })
                    } else if !(p3 + 1 < s.len() && s[p3 + 1] == 'u') {
                        Err(
                            SyntaxError {
                                pos: after(s, p3 + 1),
                                message: "unpaired high surrogate in unicode escape"@,
                            },
                        )
                    } else {
                        match hex4(s, p3 + 2) {
                            Err(e) => Err(e),
                            Ok(low) => if 0xDC00 <= low <= 0xDFFF {
                                proof {
                                    lemma_hex4_from(s, p3 + 2, 0, 0);
                                }
                                string_from(s, p3 + 6, acc.push(surrogate_pair(cp, low) as char))
                            } else {
                                Err(SyntaxError { pos: p3 + 6, message: "invalid low surrogate in unicode escape"@ })
                            },
                        }
                    }
                } else if 0xDC00 <= cp <= 0xDFFF {
                    Err(SyntaxError { pos: p3, message: "invalid unicode escape"@ })
                } else {
                    string_from(s, p3, acc.push(cp as char))
                }
            },
        }
    }
}

/// A string literal whose opening quote is at `p`.
pub open spec fn string_at(s: Seq<char>, p: int) -> Result<(Seq<char>, int), SyntaxError> {
    string_from(s, p + 1, Seq::empty())
}


pub proof fn lemma_string_from_bounds(s: Seq<char>, p: int, acc: Seq<char>)
    requires
        0 <= p <= s.len(),
    ensures
        string_from(s, p, acc) matches Ok((t, end)) ==> p < end <= s.len(),
    decreases s.len() - p,
{
    if p < s.len() && s[p] != '"' {
        if s[p] != '\\' {
            lemma_string_from_bounds(s, p + 1, acc.push(s[p]));
        } else if p + 1 < s.len() {
            if escape_char(s[p + 1]) is Some {
                lemma_string_from_bounds(s, p + 2, acc.push(escape_char(s[p + 1])->0));
            } else if s[p + 1] == 'u' {
                lemma_hex4_from(s, p + 2, 0, 0);
                if let Ok(cp) = hex4(s, p + 2) {
                    let p3 = p + 6;
                    if 0xD800 <= cp <= 0xDBFF {
                        if p3 + 1 < s.len() && s[p3] == '\\' && s[p3 + 1] == 'u' {
                            lemma_hex4_from(s, p3 + 2, 0, 0);
                            if let Ok(low) = hex4(s, p3 + 2) {
                                if 0xDC00 <= low <= 0xDFFF {
                                    lemma_string_from_bounds(s, p3 + 6, acc.push(surrogate_pair(cp, low) as char));
                                }
                            }
                        }
                    } else if !(0xDC00 <= cp <= 0xDFFF) {
                        lemma_string_from_bounds(s, p3, acc.push(cp as char));
                    }
                }
            }
        }
    }
}

/// The number of ASCII digits starting at `p`.
pub open spec fn digit_run(s: Seq<char>, p: int) -> nat
    decreases s.len() - p,
{
    if 0 <= p < s.len() && '0' <= s[p] <= '9' {
        1 + digit_run(s, p + 1)
    } else {
        0
    }
}

pub proof fn lemma_digit_run(s: Seq<char>, p: int)
    requires
        0 <= p <= s.len(),
    ensures
        p + digit_run(s, p) <= s.len(),
        p + digit_run(s, p) < s.len() ==> !('0' <= s[p + digit_run(s, p)] <= '9'),
    decreases s.len() - p,
{
    if p < s.len() && '0' <= s[p] <= '9' {
        lemma_digit_run(s, p + 1);
    }
}

/// The end of the number literal at `p`: an optional `-`, then `0` or a run
/// of digits, then optionally `.` and digits, then optionally `e` or `E`, a
/// sign, and digits.
pub open spec fn number_end(s: Seq<char>, p: int) -> Result<int, SyntaxError> {
    let q0 = if p < s.len() && s[p] == '-' { p + 1 } else { p };
    if !(q0 < s.len() && '0' <= s[q0] <= '9') {
        Err(SyntaxError { pos: q0, message: "invalid number"@ })
    } else {
        let q1 = if s[q0] == '0' { q0 + 1 } else { q0 + digit_run(s, q0) };
        let fraction = if q1 < s.len() && s[q1] == '.' {
            if q1 + 1 < s.len() && '0' <= s[q1 + 1] <= '9' {
                Ok(q1 + 1 + digit_run(s, q1 + 1))
            } else {
                Err(SyntaxError { pos: q1 + 1, message: "invalid number: expected a digit after '.'"@ })
            }
        } else {
            Ok(q1)
        };
        match fraction {
            Err(e) => Err(e),
            Ok(q2) => if q2 < s.len() && (s[q2] == 'e' || s[q2] == 'E') {
                let q = if q2 + 1 < s.len() && (s[q2 + 1] == '+' || s[q2 + 1] == '-') {
                    q2 + 2
                } else {
                    q2 + 1
                };
                if q < s.len() && '0' <= s[q] <= '9' {
                    Ok(q + digit_run(s, q))
                } else {
                    Err(SyntaxError { pos: q, message: "invalid number: expected a digit in exponent"@ })
                }
            } else {
                Ok(q2)
            },
        }
    }
}

/// Where the literal `word` starting at `p` first fails to match (the
/// position after the mismatching character), from its `i`-th character on.
pub open spec fn literal_mismatch(s: Seq<char>, p: int, word: Seq<char>, i: int) -> Option<int>
    decreases word.len() - i,
{
    if i >= word.len() {
        None
    } else if p + i < s.len() && s[p + i] == word[i] {
        literal_mismatch(s, p, word, i + 1)
    } else {
        Some(after(s, p + i))
    }
}

pub proof fn lemma_literal_mismatch(s: Seq<char>, p: int, word: Seq<char>, i: int)
    requires
        0 <= i <= word.len(),
        0 <= p,
        p + i <= s.len(),
    ensures
        literal_mismatch(s, p, word, i) is None ==> p + word.len() <= s.len(),
    decreases word.len() - i,
{
    if i < word.len() && p + i < s.len() && s[p + i] == word[i] {
        lemma_literal_mismatch(s, p, word, i + 1);
    }
}

/// A keyword literal at `p`.
pub open spec fn literal_at(s: Seq<char>, p: int, word: Seq<char>, message: Seq<char>, v: JsonValue) -> Result<
    (JsonValue, int),
    SyntaxError,
> {
    match literal_mismatch(s, p, word, 0) {
        Some(pos) => Err(SyntaxError { pos, message }),
        None => Ok((v, p + word.len())),
    }
}

/// An object whose `{` is at `p`: its members and the position after `}`.
pub open spec fn object_at(s: Seq<char>, p: int) -> Result<(Seq<(Seq<char>, JsonValue)>, int), SyntaxError>
    decreases s.len() - p, 0int,
    when 0 <= p < s.len()
{
    proof {
        lemma_skip_ws(s, p + 1);
    }
    let r = skip_ws(s, p + 1);
    if r < s.len() && s[r] == '}' {
        Ok((Seq::empty(), r + 1))
    } else {
        members_from(s, r, Seq::empty())
    }
}

/// The members of an object from `p` on, with `acc` read before.
pub open spec fn members_from(s: Seq<char>, p: int, acc: Seq<(Seq<char>, JsonValue)>) -> Result<
    (Seq<(Seq<char>, JsonValue)>, int),
    SyntaxError,
>
    decreases s.len() - p, 2int,
    when 0 <= p <= s.len()
{
    proof {
        lemma_skip_ws(s, p);
    }
    let q = skip_ws(s, p);
    if !(q < s.len() && s[q] == '"') {
        Err(SyntaxError { pos: q, message: "expected a string key"@ })
    } else {
        match string_at(s, q) {
            Err(e) => Err(e),
            Ok((key, key_end)) => {
                proof {
                    lemma_string_from_bounds(s, q + 1, Seq::empty());
                    lemma_skip_ws(s, key_end);
                }
                let c = skip_ws(s, key_end);
                if !(c < s.len() && s[c] == ':') {
                    Err(SyntaxError { pos: after(s, c), message: "expected ':' after object key"@ })
                } else {
                    match value_at(s, c + 1) {
                        Err(e) => Err(e),
                        Ok((v, k)) => {
                            let r = skip_ws(s, c + 1 + k);
                            if r < s.len() && s[r] == ',' {
                                members_from(s, r + 1, acc.push((key, v)))
                            } else if r < s.len() && s[r] == '}' {
                                Ok((acc.push((key, v)), r + 1))
                            } else {
                                Err(SyntaxError { pos: after(s, r), message: "expected ',' or '}' in object"@ })
                            }
                        },
                    }
                }
            },
        }
    }
}

/// An array whose `[` is at `p`: its elements and the position after `]`.
pub open spec fn array_at(s: Seq<char>, p: int) -> Result<(Seq<JsonValue>, int), SyntaxError>
    decreases s.len() - p, 0int,
    when 0 <= p < s.len()
{
    proof {
        lemma_skip_ws(s, p + 1);
    }
    let r = skip_ws(s, p + 1);
    if r < s.len() && s[r] == ']' {
        Ok((Seq::empty(), r + 1))
    } else {
        elements_from(s, r, Seq::empty())
    }
}

/// The elements of an array from `p` on, with `acc` read before.
pub open spec fn elements_from(s: Seq<char>, p: int, acc: Seq<JsonValue>) -> Result<(Seq<JsonValue>, int), SyntaxError>
    decreases s.len() - p, 2int,
    when 0 <= p <= s.len()
{
    match value_at(s, p) {
        Err(e) => Err(e),
        Ok((v, k)) => {
            let r = skip_ws(s, p + k);
            if r < s.len() && s[r] == ',' {
                elements_from(s, r + 1, acc.push(v))
            } else if r < s.len() && s[r] == ']' {
                Ok((acc.push(v), r + 1))
            } else {
                Err(SyntaxError { pos: after(s, r), message: "expected ',' or ']' in array"@ })
            }
        },
    }
}

/// The value at `p` (after any whitespace) and the number of characters it
/// takes from `p`.
pub open spec fn value_at(s: Seq<char>, p: int) -> Result<(JsonValue, nat), SyntaxError>
    decreases s.len() - p, 1int,
    when 0 <= p <= s.len()
{
    proof {
        lemma_skip_ws(s, p);
    }
    let q = skip_ws(s, p);
    if q >= s.len() {
        Err(SyntaxError { pos: q, message: "unexpected end of input"@ })
    } else {
        let c = s[q];
        if c == '{' {
            match object_at(s, q) {
                Ok((fields, end)) => Ok((JsonValue::Object(fields), (end - p) as nat)),
                Err(e) => Err(e),
            }
        } else if c == '[' {
            match array_at(s, q) {
                Ok((items, end)) => Ok((JsonValue::Array(items), (end - p) as nat)),
                Err(e) => Err(e),
            }
        } else if c == '"' {
            match string_at(s, q) {
                Ok((text, end)) => Ok((JsonValue::Str(text), (end - p) as nat)),
                Err(e) => Err(e),
            }
        } else if c == 't' || c == 'f' || c == 'n' {
            let lit = if c == 't' {
                literal_at(s, q, "true"@, "expected literal \"true\""@, JsonValue::Bool(true))
            } else if c == 'f' {
                literal_at(s, q, "false"@, "expected literal \"false\""@, JsonValue::Bool(false))
            } else {
                literal_at(s, q, "null"@, "expected literal \"null\""@, JsonValue::Null)
            };
            match lit {
                Ok((v, end)) => Ok((v, (end - p) as nat)),
                Err(e) => Err(e),
            }
        } else if c == '-' || ('0' <= c <= '9') {
            match number_end(s, q) {
                Ok(end) => Ok((JsonValue::Number(s.subrange(q, end)), (end - p) as nat)),
                Err(e) => Err(e),
            }
        } else {
            Err(SyntaxError { pos: q, message: "unexpected character"@ })
        }
    }
}

/// A whole document: one value, surrounded only by whitespace.
pub open spec fn document(s: Seq<char>) -> Result<JsonValue, SyntaxError> {
    match value_at(s, 0) {
        Err(e) => Err(e),
        Ok((v, k)) => {
            let end = skip_ws(s, k as int);
            if end != s.len() {
                Err(SyntaxError { pos: end, message: "unexpected trailing data after JSON value"@ })
            } else {
                Ok(v)
            }
        },
    }
}

/// `char::from_u32`: the character with the given code point, or `None` for
/// a surrogate (`0xD800..=0xDFFF`) or a value above `0x10FFFF`.
pub assume_specification[ <char>::from_u32 ](i: u32) -> (r: Option<char>)
    ensures
        r == (if i < 0xD800 || (0xE000 <= i <= 0x10FFFF) {
            Some(i as char)
        } else {
            None
        }),
;

/// A parsed JSON value.
pub enum Value {
    Null,
    Bool(bool),
    Number(String),
    String(String),
    Array(Vec<Value>),
    Object(Vec<(String, Value)>),
}

impl Value {
    /// The value as a `JsonValue`.
    pub open spec fn model(&self) -> JsonValue
        decreases self,
    {
        match self {
            Value::Null => JsonValue::Null,
            Value::Bool(b) => JsonValue::Bool(*b),
            Value::Number(t) => JsonValue::Number(t@),
            Value::String(t) => JsonValue::Str(t@),
            Value::Array(items) => JsonValue::Array(
                Seq::new(
                    items.len() as nat,
                    |i: int|
                        if 0 <= i < items.len() {
                            items[i].model()
                        } else {
                            JsonValue::Null
                        },
                ),
            ),
            Value::Object(fields) => JsonValue::Object(
                Seq::new(
                    fields.len() as nat,
                    |i: int|
                        if 0 <= i < fields.len() {
                            (fields[i].0@, fields[i].1.model())
                        } else {
                            (Seq::<char>::empty(), JsonValue::Null)
                        },
                ),
            ),
        }
    }
}

/// The models of a list of values.
pub open spec fn values_model(items: Seq<Value>) -> Seq<JsonValue> {
    Seq::new(items.len(), |i: int| items[i].model())
}

/// The models of a list of object members.
pub open spec fn members_model(fields: Seq<(String, Value)>) -> Seq<(Seq<char>, JsonValue)> {
    Seq::new(fields.len(), |i: int| (fields[i].0@, fields[i].1.model()))
}

/// The reader's state: the document's characters and the next position.
pub struct Parser {
    pub chars: Vec<char>,
    pub pos: usize,
}

impl Parser {
    pub fn new(input: &str) -> (p: Parser)
        ensures
            p.chars@ == input@,
            p.pos == 0,
    {
        Parser { chars: chars_of(input), pos: 0 }
    }

    pub fn peek(&self) -> (r: Option<char>)
        ensures
            r == (if self.pos < self.chars.len() { Some(self.chars@[self.pos as int]) } else { None::<char> }),
    {
        if self.pos < self.chars.len() {
            Some(self.chars[self.pos])
        } else {
            None
        }
    }

    pub fn advance(&mut self) -> (r: Option<char>)
        requires
            old(self).pos <= old(self).chars.len(),
        ensures
            final(self).chars == old(self).chars,
            final(self).pos == after(old(self).chars@, old(self).pos as int),
            r == (if old(self).pos < old(self).chars.len() {
                Some(old(self).chars@[old(self).pos as int])
            } else {
                None::<char>
            }),
    {
        let c = self.peek();
        if c.is_some() {
            self.pos = self.pos + 1;
        }
        c
    }

    pub fn skip_ws(&mut self)
        requires
            old(self).pos <= old(self).chars.len(),
        ensures
            final(self).chars == old(self).chars,
            final(self).pos == skip_ws(old(self).chars@, old(self).pos as int),
            final(self).pos <= final(self).chars.len(),
            final(self).pos < final(self).chars.len() ==> !is_json_ws(final(self).chars@[final(self).pos as int]),
    {
        proof { lemma_skip_ws(self.chars@, self.pos as int); }
        while self.pos < self.chars.len() && (self.chars[self.pos] == ' ' || self.chars[self.pos] == '\t'
            || self.chars[self.pos] == '\n' || self.chars[self.pos] == '\r')
            invariant
                self.chars == old(self).chars,
                self.pos <= self.chars.len(),
                skip_ws(self.chars@, self.pos as int) == skip_ws(old(self).chars@, old(self).pos as int),
            decreases self.chars.len() - self.pos,
        {
            self.pos = self.pos + 1;
        }
    }

    pub fn error(&self, message: &str) -> (e: JsonError)
        ensures
            e@ == (JsonErrorView::Syntax { pos: self.pos as nat, message: message@ }),
    {
        JsonError::Syntax { pos: self.pos, message: message.to_owned() }
    }

    pub fn parse_hex4(&mut self) -> (r: Result<u32, JsonError>)
        requires
            old(self).pos <= old(self).chars.len(),
        ensures
            final(self).chars == old(self).chars,
            final(self).pos <= final(self).chars.len(),
            match hex4(old(self).chars@, old(self).pos as int) {
                Ok(v) => r == Ok::<u32, JsonError>(v as u32) && final(self).pos == old(self).pos + 4,
                Err(e) => r matches Err(err) && err@ == syntax_error_view(e),
            },
    {
        let ghost s = self.chars@;
        let ghost p = self.pos as int;
        let mut value: u32 = 0;
        let mut i: usize = 0;
        while i < 4
            invariant
                self.chars == old(self).chars,
                s == self.chars@,
                p == old(self).pos,
                i <= 4,
                self.pos == p + i,
                self.pos <= self.chars.len(),
                value < pow16(i as int),
                hex4(s, p) == hex4_from(s, p, i as int, value as int),
            decreases 4 - i,
        {
            let c = match self.advance() {
                Some(c) => c,
                None => return Err(self.error("unterminated unicode escape")),
            };
            let digit: u32 = if '0' <= c && c <= '9' {
                c as u32 - '0' as u32
            } else if 'a' <= c && c <= 'f' {
                c as u32 - 'a' as u32 + 10
            } else if 'A' <= c && c <= 'F' {
                c as u32 - 'A' as u32 + 10
            } else {
                return Err(self.error("invalid hex digit in unicode escape"));
            };
            assert(value * 16 + digit < pow16(i + 1)) by (nonlinear_arith)
                requires
                    value < pow16(i as int),
                    digit < 16,
                    pow16(i + 1) == 16 * pow16(i as int),
            ;
            assert(pow16(4) == 0x10000) by {
                reveal_with_fuel(pow16, 5);
            }
            assert(pow16(i + 1) <= 0x10000) by {
                reveal_with_fuel(pow16, 5);
            }
            value = value * 16 + digit;
            i = i + 1;
        }
        Ok(value)
    }

    pub fn parse_string(&mut self) -> (r: Result<String, JsonError>)
        requires
            old(self).pos < old(self).chars.len(),
        ensures
            final(self).chars == old(self).chars,
            final(self).pos <= final(self).chars.len(),
            match string_at(old(self).chars@, old(self).pos as int) {
                Ok((text, end)) => r matches Ok(t) && t@ == text && final(self).pos == end,
                Err(e) => r matches Err(err) && err@ == syntax_error_view(e),
            },
    {
        let ghost s = self.chars@;
        let ghost p0 = self.pos as int;
        self.pos = self.pos + 1;
        let mut out = String::new();
        loop
            invariant
                self.chars == old(self).chars,
                s == self.chars@,
                p0 == old(self).pos,
                self.pos <= self.chars.len(),
                string_at(s, p0) == string_from(s, self.pos as int, out@),
            decreases self.chars.len() - self.pos,
        {
            let c = match self.advance() {
                Some(c) => c,
                None => return Err(self.error("unterminated string")),
            };
            if c == '"' {
                return Ok(out);
            } else if c != '\\' {
                out.push(c);
            } else {
                let e = match self.advance() {
                    Some(e) => e,
                    None => return Err(self.error("invalid escape sequence")),
                };
                if e == '"' {
                    out.push('"');
                } else if e == '\\' {
                    out.push('\\');
                } else if e == '/' {
                    out.push('/');
                } else if e == 'b' {
                    out.push('\u{8}');
                } else if e == 'f' {
                    out.push('\u{c}');
                } else if e == 'n' {
                    out.push('\n');
                } else if e == 'r' {
                    out.push('\r');
                } else if e == 't' {
                    out.push('\t');
                } else if e == 'u' {
                    let cp = match self.parse_hex4() {
                        Ok(v) => v,
                        Err(err) => return Err(err),
                    };
                    proof { lemma_hex4_from(s, self.pos - 4, 0, 0); }
                    let resolved = if 0xD800 <= cp && cp <= 0xDBFF {
                        let first = self.advance();
                        if first != Some('\\') {
                            return Err(self.error("unpaired high surrogate in unicode escape"));
                        }
                        let second = self.advance();
                        if second != Some('u') {
                            return Err(self.error("unpaired high surrogate in unicode escape"));
                        }
                        let low = match self.parse_hex4() {
                            Ok(v) => v,
                            Err(err) => return Err(err),
                        };
                        proof { lemma_hex4_from(s, self.pos - 4, 0, 0); }
                        if 0xDC00 <= low && low <= 0xDFFF {
                            let high = cp - 0xD800;
                            assert(high << 10 == high * 1024) by (bit_vector)
                                requires
                                    high < 0x400,
                            ;
                            0x10000 + (high << 10) + (low - 0xDC00)
                        } else {
                            return Err(self.error("invalid low surrogate in unicode escape"));
                        }
                    } else {
                        cp
                    };
                    let ch = match char::from_u32(resolved) {
                        Some(ch) => ch,
                        None => return Err(self.error("invalid unicode escape")),
                    };
                    out.push(ch);
                } else {
                    return Err(self.error("invalid escape sequence"));
                }
            }
        }
    }

    pub fn parse_literal(&mut self, word: &str, message: &str, value: Value) -> (r: Result<Value, JsonError>)
        requires
            old(self).pos <= old(self).chars.len(),
        ensures
            final(self).chars == old(self).chars,
            final(self).pos <= final(self).chars.len(),
            match literal_at(old(self).chars@, old(self).pos as int, word@, message@, value.model()) {
                Ok((v, end)) => r matches Ok(val) && val.model() == v && final(self).pos == end,
                Err(e) => r matches Err(err) && err@ == syntax_error_view(e),
            },
    {
        let ghost s = self.chars@;
        let ghost p = self.pos as int;
        let expected = chars_of(word);
        let mut i: usize = 0;
        while i < expected.len()
            invariant
                self.chars == old(self).chars,
                s == self.chars@,
                p == old(self).pos,
                expected@ == word@,
                i <= expected.len(),
                self.pos == p + i,
                self.pos <= self.chars.len(),
                literal_mismatch(s, p, word@, 0) == literal_mismatch(s, p, word@, i as int),
            decreases expected.len() - i,
        {
            let c = self.advance();
            if c != Some(expected[i]) {
                return Err(self.error(message));
            }
            i = i + 1;
        }
        Ok(value)
    }

    pub fn skip_digits(&mut self)
        requires
            old(self).pos <= old(self).chars.len(),
        ensures
            final(self).chars == old(self).chars,
            final(self).pos == old(self).pos + digit_run(old(self).chars@, old(self).pos as int),
            final(self).pos <= final(self).chars.len(),
    {
        proof { lemma_digit_run(self.chars@, self.pos as int); }
        while self.pos < self.chars.len() && '0' <= self.chars[self.pos] && self.chars[self.pos] <= '9'
            invariant
                self.chars == old(self).chars,
                self.pos <= self.chars.len(),
                self.pos + digit_run(self.chars@, self.pos as int) == old(self).pos + digit_run(
                    old(self).chars@,
                    old(self).pos as int,
                ),
            decreases self.chars.len() - self.pos,
        {
            self.pos = self.pos + 1;
        }
    }

    pub fn parse_number(&mut self) -> (r: Result<Value, JsonError>)
        requires
            old(self).pos <= old(self).chars.len(),
        ensures
            final(self).chars == old(self).chars,
            final(self).pos <= final(self).chars.len(),
            match number_end(old(self).chars@, old(self).pos as int) {
                Ok(end) => r matches Ok(val) && val.model() == JsonValue::Number(
                    old(self).chars@.subrange(old(self).pos as int, end),
                ) && final(self).pos == end,
                Err(e) => r matches Err(err) && err@ == syntax_error_view(e),
            },
    {
        let ghost s = self.chars@;
        let start = self.pos;
        if self.peek() == Some('-') {
            self.pos = self.pos + 1;
        }
        match self.peek() {
            Some(c) => {
                if c == '0' {
                    self.pos = self.pos + 1;
                } else if '0' <= c && c <= '9' {
                    self.skip_digits();
                } else {
                    return Err(self.error("invalid number"));
                }
            },
            None => return Err(self.error("invalid number")),
        }
        if self.peek() == Some('.') {
            self.pos = self.pos + 1;
            match self.peek() {
                Some(c) => {
                    if !('0' <= c && c <= '9') {
                        return Err(self.error("invalid number: expected a digit after '.'"));
                    }
                },
                None => return Err(self.error("invalid number: expected a digit after '.'")),
            }
            self.skip_digits();
        }
        let e = self.peek();
        if e == Some('e') || e == Some('E') {
            self.pos = self.pos + 1;
            let sign = self.peek();
            if sign == Some('+') || sign == Some('-') {
                self.pos = self.pos + 1;
            }
            match self.peek() {
                Some(c) => {
                    if !('0' <= c && c <= '9') {
                        return Err(self.error("invalid number: expected a digit in exponent"));
                    }
                },
                None => return Err(self.error("invalid number: expected a digit in exponent")),
            }
            self.skip_digits();
        }
        let text = string_of(&slice_chars(&self.chars, start, self.pos));
        Ok(Value::Number(text))
    }

    pub fn parse_value(&mut self) -> (r: Result<Value, JsonError>)
        requires
            old(self).pos <= old(self).chars.len(),
        ensures
            final(self).chars == old(self).chars,
            final(self).pos <= final(self).chars.len(),
            match value_at(old(self).chars@, old(self).pos as int) {
                Ok((v, k)) => r matches Ok(val) && val.model() == v && final(self).pos == old(self).pos + k,
                Err(e) => r matches Err(err) && err@ == syntax_error_view(e),
            },
        decreases old(self).chars@.len() - old(self).pos, 1int,
    {
        self.skip_ws();
        let c = match self.peek() {
            Some(c) => c,
            None => return Err(self.error("unexpected end of input")),
        };
        if c == '{' {
            match self.parse_object() {
                Ok(fields) => {
                    let ghost m = members_model(fields@);
                    let v = Value::Object(fields);
                    assert(v.model()->Object_0 =~= m);
                    Ok(v)
                },
                Err(e) => Err(e),
            }
        } else if c == '[' {
            match self.parse_array() {
                Ok(items) => {
                    let ghost m = values_model(items@);
                    let v = Value::Array(items);
                    assert(v.model()->Array_0 =~= m);
                    Ok(v)
                },
                Err(e) => Err(e),
            }
        } else if c == '"' {
            proof { lemma_string_from_bounds(self.chars@, self.pos + 1, Seq::empty()); }
            match self.parse_string() {
                Ok(text) => Ok(Value::String(text)),
                Err(e) => Err(e),
            }
        } else if c == 't' {
            self.parse_literal("true", "expected literal \"true\"", Value::Bool(true))
        } else if c == 'f' {
            self.parse_literal("false", "expected literal \"false\"", Value::Bool(false))
        } else if c == 'n' {
            self.parse_literal("null", "expected literal \"null\"", Value::Null)
        } else if c == '-' || ('0' <= c && c <= '9') {
            self.parse_number()
        } else {
            Err(self.error("unexpected character"))
        }
    }

    pub fn parse_object(&mut self) -> (r: Result<Vec<(String, Value)>, JsonError>)
        requires
            old(self).pos < old(self).chars.len(),
        ensures
            final(self).chars == old(self).chars,
            final(self).pos <= final(self).chars.len(),
            r is Ok ==> final(self).pos > old(self).pos,
            match object_at(old(self).chars@, old(self).pos as int) {
                Ok((fields, end)) => r matches Ok(f) && members_model(f@) == fields && final(self).pos == end,
                Err(e) => r matches Err(err) && err@ == syntax_error_view(e),
            },
        decreases old(self).chars@.len() - old(self).pos, 0int,
    {
        let ghost s = self.chars@;
        let ghost p0 = self.pos as int;
        self.pos = self.pos + 1;
        let mut fields: Vec<(String, Value)> = Vec::new();
        self.skip_ws();
        if self.peek() == Some('}') {
            self.pos = self.pos + 1;
            assert(members_model(fields@) == Seq::<(Seq<char>, JsonValue)>::empty());
            return Ok(fields);
        }
        assert(members_model(fields@) == Seq::<(Seq<char>, JsonValue)>::empty());
        loop
            invariant
                self.chars == old(self).chars,
                s == self.chars@,
                p0 == old(self).pos,
                p0 < self.pos <= self.chars.len(),
                object_at(s, p0) == members_from(s, self.pos as int, members_model(fields@)),
            decreases self.chars.len() - self.pos,
        {
            let ghost entry = self.pos as int;
            proof { lemma_skip_ws(s, entry); }
            self.skip_ws();
            if self.peek() != Some('"') {
                return Err(self.error("expected a string key"));
            }
            proof { lemma_string_from_bounds(s, self.pos + 1, Seq::empty()); }
            let key = match self.parse_string() {
                Ok(k) => k,
                Err(e) => return Err(e),
            };
            self.skip_ws();
            if self.advance() != Some(':') {
                return Err(self.error("expected ':' after object key"));
            }
            let value = match self.parse_value() {
                Ok(v) => v,
                Err(e) => return Err(e),
            };
            let ghost before = fields@;
            let ghost key_view = key@;
            let ghost value_model = value.model();
            fields.push((key, value));
            assert(members_model(fields@) == members_model(before).push((key_view, value_model)));
            self.skip_ws();
            let sep = self.advance();
            if sep == Some(',') {
            } else if sep == Some('}') {
                return Ok(fields);
            } else {
                return Err(self.error("expected ',' or '}' in object"));
            }
        }
    }

    pub fn parse_array(&mut self) -> (r: Result<Vec<Value>, JsonError>)
        requires
            old(self).pos < old(self).chars.len(),
        ensures
            final(self).chars == old(self).chars,
            final(self).pos <= final(self).chars.len(),
            r is Ok ==> final(self).pos > old(self).pos,
            match array_at(old(self).chars@, old(self).pos as int) {
                Ok((items, end)) => r matches Ok(v) && values_model(v@) == items && final(self).pos == end,
                Err(e) => r matches Err(err) && err@ == syntax_error_view(e),
            },
        decreases old(self).chars@.len() - old(self).pos, 0int,
    {
        let ghost s = self.chars@;
        let ghost p0 = self.pos as int;
        self.pos = self.pos + 1;
        let mut items: Vec<Value> = Vec::new();
        self.skip_ws();
        if self.peek() == Some(']') {
            self.pos = self.pos + 1;
            assert(values_model(items@) == Seq::<JsonValue>::empty());
            return Ok(items);
        }
        assert(values_model(items@) == Seq::<JsonValue>::empty());
        loop
            invariant
                self.chars == old(self).chars,
                s == self.chars@,
                p0 == old(self).pos,
                p0 < self.pos <= self.chars.len(),
                array_at(s, p0) == elements_from(s, self.pos as int, values_model(items@)),
            decreases self.chars.len() - self.pos,
        {
            let value = match self.parse_value() {
                Ok(v) => v,
                Err(e) => return Err(e),
            };
            let ghost before = items@;
            let ghost value_model = value.model();
            items.push(value);
            assert(values_model(items@) == values_model(before).push(value_model));
            self.skip_ws();
            let sep = self.advance();
            if sep == Some(',') {
            } else if sep == Some(']') {
                return Ok(items);
            } else {
                return Err(self.error("expected ',' or ']' in array"));
            }
        }
    }
}

/// Reads a whole document: one value with only whitespace around it.
pub fn parse_document(input: &str) -> (r: Result<Value, JsonError>)
    ensures
        match document(input@) {
            Ok(v) => r matches Ok(val) && val.model() == v,
            Err(e) => r matches Err(err) && err@ == syntax_error_view(e),
        },
{
    let mut parser = Parser::new(input);
    let value = match parser.parse_value() {
        Ok(v) => v,
        Err(e) => return Err(e),
    };
    parser.skip_ws();
    if parser.pos != parser.chars.len() {
        return Err(parser.error("unexpected trailing data after JSON value"));
    }
    Ok(value)
}


/// JSON whitespace is exactly space, tab, line feed and carriage return: from
/// `p`, `skip_ws` (what `Parser::skip_ws` moves to) passes over only those
/// four characters and stops at the end or at a character that is none of
/// them.
pub proof fn lemma_json_whitespace_is_exactly_four(s: Seq<char>, p: int)
    requires
        0 <= p <= s.len(),
    ensures
        p <= skip_ws(s, p) <= s.len(),
        forall|j: int| p <= j < skip_ws(s, p) ==> {
            let c = #[trigger] s[j];
            c == ' ' || c == '\t' || c == '\n' || c == '\r'
        },
        skip_ws(s, p) < s.len() ==> {
            let c = s[skip_ws(s, p)];
            c != ' ' && c != '\t' && c != '\n' && c != '\r'
        },
    decreases s.len() - p,
{
    if p < s.len() && is_json_ws(s[p]) {
        lemma_json_whitespace_is_exactly_four(s, p + 1);
    }
}

/// A space, tab, line feed or carriage return before a value changes nothing:
/// reading a value from that character gives the same value, or the same
/// error, as reading it from the next one.
pub proof fn lemma_whitespace_before_value(s: Seq<char>, p: int)
    requires
        0 <= p < s.len(),
        s[p] == ' ' || s[p] == '\t' || s[p] == '\n' || s[p] == '\r',
    ensures
        match (value_at(s, p), value_at(s, p + 1)) {
            (Ok((v1, _)), Ok((v2, _))) => v1 == v2,
            (Err(e1), Err(e2)) => e1 == e2,
            _ => false,
        },
{
    assert(skip_ws(s, p) == skip_ws(s, p + 1));
}

/// A string literal without escapes reads as the text between its quotes.
proof fn lemma_plain_run(s: Seq<char>, i: int, j: int, acc: Seq<char>)
    requires
        0 <= i <= j <= s.len(),
        forall|k: int| i <= k < j ==> #[trigger] s[k] != '"' && s[k] != '\\',
    ensures
        string_from(s, i, acc) == string_from(s, j, acc + s.subrange(i, j)),
    decreases j - i,
{
    if i < j {
        lemma_plain_run(s, i + 1, j, acc.push(s[i]));
        assert(acc.push(s[i]) + s.subrange(i + 1, j) == acc + s.subrange(i, j));
    } else {
        assert(acc + s.subrange(i, j) == acc);
    }
}

/// Text that holds no double quote and no backslash.
pub open spec fn plain_text(w: Seq<char>) -> bool {
    forall|k: int| 0 <= k < w.len() ==> #[trigger] w[k] != '"' && w[k] != '\\'
}

/// The string literal with contents `w1`, the escape `\e`, then `w2`.
pub open spec fn escaped_literal(w1: Seq<char>, e: char, w2: Seq<char>) -> Seq<char> {
    seq!['"'] + w1 + seq!['\\', e] + w2 + seq!['"']
}

/// Each one-letter JSON escape reads as the character RFC 8259 gives it:
/// `\"` as `"`, `\\` as `\`, `\/` as `/`, `\b` as U+0008, `\f` as U+000C,
/// `\n` as U+000A, `\r` as U+000D and `\t` as U+0009; the text around it is
/// kept as it is, and the literal ends after its closing quote.
pub proof fn lemma_one_letter_escapes(w1: Seq<char>, e: char, w2: Seq<char>)
    requires
        plain_text(w1),
        plain_text(w2),
    ensures
        ({
            let lit = escaped_literal(w1, e, w2);
            let reads_as = |c: char| string_at(lit, 0) == Ok::<(Seq<char>, int), SyntaxError>(
                (w1 + seq![c] + w2, lit.len() as int),
            );
            &&& e == '"' ==> reads_as('"')
            &&& e == '\\' ==> reads_as('\\')
            &&& e == '/' ==> reads_as('/')
            &&& e == 'b' ==> reads_as('\u{8}')
            &&& e == 'f' ==> reads_as('\u{c}')
            &&& e == 'n' ==> reads_as('\n')
            &&& e == 'r' ==> reads_as('\r')
            &&& e == 't' ==> reads_as('\t')
        }),
{
    let lit = escaped_literal(w1, e, w2);
    let a: int = 1 + w1.len() as int;
    let b: int = a + 2;
    let z: int = b + w2.len();
    assert(lit.len() == z + 1);
    assert forall|k: int| 1 <= k < a implies #[trigger] lit[k] != '"' && lit[k] != '\\' by {
        assert(lit[k] == w1[k - 1]);
    }
    assert forall|k: int| b <= k < z implies #[trigger] lit[k] != '"' && lit[k] != '\\' by {
        assert(lit[k] == w2[k - b]);
    }
    assert(lit.subrange(1, a) == w1);
    assert(lit.subrange(b, z) == w2);
    assert(lit[a] == '\\');
    assert(lit[a + 1] == e);
    assert(lit[z] == '"');
    lemma_plain_run(lit, 1, a, Seq::empty());
    assert(Seq::<char>::empty() + w1 == w1);
    if escape_char(e) is Some {
        let c = escape_char(e)->0;
        lemma_plain_run(lit, b, z, w1.push(c));
        assert(w1.push(c) + w2 == w1 + seq![c] + w2);
    }
}

} // verus!
