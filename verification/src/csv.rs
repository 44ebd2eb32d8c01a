//! Reading a headered CSV invoice into line items.
//!
//! Column order in the header does not matter; `discount_bps` and `tax_bps`
//! are optional and default to no discount and no tax when the column is
//! absent. `tax_bps` holds one or more semicolon-separated rates (`"500;300"`
//! for a 5% and a 3% rate charged separately).
use vstd::prelude::*;
use crate::amount::{
    fixed_point_value, money_error_text, quantity_error_text, Money, Quantity,
};
use crate::pricing::{item_views, LineItem, LineItemView};
use crate::text::{
    ascii_lowercase, chars_equal, decimal_text, push_decimal, chars_of, debug_quoted, debug_str, find_char, first_index_of,
    parse_u32, push_str, slice_chars, split_from, split_on, string_of, to_ascii_lowercase, trim,
    trim_bounds, u32_value, is_white_space, trim_end, trim_start, lemma_trim_start_is_suffix, lemma_trim_end_is_prefix,
};

verus! {

/// The state of the field splitter between two characters of a line.
pub struct SplitState {
    pub fields: Seq<Seq<char>>,
    pub field: Seq<char>,
    pub in_quotes: bool,
    pub quoted: bool,
}

/// A finished field: quoted fields are kept verbatim, unquoted ones trimmed.
pub open spec fn finish_field(field: Seq<char>, quoted: bool) -> Seq<char> {
    if quoted {
        field
    } else {
        trim(field)
    }
}

/// The fields of `line` from position `i` on, given the splitter state there.
/// A double quote at the start of a field opens a quoted field, in which
/// commas are kept and `""` stands for one quote; a comma outside quotes ends
/// the field.
pub open spec fn split_fields_from(line: Seq<char>, i: int, st: SplitState) -> Seq<Seq<char>>
    decreases line.len() - i,
{
    if i >= line.len() {
        st.fields.push(finish_field(st.field, st.quoted))
    } else {
        let c = line[i];
        if st.in_quotes {
            if c == '"' {
                if i + 1 < line.len() && line[i + 1] == '"' {
                    split_fields_from(
                        line,
                        i + 2,
                        SplitState { fields: st.fields, field: st.field.push('"'), in_quotes: true, quoted: st.quoted },
                    )
                } else {
                    split_fields_from(
                        line,
                        i + 1,
                        SplitState { fields: st.fields, field: st.field, in_quotes: false, quoted: st.quoted },
                    )
                }
            } else {
                split_fields_from(
                    line,
                    i + 1,
                    SplitState { fields: st.fields, field: st.field.push(c), in_quotes: true, quoted: st.quoted },
                )
            }
        } else if c == '"' && st.field.len() == 0 {
            split_fields_from(
                line,
                i + 1,
                SplitState { fields: st.fields, field: st.field, in_quotes: true, quoted: true },
            )
        } else if c == ',' {
            split_fields_from(
                line,
                i + 1,
                SplitState {
                    fields: st.fields.push(finish_field(st.field, st.quoted)),
                    field: Seq::empty(),
                    in_quotes: false,
                    quoted: false,
                },
            )
        } else {
            split_fields_from(
                line,
                i + 1,
                SplitState { fields: st.fields, field: st.field.push(c), in_quotes: false, quoted: st.quoted },
            )
        }
    }
}

/// The fields of one CSV line.
pub open spec fn split_line_spec(line: Seq<char>) -> Seq<Seq<char>> {
    split_fields_from(
        line,
        0,
        SplitState { fields: Seq::empty(), field: Seq::empty(), in_quotes: false, quoted: false },
    )
}

/// The views of a list of character vectors.
pub open spec fn char_rows(v: Seq<Vec<char>>) -> Seq<Seq<char>> {
    v.map_values(|f: Vec<char>| f@)
}

fn finish(field: &Vec<char>, quoted: bool) -> (r: Vec<char>)
    ensures
        r@ == finish_field(field@, quoted),
{
    if quoted {
        slice_chars(field, 0, field.len())
    } else {
        let (a, b) = trim_bounds(field, 0, field.len());
        assert(field@.subrange(0, field@.len() as int) == field@);
        slice_chars(field, a, b)
    }
}

/// Splits one CSV line into fields, honoring double-quoted fields (so a
/// description can contain a comma) with `""` as an escaped quote.
/// Unquoted fields are trimmed; quoted fields are taken verbatim.
pub fn split_line(line: &Vec<char>) -> (fields: Vec<Vec<char>>)
    ensures
        char_rows(fields@) == split_line_spec(line@),
{
    let mut fields: Vec<Vec<char>> = Vec::new();
    let mut field: Vec<char> = Vec::new();
    let mut in_quotes = false;
    let mut quoted = false;
    let mut i: usize = 0;
    assert(char_rows(fields@) == Seq::<Seq<char>>::empty());
    while i < line.len()
        invariant
            i <= line.len(),
            split_line_spec(line@) == split_fields_from(
                line@,
                i as int,
                SplitState { fields: char_rows(fields@), field: field@, in_quotes, quoted },
            ),
        decreases line.len() - i,
    {
        let c = line[i];
        if in_quotes {
            if c == '"' {
                if i + 1 < line.len() && line[i + 1] == '"' {
                    field.push('"');
                    i = i + 2;
                } else {
                    in_quotes = false;
                    i = i + 1;
                }
            } else {
                field.push(c);
                i = i + 1;
            }
        } else if c == '"' && field.len() == 0 {
            in_quotes = true;
            quoted = true;
            i = i + 1;
        } else if c == ',' {
            let done = finish(&field, quoted);
            let ghost before = fields@;
            fields.push(done);
            assert(char_rows(fields@) == char_rows(before).push(done@));
            field = Vec::new();
            quoted = false;
            i = i + 1;
        } else {
            field.push(c);
            i = i + 1;
        }
    }
    let done = finish(&field, quoted);
    let ghost before = fields@;
    fields.push(done);
    assert(char_rows(fields@) == char_rows(before).push(done@));
    fields
}


// ---------------------------------------------------------------------------
// Lines
// ---------------------------------------------------------------------------

/// `l` without one trailing carriage return.
pub open spec fn strip_cr(l: Seq<char>) -> Seq<char> {
    if l.len() > 0 && l.last() == '\r' {
        l.drop_last()
    } else {
        l
    }
}

/// The lines of `s[start..]` as `str::lines` gives them: split at `\n`, a
/// `\r` just before the `\n` dropped, and no empty line after a final `\n`.
pub open spec fn lines_from(s: Seq<char>, start: int) -> Seq<Seq<char>>
    decreases s.len() - start,
    when 0 <= start <= s.len()
{
    if start >= s.len() {
        Seq::empty()
    } else {
        let k = start + first_index_of(s.subrange(start, s.len() as int), '\n');
        if k >= s.len() {
            seq![s.subrange(start, s.len() as int)]
        } else {
            seq![strip_cr(s.subrange(start, k))] + lines_from(s, k + 1)
        }
    }
}

/// The lines of `s`.
pub open spec fn lines_of(s: Seq<char>) -> Seq<Seq<char>> {
    lines_from(s, 0)
}

/// The text of each `(start, end)` span of `s`.
pub open spec fn spans_text(s: Seq<char>, spans: Seq<(usize, usize)>) -> Seq<Seq<char>> {
    spans.map_values(|p: (usize, usize)| s.subrange(p.0 as int, p.1 as int))
}

/// The spans of the lines of `s`.
fn line_spans(s: &Vec<char>) -> (spans: Vec<(usize, usize)>)
    ensures
        spans_text(s@, spans@) == lines_of(s@),
        forall|j: int| 0 <= j < spans@.len() ==> #[trigger] spans@[j].0 <= spans@[j].1 <= s.len(),
        spans@.len() <= s.len(),
{
    let n = s.len();
    let mut spans: Vec<(usize, usize)> = Vec::new();
    let mut pos: usize = 0;
    assert(spans_text(s@, spans@) == Seq::<Seq<char>>::empty());
    while pos < n
        invariant
            pos <= n == s.len(),
            lines_of(s@) == spans_text(s@, spans@) + lines_from(s@, pos as int),
            forall|j: int| 0 <= j < spans@.len() ==> #[trigger] spans@[j].0 <= spans@[j].1 <= s.len(),
            spans@.len() <= pos,
        decreases n - pos,
    {
        let k = find_char(s, pos, n, '\n');
        let ghost before = spans@;
        if k < n {
            let end = if k > pos && s[k - 1] == '\r' { k - 1 } else { k };
            assert(s@.subrange(pos as int, end as int) == strip_cr(s@.subrange(pos as int, k as int)));
            spans.push((pos, end));
            pos = k + 1;
        } else {
            spans.push((pos, n));
            pos = n;
        }
        assert(spans_text(s@, spans@) == spans_text(s@, before) + seq![
            s@.subrange(spans@.last().0 as int, spans@.last().1 as int),
        ]);
    }
    assert(lines_from(s@, pos as int) == Seq::<Seq<char>>::empty());
    spans
}

/// A line that holds data: not blank and not a `#` comment.
pub open spec fn is_content_line(l: Seq<char>) -> bool {
    trim(l).len() > 0 && trim(l)[0] != '#'
}

/// The content lines among `lines`, each with its index in `lines`.
pub open spec fn content_rows(lines: Seq<Seq<char>>) -> Seq<(nat, Seq<char>)>
    decreases lines.len(),
{
    if lines.len() == 0 {
        Seq::empty()
    } else {
        let before = content_rows(lines.drop_last());
        if is_content_line(lines.last()) {
            before.push(((lines.len() - 1) as nat, lines.last()))
        } else {
            before
        }
    }
}

/// The index and text of each `(index, start, end)` row of `s`.
pub open spec fn rows_text(s: Seq<char>, rows: Seq<(usize, usize, usize)>) -> Seq<(nat, Seq<char>)> {
    rows.map_values(|r: (usize, usize, usize)| (r.0 as nat, s.subrange(r.1 as int, r.2 as int)))
}

/// The content lines of `s`, each as its line index and span.
fn content_line_spans(s: &Vec<char>) -> (rows: Vec<(usize, usize, usize)>)
    ensures
        rows_text(s@, rows@) == content_rows(lines_of(s@)),
        forall|j: int| 0 <= j < rows@.len() ==> #[trigger] rows@[j].1 <= rows@[j].2 <= s.len(),
        forall|j: int| 0 <= j < rows@.len() ==> #[trigger] rows@[j].0 < s.len(),
{
    let spans = line_spans(s);
    let ghost lines = spans_text(s@, spans@);
    let mut rows: Vec<(usize, usize, usize)> = Vec::new();
    let mut j: usize = 0;
    assert(lines.take(0) == Seq::<Seq<char>>::empty());
    assert(rows_text(s@, rows@) == Seq::<(nat, Seq<char>)>::empty());
    while j < spans.len()
        invariant
            j <= spans.len() <= s.len(),
            lines == spans_text(s@, spans@),
            forall|i: int| 0 <= i < spans@.len() ==> #[trigger] spans@[i].0 <= spans@[i].1 <= s.len(),
            rows_text(s@, rows@) == content_rows(lines.take(j as int)),
            forall|i: int| 0 <= i < rows@.len() ==> #[trigger] rows@[i].1 <= rows@[i].2 <= s.len(),
            forall|i: int| 0 <= i < rows@.len() ==> #[trigger] rows@[i].0 < j,
        decreases spans.len() - j,
    {
        let (a, b) = spans[j];
        let (ta, tb) = trim_bounds(s, a, b);
        assert(lines.take(j + 1).drop_last() == lines.take(j as int));
        assert(lines.take(j + 1).last() == s@.subrange(a as int, b as int));
        if ta < tb && s[ta] != '#' {
            let ghost before = rows@;
            rows.push((j, a, b));
            assert(rows_text(s@, rows@) == rows_text(s@, before).push((j as nat, s@.subrange(a as int, b as int))));
        }
        j = j + 1;
    }
    assert(lines.take(spans.len() as int) == lines);
    rows
}

// ---------------------------------------------------------------------------
// Header
// ---------------------------------------------------------------------------

/// A column name this reader understands.
pub open spec fn is_known_column(name: Seq<char>) -> bool {
    ||| name == "description"@
    ||| name == "quantity"@
    ||| name == "unit_price"@
    ||| name == "discount_bps"@
    ||| name == "tax_bps"@
}

/// The first name in `header` that is not a known column.
pub open spec fn first_unknown_column(header: Seq<Seq<char>>) -> Option<Seq<char>>
    decreases header.len(),
{
    if header.len() == 0 {
        None
    } else {
        match first_unknown_column(header.drop_last()) {
            Some(n) => Some(n),
            None => if is_known_column(header.last()) {
                None
            } else {
                Some(header.last())
            },
        }
    }
}

/// The index of the first column of `header` named `name`.
pub open spec fn column_index(header: Seq<Seq<char>>, name: Seq<char>) -> Option<nat>
    decreases header.len(),
{
    if header.len() == 0 {
        None
    } else {
        match column_index(header.drop_last(), name) {
            Some(i) => Some(i),
            None => if header.last() == name {
                Some((header.len() - 1) as nat)
            } else {
                None
            },
        }
    }
}

/// Where each column stands in a row.
pub struct ColumnsView {
    pub description: nat,
    pub quantity: nat,
    pub unit_price: nat,
    pub discount_bps: Option<nat>,
    pub tax_bps: Option<nat>,
}

/// The column positions a (lowercased) header gives, or the error it is
/// refused with: an unknown column first, then a missing required column.
pub open spec fn header_columns(header: Seq<Seq<char>>) -> Result<ColumnsView, CsvErrorView> {
    match first_unknown_column(header) {
        Some(n) => Err(CsvErrorView::UnknownColumn(n)),
        None => match column_index(header, "description"@) {
            None => Err(CsvErrorView::MissingColumn("description"@)),
            Some(d) => match column_index(header, "quantity"@) {
                None => Err(CsvErrorView::MissingColumn("quantity"@)),
                Some(q) => match column_index(header, "unit_price"@) {
                    None => Err(CsvErrorView::MissingColumn("unit_price"@)),
                    Some(p) => Ok(
                        ColumnsView {
                            description: d,
                            quantity: q,
                            unit_price: p,
                            discount_bps: column_index(header, "discount_bps"@),
                            tax_bps: column_index(header, "tax_bps"@),
                        },
                    ),
                },
            },
        },
    }
}

/// Where each column of a header stands.
pub struct Columns {
    pub description: usize,
    pub quantity: usize,
    pub unit_price: usize,
    pub discount_bps: Option<usize>,
    pub tax_bps: Option<usize>,
}

impl Columns {
    /// The positions as natural numbers.
    pub open spec fn view_of(self) -> ColumnsView {
        ColumnsView {
            description: self.description as nat,
            quantity: self.quantity as nat,
            unit_price: self.unit_price as nat,
            discount_bps: match self.discount_bps {
                Some(i) => Some(i as nat),
                None => None,
            },
            tax_bps: match self.tax_bps {
                Some(i) => Some(i as nat),
                None => None,
            },
        }
    }

    /// The positions of the columns a lowercased header names, or the error
    /// it is refused with.
    pub fn from_header(header: &Vec<Vec<char>>) -> (r: Result<Columns, CsvError>)
        ensures
            match header_columns(char_rows(header@)) {
                Ok(c) => r matches Ok(cols) && cols.view_of() == c && cols.description < header.len()
                    && cols.quantity < header.len() && cols.unit_price < header.len()
                    && (cols.discount_bps matches Some(i) ==> i < header.len())
                    && (cols.tax_bps matches Some(i) ==> i < header.len()),
                Err(e) => r matches Err(err) && err@ == e,
            },
    {
        let ghost names = char_rows(header@);
        let mut i: usize = 0;
        while i < header.len()
            invariant
                i <= header.len(),
                names == char_rows(header@),
                first_unknown_column(names.take(i as int)) is None,
            decreases header.len() - i,
        {
            assert(names.take(i + 1).drop_last() == names.take(i as int));
            let name = &header[i];
            if !(chars_equal(name, "description") || chars_equal(name, "quantity") || chars_equal(
                name,
                "unit_price",
            ) || chars_equal(name, "discount_bps") || chars_equal(name, "tax_bps")) {
                proof { lemma_first_unknown_extends(names, i as int + 1); }
                return Err(CsvError::UnknownColumn(string_of(name)));
            }
            i = i + 1;
        }
        assert(names.take(header.len() as int) == names);
        let description = match position(header, "description") {
            Some(k) => k,
            None => return Err(CsvError::MissingColumn("description")),
        };
        let quantity = match position(header, "quantity") {
            Some(k) => k,
            None => return Err(CsvError::MissingColumn("quantity")),
        };
        let unit_price = match position(header, "unit_price") {
            Some(k) => k,
            None => return Err(CsvError::MissingColumn("unit_price")),
        };
        Ok(
            Columns {
                description,
                quantity,
                unit_price,
                discount_bps: position(header, "discount_bps"),
                tax_bps: position(header, "tax_bps"),
            },
        )
    }
}

proof fn lemma_first_unknown_extends(names: Seq<Seq<char>>, k: int)
    requires
        0 <= k <= names.len(),
        first_unknown_column(names.take(k)) matches Some(n),
    ensures
        first_unknown_column(names) == first_unknown_column(names.take(k)),
    decreases names.len() - k,
{
    if k < names.len() {
        assert(names.take(k + 1).drop_last() == names.take(k));
        lemma_first_unknown_extends(names, k + 1);
    } else {
        assert(names.take(k) == names);
    }
}

proof fn lemma_column_index_extends(names: Seq<Seq<char>>, name: Seq<char>, k: int)
    requires
        0 <= k <= names.len(),
        column_index(names.take(k), name) is Some,
    ensures
        column_index(names, name) == column_index(names.take(k), name),
    decreases names.len() - k,
{
    if k < names.len() {
        assert(names.take(k + 1).drop_last() == names.take(k));
        lemma_column_index_extends(names, name, k + 1);
    } else {
        assert(names.take(k) == names);
    }
}

/// The index of the first header field equal to `name`.
fn position(header: &Vec<Vec<char>>, name: &str) -> (r: Option<usize>)
    ensures
        match column_index(char_rows(header@), name@) {
            Some(i) => r == Some(i as usize) && i < header.len(),
            None => r is None,
        },
{
    let ghost names = char_rows(header@);
    let mut i: usize = 0;
    while i < header.len()
        invariant
            i <= header.len(),
            names == char_rows(header@),
            column_index(names.take(i as int), name@) is None,
        decreases header.len() - i,
    {
        assert(names.take(i + 1).drop_last() == names.take(i as int));
        if chars_equal(&header[i], name) {
            proof { lemma_column_index_extends(names, name@, i as int + 1); }
            return Some(i);
        }
        i = i + 1;
    }
    assert(names.take(header.len() as int) == names);
    None
}

// ---------------------------------------------------------------------------
// Errors
// ---------------------------------------------------------------------------

/// Why a CSV document was refused.
#[derive(Debug, Clone, PartialEq, Eq)]
pub enum CsvError {
    MissingHeader,
    MissingColumn(&'static str),
    UnknownColumn(String),
    WrongFieldCount { line: usize, expected: usize, got: usize },
    InvalidField { line: usize, column: &'static str, message: String },
}

/// A `CsvError` with its strings as character sequences.
pub enum CsvErrorView {
    MissingHeader,
    MissingColumn(Seq<char>),
    UnknownColumn(Seq<char>),
    WrongFieldCount { line: nat, expected: nat, got: nat },
    InvalidField { line: nat, column: Seq<char>, message: Seq<char> },
}

impl View for CsvError {
    type V = CsvErrorView;

    open spec fn view(&self) -> CsvErrorView {
        match self {
            CsvError::MissingHeader => CsvErrorView::MissingHeader,
            CsvError::MissingColumn(name) => CsvErrorView::MissingColumn(name@),
            CsvError::UnknownColumn(name) => CsvErrorView::UnknownColumn(name@),
            CsvError::WrongFieldCount { line, expected, got } => CsvErrorView::WrongFieldCount {
                line: *line as nat,
                expected: *expected as nat,
                got: *got as nat,
            },
            CsvError::InvalidField { line, column, message } => CsvErrorView::InvalidField {
                line: *line as nat,
                column: column@,
                message: message@,
            },
        }
    }
}

// ---------------------------------------------------------------------------
// Rows
// ---------------------------------------------------------------------------

/// The message for a field that is not an integer.
pub open spec fn invalid_integer_text(s: Seq<char>) -> Seq<char> {
    "invalid integer "@ + debug_quoted(s)
}

/// The rates of the `;`-separated pieces `parts`, each trimmed and read as a
/// `u32`; the message for the first piece that is not one.
pub open spec fn rates_of(parts: Seq<Seq<char>>) -> Result<Seq<u32>, Seq<char>>
    decreases parts.len(),
{
    if parts.len() == 0 {
        Ok(Seq::empty())
    } else {
        match rates_of(parts.drop_last()) {
            Err(m) => Err(m),
            Ok(rates) => match u32_value(trim(parts.last())) {
                Some(v) => Ok(rates.push(v)),
                None => Err(invalid_integer_text(parts.last())),
            },
        }
    }
}

/// The rates of a `tax_bps` field: none for an empty field, else one per
/// `;`-separated piece.
pub open spec fn tax_rates_value(field: Seq<char>) -> Result<Seq<u32>, Seq<char>> {
    if field.len() == 0 {
        Ok(Seq::empty())
    } else {
        rates_of(split_on(field, ';'))
    }
}

proof fn lemma_rates_of_err_extends(parts: Seq<Seq<char>>, k: int)
    requires
        0 <= k <= parts.len(),
        rates_of(parts.take(k)) is Err,
    ensures
        rates_of(parts) == rates_of(parts.take(k)),
    decreases parts.len() - k,
{
    if k < parts.len() {
        assert(parts.take(k + 1).drop_last() == parts.take(k));
        lemma_rates_of_err_extends(parts, k + 1);
    } else {
        assert(parts.take(k) == parts);
    }
}

/// The message for a field that is not an integer.
fn invalid_integer_message(s: &Vec<char>) -> (m: String)
    ensures
        m@ == invalid_integer_text(s@),
{
    let mut out: Vec<char> = Vec::new();
    push_str(&mut out, "invalid integer ");
    let text = string_of(s);
    push_str(&mut out, debug_str(text.as_str()).as_str());
    string_of(&out)
}

/// Parses a `tax_bps` field into zero or more basis-point rates. An empty
/// field means no tax; multiple rates are joined with `;`.
pub fn parse_tax_rates(field: &Vec<char>) -> (r: Result<Vec<u32>, String>)
    ensures
        match tax_rates_value(field@) {
            Ok(v) => r matches Ok(rates) && rates@ == v,
            Err(m) => r matches Err(msg) && msg@ == m,
        },
{
    let mut rates: Vec<u32> = Vec::new();
    if field.len() == 0 {
        return Ok(rates);
    }
    let n = field.len();
    let ghost f = field@;
    let ghost mut done: Seq<Seq<char>> = Seq::empty();
    let mut start: usize = 0;
    let mut finished = false;
    assert(split_on(f, ';') == done + split_from(f, ';', 0));
    while !finished
        invariant
            n == field.len() == f.len(),
            f == field@,
            n > 0,
            start <= n,
            !finished ==> split_on(f, ';') == done + split_from(f, ';', start as int),
            finished ==> split_on(f, ';') == done,
            rates_of(done) == Ok::<Seq<u32>, Seq<char>>(rates@),
        decreases (if finished { 0 } else { n + 1 - start }),
    {
        let k = find_char(field, start, n, ';');
        let ghost piece = f.subrange(start as int, k as int);
        let (a, b) = trim_bounds(field, start, k);
        let ghost next_done = done.push(piece);
        assert(next_done.drop_last() == done);
        match parse_u32(field, a, b) {
            Some(v) => {
                rates.push(v);
            },
            None => {
                proof {
                    if k >= n {
                        assert(split_on(f, ';') == next_done);
                        assert(next_done.take(next_done.len() as int) == next_done);
                    } else {
                        assert(split_on(f, ';') == next_done + split_from(f, ';', k + 1));
                        assert((next_done + split_from(f, ';', k + 1)).take(next_done.len() as int) == next_done);
                    }
                    lemma_rates_of_err_extends(split_on(f, ';'), next_done.len() as int);
                    assert(split_on(f, ';').take(next_done.len() as int) == next_done);
                }
                return Err(invalid_integer_message(&slice_chars(field, start, k)));
            },
        }
        proof { done = next_done; }
        if k >= n {
            finished = true;
        } else {
            assert(split_from(f, ';', start as int) == seq![piece] + split_from(f, ';', k + 1));
            assert(split_on(f, ';') == done + split_from(f, ';', k + 1));
            start = k + 1;
        }
    }
    Ok(rates)
}


/// The discount of a row: 0 without a `discount_bps` column, else the field
/// read as a `u32`.
pub open spec fn discount_field(fields: Seq<Seq<char>>, column: Option<nat>) -> Result<u32, Seq<char>> {
    match column {
        Some(i) => match u32_value(fields[i as int]) {
            Some(v) => Ok(v),
            None => Err(invalid_integer_text(fields[i as int])),
        },
        None => Ok(0),
    }
}

/// The tax rates of a row: none without a `tax_bps` column.
pub open spec fn tax_field(fields: Seq<Seq<char>>, column: Option<nat>) -> Result<Seq<u32>, Seq<char>> {
    match column {
        Some(i) => tax_rates_value(fields[i as int]),
        None => Ok(Seq::empty()),
    }
}

/// The line item of one data row with the given fields, or the error for it.
/// Fields are checked in order: the count, the quantity, the unit price, the
/// discount, the tax rates.
pub open spec fn row_item(line: nat, fields: Seq<Seq<char>>, header_len: nat, cols: ColumnsView) -> Result<
    LineItemView,
    CsvErrorView,
> {
    if fields.len() != header_len {
        Err(CsvErrorView::WrongFieldCount { line, expected: header_len, got: fields.len() })
    } else {
        let qf = fields[cols.quantity as int];
        let pf = fields[cols.unit_price as int];
        match fixed_point_value(qf, 3) {
            None => Err(
                CsvErrorView::InvalidField { line, column: "quantity"@, message: quantity_error_text(qf) },
            ),
            Some(q) => match fixed_point_value(pf, 2) {
                None => Err(
                    CsvErrorView::InvalidField {
                        line,
                        column: "unit_price"@,
                        message: money_error_text(pf),
                    },
                ),
                Some(p) => match discount_field(fields, cols.discount_bps) {
                    Err(m) => Err(CsvErrorView::InvalidField { line, column: "discount_bps"@, message: m }),
                    Ok(d) => match tax_field(fields, cols.tax_bps) {
                        Err(m) => Err(CsvErrorView::InvalidField { line, column: "tax_bps"@, message: m }),
                        Ok(rates) => Ok(
                            LineItemView {
                                description: fields[cols.description as int],
                                quantity: q,
                                unit_price: p,
                                discount_bps: d,
                                tax_bps: rates,
                            },
                        ),
                    },
                },
            },
        }
    }
}

/// The items of the data rows, in order, or the error of the first row that
/// fails. Each row carries its index among all lines; errors report it
/// counted from 1.
pub open spec fn items_of(rows: Seq<(nat, Seq<char>)>, header_len: nat, cols: ColumnsView) -> Result<
    Seq<LineItemView>,
    CsvErrorView,
>
    decreases rows.len(),
{
    if rows.len() == 0 {
        Ok(Seq::empty())
    } else {
        match items_of(rows.drop_last(), header_len, cols) {
            Err(e) => Err(e),
            Ok(items) => match row_item(
                rows.last().0 + 1,
                split_line_spec(rows.last().1),
                header_len,
                cols,
            ) {
                Err(e) => Err(e),
                Ok(item) => Ok(items.push(item)),
            },
        }
    }
}

proof fn lemma_items_of_err_extends(rows: Seq<(nat, Seq<char>)>, header_len: nat, cols: ColumnsView, k: int)
    requires
        0 <= k <= rows.len(),
        items_of(rows.take(k), header_len, cols) is Err,
    ensures
        items_of(rows, header_len, cols) == items_of(rows.take(k), header_len, cols),
    decreases rows.len() - k,
{
    if k < rows.len() {
        assert(rows.take(k + 1).drop_last() == rows.take(k));
        lemma_items_of_err_extends(rows, header_len, cols, k + 1);
    } else {
        assert(rows.take(k) == rows);
    }
}

/// What `parse` gives for a CSV document: the header is the first content
/// line (lowercased field by field), every later content line is a line item.
pub open spec fn parse_spec(input: Seq<char>) -> Result<Seq<LineItemView>, CsvErrorView> {
    parse_lines_spec(lines_of(input))
}

/// What `parse` gives for a document with the given lines.
pub open spec fn parse_lines_spec(lines: Seq<Seq<char>>) -> Result<Seq<LineItemView>, CsvErrorView> {
    let rows = content_rows(lines);
    if rows.len() == 0 {
        Err(CsvErrorView::MissingHeader)
    } else {
        let header = split_line_spec(rows[0].1).map_values(|f: Seq<char>| ascii_lowercase(f));
        match header_columns(header) {
            Err(e) => Err(e),
            Ok(cols) => items_of(rows.drop_first(), header.len(), cols),
        }
    }
}

fn lowercase_fields(fields: &Vec<Vec<char>>) -> (r: Vec<Vec<char>>)
    ensures
        char_rows(r@) == char_rows(fields@).map_values(|f: Seq<char>| ascii_lowercase(f)),
{
    let mut r: Vec<Vec<char>> = Vec::new();
    let mut i: usize = 0;
    while i < fields.len()
        invariant
            i <= fields.len(),
            char_rows(r@) == char_rows(fields@).take(i as int).map_values(|f: Seq<char>| ascii_lowercase(f)),
        decreases fields.len() - i,
    {
        let l = to_ascii_lowercase(&fields[i]);
        let ghost before = r@;
        r.push(l);
        assert(char_rows(r@) == char_rows(before).push(l@));
        assert(char_rows(fields@).take(i + 1) == char_rows(fields@).take(i as int).push(fields@[i as int]@));
        i = i + 1;
    }
    assert(char_rows(fields@).take(fields.len() as int) == char_rows(fields@));
    r
}

/// The line item of one data row.
fn item_from_row(line_no: usize, fields: &Vec<Vec<char>>, header_len: usize, cols: &Columns) -> (r: Result<
    LineItem,
    CsvError,
>)
    requires
        cols.description < header_len,
        cols.quantity < header_len,
        cols.unit_price < header_len,
        cols.discount_bps matches Some(i) ==> i < header_len,
        cols.tax_bps matches Some(i) ==> i < header_len,
    ensures
        match row_item(line_no as nat, char_rows(fields@), header_len as nat, cols.view_of()) {
            Ok(v) => r matches Ok(item) && item@ == v,
            Err(e) => r matches Err(err) && err@ == e,
        },
{
    let ghost fs = char_rows(fields@);
    if fields.len() != header_len {
        return Err(CsvError::WrongFieldCount { line: line_no, expected: header_len, got: fields.len() });
    }
    let description = string_of(&fields[cols.description]);
    let quantity_text = string_of(&fields[cols.quantity]);
    let quantity = match Quantity::parse_decimal(quantity_text.as_str()) {
        Ok(q) => q,
        Err(e) => return Err(CsvError::InvalidField { line: line_no, column: "quantity", message: e.to_string() }),
    };
    let price_text = string_of(&fields[cols.unit_price]);
    let unit_price = match Money::parse_decimal(price_text.as_str()) {
        Ok(m) => m,
        Err(e) => return Err(CsvError::InvalidField { line: line_no, column: "unit_price", message: e.to_string() }),
    };
    let discount_bps = match cols.discount_bps {
        Some(i) => {
            assert(fields@[i as int]@.subrange(0, fields@[i as int]@.len() as int) == fields@[i as int]@);
            match parse_u32(&fields[i], 0, fields[i].len()) {
                Some(v) => v,
                None => return Err(
                    CsvError::InvalidField {
                        line: line_no,
                        column: "discount_bps",
                        message: invalid_integer_message(&fields[i]),
                    },
                ),
            }
        },
        None => 0,
    };
    let tax_bps = match cols.tax_bps {
        Some(i) => match parse_tax_rates(&fields[i]) {
            Ok(rates) => rates,
            Err(message) => return Err(CsvError::InvalidField { line: line_no, column: "tax_bps", message }),
        },
        None => Vec::new(),
    };
    assert(tax_bps@ == tax_field(fs, cols.view_of().tax_bps)->Ok_0);
    Ok(LineItem { description, quantity, unit_price, discount_bps, tax_bps })
}

/// Parses a full CSV document: a header row followed by one line item per
/// row. Blank lines and lines starting with `#` are skipped wherever they
/// appear, including before the header.
pub fn parse(input: &str) -> (r: Result<Vec<LineItem>, CsvError>)
    ensures
        match parse_spec(input@) {
            Ok(items) => r matches Ok(v) && item_views(v@) == items,
            Err(e) => r matches Err(err) && err@ == e,
        },
{
    let chars = chars_of(input);
    let rows = content_line_spans(&chars);
    let ghost all_rows = rows_text(chars@, rows@);
    if rows.len() == 0 {
        return Err(CsvError::MissingHeader);
    }
    let (_, hs, he) = rows[0];
    let header_line = slice_chars(&chars, hs, he);
    let raw = split_line(&header_line);
    let header = lowercase_fields(&raw);
    let columns = match Columns::from_header(&header) {
        Ok(c) => c,
        Err(e) => return Err(e),
    };
    let ghost data = all_rows.drop_first();
    let ghost cols = columns.view_of();
    let mut items: Vec<LineItem> = Vec::new();
    let mut j: usize = 1;
    assert(data.take(0) == Seq::<(nat, Seq<char>)>::empty());
    assert(item_views(items@) == Seq::<LineItemView>::empty());
    assert(parse_spec(input@) == items_of(data, header.len() as nat, cols));
    while j < rows.len()
        invariant
            1 <= j <= rows.len(),
            parse_spec(input@) == items_of(data, header.len() as nat, cols),
            all_rows == rows_text(chars@, rows@),
            data == all_rows.drop_first(),
            cols == columns.view_of(),
            forall|i: int| 0 <= i < rows@.len() ==> #[trigger] rows@[i].1 <= rows@[i].2 <= chars.len(),
            forall|i: int| 0 <= i < rows@.len() ==> #[trigger] rows@[i].0 < chars.len(),
            columns.description < header.len(),
            columns.quantity < header.len(),
            columns.unit_price < header.len(),
            columns.discount_bps matches Some(i) ==> i < header.len(),
            columns.tax_bps matches Some(i) ==> i < header.len(),
            items_of(data.take(j - 1), header.len() as nat, cols) == Ok::<Seq<LineItemView>, CsvErrorView>(
                item_views(items@),
            ),
        decreases rows.len() - j,
    {
        let (index, a, b) = rows[j];
        let line = slice_chars(&chars, a, b);
        let fields = split_line(&line);
        assert(data.take(j as int).drop_last() == data.take(j - 1));
        assert(data.take(j as int).last() == (index as nat, line@));
        match item_from_row(index + 1, &fields, header.len(), &columns) {
            Ok(item) => {
                let ghost before = items@;
                items.push(item);
                assert(item_views(items@) == item_views(before).push(item@));
            },
            Err(e) => {
                proof {
                    assert(split_line_spec(data.take(j as int).last().1) == char_rows(fields@));
                    assert(items_of(data.take(j as int), header.len() as nat, cols) == Err::<
                        Seq<LineItemView>,
                        CsvErrorView,
                    >(e@));
                    lemma_items_of_err_extends(data, header.len() as nat, cols, j as int);
                }
                return Err(e);
            },
        }
        j = j + 1;
    }
    assert(data.take(rows.len() - 1) == data);
    Ok(items)
}


/// The message of a CSV error.
pub open spec fn csv_error_text(e: CsvErrorView) -> Seq<char> {
    match e {
        CsvErrorView::MissingHeader => "file has no header row"@,
        CsvErrorView::MissingColumn(name) => "header is missing required column "@ + debug_quoted(name),
        CsvErrorView::UnknownColumn(name) => "header has unrecognized column "@ + debug_quoted(name),
        CsvErrorView::WrongFieldCount { line, expected, got } => "line "@ + decimal_text(line) + ": expected "@
            + decimal_text(expected) + " fields (matching the header), got "@ + decimal_text(got),
        CsvErrorView::InvalidField { line, column, message } => "line "@ + decimal_text(line) + ": column "@
            + debug_quoted(column) + ": "@ + message,
    }
}

impl CsvError {
    /// The error message, e.g. `line 2: expected 3 fields (matching the header), got 2`.
    pub fn to_string(&self) -> (r: String)
        ensures
            r@ == csv_error_text(self@),
    {
        let mut out: Vec<char> = Vec::new();
        match self {
            CsvError::MissingHeader => push_str(&mut out, "file has no header row"),
            CsvError::MissingColumn(name) => {
                push_str(&mut out, "header is missing required column ");
                push_str(&mut out, debug_str(name).as_str());
            },
            CsvError::UnknownColumn(name) => {
                push_str(&mut out, "header has unrecognized column ");
                push_str(&mut out, debug_str(name.as_str()).as_str());
            },
            CsvError::WrongFieldCount { line, expected, got } => {
                push_str(&mut out, "line ");
                push_decimal(&mut out, *line as u128);
                push_str(&mut out, ": expected ");
                push_decimal(&mut out, *expected as u128);
                push_str(&mut out, " fields (matching the header), got ");
                push_decimal(&mut out, *got as u128);
            },
            CsvError::InvalidField { line, column, message } => {
                push_str(&mut out, "line ");
                push_decimal(&mut out, *line as u128);
                push_str(&mut out, ": column ");
                push_str(&mut out, debug_str(column).as_str());
                push_str(&mut out, ": ");
                push_str(&mut out, message.as_str());
            },
        }
        string_of(&out)
    }
}


/// The text of each content line, in order.
pub open spec fn content_texts(lines: Seq<Seq<char>>) -> Seq<Seq<char>> {
    content_rows(lines).map_values(|r: (nat, Seq<char>)| r.1)
}

proof fn lemma_items_of_ignores_line_numbers(
    rows1: Seq<(nat, Seq<char>)>,
    rows2: Seq<(nat, Seq<char>)>,
    header_len: nat,
    cols: ColumnsView,
)
    requires
        rows1.len() == rows2.len(),
        forall|i: int| 0 <= i < rows1.len() ==> #[trigger] rows1[i].1 == rows2[i].1,
        items_of(rows1, header_len, cols) is Ok,
    ensures
        items_of(rows2, header_len, cols) == items_of(rows1, header_len, cols),
    decreases rows1.len(),
{
    if rows1.len() > 0 {
        let a = rows1.drop_last();
        let b = rows2.drop_last();
        assert forall|i: int| 0 <= i < a.len() implies #[trigger] a[i].1 == b[i].1 by {
            assert(a[i] == rows1[i]);
            assert(b[i] == rows2[i]);
        }
        lemma_items_of_ignores_line_numbers(a, b, header_len, cols);
        assert(rows1.last().1 == rows2.last().1);
    }
}

/// Blank lines and `#` comment lines may stand anywhere, before the header
/// too, without changing the items: two documents whose content lines are
/// the same read as the same items. (Errors in data rows name the line they
/// stand on, so only the successful result is compared.)
pub proof fn lemma_blank_and_comment_lines_are_ignored(lines1: Seq<Seq<char>>, lines2: Seq<Seq<char>>)
    requires
        content_texts(lines1) == content_texts(lines2),
        parse_lines_spec(lines1) is Ok,
    ensures
        parse_lines_spec(lines2) == parse_lines_spec(lines1),
{
    let rows1 = content_rows(lines1);
    let rows2 = content_rows(lines2);
    assert(rows1.len() == content_texts(lines1).len());
    assert(rows2.len() == content_texts(lines2).len());
    assert forall|i: int| 0 <= i < rows1.len() implies #[trigger] rows1[i].1 == rows2[i].1 by {
        assert(content_texts(lines1)[i] == rows1[i].1);
        assert(content_texts(lines2)[i] == rows2[i].1);
    }
    if rows1.len() > 0 {
        let header = split_line_spec(rows1[0].1).map_values(|f: Seq<char>| ascii_lowercase(f));
        if let Ok(cols) = header_columns(header) {
            let d1 = rows1.drop_first();
            let d2 = rows2.drop_first();
            assert forall|i: int| 0 <= i < d1.len() implies #[trigger] d1[i].1 == d2[i].1 by {
                assert(d1[i] == rows1[i + 1]);
                assert(d2[i] == rows2[i + 1]);
            }
            lemma_items_of_ignores_line_numbers(d1, d2, header.len(), cols);
        }
    }
}


/// `e` as it reads with one more line at index `i`: a line number it names
/// (counting from 1) that comes after that line moves down by one.
pub open spec fn shift_error_line(e: CsvErrorView, i: nat) -> CsvErrorView {
    match e {
        CsvErrorView::WrongFieldCount { line, expected, got } => CsvErrorView::WrongFieldCount {
            line: if line > i { line + 1 } else { line },
            expected,
            got,
        },
        CsvErrorView::InvalidField { line, column, message } => CsvErrorView::InvalidField {
            line: if line > i { line + 1 } else { line },
            column,
            message,
        },
        _ => e,
    }
}

/// A parse result as it reads with one more line at index `i`: the items
/// unchanged, an error's line number shifted as `shift_error_line` does.
pub open spec fn shift_result_line(r: Result<Seq<LineItemView>, CsvErrorView>, i: nat) -> Result<
    Seq<LineItemView>,
    CsvErrorView,
> {
    match r {
        Ok(items) => Ok(items),
        Err(e) => Err(shift_error_line(e, i)),
    }
}

/// A content row as it stands with one more line at index `i`.
pub open spec fn shift_row(r: (nat, Seq<char>), i: nat) -> (nat, Seq<char>) {
    if r.0 >= i {
        ((r.0 + 1) as nat, r.1)
    } else {
        r
    }
}

proof fn lemma_content_rows_indices(lines: Seq<Seq<char>>)
    ensures
        forall|k: int| 0 <= k < content_rows(lines).len() ==> #[trigger] content_rows(lines)[k].0 < lines.len(),
    decreases lines.len(),
{
    if lines.len() > 0 {
        let front = lines.drop_last();
        lemma_content_rows_indices(front);
        let before = content_rows(front);
        assert forall|k: int| 0 <= k < content_rows(lines).len() implies #[trigger] content_rows(lines)[k].0
            < lines.len() by {
            if k < before.len() {
                assert(content_rows(lines)[k] == before[k]);
            }
        }
    }
}

proof fn lemma_content_rows_insert(lines: Seq<Seq<char>>, i: nat, l: Seq<char>)
    requires
        i <= lines.len(),
        !is_content_line(l),
    ensures
        content_rows(lines.insert(i as int, l)) == content_rows(lines).map_values(|r: (nat, Seq<char>)| shift_row(r, i)),
    decreases lines.len(),
{
    let f = |r: (nat, Seq<char>)| shift_row(r, i);
    if i == lines.len() {
        assert(lines.insert(i as int, l) == lines.push(l));
        assert(lines.push(l).drop_last() == lines);
        lemma_content_rows_indices(lines);
        assert(content_rows(lines).map_values(f) == content_rows(lines));
    } else {
        let front = lines.drop_last();
        lemma_content_rows_insert(front, i, l);
        let longer = front.insert(i as int, l);
        assert(lines.insert(i as int, l) == longer.push(lines.last()));
        assert(longer.push(lines.last()).drop_last() == longer);
        let before = content_rows(front);
        if is_content_line(lines.last()) {
            let row = ((lines.len() - 1) as nat, lines.last());
            assert(before.push(row).map_values(f) == before.map_values(f).push(f(row)));
        }
    }
}

proof fn lemma_row_item_shifted(line: nat, fields: Seq<Seq<char>>, header_len: nat, cols: ColumnsView, i: nat)
    ensures
        row_item(if line > i { (line + 1) as nat } else { line }, fields, header_len, cols) == match row_item(
            line,
            fields,
            header_len,
            cols,
        ) {
            Ok(item) => Ok(item),
            Err(e) => Err(shift_error_line(e, i)),
        },
{
}

proof fn lemma_items_of_shifted(rows: Seq<(nat, Seq<char>)>, header_len: nat, cols: ColumnsView, i: nat)
    ensures
        items_of(rows.map_values(|r: (nat, Seq<char>)| shift_row(r, i)), header_len, cols) == shift_result_line(
            items_of(rows, header_len, cols),
            i,
        ),
    decreases rows.len(),
{
    let f = |r: (nat, Seq<char>)| shift_row(r, i);
    if rows.len() > 0 {
        let moved = rows.map_values(f);
        assert(moved.drop_last() == rows.drop_last().map_values(f));
        lemma_items_of_shifted(rows.drop_last(), header_len, cols, i);
        let last = rows.last();
        assert(moved.last() == shift_row(last, i));
        lemma_row_item_shifted(last.0 + 1, split_line_spec(last.1), header_len, cols, i);
        assert((if last.0 + 1 > i { (last.0 + 2) as nat } else { (last.0 + 1) as nat }) == shift_row(last, i).0 + 1);
    }
}

/// A blank line or a `#` comment line inserted anywhere into a document,
/// before the header too, leaves the items it reads unchanged; an error reads
/// the same but for the line number it names, which counts the new line.
pub proof fn lemma_inserted_comment_is_ignored(lines: Seq<Seq<char>>, i: nat, l: Seq<char>)
    requires
        i <= lines.len(),
        !is_content_line(l),
    ensures
        parse_lines_spec(lines.insert(i as int, l)) == shift_result_line(parse_lines_spec(lines), i),
        parse_lines_spec(lines) is Ok ==> parse_lines_spec(lines.insert(i as int, l)) == parse_lines_spec(lines),
{
    let f = |r: (nat, Seq<char>)| shift_row(r, i);
    let rows = content_rows(lines);
    lemma_content_rows_insert(lines, i, l);
    let moved = content_rows(lines.insert(i as int, l));
    assert(moved == rows.map_values(f));
    if rows.len() > 0 {
        assert(moved[0].1 == rows[0].1);
        assert(moved.drop_first() == rows.drop_first().map_values(f));
        let header = split_line_spec(rows[0].1).map_values(|x: Seq<char>| ascii_lowercase(x));
        if let Ok(cols) = header_columns(header) {
            lemma_items_of_shifted(rows.drop_first(), header.len(), cols, i);
        }
    }
}


proof fn lemma_column_index_meaning(header: Seq<Seq<char>>, name: Seq<char>)
    ensures
        column_index(header, name) matches Some(i) ==> i < header.len() && header[i as int] == name
            && forall|j: int| 0 <= j < i ==> #[trigger] header[j] != name,
        column_index(header, name) is None ==> forall|j: int| 0 <= j < header.len() ==> #[trigger] header[j] != name,
    decreases header.len(),
{
    if header.len() > 0 {
        let front = header.drop_last();
        lemma_column_index_meaning(front, name);
        match column_index(front, name) {
            Some(i) => {
                assert forall|j: int| 0 <= j < i implies #[trigger] header[j] != name by {
                    assert(front[j] == header[j]);
                }
                assert(front[i as int] == header[i as int]);
            },
            None => {
                assert forall|j: int| 0 <= j < front.len() implies #[trigger] header[j] != name by {
                    assert(front[j] == header[j]);
                }
            },
        }
    }
}

proof fn lemma_all_columns_known(header: Seq<Seq<char>>)
    ensures
        first_unknown_column(header) is None <==> forall|j: int| 0 <= j < header.len() ==> is_known_column(
            #[trigger] header[j],
        ),
    decreases header.len(),
{
    if header.len() > 0 {
        let front = header.drop_last();
        lemma_all_columns_known(front);
        assert forall|j: int| 0 <= j < front.len() implies #[trigger] front[j] == header[j] by {}
        if first_unknown_column(header) is None {
            assert forall|j: int| 0 <= j < header.len() implies is_known_column(#[trigger] header[j]) by {
                if j < front.len() {
                    assert(front[j] == header[j]);
                }
            }
        }
    }
}

/// Where `name` stands after the columns of `header` are reordered by
/// `order` (column `i` of the new header is column `order[i]` of the old).
proof fn lemma_column_index_reordered(header: Seq<Seq<char>>, order: Seq<int>, back: Seq<int>, name: Seq<char>)
    requires
        order.len() == header.len(),
        back.len() == header.len(),
        forall|i: int| 0 <= i < header.len() ==> 0 <= #[trigger] order[i] < header.len() && back[order[i]] == i,
        forall|k: int| 0 <= k < header.len() ==> 0 <= #[trigger] back[k] < header.len() && order[back[k]] == k,
        forall|i: int, j: int| 0 <= i < header.len() && 0 <= j < header.len() && i != j ==> header[i] != header[j],
    ensures
        ({
            let moved = Seq::new(header.len(), |i: int| header[order[i]]);
            match column_index(header, name) {
                Some(k) => column_index(moved, name) == Some(back[k as int] as nat),
                None => column_index(moved, name) is None,
            }
        }),
{
    let moved = Seq::new(header.len(), |i: int| header[order[i]]);
    lemma_column_index_meaning(header, name);
    lemma_column_index_meaning(moved, name);
    match column_index(header, name) {
        Some(k) => {
            let b = back[k as int];
            assert(moved[b] == name);
            match column_index(moved, name) {
                Some(c) => {
                    if c != b {
                        assert(header[order[c as int]] == name);
                        assert(order[c as int] != order[b]) by {
                            assert(back[order[c as int]] == c);
                        }
                    }
                },
                None => {
                    assert(moved[b] != name);
                },
            }
        },
        None => {
            if let Some(c) = column_index(moved, name) {
                assert(header[order[c as int]] == name);
            }
        },
    }
}

/// The order of the columns does not matter: reordering the columns of the
/// header and of a row alike (column `i` of the new layout is column
/// `order[i]` of the old, `back` undoing it) reads the same item, or the same
/// error, from the row. This holds for headers that name each column once;
/// with a repeated name the first column of that name is read, so moving
/// the repeat forward changes which one that is.
pub proof fn lemma_column_order_is_irrelevant(
    header: Seq<Seq<char>>,
    fields: Seq<Seq<char>>,
    order: Seq<int>,
    back: Seq<int>,
    line: nat,
)
    requires
        order.len() == header.len(),
        back.len() == header.len(),
        fields.len() == header.len(),
        forall|i: int| 0 <= i < header.len() ==> 0 <= #[trigger] order[i] < header.len() && back[order[i]] == i,
        forall|k: int| 0 <= k < header.len() ==> 0 <= #[trigger] back[k] < header.len() && order[back[k]] == k,
        forall|i: int, j: int| 0 <= i < header.len() && 0 <= j < header.len() && i != j ==> header[i] != header[j],
        header_columns(header) is Ok,
    ensures
        ({
            let moved_header = Seq::new(header.len(), |i: int| header[order[i]]);
            let moved_fields = Seq::new(fields.len(), |i: int| fields[order[i]]);
            &&& header_columns(moved_header) is Ok
            &&& row_item(line, moved_fields, header.len(), header_columns(moved_header)->Ok_0) == row_item(
                line,
                fields,
                header.len(),
                header_columns(header)->Ok_0,
            )
        }),
{
    let moved_header = Seq::new(header.len(), |i: int| header[order[i]]);
    let moved_fields = Seq::new(fields.len(), |i: int| fields[order[i]]);
    lemma_all_columns_known(header);
    lemma_all_columns_known(moved_header);
    assert forall|j: int| 0 <= j < moved_header.len() implies is_known_column(#[trigger] moved_header[j]) by {
        assert(is_known_column(header[order[j]]));
    }
    lemma_column_index_reordered(header, order, back, "description"@);
    lemma_column_index_reordered(header, order, back, "quantity"@);
    lemma_column_index_reordered(header, order, back, "unit_price"@);
    lemma_column_index_reordered(header, order, back, "discount_bps"@);
    lemma_column_index_reordered(header, order, back, "tax_bps"@);
    lemma_column_index_meaning(header, "description"@);
    lemma_column_index_meaning(header, "quantity"@);
    lemma_column_index_meaning(header, "unit_price"@);
    lemma_column_index_meaning(header, "discount_bps"@);
    lemma_column_index_meaning(header, "tax_bps"@);
    let cols = header_columns(header)->Ok_0;
    let moved_cols = header_columns(moved_header)->Ok_0;
    assert(moved_fields[back[cols.description as int]] == fields[cols.description as int]);
    assert(moved_fields[back[cols.quantity as int]] == fields[cols.quantity as int]);
    assert(moved_fields[back[cols.unit_price as int]] == fields[cols.unit_price as int]);
    if let Some(k) = cols.discount_bps {
        assert(moved_fields[back[k as int]] == fields[k as int]);
    }
    if let Some(k) = cols.tax_bps {
        assert(moved_fields[back[k as int]] == fields[k as int]);
    }
}


/// `f` with every double quote doubled, as it is written inside a quoted field.
pub open spec fn escape_quotes(f: Seq<char>) -> Seq<char>
    decreases f.len(),
{
    if f.len() == 0 {
        Seq::empty()
    } else {
        (if f[0] == '"' { seq!['"', '"'] } else { seq![f[0]] }) + escape_quotes(f.drop_first())
    }
}

/// `f` written as a quoted CSV field.
pub open spec fn quote_field(f: Seq<char>) -> Seq<char> {
    seq!['"'] + escape_quotes(f) + seq!['"']
}

/// `fields` written as one CSV line, every field quoted, separated by commas.
pub open spec fn quoted_line(fields: Seq<Seq<char>>) -> Seq<char>
    decreases fields.len(),
{
    if fields.len() <= 1 {
        if fields.len() == 0 {
            Seq::empty()
        } else {
            quote_field(fields[0])
        }
    } else {
        quote_field(fields[0]) + seq![','] + quoted_line(fields.drop_first())
    }
}

proof fn lemma_split_quoted_content(line: Seq<char>, i: int, st: SplitState, f: Seq<char>)
    requires
        0 <= i,
        st.in_quotes,
        i + escape_quotes(f).len() < line.len(),
        line.subrange(i, i + escape_quotes(f).len()) == escape_quotes(f),
        line[i + escape_quotes(f).len()] == '"',
        i + escape_quotes(f).len() + 1 < line.len() ==> line[i + escape_quotes(f).len() + 1] != '"',
    ensures
        split_fields_from(line, i, st) == split_fields_from(
            line,
            i + escape_quotes(f).len() + 1,
            SplitState { fields: st.fields, field: st.field + f, in_quotes: false, quoted: st.quoted },
        ),
    decreases f.len(),
{
    let e = escape_quotes(f);
    if f.len() == 0 {
        assert(st.field + f == st.field);
    } else {
        let rest = f.drop_first();
        let er = escape_quotes(rest);
        if f[0] == '"' {
            assert(e == seq!['"', '"'] + er);
            assert(line[i] == e[0]);
            assert(line[i + 1] == e[1]);
            assert(line.subrange(i + 2, i + 2 + er.len()) == er) by {
                assert forall|k: int| 0 <= k < er.len() implies line.subrange(i + 2, i + 2 + er.len())[k] == er[k] by {
                    assert(line[i + 2 + k] == line.subrange(i, i + e.len())[k + 2]);
                    assert(e[k + 2] == er[k]);
                }
            }
            let next = SplitState { fields: st.fields, field: st.field.push('"'), in_quotes: true, quoted: st.quoted };
            lemma_split_quoted_content(line, i + 2, next, rest);
            assert(st.field.push('"') + rest == st.field + f);
        } else {
            assert(e == seq![f[0]] + er);
            assert(line[i] == e[0]);
            assert(line.subrange(i + 1, i + 1 + er.len()) == er) by {
                assert forall|k: int| 0 <= k < er.len() implies line.subrange(i + 1, i + 1 + er.len())[k] == er[k] by {
                    assert(line[i + 1 + k] == line.subrange(i, i + e.len())[k + 1]);
                    assert(e[k + 1] == er[k]);
                }
            }
            let next = SplitState { fields: st.fields, field: st.field.push(f[0]), in_quotes: true, quoted: st.quoted };
            lemma_split_quoted_content(line, i + 1, next, rest);
            assert(st.field.push(f[0]) + rest == st.field + f);
        }
    }
}

proof fn lemma_split_quoted_line(line: Seq<char>, i: int, done: Seq<Seq<char>>, fields: Seq<Seq<char>>)
    requires
        fields.len() >= 1,
        0 <= i <= line.len(),
        line.subrange(i, line.len() as int) == quoted_line(fields),
    ensures
        split_fields_from(
            line,
            i,
            SplitState { fields: done, field: Seq::empty(), in_quotes: false, quoted: false },
        ) == done + fields,
    decreases fields.len(),
{
    let f = fields[0];
    let e = escape_quotes(f);
    let tail = line.subrange(i, line.len() as int);
    let q = quote_field(f);
    assert(q.len() == e.len() + 2);
    assert(q[0] == '"');
    assert(q[q.len() - 1] == '"');
    assert forall|k: int| 0 <= k < e.len() implies #[trigger] q[k + 1] == e[k] by {}
    if fields.len() == 1 {
        assert(tail == q);
    } else {
        assert(tail == q + seq![','] + quoted_line(fields.drop_first()));
    }
    assert(tail.len() == line.len() - i);
    assert(q.len() <= tail.len());
    assert forall|k: int| 0 <= k < q.len() implies line[i + k] == #[trigger] q[k] by {
        assert(line[i + k] == tail[k]);
    }
    assert(line[i] == '"');
    let opened = SplitState { fields: done, field: Seq::empty(), in_quotes: true, quoted: true };
    assert(line.subrange(i + 1, i + 1 + e.len()) == e) by {
        assert forall|k: int| 0 <= k < e.len() implies line.subrange(i + 1, i + 1 + e.len())[k] == e[k] by {
            assert(q[k + 1] == e[k]);
        }
    }
    let j = i + e.len() + 2;
    assert(line[j - 1] == q[e.len() as int + 1]);
    if fields.len() == 1 {
        assert(j == line.len());
    } else {
        assert(line[j] == tail[q.len() as int]);
        assert(line[j] == ',');
    }
    lemma_split_quoted_content(line, i + 1, opened, f);
    assert(Seq::<char>::empty() + f == f);
    let closed = SplitState { fields: done, field: f, in_quotes: false, quoted: true };
    if fields.len() == 1 {
        assert(done.push(f) == done + fields);
    } else {
        let rest = fields.drop_first();
        assert(line.subrange(j + 1, line.len() as int) == quoted_line(rest)) by {
            assert(line.subrange(j + 1, line.len() as int) == tail.subrange(q.len() as int + 1, tail.len() as int));
        }
        lemma_split_quoted_line(line, j + 1, done.push(f), rest);
        assert(done.push(f) + rest == done + fields);
    }
}

/// Quoting carries any text through a CSV line unchanged: every field,
/// commas and quotes included, written between double quotes with its quotes
/// doubled and the fields joined by commas, splits back into the same fields.
pub proof fn lemma_quoted_fields_split_back(fields: Seq<Seq<char>>)
    requires
        fields.len() >= 1,
    ensures
        split_line_spec(quoted_line(fields)) == fields,
{
    let line = quoted_line(fields);
    assert(line.subrange(0, line.len() as int) == line);
    lemma_split_quoted_line(line, 0, Seq::empty(), fields);
    assert(Seq::<Seq<char>>::empty() + fields == fields);
}


proof fn lemma_items_of_rows(rows: Seq<(nat, Seq<char>)>, header_len: nat, cols: ColumnsView)
    ensures
        items_of(rows, header_len, cols) != Err::<Seq<LineItemView>, CsvErrorView>(CsvErrorView::MissingHeader),
        items_of(rows, header_len, cols) matches Ok(items) ==> {
            &&& items.len() == rows.len()
            &&& forall|k: int|
                0 <= k < items.len() ==> #[trigger] items[k].description == split_line_spec(
                    rows[k].1,
                )[cols.description as int]
        },
    decreases rows.len(),
{
    if rows.len() > 0 {
        lemma_items_of_rows(rows.drop_last(), header_len, cols);
        if let Ok(items) = items_of(rows, header_len, cols) {
            let front = items_of(rows.drop_last(), header_len, cols)->Ok_0;
            assert forall|k: int| 0 <= k < items.len() implies #[trigger] items[k].description == split_line_spec(
                rows[k].1,
            )[cols.description as int] by {
                if k < front.len() {
                    assert(items[k] == front[k]);
                    assert(rows.drop_last()[k] == rows[k]);
                }
            }
        }
    }
}

/// A document has no header exactly when it has no content line; once it
/// reads, it gives one item per content line after the header, in order,
/// each described by that line's field in the first `description` column.
pub proof fn lemma_one_item_per_content_row(input: Seq<char>)
    ensures
        (content_rows(lines_of(input)).len() == 0) <==> parse_spec(input) == Err::<Seq<LineItemView>, CsvErrorView>(
            CsvErrorView::MissingHeader,
        ),
        parse_spec(input) matches Ok(items) ==> {
            let rows = content_rows(lines_of(input));
            let header = split_line_spec(rows[0].1).map_values(|f: Seq<char>| ascii_lowercase(f));
            &&& items.len() == rows.len() - 1
            &&& column_index(header, "description"@) is Some
            &&& forall|k: int|
                0 <= k < items.len() ==> #[trigger] items[k].description == split_line_spec(
                    rows[k + 1].1,
                )[column_index(header, "description"@)->0 as int]
        },
{
    let rows = content_rows(lines_of(input));
    if rows.len() > 0 {
        let header = split_line_spec(rows[0].1).map_values(|f: Seq<char>| ascii_lowercase(f));
        if let Ok(cols) = header_columns(header) {
            let data = rows.drop_first();
            lemma_items_of_rows(data, header.len(), cols);
            if let Ok(items) = parse_spec(input) {
                assert forall|k: int| 0 <= k < items.len() implies #[trigger] items[k].description
                    == split_line_spec(rows[k + 1].1)[column_index(header, "description"@)->0 as int] by {
                    assert(data[k] == rows[k + 1]);
                }
            }
        }
    }
}


/// `l[i]` is the first character of `l` that is not whitespace.
pub open spec fn first_non_blank_at(l: Seq<char>, i: int) -> bool {
    &&& 0 <= i < l.len()
    &&& !is_white_space(l[i])
    &&& forall|j: int| 0 <= j < i ==> is_white_space(#[trigger] l[j])
}

proof fn lemma_trim_end_keeps_first(u: Seq<char>)
    requires
        u.len() > 0,
        !is_white_space(u[0]),
    ensures
        trim_end(u).len() > 0,
        trim_end(u)[0] == u[0],
    decreases u.len(),
{
    if is_white_space(u.last()) {
        assert(u.len() > 1);
        lemma_trim_end_keeps_first(u.drop_last());
    }
}

/// A line is a comment or blank exactly when it has no character besides
/// whitespace or its first such character is `#`: a line whose first
/// non-blank character is anything else is a content line, whatever it holds
/// after that character (a `#` inside `Bolt #10` included).
pub proof fn lemma_content_line_is_first_non_blank_not_hash(l: Seq<char>)
    ensures
        is_content_line(l) <==> exists|i: int| #[trigger] first_non_blank_at(l, i) && l[i] != '#',
    decreases l.len(),
{
    if l.len() == 0 {
        assert(trim_start(l) == l);
        assert(!is_content_line(l));
    } else if !is_white_space(l[0]) {
        assert(trim_start(l) == l);
        lemma_trim_end_keeps_first(l);
        assert(first_non_blank_at(l, 0));
        assert forall|i: int| #[trigger] first_non_blank_at(l, i) implies i == 0 by {
            if i > 0 {
                assert(is_white_space(l[0]));
            }
        }
    } else {
        let t = l.drop_first();
        lemma_content_line_is_first_non_blank_not_hash(t);
        assert(trim_start(l) == trim_start(t));
        assert(is_content_line(l) == is_content_line(t));
        if exists|i: int| #[trigger] first_non_blank_at(t, i) && t[i] != '#' {
            let i = choose|i: int| #[trigger] first_non_blank_at(t, i) && t[i] != '#';
            assert forall|j: int| 0 <= j < i + 1 implies is_white_space(#[trigger] l[j]) by {
                if j > 0 {
                    assert(l[j] == t[j - 1]);
                }
            }
            assert(l[i + 1] == t[i]);
            assert(first_non_blank_at(l, i + 1));
        }
        if exists|i: int| #[trigger] first_non_blank_at(l, i) && l[i] != '#' {
            let i = choose|i: int| #[trigger] first_non_blank_at(l, i) && l[i] != '#';
            assert(i > 0);
            assert forall|j: int| 0 <= j < i - 1 implies is_white_space(#[trigger] t[j]) by {
                assert(t[j] == l[j + 1]);
            }
            assert(t[i - 1] == l[i]);
            assert(first_non_blank_at(t, i - 1));
        }
    }
}

proof fn lemma_content_rows_members(lines: Seq<Seq<char>>, i: int)
    requires
        0 <= i < lines.len(),
    ensures
        (exists|k: int| 0 <= k < content_rows(lines).len() && #[trigger] content_rows(lines)[k] == (i as nat, lines[i]))
            <==> is_content_line(lines[i]),
    decreases lines.len(),
{
    let rows = content_rows(lines);
    let front = lines.drop_last();
    lemma_content_rows_indices(front);
    if i < lines.len() - 1 {
        lemma_content_rows_members(front, i);
        assert(front[i] == lines[i]);
        let before = content_rows(front);
        if exists|k: int| 0 <= k < before.len() && #[trigger] before[k] == (i as nat, front[i]) {
            let k = choose|k: int| 0 <= k < before.len() && #[trigger] before[k] == (i as nat, front[i]);
            assert(rows[k] == before[k]);
        }
        if exists|k: int| 0 <= k < rows.len() && #[trigger] rows[k] == (i as nat, lines[i]) {
            let k = choose|k: int| 0 <= k < rows.len() && #[trigger] rows[k] == (i as nat, lines[i]);
            if k < before.len() {
                assert(rows[k] == before[k]);
            } else {
                assert(rows[k].0 == lines.len() - 1);
            }
        }
    } else {
        let before = content_rows(front);
        if is_content_line(lines[i]) {
            assert(rows[before.len() as int] == (i as nat, lines[i]));
        }
        if exists|k: int| 0 <= k < rows.len() && #[trigger] rows[k] == (i as nat, lines[i]) {
            let k = choose|k: int| 0 <= k < rows.len() && #[trigger] rows[k] == (i as nat, lines[i]);
            if k < before.len() {
                assert(rows[k] == before[k]);
                assert(before[k].0 < front.len());
            }
        }
    }
}

/// The rows of a document are exactly its lines whose first non-blank
/// character is not `#`: line `i` is among the rows (with its index and its
/// text) exactly when it has a non-blank character and the first one is not
/// `#`.
pub proof fn lemma_rows_are_the_non_comment_lines(lines: Seq<Seq<char>>, i: int)
    requires
        0 <= i < lines.len(),
    ensures
        (exists|k: int| 0 <= k < content_rows(lines).len() && #[trigger] content_rows(lines)[k] == (i as nat, lines[i]))
            <==> (exists|j: int| #[trigger] first_non_blank_at(lines[i], j) && lines[i][j] != '#'),
{
    lemma_content_rows_members(lines, i);
    lemma_content_line_is_first_non_blank_not_hash(lines[i]);
}


/// `fields` joined into one line with a comma between each two.
pub open spec fn joined_line(fields: Seq<Seq<char>>) -> Seq<char>
    decreases fields.len(),
{
    if fields.len() <= 1 {
        if fields.len() == 0 {
            Seq::empty()
        } else {
            fields[0]
        }
    } else {
        fields[0] + seq![','] + joined_line(fields.drop_first())
    }
}

/// A field that can be written without quotes: it holds no comma and does
/// not begin with a double quote (a quote after its first character is an
/// ordinary character).
pub open spec fn plain_field(f: Seq<char>) -> bool {
    &&& forall|k: int| 0 <= k < f.len() ==> #[trigger] f[k] != ','
    &&& (f.len() == 0 || f[0] != '"')
}

proof fn lemma_split_plain_content(line: Seq<char>, i: int, st: SplitState, f: Seq<char>)
    requires
        0 <= i,
        i + f.len() <= line.len(),
        line.subrange(i, i + f.len()) == f,
        !st.in_quotes,
        !st.quoted,
        forall|k: int| 0 <= k < f.len() ==> #[trigger] f[k] != ',',
        st.field.len() > 0 || f.len() == 0 || f[0] != '"',
    ensures
        split_fields_from(line, i, st) == split_fields_from(
            line,
            i + f.len(),
            SplitState { fields: st.fields, field: st.field + f, in_quotes: false, quoted: false },
        ),
    decreases f.len(),
{
    if f.len() == 0 {
        assert(st.field + f == st.field);
        assert(st == SplitState { fields: st.fields, field: st.field + f, in_quotes: false, quoted: false });
    } else {
        let c = f[0];
        assert(line[i] == line.subrange(i, i + f.len())[0]);
        assert(line[i] == c);
        let rest = f.drop_first();
        assert(line.subrange(i + 1, i + 1 + rest.len()) == rest) by {
            assert forall|k: int| 0 <= k < rest.len() implies line.subrange(i + 1, i + 1 + rest.len())[k] == rest[k] by {
                assert(line[i + 1 + k] == line.subrange(i, i + f.len())[k + 1]);
            }
        }
        assert forall|k: int| 0 <= k < rest.len() implies #[trigger] rest[k] != ',' by {
            assert(rest[k] == f[k + 1]);
        }
        let next = SplitState { fields: st.fields, field: st.field.push(c), in_quotes: false, quoted: false };
        lemma_split_plain_content(line, i + 1, next, rest);
        assert(st.field.push(c) + rest == st.field + f);
    }
}

proof fn lemma_split_plain_line(line: Seq<char>, i: int, done: Seq<Seq<char>>, fields: Seq<Seq<char>>)
    requires
        fields.len() >= 1,
        0 <= i <= line.len(),
        line.subrange(i, line.len() as int) == joined_line(fields),
        forall|k: int| 0 <= k < fields.len() ==> plain_field(#[trigger] fields[k]),
    ensures
        split_fields_from(
            line,
            i,
            SplitState { fields: done, field: Seq::empty(), in_quotes: false, quoted: false },
        ) == done + fields.map_values(|f: Seq<char>| trim(f)),
    decreases fields.len(),
{
    let f = fields[0];
    assert(plain_field(f));
    let tail = line.subrange(i, line.len() as int);
    if fields.len() == 1 {
        assert(tail == f);
    } else {
        assert(tail == f + seq![','] + joined_line(fields.drop_first()));
    }
    assert(line.subrange(i, i + f.len()) == f) by {
        assert forall|k: int| 0 <= k < f.len() implies line.subrange(i, i + f.len())[k] == f[k] by {
            assert(line[i + k] == tail[k]);
        }
    }
    let start = SplitState { fields: done, field: Seq::empty(), in_quotes: false, quoted: false };
    lemma_split_plain_content(line, i, start, f);
    assert(Seq::<char>::empty() + f == f);
    let j = i + f.len();
    let mapped = fields.map_values(|g: Seq<char>| trim(g));
    if fields.len() == 1 {
        assert(j == line.len());
        assert(done.push(trim(f)) == done + mapped);
    } else {
        assert(line[j] == tail[f.len() as int]);
        assert(line[j] == ',');
        let rest = fields.drop_first();
        assert(line.subrange(j + 1, line.len() as int) == joined_line(rest)) by {
            assert(line.subrange(j + 1, line.len() as int) == tail.subrange(f.len() as int + 1, tail.len() as int));
        }
        assert forall|k: int| 0 <= k < rest.len() implies plain_field(#[trigger] rest[k]) by {
            assert(rest[k] == fields[k + 1]);
        }
        lemma_split_plain_line(line, j + 1, done.push(trim(f)), rest);
        assert(done.push(trim(f)) + rest.map_values(|g: Seq<char>| trim(g)) == done + mapped);
    }
}

/// Unquoted fields: fields that hold no comma and do not begin with a double
/// quote, joined by commas, split back into the same fields with surrounding
/// whitespace trimmed. Spaces around the commas change nothing, and a double
/// quote inside such a field (`Pipe 6" steel`) is kept as an ordinary
/// character.
pub proof fn lemma_unquoted_fields_split_trimmed(fields: Seq<Seq<char>>)
    requires
        fields.len() >= 1,
        forall|k: int| 0 <= k < fields.len() ==> plain_field(#[trigger] fields[k]),
    ensures
        split_line_spec(joined_line(fields)) == fields.map_values(|f: Seq<char>| trim(f)),
{
    let line = joined_line(fields);
    assert(line.subrange(0, line.len() as int) == line);
    lemma_split_plain_line(line, 0, Seq::empty(), fields);
    assert(Seq::<Seq<char>>::empty() + fields.map_values(|f: Seq<char>| trim(f)) == fields.map_values(
        |f: Seq<char>| trim(f),
    ));
}

} // verus!
