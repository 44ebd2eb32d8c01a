//! Choosing the reader for an invoice document.
use vstd::prelude::*;
use crate::amount::{fits_i64, Money};
use crate::pricing::{item_views, totals_spec, LineItem, LineItemError, LineItemView, LineTotals};
use crate::text::chars_of;

verus! {

/// The two invoice formats this library reads.
#[derive(Debug, Clone, Copy, PartialEq, Eq, Structural)]
pub enum InvoiceFormat {
    Csv,
    Json,
}

/// The format of an invoice read from `path` (none for standard input) with
/// contents `input`: JSON when the path ends in `.json` or the input starts
/// with `[`, CSV otherwise.
pub open spec fn format_of(path: Option<Seq<char>>, input: Seq<char>) -> InvoiceFormat {
    let json_path = match path {
        Some(p) => p.len() >= ".json"@.len() && p.subrange(p.len() - ".json"@.len(), p.len() as int) == ".json"@,
        None => false,
    };
    if json_path || (input.len() > 0 && input[0] == '[') {
        InvoiceFormat::Json
    } else {
        InvoiceFormat::Csv
    }
}

/// Which reader an invoice read from `path` with contents `input` goes to.
pub fn detect_format(path: Option<&str>, input: &str) -> (f: InvoiceFormat)
    ensures
        f == format_of(
            match path {
                Some(p) => Some(p@),
                None => None,
            },
            input@,
        ),
{
    let suffix = chars_of(".json");
    let json_path = match path {
        Some(p) => {
            let pc = chars_of(p);
            if pc.len() < suffix.len() {
                false
            } else {
                let start = pc.len() - suffix.len();
                let mut i: usize = 0;
                let mut same = true;
                while i < suffix.len()
                    invariant
                        suffix@ == ".json"@,
                        pc@ == p@,
                        start == pc.len() - suffix.len(),
                        i <= suffix.len(),
                        same == (forall|j: int| 0 <= j < i ==> pc@[start + j] == suffix@[j]),
                    decreases suffix.len() - i,
                {
                    if pc[start + i] != suffix[i] {
                        same = false;
                    }
                    i = i + 1;
                }
                proof {
                    let tail = p@.subrange(start as int, p@.len() as int);
                    if same {
                        assert(tail =~= ".json"@);
                    } else {
                        let j = choose|j: int| 0 <= j < suffix.len() && pc@[start + j] != suffix@[j];
                        assert(tail[j] != ".json"@[j]);
                    }
                }
                same
            }
        },
        None => false,
    };
    let ic = chars_of(input);
    if json_path || (ic.len() > 0 && ic[0] == '[') {
        InvoiceFormat::Json
    } else {
        InvoiceFormat::Csv
    }
}

/// How one line of an invoice fared when the invoice was priced.
#[derive(Debug, Clone, Copy, PartialEq, Eq, Structural)]
pub enum LineReport {
    /// The line priced, and its total went into the grand total.
    Priced(LineTotals),
    /// The line could not be priced; the grand total is left as it was.
    Failed(LineItemError),
    /// The line priced, but adding its total would overflow the grand total,
    /// which is left as it was.
    RunningTotalOverflow,
}

/// A `LineReport` with its amounts in cents.
pub enum LineReportView {
    Priced((int, int, int, int)),
    Failed(LineItemError),
    RunningTotalOverflow,
}

impl View for LineReport {
    type V = LineReportView;

    open spec fn view(&self) -> LineReportView {
        match self {
            LineReport::Priced(t) => LineReportView::Priced(t.cents()),
            LineReport::Failed(e) => LineReportView::Failed(*e),
            LineReport::RunningTotalOverflow => LineReportView::RunningTotalOverflow,
        }
    }
}

/// A priced invoice: one report per line, in order, the sum of the totals of
/// the lines that priced, and whether any line did not.
#[derive(Debug, Clone, PartialEq, Eq)]
pub struct InvoiceReport {
    pub lines: Vec<LineReport>,
    pub grand_total: Money,
    pub had_error: bool,
}

/// What an `InvoiceReport` holds, amounts in cents.
pub struct InvoiceReportView {
    pub lines: Seq<LineReportView>,
    pub grand_total: int,
    pub had_error: bool,
}

impl View for InvoiceReport {
    type V = InvoiceReportView;

    open spec fn view(&self) -> InvoiceReportView {
        InvoiceReportView {
            lines: self.lines@.map_values(|l: LineReport| l@),
            grand_total: self.grand_total@,
            had_error: self.had_error,
        }
    }
}

/// The report of one line, given the grand total of the lines before it.
pub open spec fn line_report(item: LineItemView, running: int) -> LineReportView {
    match totals_spec(item.unit_price, item.quantity, item.discount_bps, item.tax_bps) {
        Err(e) => LineReportView::Failed(e),
        Ok(t) => if fits_i64(running + t.3) {
            LineReportView::Priced(t)
        } else {
            LineReportView::RunningTotalOverflow
        },
    }
}

/// The report of an invoice, built line by line from a grand total of zero:
/// a line that prices adds its total, any other line leaves the grand total
/// alone and marks the invoice as having an error.
pub open spec fn report_spec(items: Seq<LineItemView>) -> InvoiceReportView
    decreases items.len(),
{
    if items.len() == 0 {
        InvoiceReportView { lines: Seq::empty(), grand_total: 0, had_error: false }
    } else {
        let before = report_spec(items.drop_last());
        let line = line_report(items.last(), before.grand_total);
        InvoiceReportView {
            lines: before.lines.push(line),
            grand_total: match line {
                LineReportView::Priced(t) => before.grand_total + t.3,
                _ => before.grand_total,
            },
            had_error: before.had_error || !(line is Priced),
        }
    }
}

/// Prices every line of an invoice and sums the totals of those that price.
pub fn price_invoice(items: &Vec<LineItem>) -> (r: InvoiceReport)
    ensures
        r@ == report_spec(item_views(items@)),
{
    let ghost views = item_views(items@);
    let mut lines: Vec<LineReport> = Vec::new();
    let mut grand_total = Money::from_cents(0);
    let mut had_error = false;
    let mut i: usize = 0;
    assert(views.take(0) == Seq::<LineItemView>::empty());
    assert(lines@.map_values(|l: LineReport| l@) == Seq::<LineReportView>::empty());
    while i < items.len()
        invariant
            i <= items.len(),
            views == item_views(items@),
            report_spec(views.take(i as int)) == (InvoiceReportView {
                lines: lines@.map_values(|l: LineReport| l@),
                grand_total: grand_total@,
                had_error,
            }),
        decreases items.len() - i,
    {
        let ghost before_lines = lines@;
        assert(views.take(i + 1).drop_last() == views.take(i as int));
        assert(views.take(i + 1).last() == items@[i as int]@);
        let line = match items[i].totals() {
            Ok(totals) => match grand_total.checked_add(totals.total) {
                Some(sum) => {
                    grand_total = sum;
                    LineReport::Priced(totals)
                },
                None => {
                    had_error = true;
                    LineReport::RunningTotalOverflow
                },
            },
            Err(e) => {
                had_error = true;
                LineReport::Failed(e)
            },
        };
        lines.push(line);
        assert(lines@.map_values(|l: LineReport| l@) == before_lines.map_values(|l: LineReport| l@).push(line@));
        i = i + 1;
    }
    assert(views.take(items.len() as int) == views);
    InvoiceReport { lines, grand_total, had_error }
}

} // verus!
