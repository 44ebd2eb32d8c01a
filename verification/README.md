# lineitems

Pricing of invoice line items with fixed-point integers — money as cents,
quantities as thousandths of a unit — plus readers for headered CSV and JSON
invoices, written in Verus and verified.

Discount is taken off the subtotal, then each tax rate is applied to what is
left; every step rounds to the nearest cent on its own, exact halves away from
zero, so a return (negative quantity) prices as the exact mirror of the sale.

## Layout

- `src/amount.rs` — `Money`, `Quantity`, decimal parsing and printing.
- `src/pricing.rs` — `LineItem::totals`, the rounding rule, and the laws of
  pricing (total = subtotal − discount + tax, the discount never exceeds the
  subtotal, a credit mirrors a sale, ...).
- `src/csv.rs` — the CSV reader: lines, quoting, header columns, rows.
- `src/json.rs`, `src/json/syntax.rs`, `src/json/number.rs` — the JSON reader:
  the grammar, and rates read as exact decimals.
- `src/invoice.rs` — which reader an input goes to, and pricing a whole
  invoice into per-line reports and a grand total.
- `src/text.rs` — characters, whitespace, digits and string building.
- `app/main.rs` — the command-line program: reads a file or standard input and
  prints each line priced out and a grand total.

Every function in `src/` has a contract stated over mathematical models
(`int`, `Seq<char>`, spec functions) and is proved by Verus. The only trusted
items are `String::push`, `char::from_u32`, and the `{:?}` formatting of a
string used in error messages.
