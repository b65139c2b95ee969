//! Putting an invoice together: the persisted snapshot built from the given
//! fields, the flat record a document is rendered from, the regenerate path
//! that re-reads a stored snapshot, and the rule that a failed export leaves
//! the store untouched.
use vstd::prelude::*;

use crate::digits::{padded5, spec_padded5, u64_to_string, spec_decimal};
use crate::items::{
    lemma_invoice_total_nonneg, lemma_invoice_total_prefix, line_total, spec_invoice_total,
    total_cents, LineItem,
};
use crate::money::{format_cents, spec_money};
use crate::store::{
    duplicate_invoice, spec_find_invoice, spec_items_of, InvoiceRow, ItemRow, Store,
};
use crate::render::Record;

verus! {

/// The text of an optional field: absent fields render and persist as empty
/// text.
pub open spec fn spec_opt_text(o: Option<String>) -> Seq<char> {
    match o {
        Some(s) => s@,
        None => Seq::empty(),
    }
}

/// The HTML row of one line item: description, quantity and unit price in
/// their own cells.
pub open spec fn spec_item_row_html(it: LineItem) -> Seq<char> {
    "<tr><td>"@ + it.description@ + "</td><td>"@ + spec_decimal(it.quantity as int)
        + "</td><td>"@ + spec_money(it.price_cents as int) + "</td></tr>"@
}

/// The HTML rows of all line items, in order.
pub open spec fn spec_items_html(items: Seq<LineItem>) -> Seq<char>
    decreases items.len(),
{
    if items.len() == 0 {
        Seq::empty()
    } else {
        spec_items_html(items.drop_last()) + spec_item_row_html(items.last())
    }
}

/// Renders the line items as HTML table rows.
pub fn items_html(items: &Vec<LineItem>) -> (r: String)
    ensures
        r@ == spec_items_html(items@),
{
    let mut out = String::new();
    let mut i: usize = 0;
    while i < items.len()
        invariant
            0 <= i <= items@.len(),
            out@ == spec_items_html(items@.take(i as int)),
        decreases items@.len() - i,
    {
        proof {
            let t = items@.take(i + 1);
            assert(t.drop_last() =~= items@.take(i as int));
            assert(t.last() == items@[i as int]);
        }
        out.append("<tr><td>");
        out.append(items[i].description.as_str());
        out.append("</td><td>");
        out.append(u64_to_string(items[i].quantity as u64).as_str());
        out.append("</td><td>");
        out.append(format_cents(items[i].price_cents).as_str());
        out.append("</td></tr>");
        proof {
            assert(out@ =~= spec_items_html(items@.take(i + 1)));
        }
        i = i + 1;
    }
    proof {
        assert(items@.take(i as int) =~= items@);
    }
    out
}

/// Builds the snapshot to persist: the given company and client fields, the
/// issue date, the exact total of the line items, and one item row per line.
/// `None` exactly when the total does not fit the machine word.
pub fn build_invoice(
    id: u64,
    company_name: String,
    company_address: Option<String>,
    company_email: Option<String>,
    company_phone: Option<String>,
    client_name: String,
    client_address: Option<String>,
    client_email: Option<String>,
    client_phone: Option<String>,
    date: String,
    items: &Vec<LineItem>,
    notes: Option<String>,
    regenerated: bool,
) -> (r: Option<(InvoiceRow, Vec<ItemRow>)>)
    ensures
        match r {
            Some(pair) => {
                let inv = pair.0;
                let rows = pair.1;
                inv.id == id && inv.company_name == company_name && inv.company_address
                    == company_address && inv.company_email == company_email && inv.company_phone
                    == company_phone && inv.client_name == client_name && inv.client_address
                    == client_address && inv.client_email == client_email && inv.client_phone
                    == client_phone && inv.date == date && inv.total_cents as int
                    == spec_invoice_total(items@) && inv.tax_cents is None && inv.notes == notes
                    && inv.regenerated == regenerated && rows@.len() == items@.len() && forall|
                    i: int,
                |
                    0 <= i < items@.len() ==> (#[trigger] rows@[i]).description
                        == items@[i].description && rows@[i].quantity == items@[i].quantity
                        && rows@[i].price_cents == items@[i].price_cents && rows@[i].total_cents
                        as int == items@[i].quantity as int * items@[i].price_cents as int
            },
            None => spec_invoice_total(items@) > u64::MAX,
        },
{
    let total = match total_cents(items) {
        Some(t) => t,
        None => {
            return None;
        },
    };
    let mut rows: Vec<ItemRow> = Vec::new();
    let mut i: usize = 0;
    while i < items.len()
        invariant
            0 <= i <= items@.len(),
            spec_invoice_total(items@) <= u64::MAX,
            rows@.len() == i,
            forall|k: int|
                0 <= k < i ==> (#[trigger] rows@[k]).description == items@[k].description
                    && rows@[k].quantity == items@[k].quantity && rows@[k].price_cents
                    == items@[k].price_cents && rows@[k].total_cents as int == items@[k].quantity
                    as int * items@[k].price_cents as int,
        decreases items@.len() - i,
    {
        let lt = match line_total(items[i].quantity, items[i].price_cents) {
            Some(v) => v,
            None => {
                proof {
                    let t = items@.take(i + 1);
                    assert(t.drop_last() =~= items@.take(i as int));
                    assert(t.last() == items@[i as int]);
                    lemma_invoice_total_nonneg(items@.take(i as int));
                    lemma_invoice_total_prefix(items@, i + 1);
                }
                assert(false);
                return None;
            },
        };
        rows.push(
            ItemRow {
                invoice_id: 0,
                description: items[i].description.clone(),
                quantity: items[i].quantity,
                price_cents: items[i].price_cents,
                total_cents: lt,
            },
        );
        i = i + 1;
    }
    Some(
        (
            InvoiceRow {
                id,
                company_name,
                company_address,
                company_email,
                company_phone,
                client_name,
                client_address,
                client_email,
                client_phone,
                date,
                total_cents: total,
                tax_cents: None,
                notes,
                regenerated,
            },
            rows,
        ),
    )
}

/// Binds the flat record a document is rendered from, entirely from the
/// snapshot: the padded invoice number, the snapshot's own company and
/// client fields (absent ones as empty text), the item rows, the exact
/// total, the tax (zero when absent) and the logo URL.
pub fn invoice_record(inv: &InvoiceRow, rows_html: String, logo_url: String) -> (r: Record)
    ensures
        r.invoice_number@ == spec_padded5(inv.id as int),
        r.created_date@ == inv.date@,
        r.client_name@ == inv.client_name@,
        r.client_address@ == spec_opt_text(inv.client_address),
        r.client_email@ == spec_opt_text(inv.client_email),
        r.client_phone@ == spec_opt_text(inv.client_phone),
        r.company_name@ == inv.company_name@,
        r.company_address@ == spec_opt_text(inv.company_address),
        r.company_email@ == spec_opt_text(inv.company_email),
        r.company_phone@ == spec_opt_text(inv.company_phone),
        r.items_html@ == rows_html@,
        r.total@ == spec_money(inv.total_cents as int),
        r.tax@ == spec_money(
            match inv.tax_cents {
                Some(t) => t as int,
                None => 0,
            },
        ),
        r.notes@ == spec_opt_text(inv.notes),
        r.logo_url@ == logo_url@,
{
    let tax = match inv.tax_cents {
        Some(t) => t,
        None => 0,
    };
    Record {
        invoice_number: padded5(inv.id),
        created_date: inv.date.clone(),
        client_name: inv.client_name.clone(),
        client_address: opt_text(&inv.client_address),
        client_email: opt_text(&inv.client_email),
        client_phone: opt_text(&inv.client_phone),
        company_name: inv.company_name.clone(),
        company_address: opt_text(&inv.company_address),
        company_email: opt_text(&inv.company_email),
        company_phone: opt_text(&inv.company_phone),
        items_html: rows_html,
        total: format_cents(inv.total_cents),
        tax: format_cents(tax),
        notes: opt_text(&inv.notes),
        logo_url,
    }
}

/// An optional field as text, absent as empty.
pub fn opt_text(o: &Option<String>) -> (r: String)
    ensures
        r@ == spec_opt_text(*o),
{
    match o {
        Some(s) => s.clone(),
        None => String::new(),
    }
}

/// Reads the stored snapshot of invoice `id` for regeneration: the fresh
/// snapshot carries the stored fields of that invoice alone — not the live
/// company or client rows — under the new number and date, with its
/// regenerated mark set; the stored row itself is not touched.  `None`
/// exactly when no invoice has that identity.
pub fn regenerate_snapshot(store: &Store, id: u64, new_id: u64, date: String) -> (r: Option<
    (InvoiceRow, Vec<ItemRow>),
>)
    ensures
        match r {
            Some(pair) => {
                let found = spec_find_invoice(store.invoices@, id);
                let snap = pair.0;
                found is Some && {
                    let inv = found.unwrap();
                    snap.id == new_id && snap.company_name == inv.company_name
                        && snap.company_address == inv.company_address && snap.company_email
                        == inv.company_email && snap.company_phone == inv.company_phone
                        && snap.client_name == inv.client_name && snap.client_address
                        == inv.client_address && snap.client_email == inv.client_email
                        && snap.client_phone == inv.client_phone && snap.date == date
                        && snap.total_cents == inv.total_cents && snap.tax_cents == inv.tax_cents
                        && snap.notes == inv.notes && snap.regenerated == true && pair.1@
                        == spec_items_of(store.items@, id)
                }
            },
            None => spec_find_invoice(store.invoices@, id) is None,
        },
{
    let inv = match store.find_invoice(id) {
        Some(inv) => inv,
        None => {
            return None;
        },
    };
    let items = store.items_of_invoice(id);
    let mut snap = duplicate_invoice(inv);
    snap.id = new_id;
    snap.date = date;
    snap.regenerated = true;
    Some((snap, items))
}

/// Ends the generate flow on the export outcome: a failed export aborts
/// before persistence and leaves the store exactly as it was; a successful
/// one persists the snapshot and its items under the next invoice number.
pub fn finish_generate(
    store: &mut Store,
    export_ok: bool,
    header: InvoiceRow,
    items: Vec<ItemRow>,
) -> (persisted: bool)
    requires
        old(store).wf(),
        export_ok ==> header.id as int == old(store).spec_next_invoice_number() && old(
            store,
        ).spec_next_invoice_number() <= u64::MAX,
    ensures
        final(store).wf(),
        persisted == export_ok,
        !export_ok ==> *final(store) == *old(store),
        export_ok ==> final(store).invoices@ == old(store).invoices@.push(header)
            && final(store).items@ == old(store).items@ + items@.map_values(
            |it: ItemRow| crate::store::spec_with_invoice_id(it, header.id),
        ) && final(store).companies@ == old(store).companies@ && final(store).clients@ == old(
            store,
        ).clients@ && final(store).links@ == old(store).links@
            && final(store).spec_next_invoice_number() == old(store).spec_next_invoice_number()
            + 1,
{
    if export_ok {
        store.commit_invoice(header, items);
        true
    } else {
        false
    }
}

} // verus!
