use chrono::Datelike;
use clinvoice::dates::{format_date, month_abbrev, month_name, today};
use clinvoice::export::{document_url, has_image_extension, logo_data_url, pdf_output_path};
use clinvoice::flow::{build_invoice, finish_generate, invoice_record, items_html, regenerate_snapshot};
use clinvoice::items::LineItem;
use clinvoice::render::render;
use clinvoice::store::Store;

fn widget_items() -> Vec<LineItem> {
    vec![LineItem {
        description: "Widget".to_string(),
        quantity: 3,
        price_cents: 999,
    }]
}

#[test]
fn month_names() {
    assert_eq!(month_name(1), "January");
    assert_eq!(month_name(10), "October");
    assert_eq!(month_name(12), "December");
    assert_eq!(month_abbrev(1), "Jan");
    assert_eq!(month_abbrev(10), "Oct");
    assert_eq!(month_abbrev(12), "Dec");
}

#[test]
fn date_notation() {
    assert_eq!(format_date(2026, 10, 11), "11 October 2026");
    assert_eq!(format_date(2026, 3, 5), "05 March 2026");
    assert_eq!(format_date(-44, 1, 1), "01 January -44");
}

#[test]
fn clock_date_is_in_range() {
    let ((_, m, d), text) = today();
    assert!((1..=12).contains(&m));
    assert!((1..=31).contains(&d));
    assert!(text.contains(month_name(m)));
}

#[test]
fn output_path_shape() {
    assert_eq!(
        pdf_output_path("/inv", 2026, 10, 1),
        "/inv/2026/Oct/00001.pdf"
    );
    assert_eq!(
        pdf_output_path("root", 1999, 2, 123456),
        "root/1999/Feb/123456.pdf"
    );
}

#[test]
fn logo_url_embeds_base64() {
    assert_eq!(
        logo_data_url(&vec![1u8, 2u8, 3u8]),
        "data:image/png;base64,AQID"
    );
    assert_eq!(logo_data_url(&Vec::new()), "data:image/png;base64,");
}

#[test]
fn logo_extensions() {
    assert!(has_image_extension("logo.png"));
    assert!(has_image_extension("a.b/logo.jpeg"));
    assert!(has_image_extension("logo.old.jpg"));
    assert!(has_image_extension("logo.svg"));
    assert!(!has_image_extension("logo.gif"));
    assert!(!has_image_extension("logo"));
    assert!(!has_image_extension("png"));
    assert!(!has_image_extension("logo."));
}

#[test]
fn document_url_percent_encodes() {
    assert_eq!(
        document_url("<p>a b</p>"),
        "data:text/html,%3Cp%3Ea%20b%3C%2Fp%3E"
    );
    assert_eq!(document_url("plain"), "data:text/html,plain");
}

#[test]
fn items_rows_render() {
    assert_eq!(
        items_html(&widget_items()),
        "<tr><td>Widget</td><td>3</td><td>9.99</td></tr>"
    );
    assert_eq!(items_html(&Vec::new()), "");
}

#[test]
fn snapshot_totals_the_items() {
    let items = widget_items();
    let (inv, rows) = build_invoice(
        1,
        "Acme".to_string(),
        None,
        None,
        None,
        "Bob".to_string(),
        None,
        None,
        None,
        "11 October 2026".to_string(),
        &items,
        None,
        false,
    )
    .unwrap();
    assert_eq!(inv.total_cents, 2997);
    assert_eq!(inv.tax_cents, None);
    assert!(!inv.regenerated);
    assert_eq!(rows.len(), 1);
    assert_eq!(rows[0].total_cents, 2997);
}

#[test]
fn snapshot_overflow_is_refused() {
    let items = vec![LineItem {
        description: "Too big".to_string(),
        quantity: u32::MAX,
        price_cents: u64::MAX,
    }];
    assert!(build_invoice(
        1,
        "Acme".to_string(),
        None,
        None,
        None,
        "Bob".to_string(),
        None,
        None,
        None,
        "d".to_string(),
        &items,
        None,
        false,
    )
    .is_none());
}

#[test]
fn generate_end_to_end() {
    let mut store = Store::new();
    let items = widget_items();
    let number = store.next_invoice_number();
    assert_eq!(number, 1);

    let ((y, m, _), date) = today();
    let (inv, rows) = build_invoice(
        number,
        "Acme".to_string(),
        None,
        None,
        None,
        "Bob".to_string(),
        None,
        None,
        None,
        date,
        &items,
        None,
        false,
    )
    .unwrap();

    let record = invoice_record(&inv, items_html(&items), "logo".to_string());
    assert_eq!(record.invoice_number, "00001");
    assert_eq!(record.total, "29.97");
    assert_eq!(record.tax, "0.00");
    let page = render(clinvoice::render::default_template(), &record).unwrap();
    assert!(page.contains("Total: 29.97"));

    let path = pdf_output_path("/inv", y, m, number);
    let now = chrono::offset::Local::now();
    assert_eq!(
        path,
        format!("/inv/{}/{}/00001.pdf", now.year(), now.format("%b"))
    );

    let persisted = finish_generate(&mut store, true, inv, rows);
    assert!(persisted);
    assert_eq!(store.invoices.len(), 1);
    assert_eq!(store.invoices[0].client_name, "Bob");
    assert_eq!(store.invoices[0].company_name, "Acme");
    assert_eq!(store.invoices[0].total_cents, 2997);
    assert_eq!(store.next_invoice_number(), 2);
}

#[test]
fn failed_export_persists_nothing() {
    let mut store = Store::new();
    let items = widget_items();
    let (inv, rows) = build_invoice(
        1,
        "Acme".to_string(),
        None,
        None,
        None,
        "Bob".to_string(),
        None,
        None,
        None,
        "d".to_string(),
        &items,
        None,
        false,
    )
    .unwrap();
    let persisted = finish_generate(&mut store, false, inv, rows);
    assert!(!persisted);
    assert!(store.invoices.is_empty());
    assert!(store.items.is_empty());
    assert_eq!(store.next_invoice_number(), 1);
}

#[test]
fn regenerate_uses_the_stored_snapshot() {
    let mut store = Store::new();
    // A live client row that differs from the stored snapshot: regeneration
    // must not read it.
    store.create_client("Bob the Changed".to_string(), None, None, None);
    let items = widget_items();
    let (inv, rows) = build_invoice(
        1,
        "Acme".to_string(),
        Some("Old Rd, Town".to_string()),
        None,
        None,
        "Bob".to_string(),
        None,
        None,
        None,
        "01 January 2020".to_string(),
        &items,
        Some("first".to_string()),
        false,
    )
    .unwrap();
    finish_generate(&mut store, true, inv, rows);

    let (snap, snap_items) =
        regenerate_snapshot(&store, 1, 2, "11 October 2026".to_string()).unwrap();
    assert_eq!(snap.id, 2);
    assert_eq!(snap.client_name, "Bob");
    assert_eq!(snap.company_name, "Acme");
    assert_eq!(snap.company_address, Some("Old Rd, Town".to_string()));
    assert_eq!(snap.total_cents, 2997);
    assert_eq!(snap.notes, Some("first".to_string()));
    assert_eq!(snap.date, "11 October 2026");
    assert!(snap.regenerated);
    assert_eq!(snap_items.len(), 1);
    assert_eq!(snap_items[0].description, "Widget");

    // The stored row keeps its own flag and fields.
    assert!(!store.invoices[0].regenerated);
    assert_eq!(store.invoices[0].id, 1);
    assert_eq!(store.invoices[0].date, "01 January 2020");

    assert!(regenerate_snapshot(&store, 9, 10, "d".to_string()).is_none());
}
