use clinvoice::digits::{padded5, u64_to_string};
use clinvoice::money::{format_cents, parse_price, parse_quantity, NumberError};
use clinvoice::render::{format_address, render, trim_spaces, Record, TemplateError};

fn record(total: &str) -> Record {
    Record {
        invoice_number: "00001".to_string(),
        created_date: "11 October 2026".to_string(),
        client_name: "Bob".to_string(),
        client_address: "1 Side Rd, Smallville".to_string(),
        client_email: "bob@example.com".to_string(),
        client_phone: "555-1".to_string(),
        company_name: "Acme".to_string(),
        company_address: "12 Main St, Springfield, 00000".to_string(),
        company_email: "acme@example.com".to_string(),
        company_phone: "555-2".to_string(),
        items_html: "<tr><td>Widget</td><td>3</td><td>9.99</td></tr>".to_string(),
        total: total.to_string(),
        tax: "0.00".to_string(),
        notes: "thanks".to_string(),
        logo_url: "data:image/png;base64,AQID".to_string(),
    }
}

#[test]
fn decimal_notation() {
    assert_eq!(u64_to_string(0), "0");
    assert_eq!(u64_to_string(7), "7");
    assert_eq!(u64_to_string(40105), "40105");
}

#[test]
fn padded_invoice_numbers() {
    assert_eq!(padded5(1), "00001");
    assert_eq!(padded5(42), "00042");
    assert_eq!(padded5(99999), "99999");
    assert_eq!(padded5(123456), "123456");
}

#[test]
fn money_notation() {
    assert_eq!(format_cents(2997), "29.97");
    assert_eq!(format_cents(0), "0.00");
    assert_eq!(format_cents(100), "1.00");
    assert_eq!(format_cents(5), "0.05");
    assert_eq!(format_cents(1050), "10.50");
}

#[test]
fn price_parsing() {
    assert_eq!(parse_price("9.99"), Ok(999));
    assert_eq!(parse_price("10"), Ok(1000));
    assert_eq!(parse_price("3.5"), Ok(350));
    assert_eq!(parse_price("0.05"), Ok(5));
    assert_eq!(parse_price(""), Err(NumberError::Malformed));
    assert_eq!(parse_price("9.999"), Err(NumberError::Malformed));
    assert_eq!(parse_price(".5"), Err(NumberError::Malformed));
    assert_eq!(parse_price("9."), Err(NumberError::Malformed));
    assert_eq!(parse_price("abc"), Err(NumberError::Malformed));
    assert_eq!(parse_price("-1"), Err(NumberError::Malformed));
    assert_eq!(
        parse_price("999999999999999999999"),
        Err(NumberError::TooLarge)
    );
}

#[test]
fn quantity_parsing() {
    assert_eq!(parse_quantity("3"), Ok(3));
    assert_eq!(parse_quantity("0"), Ok(0));
    assert_eq!(parse_quantity("4294967295"), Ok(u32::MAX));
    assert_eq!(parse_quantity("4294967296"), Err(NumberError::TooLarge));
    assert_eq!(parse_quantity("3.5"), Err(NumberError::Malformed));
    assert_eq!(parse_quantity(""), Err(NumberError::Malformed));
}

#[test]
fn address_three_segments() {
    assert_eq!(
        format_address("12 Main St, Springfield, 00000"),
        "12 Main St<br/>Springfield<br/>00000"
    );
}

#[test]
fn address_trimming_and_edges() {
    assert_eq!(format_address("  a  ,  b  "), "a<br/>b");
    assert_eq!(format_address("plain"), "plain");
    assert_eq!(format_address(""), "");
    assert_eq!(format_address(","), "<br/>");
}

#[test]
fn trimming() {
    assert_eq!(trim_spaces("  x y  "), "x y");
    assert_eq!(trim_spaces(""), "");
    assert_eq!(trim_spaces("   "), "");
}

#[test]
fn render_substitutes_fields() {
    let r = record("29.97");
    assert_eq!(
        render("Hello {{client_name}}, total {{total}}.", &r).unwrap(),
        "Hello Bob, total 29.97."
    );
}

#[test]
fn render_address_helper() {
    let r = record("29.97");
    assert_eq!(
        render("{{format_address company_address}}", &r).unwrap(),
        "12 Main St<br/>Springfield<br/>00000"
    );
}

#[test]
fn render_literal_braces() {
    let r = record("29.97");
    assert_eq!(render("a } b { c", &r).unwrap(), "a } b { c");
}

#[test]
fn render_unknown_field() {
    let r = record("29.97");
    assert_eq!(
        render("{{nonsuch}}", &r),
        Err(TemplateError::UnknownField)
    );
}

#[test]
fn render_unclosed_placeholder() {
    let r = record("29.97");
    assert_eq!(render("oops {{total", &r), Err(TemplateError::Unclosed));
}

#[test]
fn render_default_template_shows_total() {
    let r = record("29.97");
    let page = render(clinvoice::render::default_template(), &r).unwrap();
    assert!(page.contains("Total: 29.97"));
    assert!(page.contains("Invoice #00001"));
    assert!(page.contains("12 Main St<br/>Springfield<br/>00000"));
    assert!(page.contains("<tr><td>Widget</td><td>3</td><td>9.99</td></tr>"));
}
