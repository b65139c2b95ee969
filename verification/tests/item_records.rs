use clinvoice::items::{line_total, parse_item, total_cents, ItemError, LineItem};

fn item(description: &str, quantity: u32, price_cents: u64) -> LineItem {
    LineItem {
        description: description.to_string(),
        quantity,
        price_cents,
    }
}

#[test]
fn record_in_canonical_order() {
    let it = parse_item("{\"description\": \"Widget\",\"quantity\": 3, \"price\": 9.99}").unwrap();
    assert_eq!(it.description, "Widget");
    assert_eq!(it.quantity, 3);
    assert_eq!(it.price_cents, 999);
}

#[test]
fn record_in_any_key_order() {
    let it = parse_item("{ \"price\": 10, \"description\": \"Bolt\", \"quantity\": 12 }").unwrap();
    assert_eq!(it.description, "Bolt");
    assert_eq!(it.quantity, 12);
    assert_eq!(it.price_cents, 1000);
}

#[test]
fn record_with_single_fraction_digit() {
    let it = parse_item("{\"description\": \"Nut\",\"quantity\": 1, \"price\": 3.5}").unwrap();
    assert_eq!(it.price_cents, 350);
}

#[test]
fn record_missing_key() {
    assert_eq!(
        parse_item("{\"description\": \"Widget\",\"quantity\": 3, \"quantity\": 4}"),
        Err(ItemError::Malformed)
    );
}

#[test]
fn record_malformed_shapes() {
    assert_eq!(parse_item(""), Err(ItemError::Malformed));
    assert_eq!(parse_item("{}"), Err(ItemError::Malformed));
    assert_eq!(
        parse_item("\"description\": \"Widget\",\"quantity\": 3, \"price\": 9.99"),
        Err(ItemError::Malformed)
    );
    assert_eq!(
        parse_item("{\"description\": \"Widget\",\"quantity\": 3, \"price\": 9.99} tail"),
        Err(ItemError::Malformed)
    );
    assert_eq!(
        parse_item("{\"description\": \"Widget\",\"quantity\": three, \"price\": 9.99}"),
        Err(ItemError::Malformed)
    );
    assert_eq!(
        parse_item("{\"description\": \"Widget\",\"quantity\": 3, \"price\": 9.999}"),
        Err(ItemError::Malformed)
    );
    assert_eq!(
        parse_item("{\"descriptions\": \"Widget\",\"quantity\": 3, \"price\": 9.99}"),
        Err(ItemError::Malformed)
    );
}

#[test]
fn record_with_numbers_too_large() {
    assert_eq!(
        parse_item("{\"description\": \"W\",\"quantity\": 4294967296, \"price\": 9.99}"),
        Err(ItemError::TooLarge)
    );
    assert_eq!(
        parse_item(
            "{\"description\": \"W\",\"quantity\": 1, \"price\": 999999999999999999999.00}"
        ),
        Err(ItemError::TooLarge)
    );
}

#[test]
fn totals_add_line_totals() {
    let items = vec![item("Widget", 3, 999), item("Bolt", 2, 50)];
    assert_eq!(total_cents(&items), Some(3097));
    assert_eq!(total_cents(&Vec::new()), Some(0));
}

#[test]
fn line_total_overflow() {
    assert_eq!(line_total(3, 999), Some(2997));
    assert_eq!(line_total(u32::MAX, u64::MAX), None);
    assert_eq!(line_total(0, u64::MAX), Some(0));
}

#[test]
fn total_overflow() {
    let items = vec![item("A", 2, u64::MAX / 2 + 1), item("B", 1, 2)];
    assert_eq!(total_cents(&items), None);
}
