use clinvoice::search::{search_clients, search_companies, ClientSearchField, CompanySearchField};
use clinvoice::store::{InvoiceRow, ItemRow, Store};

fn invoice(id: u64, client: &str, company: &str, total_cents: u64) -> InvoiceRow {
    InvoiceRow {
        id,
        company_name: company.to_string(),
        company_address: None,
        company_email: None,
        company_phone: None,
        client_name: client.to_string(),
        client_address: None,
        client_email: None,
        client_phone: None,
        date: "11 October 2026".to_string(),
        total_cents,
        tax_cents: None,
        notes: None,
        regenerated: false,
    }
}

fn item_row(description: &str, quantity: u32, price_cents: u64) -> ItemRow {
    ItemRow {
        invoice_id: 0,
        description: description.to_string(),
        quantity,
        price_cents,
        total_cents: quantity as u64 * price_cents,
    }
}

#[test]
fn numbering_starts_at_one() {
    let store = Store::new();
    assert_eq!(store.next_invoice_number(), 1);
}

#[test]
fn numbering_follows_persisted_invoices() {
    let mut store = Store::new();
    let n = store.next_invoice_number();
    assert_eq!(n, 1);
    store.commit_invoice(invoice(n, "Bob", "Acme", 2997), vec![item_row("Widget", 3, 999)]);
    assert_eq!(store.next_invoice_number(), 2);
    store.commit_invoice(invoice(2, "Eve", "Acme", 100), Vec::new());
    assert_eq!(store.next_invoice_number(), 3);
}

#[test]
fn commit_keys_items_to_the_invoice() {
    let mut store = Store::new();
    store.commit_invoice(
        invoice(1, "Bob", "Acme", 3097),
        vec![item_row("Widget", 3, 999), item_row("Bolt", 2, 50)],
    );
    let items = store.items_of_invoice(1);
    assert_eq!(items.len(), 2);
    assert_eq!(items[0].invoice_id, 1);
    assert_eq!(items[0].description, "Widget");
    assert_eq!(items[1].invoice_id, 1);
    assert_eq!(items[1].description, "Bolt");
    assert!(store.items_of_invoice(2).is_empty());
}

#[test]
fn invoices_found_by_id_and_client() {
    let mut store = Store::new();
    store.commit_invoice(invoice(1, "Bob", "Acme", 1), Vec::new());
    store.commit_invoice(invoice(2, "Eve", "Acme", 2), Vec::new());
    store.commit_invoice(invoice(3, "Bob", "Globex", 3), Vec::new());

    assert_eq!(store.find_invoice(2).unwrap().client_name, "Eve");
    assert!(store.find_invoice(9).is_none());

    let by_id = store.invoices_with_id(3);
    assert_eq!(by_id.len(), 1);
    assert_eq!(by_id[0].company_name, "Globex");

    let by_client = store.invoices_with_client("Bob");
    assert_eq!(by_client.len(), 2);
    assert_eq!(by_client[0].id, 1);
    assert_eq!(by_client[1].id, 3);
    assert!(store.invoices_with_client("Bo").is_empty());
}

fn sample_store() -> Store {
    let mut store = Store::new();
    let acme = store.create_company(
        "Acme".to_string(),
        Some("12 Main St, Springfield".to_string()),
        None,
        None,
    );
    let globex = store.create_company("Globex".to_string(), None, None, None);
    let bob = store.create_client(
        "Bob".to_string(),
        Some("1 Side Rd".to_string()),
        Some("bob@example.com".to_string()),
        None,
    );
    let alice = store.create_client("Alice".to_string(), None, None, None);
    let bonnie = store.create_client("Bonnie".to_string(), None, None, None);
    store.create_link(acme, bob);
    store.create_link(globex, bob);
    store.create_link(acme, alice);
    store.create_link(globex, bonnie);
    store
}

#[test]
fn client_search_with_no_match_is_empty() {
    let store = sample_store();
    let found = search_clients(&store, ClientSearchField::Name, "Zeb");
    assert!(found.is_empty());
}

#[test]
fn client_search_groups_all_company_names() {
    let store = sample_store();
    let found = search_clients(&store, ClientSearchField::Name, "Bo");
    assert_eq!(found.len(), 2);
    assert_eq!(found[0].client.name, "Bob");
    assert_eq!(found[0].company_names, vec!["Acme".to_string(), "Globex".to_string()]);
    assert_eq!(found[1].client.name, "Bonnie");
    assert_eq!(found[1].company_names, vec!["Globex".to_string()]);
}

#[test]
fn client_search_orders_by_name() {
    let store = sample_store();
    let all = search_clients(&store, ClientSearchField::Company, "e");
    let names: Vec<String> = all.iter().map(|g| g.client.name.clone()).collect();
    assert_eq!(
        names,
        vec!["Alice".to_string(), "Bob".to_string(), "Bonnie".to_string()]
    );
}

#[test]
fn client_search_by_address_skips_absent_addresses() {
    let store = sample_store();
    let found = search_clients(&store, ClientSearchField::Address, "Side");
    assert_eq!(found.len(), 1);
    assert_eq!(found[0].client.name, "Bob");
}

#[test]
fn company_search_by_field() {
    let store = sample_store();
    let by_name = search_companies(&store, CompanySearchField::Name, "lob");
    assert_eq!(by_name.len(), 1);
    assert_eq!(by_name[0].name, "Globex");
    let by_address = search_companies(&store, CompanySearchField::Address, "Main");
    assert_eq!(by_address.len(), 1);
    assert_eq!(by_address[0].name, "Acme");
    assert!(search_companies(&store, CompanySearchField::Address, "zzz").is_empty());
}

#[test]
fn created_rows_take_successive_ids() {
    let mut store = Store::new();
    let a = store.create_company("A".to_string(), None, None, None);
    let b = store.create_company("B".to_string(), None, None, None);
    assert_eq!(a, 1);
    assert_eq!(b, 2);
    let c = store.create_client("C".to_string(), None, None, None);
    assert_eq!(c, 1);
}
