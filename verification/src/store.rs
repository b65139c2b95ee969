//! An exact model of the relational row store: companies, clients, their
//! many-to-many association, and invoices with their line items.  The
//! surrounding binary mirrors every committed change into the real database;
//! the logic here is what decides ids, search results and what is written.
use vstd::prelude::*;

verus! {

/// A company row.
pub struct CompanyRow {
    pub id: u64,
    pub name: String,
    pub address: Option<String>,
    pub email: Option<String>,
    pub phone: Option<String>,
}

/// A client row.
pub struct ClientRow {
    pub id: u64,
    pub name: String,
    pub address: Option<String>,
    pub email: Option<String>,
    pub phone: Option<String>,
}

/// One company-client association.
pub struct LinkRow {
    pub company_id: u64,
    pub client_id: u64,
}

/// A persisted invoice: a denormalized snapshot of the company and client
/// fields as they stood at generation time, never a live join.
pub struct InvoiceRow {
    pub id: u64,
    pub company_name: String,
    pub company_address: Option<String>,
    pub company_email: Option<String>,
    pub company_phone: Option<String>,
    pub client_name: String,
    pub client_address: Option<String>,
    pub client_email: Option<String>,
    pub client_phone: Option<String>,
    pub date: String,
    pub total_cents: u64,
    pub tax_cents: Option<u64>,
    pub notes: Option<String>,
    pub regenerated: bool,
}

/// One line item row, owned by the invoice named in `invoice_id`.
pub struct ItemRow {
    pub invoice_id: u64,
    pub description: String,
    pub quantity: u32,
    pub price_cents: u64,
    pub total_cents: u64,
}

/// The whole store.
pub struct Store {
    pub companies: Vec<CompanyRow>,
    pub clients: Vec<ClientRow>,
    pub links: Vec<LinkRow>,
    pub invoices: Vec<InvoiceRow>,
    pub items: Vec<ItemRow>,
}

/// The largest persisted invoice id, 0 with no invoices.
pub open spec fn spec_max_invoice_id(invs: Seq<InvoiceRow>) -> int
    decreases invs.len(),
{
    if invs.len() == 0 {
        0
    } else {
        let rest = spec_max_invoice_id(invs.drop_last());
        if invs.last().id > rest {
            invs.last().id as int
        } else {
            rest
        }
    }
}

impl Store {
    /// Row identities are positive and no two rows of a table share one.
    pub open spec fn wf(self) -> bool {
        (forall|a: int, b: int|
            0 <= a < b < self.companies@.len() ==> self.companies@[a].id != self.companies@[b].id)
            && (forall|a: int, b: int|
            0 <= a < b < self.clients@.len() ==> self.clients@[a].id != self.clients@[b].id) && (
        forall|a: int, b: int|
            0 <= a < b < self.invoices@.len() ==> self.invoices@[a].id != self.invoices@[b].id) && (
        forall|i: int| 0 <= i < self.companies@.len() ==> self.companies@[i].id >= 1) && (forall|
            i: int,
        | 0 <= i < self.clients@.len() ==> self.clients@[i].id >= 1) && (forall|i: int|
            0 <= i < self.invoices@.len() ==> self.invoices@[i].id >= 1)
    }

    /// An empty store.
    pub fn new() -> (r: Store)
        ensures
            r.wf(),
            r.companies@.len() == 0,
            r.clients@.len() == 0,
            r.links@.len() == 0,
            r.invoices@.len() == 0,
            r.items@.len() == 0,
    {
        Store {
            companies: Vec::new(),
            clients: Vec::new(),
            links: Vec::new(),
            invoices: Vec::new(),
            items: Vec::new(),
        }
    }

    /// The number the next invoice gets: the largest persisted invoice id
    /// plus one, hence 1 on an empty store.
    pub open spec fn spec_next_invoice_number(self) -> int {
        spec_max_invoice_id(self.invoices@) + 1
    }

    /// Computes the next invoice number.
    pub fn next_invoice_number(&self) -> (r: u64)
        requires
            spec_max_invoice_id(self.invoices@) < u64::MAX,
        ensures
            r as int == self.spec_next_invoice_number(),
    {
        let mut max: u64 = 0;
        let mut i: usize = 0;
        while i < self.invoices.len()
            invariant
                0 <= i <= self.invoices@.len(),
                max as int == spec_max_invoice_id(self.invoices@.take(i as int)),
                spec_max_invoice_id(self.invoices@) < u64::MAX,
            decreases self.invoices@.len() - i,
        {
            proof {
                let t = self.invoices@.take(i + 1);
                assert(t.drop_last() =~= self.invoices@.take(i as int));
                assert(t.last() == self.invoices@[i as int]);
                lemma_max_invoice_id_prefix(self.invoices@, i + 1);
            }
            if self.invoices[i].id > max {
                max = self.invoices[i].id;
            }
            i = i + 1;
        }
        proof {
            assert(self.invoices@.take(i as int) =~= self.invoices@);
        }
        max + 1
    }

    /// Persists an invoice under the next number, together with its items,
    /// each item keyed to that invoice.  Nothing else changes.
    pub fn commit_invoice(&mut self, header: InvoiceRow, items: Vec<ItemRow>)
        requires
            old(self).wf(),
            header.id as int == old(self).spec_next_invoice_number(),
            old(self).spec_next_invoice_number() <= u64::MAX,
        ensures
            final(self).wf(),
            final(self).invoices@ == old(self).invoices@.push(header),
            final(self).items@ == old(self).items@ + items@.map_values(
                |it: ItemRow| spec_with_invoice_id(it, header.id),
            ),
            final(self).companies@ == old(self).companies@,
            final(self).clients@ == old(self).clients@,
            final(self).links@ == old(self).links@,
            final(self).spec_next_invoice_number() == old(self).spec_next_invoice_number() + 1,
    {
        proof {
            lemma_max_invoice_id_ge_all(old(self).invoices@);
        }
        let id = header.id;
        self.invoices.push(header);
        proof {
            assert(self.invoices@.drop_last() =~= old(self).invoices@);
        }
        let mut items = items;
        let ghost given = items@;
        let mut k: usize = 0;
        while k < items.len()
            invariant
                0 <= k <= items@.len(),
                items@.len() == given.len(),
                forall|j: int| k <= j < given.len() ==> items@[j] == given[j],
                self.items@ == old(self).items@ + given.take(k as int).map_values(
                    |it: ItemRow| spec_with_invoice_id(it, id),
                ),
                self.invoices@ == old(self).invoices@.push(header),
                self.companies@ == old(self).companies@,
                self.clients@ == old(self).clients@,
                self.links@ == old(self).links@,
            decreases items@.len() - k,
        {
            let row = ItemRow {
                invoice_id: id,
                description: items[k].description.clone(),
                quantity: items[k].quantity,
                price_cents: items[k].price_cents,
                total_cents: items[k].total_cents,
            };
            assert(row == spec_with_invoice_id(given[k as int], id));
            self.items.push(row);
            proof {
                let f = |it: ItemRow| spec_with_invoice_id(it, id);
                assert(given.take(k + 1).drop_last() =~= given.take(k as int));
                assert(given.take(k + 1).map_values(f).drop_last() =~= given.take(
                    k as int,
                ).map_values(f));
                assert(given.take(k + 1).map_values(f).last() == f(given[k as int]));
                assert(self.items@ =~= old(self).items@ + given.take(k + 1).map_values(f));
            }
            k = k + 1;
        }
        proof {
            assert(given.take(k as int) =~= given);
        }
    }

    /// The first invoice with identity `id`, if any; under `wf` it is the
    /// only one.
    pub fn find_invoice(&self, id: u64) -> (r: Option<&InvoiceRow>)
        ensures
            match r {
                Some(inv) => spec_find_invoice(self.invoices@, id) == Some(*inv),
                None => spec_find_invoice(self.invoices@, id) is None,
            },
    {
        let mut i: usize = 0;
        proof {
            assert(self.invoices@.skip(0) =~= self.invoices@);
        }
        while i < self.invoices.len()
            invariant
                0 <= i <= self.invoices@.len(),
                spec_find_invoice(self.invoices@, id) == spec_find_invoice(
                    self.invoices@.skip(i as int),
                    id,
                ),
            decreases self.invoices@.len() - i,
        {
            proof {
                assert(self.invoices@.skip(i as int)[0] == self.invoices@[i as int]);
                assert(self.invoices@.skip(i as int).skip(1) =~= self.invoices@.skip(i + 1));
            }
            if self.invoices[i].id == id {
                return Some(&self.invoices[i]);
            }
            i = i + 1;
        }
        proof {
            assert(self.invoices@.skip(i as int).len() == 0);
        }
        None
    }

    /// Every item row keyed to invoice `id`, in store order.
    pub fn items_of_invoice(&self, id: u64) -> (r: Vec<ItemRow>)
        ensures
            r@ == spec_items_of(self.items@, id),
    {
        let mut out: Vec<ItemRow> = Vec::new();
        let mut i: usize = 0;
        while i < self.items.len()
            invariant
                0 <= i <= self.items@.len(),
                out@ == spec_items_of(self.items@.take(i as int), id),
            decreases self.items@.len() - i,
        {
            proof {
                let t = self.items@.take(i + 1);
                assert(t.drop_last() =~= self.items@.take(i as int));
                assert(t.last() == self.items@[i as int]);
            }
            if self.items[i].invoice_id == id {
                out.push(duplicate_item(&self.items[i]));
            }
            i = i + 1;
        }
        proof {
            assert(self.items@.take(i as int) =~= self.items@);
        }
        out
    }

    /// Every invoice whose identity is `id` (at most one under `wf`).
    pub fn invoices_with_id(&self, id: u64) -> (r: Vec<InvoiceRow>)
        ensures
            r@ == spec_invoices_by_id(self.invoices@, id),
    {
        let mut out: Vec<InvoiceRow> = Vec::new();
        let mut i: usize = 0;
        while i < self.invoices.len()
            invariant
                0 <= i <= self.invoices@.len(),
                out@ == spec_invoices_by_id(self.invoices@.take(i as int), id),
            decreases self.invoices@.len() - i,
        {
            proof {
                let t = self.invoices@.take(i + 1);
                assert(t.drop_last() =~= self.invoices@.take(i as int));
                assert(t.last() == self.invoices@[i as int]);
            }
            if self.invoices[i].id == id {
                out.push(duplicate_invoice(&self.invoices[i]));
            }
            i = i + 1;
        }
        proof {
            assert(self.invoices@.take(i as int) =~= self.invoices@);
        }
        out
    }

    /// Every invoice whose client name equals `name` exactly.
    pub fn invoices_with_client(&self, name: &str) -> (r: Vec<InvoiceRow>)
        ensures
            r@ == spec_invoices_by_client(self.invoices@, name@),
    {
        let mut out: Vec<InvoiceRow> = Vec::new();
        let mut i: usize = 0;
        while i < self.invoices.len()
            invariant
                0 <= i <= self.invoices@.len(),
                out@ == spec_invoices_by_client(self.invoices@.take(i as int), name@),
            decreases self.invoices@.len() - i,
        {
            proof {
                let t = self.invoices@.take(i + 1);
                assert(t.drop_last() =~= self.invoices@.take(i as int));
                assert(t.last() == self.invoices@[i as int]);
            }
            if crate::items::str_eq(self.invoices[i].client_name.as_str(), name) {
                out.push(duplicate_invoice(&self.invoices[i]));
            }
            i = i + 1;
        }
        proof {
            assert(self.invoices@.take(i as int) =~= self.invoices@);
        }
        out
    }
}

/// The largest company id, 0 with no companies.
pub open spec fn spec_max_company_id(cs: Seq<CompanyRow>) -> int
    decreases cs.len(),
{
    if cs.len() == 0 {
        0
    } else {
        let rest = spec_max_company_id(cs.drop_last());
        if cs.last().id > rest {
            cs.last().id as int
        } else {
            rest
        }
    }
}

/// The largest client id, 0 with no clients.
pub open spec fn spec_max_client_id(cs: Seq<ClientRow>) -> int
    decreases cs.len(),
{
    if cs.len() == 0 {
        0
    } else {
        let rest = spec_max_client_id(cs.drop_last());
        if cs.last().id > rest {
            cs.last().id as int
        } else {
            rest
        }
    }
}

/// The maximum bounds every company id.
proof fn lemma_max_company_id_ge_all(cs: Seq<CompanyRow>)
    ensures
        forall|i: int| 0 <= i < cs.len() ==> cs[i].id <= spec_max_company_id(cs),
    decreases cs.len(),
{
    if cs.len() > 0 {
        lemma_max_company_id_ge_all(cs.drop_last());
        assert(cs.last() == cs[cs.len() - 1]);
        assert forall|i: int| 0 <= i < cs.len() implies cs[i].id <= spec_max_company_id(cs) by {
            if i < cs.len() - 1 {
                assert(cs.drop_last()[i] == cs[i]);
                assert(cs.drop_last()[i].id <= spec_max_company_id(cs.drop_last()));
            }
        }
    }
}

/// The maximum bounds every client id.
proof fn lemma_max_client_id_ge_all(cs: Seq<ClientRow>)
    ensures
        forall|i: int| 0 <= i < cs.len() ==> cs[i].id <= spec_max_client_id(cs),
    decreases cs.len(),
{
    if cs.len() > 0 {
        lemma_max_client_id_ge_all(cs.drop_last());
        assert(cs.last() == cs[cs.len() - 1]);
        assert forall|i: int| 0 <= i < cs.len() implies cs[i].id <= spec_max_client_id(cs) by {
            if i < cs.len() - 1 {
                assert(cs.drop_last()[i] == cs[i]);
                assert(cs.drop_last()[i].id <= spec_max_client_id(cs.drop_last()));
            }
        }
    }
}

impl Store {
    /// Stores a new company under the next free company id and hands the id
    /// back.
    pub fn create_company(
        &mut self,
        name: String,
        address: Option<String>,
        email: Option<String>,
        phone: Option<String>,
    ) -> (r: u64)
        requires
            old(self).wf(),
            spec_max_company_id(old(self).companies@) < u64::MAX,
        ensures
            final(self).wf(),
            r as int == spec_max_company_id(old(self).companies@) + 1,
            final(self).companies@ == old(self).companies@.push(
                CompanyRow { id: r, name, address, email, phone },
            ),
            final(self).clients@ == old(self).clients@,
            final(self).links@ == old(self).links@,
            final(self).invoices@ == old(self).invoices@,
            final(self).items@ == old(self).items@,
    {
        let mut max: u64 = 0;
        let mut i: usize = 0;
        while i < self.companies.len()
            invariant
                0 <= i <= self.companies@.len(),
                max as int == spec_max_company_id(self.companies@.take(i as int)),
                spec_max_company_id(self.companies@) < u64::MAX,
            decreases self.companies@.len() - i,
        {
            proof {
                let t = self.companies@.take(i + 1);
                assert(t.drop_last() =~= self.companies@.take(i as int));
                assert(t.last() == self.companies@[i as int]);
                lemma_max_company_id_prefix(self.companies@, i + 1);
            }
            if self.companies[i].id > max {
                max = self.companies[i].id;
            }
            i = i + 1;
        }
        proof {
            assert(self.companies@.take(i as int) =~= self.companies@);
            lemma_max_company_id_ge_all(self.companies@);
        }
        let id = max + 1;
        self.companies.push(CompanyRow { id, name, address, email, phone });
        id
    }

    /// Stores a new client under the next free client id and hands the id
    /// back.
    pub fn create_client(
        &mut self,
        name: String,
        address: Option<String>,
        email: Option<String>,
        phone: Option<String>,
    ) -> (r: u64)
        requires
            old(self).wf(),
            spec_max_client_id(old(self).clients@) < u64::MAX,
        ensures
            final(self).wf(),
            r as int == spec_max_client_id(old(self).clients@) + 1,
            final(self).clients@ == old(self).clients@.push(
                ClientRow { id: r, name, address, email, phone },
            ),
            final(self).companies@ == old(self).companies@,
            final(self).links@ == old(self).links@,
            final(self).invoices@ == old(self).invoices@,
            final(self).items@ == old(self).items@,
    {
        let mut max: u64 = 0;
        let mut i: usize = 0;
        while i < self.clients.len()
            invariant
                0 <= i <= self.clients@.len(),
                max as int == spec_max_client_id(self.clients@.take(i as int)),
                spec_max_client_id(self.clients@) < u64::MAX,
            decreases self.clients@.len() - i,
        {
            proof {
                let t = self.clients@.take(i + 1);
                assert(t.drop_last() =~= self.clients@.take(i as int));
                assert(t.last() == self.clients@[i as int]);
                lemma_max_client_id_prefix(self.clients@, i + 1);
            }
            if self.clients[i].id > max {
                max = self.clients[i].id;
            }
            i = i + 1;
        }
        proof {
            assert(self.clients@.take(i as int) =~= self.clients@);
            lemma_max_client_id_ge_all(self.clients@);
        }
        let id = max + 1;
        self.clients.push(ClientRow { id, name, address, email, phone });
        id
    }

    /// Records a company-client association.
    pub fn create_link(&mut self, company_id: u64, client_id: u64)
        requires
            old(self).wf(),
        ensures
            final(self).wf(),
            final(self).links@ == old(self).links@.push(LinkRow { company_id, client_id }),
            final(self).companies@ == old(self).companies@,
            final(self).clients@ == old(self).clients@,
            final(self).invoices@ == old(self).invoices@,
            final(self).items@ == old(self).items@,
    {
        self.links.push(LinkRow { company_id, client_id });
    }
}

/// A prefix never has a larger company maximum.
proof fn lemma_max_company_id_prefix(cs: Seq<CompanyRow>, i: int)
    requires
        0 <= i <= cs.len(),
    ensures
        spec_max_company_id(cs.take(i)) <= spec_max_company_id(cs),
    decreases cs.len() - i,
{
    if i < cs.len() {
        lemma_max_company_id_prefix(cs, i + 1);
        let t = cs.take(i + 1);
        assert(t.drop_last() =~= cs.take(i));
        assert(t.last() == cs[i]);
    } else {
        assert(cs.take(i) =~= cs);
    }
}

/// A prefix never has a larger client maximum.
proof fn lemma_max_client_id_prefix(cs: Seq<ClientRow>, i: int)
    requires
        0 <= i <= cs.len(),
    ensures
        spec_max_client_id(cs.take(i)) <= spec_max_client_id(cs),
    decreases cs.len() - i,
{
    if i < cs.len() {
        lemma_max_client_id_prefix(cs, i + 1);
        let t = cs.take(i + 1);
        assert(t.drop_last() =~= cs.take(i));
        assert(t.last() == cs[i]);
    } else {
        assert(cs.take(i) =~= cs);
    }
}

/// `it` rekeyed to invoice `id`.
pub open spec fn spec_with_invoice_id(it: ItemRow, id: u64) -> ItemRow {
    ItemRow {
        invoice_id: id,
        description: it.description,
        quantity: it.quantity,
        price_cents: it.price_cents,
        total_cents: it.total_cents,
    }
}

/// The first invoice with identity `id`.
pub open spec fn spec_find_invoice(invs: Seq<InvoiceRow>, id: u64) -> Option<InvoiceRow>
    decreases invs.len(),
{
    if invs.len() == 0 {
        None
    } else if invs[0].id == id {
        Some(invs[0])
    } else {
        spec_find_invoice(invs.skip(1), id)
    }
}

/// The item rows keyed to invoice `id`, in store order.
pub open spec fn spec_items_of(items: Seq<ItemRow>, id: u64) -> Seq<ItemRow>
    decreases items.len(),
{
    if items.len() == 0 {
        Seq::empty()
    } else {
        spec_items_of(items.drop_last(), id) + if items.last().invoice_id == id {
            seq![items.last()]
        } else {
            Seq::empty()
        }
    }
}

/// The invoices with identity `id`, in store order.
pub open spec fn spec_invoices_by_id(invs: Seq<InvoiceRow>, id: u64) -> Seq<InvoiceRow>
    decreases invs.len(),
{
    if invs.len() == 0 {
        Seq::empty()
    } else {
        spec_invoices_by_id(invs.drop_last(), id) + if invs.last().id == id {
            seq![invs.last()]
        } else {
            Seq::empty()
        }
    }
}

/// The invoices whose client name is exactly `name`, in store order.
pub open spec fn spec_invoices_by_client(invs: Seq<InvoiceRow>, name: Seq<char>) -> Seq<InvoiceRow>
    decreases invs.len(),
{
    if invs.len() == 0 {
        Seq::empty()
    } else {
        spec_invoices_by_client(invs.drop_last(), name) + if invs.last().client_name@ == name {
            seq![invs.last()]
        } else {
            Seq::empty()
        }
    }
}

/// A prefix never has a larger maximum.
pub proof fn lemma_max_invoice_id_prefix(invs: Seq<InvoiceRow>, i: int)
    requires
        0 <= i <= invs.len(),
    ensures
        spec_max_invoice_id(invs.take(i)) <= spec_max_invoice_id(invs),
    decreases invs.len() - i,
{
    if i < invs.len() {
        lemma_max_invoice_id_prefix(invs, i + 1);
        let t = invs.take(i + 1);
        assert(t.drop_last() =~= invs.take(i));
        assert(t.last() == invs[i]);
    } else {
        assert(invs.take(i) =~= invs);
    }
}

/// The maximum bounds every id in the table.
pub proof fn lemma_max_invoice_id_ge_all(invs: Seq<InvoiceRow>)
    ensures
        forall|i: int| 0 <= i < invs.len() ==> invs[i].id <= spec_max_invoice_id(invs),
    decreases invs.len(),
{
    if invs.len() > 0 {
        lemma_max_invoice_id_ge_all(invs.drop_last());
        assert(invs.last() == invs[invs.len() - 1]);
        assert forall|i: int| 0 <= i < invs.len() implies invs[i].id <= spec_max_invoice_id(
            invs,
        ) by {
            if i < invs.len() - 1 {
                assert(invs.drop_last()[i] == invs[i]);
                assert(invs.drop_last()[i].id <= spec_max_invoice_id(invs.drop_last()));
            }
        }
    }
}

/// Copies an item row.
pub fn duplicate_item(it: &ItemRow) -> (r: ItemRow)
    ensures
        r == *it,
{
    ItemRow {
        invoice_id: it.invoice_id,
        description: it.description.clone(),
        quantity: it.quantity,
        price_cents: it.price_cents,
        total_cents: it.total_cents,
    }
}

/// Copies an optional text.
pub fn duplicate_opt(o: &Option<String>) -> (r: Option<String>)
    ensures
        r == *o,
{
    match o {
        Some(s) => Some(s.clone()),
        None => None,
    }
}

/// Copies a client row.
pub fn duplicate_client(c: &ClientRow) -> (r: ClientRow)
    ensures
        r == *c,
{
    ClientRow {
        id: c.id,
        name: c.name.clone(),
        address: duplicate_opt(&c.address),
        email: duplicate_opt(&c.email),
        phone: duplicate_opt(&c.phone),
    }
}

/// Copies a company row.
pub fn duplicate_company(c: &CompanyRow) -> (r: CompanyRow)
    ensures
        r == *c,
{
    CompanyRow {
        id: c.id,
        name: c.name.clone(),
        address: duplicate_opt(&c.address),
        email: duplicate_opt(&c.email),
        phone: duplicate_opt(&c.phone),
    }
}

/// Copies an invoice row.
pub fn duplicate_invoice(inv: &InvoiceRow) -> (r: InvoiceRow)
    ensures
        r == *inv,
{
    InvoiceRow {
        id: inv.id,
        company_name: inv.company_name.clone(),
        company_address: duplicate_opt(&inv.company_address),
        company_email: duplicate_opt(&inv.company_email),
        company_phone: duplicate_opt(&inv.company_phone),
        client_name: inv.client_name.clone(),
        client_address: duplicate_opt(&inv.client_address),
        client_email: duplicate_opt(&inv.client_email),
        client_phone: duplicate_opt(&inv.client_phone),
        date: inv.date.clone(),
        total_cents: inv.total_cents,
        tax_cents: inv.tax_cents,
        notes: duplicate_opt(&inv.notes),
        regenerated: inv.regenerated,
    }
}

/// The next invoice number starts at 1 on an empty store, and right after an
/// invoice is persisted under the next number `n`, the next number is
/// `n + 1`.
pub proof fn lemma_invoice_numbering(pre: Seq<InvoiceRow>, inv: InvoiceRow)
    requires
        inv.id as int == spec_max_invoice_id(pre) + 1,
    ensures
        spec_max_invoice_id(Seq::<InvoiceRow>::empty()) + 1 == 1,
        spec_max_invoice_id(pre.push(inv)) + 1 == inv.id + 1,
{
    assert(pre.push(inv).drop_last() =~= pre);
    assert(pre.push(inv).last() == inv);
}

} // verus!
