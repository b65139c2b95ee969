//! Searching the store.  Client searches join clients with their companies
//! through the association table, keep the rows whose chosen field holds the
//! search text (case-sensitive), order them by client name ascending, and
//! group them by client, first-seen order kept, collecting every associated
//! company name.
use vstd::prelude::*;

use crate::store::{ClientRow, CompanyRow, LinkRow, Store};

verus! {

/// Which client field a search looks at.
#[derive(Clone, Copy)]
pub enum ClientSearchField {
    Name,
    Address,
    Company,
}

/// Which company field a search looks at.
#[derive(Clone, Copy)]
pub enum CompanySearchField {
    Name,
    Address,
}

/// Whether `needle` occurs in `hay` as a contiguous run, case-sensitively.
pub open spec fn spec_contains_sub(hay: Seq<char>, needle: Seq<char>) -> bool {
    exists|i: int|
        0 <= i <= hay.len() - needle.len() && #[trigger] hay.subrange(i, i + needle.len())
            == needle
}

/// Whether `hay[i..]` starts with `needle`.
fn matches_at(hay: &str, needle: &str, i: usize) -> (r: bool)
    requires
        hay@.len() <= usize::MAX,
        i + needle@.len() <= hay@.len(),
    ensures
        r == (hay@.subrange(i as int, i as int + needle@.len()) == needle@),
{
    let n = needle.unicode_len();
    let mut j: usize = 0;
    while j < n
        invariant
            0 <= j <= n == needle@.len(),
            i + n <= hay@.len() <= usize::MAX,
            forall|t: int| 0 <= t < j ==> hay@[i + t] == needle@[t],
        decreases n - j,
    {
        if hay.get_char(i + j) != needle.get_char(j) {
            proof {
                assert(hay@.subrange(i as int, i as int + needle@.len())[j as int] == hay@[i + j]);
            }
            return false;
        }
        j = j + 1;
    }
    proof {
        assert(hay@.subrange(i as int, i as int + needle@.len()) =~= needle@);
    }
    true
}

/// Whether `needle` occurs anywhere in `hay`.
pub fn contains_sub(hay: &str, needle: &str) -> (r: bool)
    ensures
        r == spec_contains_sub(hay@, needle@),
{
    let h = hay.unicode_len();
    let n = needle.unicode_len();
    if n > h {
        return false;
    }
    let mut i: usize = 0;
    loop
        invariant
            n <= h == hay@.len(),
            n == needle@.len(),
            0 <= i <= h - n,
            forall|k: int| 0 <= k < i ==> #[trigger] hay@.subrange(k, k + needle@.len())
                != needle@,
        decreases h - n - i,
    {
        if matches_at(hay, needle, i) {
            return true;
        }
        if i == h - n {
            return false;
        }
        i = i + 1;
    }
}

/// Whether a joined row answers the search.  An absent address never
/// matches.
pub open spec fn spec_row_matches(
    row: (ClientRow, CompanyRow),
    field: ClientSearchField,
    needle: Seq<char>,
) -> bool {
    match field {
        ClientSearchField::Name => spec_contains_sub(row.0.name@, needle),
        ClientSearchField::Address => match row.0.address {
            Some(a) => spec_contains_sub(a@, needle),
            None => false,
        },
        ClientSearchField::Company => spec_contains_sub(row.1.name@, needle),
    }
}

/// The first client with identity `id`.
pub open spec fn spec_find_client(clients: Seq<ClientRow>, id: u64) -> Option<ClientRow>
    decreases clients.len(),
{
    if clients.len() == 0 {
        None
    } else if clients[0].id == id {
        Some(clients[0])
    } else {
        spec_find_client(clients.skip(1), id)
    }
}

/// The first company with identity `id`.
pub open spec fn spec_find_company(companies: Seq<CompanyRow>, id: u64) -> Option<CompanyRow>
    decreases companies.len(),
{
    if companies.len() == 0 {
        None
    } else if companies[0].id == id {
        Some(companies[0])
    } else {
        spec_find_company(companies.skip(1), id)
    }
}

/// The inner join of the association table with both sides, in association
/// order; an association whose sides are missing yields no row.
pub open spec fn spec_join(
    links: Seq<LinkRow>,
    clients: Seq<ClientRow>,
    companies: Seq<CompanyRow>,
) -> Seq<(ClientRow, CompanyRow)>
    decreases links.len(),
{
    if links.len() == 0 {
        Seq::empty()
    } else {
        spec_join(links.drop_last(), clients, companies) + match (
            spec_find_client(clients, links.last().client_id),
            spec_find_company(companies, links.last().company_id),
        ) {
            (Some(cl), Some(co)) => seq![(cl, co)],
            _ => Seq::empty(),
        }
    }
}

/// The rows that answer the search, join order kept.
pub open spec fn spec_filter_rows(
    rows: Seq<(ClientRow, CompanyRow)>,
    field: ClientSearchField,
    needle: Seq<char>,
) -> Seq<(ClientRow, CompanyRow)>
    decreases rows.len(),
{
    if rows.len() == 0 {
        Seq::empty()
    } else {
        spec_filter_rows(rows.drop_last(), field, needle) + if spec_row_matches(
            rows.last(),
            field,
            needle,
        ) {
            seq![rows.last()]
        } else {
            Seq::empty()
        }
    }
}

/// Text order by character value, shorter prefixes first.
pub open spec fn spec_lex_le(a: Seq<char>, b: Seq<char>) -> bool
    decreases a.len(),
{
    if a.len() == 0 {
        true
    } else if b.len() == 0 {
        false
    } else if (a[0] as u32) < (b[0] as u32) {
        true
    } else if (a[0] as u32) > (b[0] as u32) {
        false
    } else {
        spec_lex_le(a.skip(1), b.skip(1))
    }
}

/// Stable insertion of `x` into `s` by client name: `x` goes after every row
/// whose name is at or under its own.
pub open spec fn spec_insert_sorted(
    s: Seq<(ClientRow, CompanyRow)>,
    x: (ClientRow, CompanyRow),
) -> Seq<(ClientRow, CompanyRow)>
    decreases s.len(),
{
    if s.len() == 0 {
        seq![x]
    } else if spec_lex_le(s.last().0.name@, x.0.name@) {
        s.push(x)
    } else {
        spec_insert_sorted(s.drop_last(), x).push(s.last())
    }
}

/// Stable sort of the rows by client name ascending.
pub open spec fn spec_sort_rows(rows: Seq<(ClientRow, CompanyRow)>) -> Seq<(ClientRow, CompanyRow)>
    decreases rows.len(),
{
    if rows.len() == 0 {
        Seq::empty()
    } else {
        spec_insert_sorted(spec_sort_rows(rows.drop_last()), rows.last())
    }
}

/// Either order holds between any two texts.
pub proof fn lemma_lex_le_total(a: Seq<char>, b: Seq<char>)
    ensures
        spec_lex_le(a, b) || spec_lex_le(b, a),
    decreases a.len(),
{
    if a.len() > 0 && b.len() > 0 && (a[0] as u32) == (b[0] as u32) {
        lemma_lex_le_total(a.skip(1), b.skip(1));
    }
}

/// The text order carries over a middle text.
pub proof fn lemma_lex_le_trans(a: Seq<char>, b: Seq<char>, c: Seq<char>)
    requires
        spec_lex_le(a, b),
        spec_lex_le(b, c),
    ensures
        spec_lex_le(a, c),
    decreases a.len(),
{
    if a.len() > 0 {
        if (a[0] as u32) == (b[0] as u32) && (b[0] as u32) == (c[0] as u32) {
            lemma_lex_le_trans(a.skip(1), b.skip(1), c.skip(1));
        }
    }
}

/// Whether the rows stand in ascending client-name order.
pub open spec fn spec_rows_sorted(s: Seq<(ClientRow, CompanyRow)>) -> bool {
    forall|a: int, b: int|
        0 <= a < b < s.len() ==> spec_lex_le(#[trigger] s[a].0.name@, #[trigger] s[b].0.name@)
}

/// Insertion hands back the old rows and the new one, nothing else.
proof fn lemma_insert_sorted_membership(s: Seq<(ClientRow, CompanyRow)>, x: (ClientRow, CompanyRow))
    ensures
        forall|i: int|
            0 <= i < spec_insert_sorted(s, x).len() ==> #[trigger] spec_insert_sorted(s, x)[i] == x
                || exists|j: int| 0 <= j < s.len() && spec_insert_sorted(s, x)[i] == #[trigger] s[j],
    decreases s.len(),
{
    let r = spec_insert_sorted(s, x);
    if s.len() == 0 {
    } else if spec_lex_le(s.last().0.name@, x.0.name@) {
        assert forall|i: int| 0 <= i < r.len() implies r[i] == x || exists|j: int|
            0 <= j < s.len() && r[i] == #[trigger] s[j] by {
            if i < s.len() {
                assert(r[i] == s[i]);
            }
        }
    } else {
        let d = s.drop_last();
        lemma_insert_sorted_membership(d, x);
        let rd = spec_insert_sorted(d, x);
        assert forall|i: int| 0 <= i < r.len() implies r[i] == x || exists|j: int|
            0 <= j < s.len() && r[i] == #[trigger] s[j] by {
            if i < rd.len() {
                assert(r[i] == rd[i]);
                if rd[i] != x {
                    let j = choose|j: int| 0 <= j < d.len() && rd[i] == d[j];
                    assert(rd[i] == s[j]);
                }
            } else {
                assert(r[i] == s[s.len() - 1]);
            }
        }
    }
}

/// Insertion keeps the rows in ascending name order.
proof fn lemma_insert_sorted_keeps(s: Seq<(ClientRow, CompanyRow)>, x: (ClientRow, CompanyRow))
    requires
        spec_rows_sorted(s),
    ensures
        spec_rows_sorted(spec_insert_sorted(s, x)),
    decreases s.len(),
{
    let r = spec_insert_sorted(s, x);
    if s.len() == 0 {
    } else if spec_lex_le(s.last().0.name@, x.0.name@) {
        assert forall|a: int, b: int|
            0 <= a < b < r.len() implies spec_lex_le(
            #[trigger] r[a].0.name@,
            #[trigger] r[b].0.name@,
        ) by {
            if b < s.len() {
                assert(r[a] == s[a] && r[b] == s[b]);
            } else {
                assert(r[a] == s[a] && r[b] == x);
                if a < s.len() - 1 {
                    assert(spec_lex_le(s[a].0.name@, s[s.len() - 1].0.name@));
                    lemma_lex_le_trans(s[a].0.name@, s.last().0.name@, x.0.name@);
                }
            }
        }
    } else {
        let d = s.drop_last();
        assert(spec_rows_sorted(d)) by {
            assert(forall|a: int, b: int|
                0 <= a < b < d.len() ==> #[trigger] d[a] == s[a] && #[trigger] d[b] == s[b]);
        }
        lemma_insert_sorted_keeps(d, x);
        lemma_insert_sorted_membership(d, x);
        let rd = spec_insert_sorted(d, x);
        lemma_lex_le_total(s.last().0.name@, x.0.name@);
        assert forall|a: int, b: int|
            0 <= a < b < r.len() implies spec_lex_le(
            #[trigger] r[a].0.name@,
            #[trigger] r[b].0.name@,
        ) by {
            if b < rd.len() {
                assert(r[a] == rd[a] && r[b] == rd[b]);
            } else {
                assert(r[b] == s.last());
                assert(r[a] == rd[a]);
                if rd[a] == x {
                    assert(spec_lex_le(x.0.name@, s.last().0.name@));
                } else {
                    let j = choose|j: int| 0 <= j < d.len() && rd[a] == d[j];
                    assert(d[j] == s[j]);
                    assert(spec_lex_le(s[j].0.name@, s[s.len() - 1].0.name@));
                }
            }
        }
    }
}

/// The rows a client search ranks stand in ascending client-name order.
pub proof fn lemma_sort_rows_sorted(rows: Seq<(ClientRow, CompanyRow)>)
    ensures
        spec_rows_sorted(spec_sort_rows(rows)),
    decreases rows.len(),
{
    if rows.len() > 0 {
        lemma_sort_rows_sorted(rows.drop_last());
        lemma_insert_sorted_keeps(spec_sort_rows(rows.drop_last()), rows.last());
    }
}

/// The first group held by the client with identity `id`, or -1.
pub open spec fn spec_find_group(gs: Seq<(ClientRow, Seq<Seq<char>>)>, id: u64) -> int
    decreases gs.len(),
{
    if gs.len() == 0 {
        -1
    } else if gs[0].0.id == id {
        0
    } else {
        let r = spec_find_group(gs.skip(1), id);
        if r == -1 {
            -1
        } else {
            1 + r
        }
    }
}

/// Groups the rows by client, first-seen order kept, collecting each row's
/// company name under its client.
pub open spec fn spec_group_rows(rows: Seq<(ClientRow, CompanyRow)>) -> Seq<
    (ClientRow, Seq<Seq<char>>),
>
    decreases rows.len(),
{
    if rows.len() == 0 {
        Seq::empty()
    } else {
        let prev = spec_group_rows(rows.drop_last());
        let gi = spec_find_group(prev, rows.last().0.id);
        if gi >= 0 {
            prev.update(gi, (prev[gi].0, prev[gi].1.push(rows.last().1.name@)))
        } else {
            prev.push((rows.last().0, seq![rows.last().1.name@]))
        }
    }
}

/// What a client search returns: the joined rows that answer it, ordered by
/// client name, grouped by client with every company name collected.
pub open spec fn spec_client_search(s: Store, field: ClientSearchField, needle: Seq<char>) -> Seq<
    (ClientRow, Seq<Seq<char>>),
> {
    spec_group_rows(
        spec_sort_rows(
            spec_filter_rows(spec_join(s.links@, s.clients@, s.companies@), field, needle),
        ),
    )
}

/// One search result: a client and the names of its associated companies.
pub struct ClientGroup {
    pub client: ClientRow,
    pub company_names: Vec<String>,
}

/// The mathematical content of one group.
pub open spec fn spec_group_view(g: ClientGroup) -> (ClientRow, Seq<Seq<char>>) {
    (g.client, g.company_names.deep_view())
}

/// The mathematical content of a result list.
pub open spec fn spec_groups_view(v: Seq<ClientGroup>) -> Seq<(ClientRow, Seq<Seq<char>>)> {
    v.map_values(|g: ClientGroup| spec_group_view(g))
}

/// Finds the first client with identity `id`.
pub fn find_client(clients: &Vec<ClientRow>, id: u64) -> (r: Option<&ClientRow>)
    ensures
        match r {
            Some(c) => spec_find_client(clients@, id) == Some(*c),
            None => spec_find_client(clients@, id) is None,
        },
{
    let mut i: usize = 0;
    proof {
        assert(clients@.skip(0) =~= clients@);
    }
    while i < clients.len()
        invariant
            0 <= i <= clients@.len(),
            spec_find_client(clients@, id) == spec_find_client(clients@.skip(i as int), id),
        decreases clients@.len() - i,
    {
        proof {
            assert(clients@.skip(i as int)[0] == clients@[i as int]);
            assert(clients@.skip(i as int).skip(1) =~= clients@.skip(i + 1));
        }
        if clients[i].id == id {
            return Some(&clients[i]);
        }
        i = i + 1;
    }
    None
}

/// Finds the first company with identity `id`.
pub fn find_company(companies: &Vec<CompanyRow>, id: u64) -> (r: Option<&CompanyRow>)
    ensures
        match r {
            Some(c) => spec_find_company(companies@, id) == Some(*c),
            None => spec_find_company(companies@, id) is None,
        },
{
    let mut i: usize = 0;
    proof {
        assert(companies@.skip(0) =~= companies@);
    }
    while i < companies.len()
        invariant
            0 <= i <= companies@.len(),
            spec_find_company(companies@, id) == spec_find_company(companies@.skip(i as int), id),
        decreases companies@.len() - i,
    {
        proof {
            assert(companies@.skip(i as int)[0] == companies@[i as int]);
            assert(companies@.skip(i as int).skip(1) =~= companies@.skip(i + 1));
        }
        if companies[i].id == id {
            return Some(&companies[i]);
        }
        i = i + 1;
    }
    None
}

/// Whether the joined row (`cl`, `co`) answers the search.
fn row_matches(cl: &ClientRow, co: &CompanyRow, field: ClientSearchField, needle: &str) -> (r:
    bool)
    ensures
        r == spec_row_matches((*cl, *co), field, needle@),
{
    match field {
        ClientSearchField::Name => contains_sub(cl.name.as_str(), needle),
        ClientSearchField::Address => match &cl.address {
            Some(a) => contains_sub(a.as_str(), needle),
            None => false,
        },
        ClientSearchField::Company => contains_sub(co.name.as_str(), needle),
    }
}

/// Whether `a` comes at or before `b` in the text order.
pub fn lex_le(a: &str, b: &str) -> (r: bool)
    ensures
        r == spec_lex_le(a@, b@),
{
    let al = a.unicode_len();
    let bl = b.unicode_len();
    let mut i: usize = 0;
    proof {
        assert(a@.skip(0) =~= a@);
        assert(b@.skip(0) =~= b@);
    }
    while i < al && i < bl
        invariant
            0 <= i <= al == a@.len(),
            i <= bl == b@.len(),
            spec_lex_le(a@, b@) == spec_lex_le(a@.skip(i as int), b@.skip(i as int)),
        decreases al - i,
    {
        let ca = a.get_char(i) as u32;
        let cb = b.get_char(i) as u32;
        proof {
            assert(a@.skip(i as int)[0] == a@[i as int]);
            assert(b@.skip(i as int)[0] == b@[i as int]);
            assert(a@.skip(i as int).skip(1) =~= a@.skip(i + 1));
            assert(b@.skip(i as int).skip(1) =~= b@.skip(i + 1));
        }
        if ca < cb {
            return true;
        }
        if ca > cb {
            return false;
        }
        i = i + 1;
    }
    proof {
        if i >= al {
            assert(a@.skip(i as int).len() == 0);
        } else {
            assert(b@.skip(i as int).len() == 0);
            assert(a@.skip(i as int).len() > 0);
        }
    }
    i >= al
}

/// Inserting keeps every row and adds one.
proof fn lemma_insert_sorted_len(s: Seq<(ClientRow, CompanyRow)>, x: (ClientRow, CompanyRow))
    ensures
        spec_insert_sorted(s, x).len() == s.len() + 1,
    decreases s.len(),
{
    if s.len() > 0 && !spec_lex_le(s.last().0.name@, x.0.name@) {
        lemma_insert_sorted_len(s.drop_last(), x);
    }
}

/// Sorting keeps the number of rows.
pub proof fn lemma_sort_rows_len(rows: Seq<(ClientRow, CompanyRow)>)
    ensures
        spec_sort_rows(rows).len() == rows.len(),
    decreases rows.len(),
{
    if rows.len() > 0 {
        lemma_sort_rows_len(rows.drop_last());
        lemma_insert_sorted_len(spec_sort_rows(rows.drop_last()), rows.last());
    }
}

/// Grouping yields a group exactly when there was a row.
pub proof fn lemma_group_rows_len(rows: Seq<(ClientRow, CompanyRow)>)
    ensures
        spec_group_rows(rows).len() == 0 <==> rows.len() == 0,
    decreases rows.len(),
{
    if rows.len() > 0 {
        lemma_group_rows_len(rows.drop_last());
        let prev = spec_group_rows(rows.drop_last());
        let gi = spec_find_group(prev, rows.last().0.id);
        if gi >= 0 {
            lemma_find_group_range(prev, rows.last().0.id);
        }
    }
}

/// A found group index lies inside the list.
proof fn lemma_find_group_range(gs: Seq<(ClientRow, Seq<Seq<char>>)>, id: u64)
    ensures
        spec_find_group(gs, id) == -1 || (0 <= spec_find_group(gs, id) < gs.len()
            && gs[spec_find_group(gs, id)].0.id == id),
    decreases gs.len(),
{
    if gs.len() > 0 && gs[0].0.id != id {
        lemma_find_group_range(gs.skip(1), id);
    }
}

/// Where `x` lands when inserted at position `p` found by scanning from the
/// end over the rows that must stay after it.
proof fn lemma_insert_sorted_at(
    s: Seq<(ClientRow, CompanyRow)>,
    x: (ClientRow, CompanyRow),
    p: int,
)
    requires
        0 <= p <= s.len(),
        forall|k: int| p <= k < s.len() ==> !spec_lex_le(#[trigger] s[k].0.name@, x.0.name@),
        p > 0 ==> spec_lex_le(s[p - 1].0.name@, x.0.name@),
    ensures
        spec_insert_sorted(s, x) =~= s.take(p) + seq![x] + s.skip(p),
    decreases s.len(),
{
    if s.len() == 0 {
        assert(spec_insert_sorted(s, x) =~= seq![x]);
    } else if p == s.len() {
        assert(spec_lex_le(s.last().0.name@, x.0.name@));
        assert(s.take(p) =~= s);
        assert(s.skip(p).len() == 0);
        assert(spec_insert_sorted(s, x) =~= s.push(x));
    } else {
        assert(!spec_lex_le(s[s.len() - 1].0.name@, x.0.name@));
        assert(s.last() == s[s.len() - 1]);
        let d = s.drop_last();
        assert(forall|k: int|
            p <= k < d.len() ==> #[trigger] d[k].0.name@ == s[k].0.name@);
        if p > 0 {
            assert(d[p - 1] == s[p - 1]);
        }
        lemma_insert_sorted_at(d, x, p);
        assert(spec_insert_sorted(s, x) == spec_insert_sorted(d, x).push(s.last()));
        assert(d.take(p) =~= s.take(p));
        assert((d.take(p) + seq![x] + d.skip(p)).push(s.last()) =~= s.take(p) + seq![x] + s.skip(
            p,
        ));
    }
}

/// Inserts `x` into `v`, already sorted by client name, keeping the order
/// stable.
fn insert_position(v: &Vec<(ClientRow, CompanyRow)>, x: &(ClientRow, CompanyRow)) -> (p: usize)
    ensures
        p <= v@.len(),
        forall|k: int| p <= k < v@.len() ==> !spec_lex_le(#[trigger] v@[k].0.name@, x.0.name@),
        p > 0 ==> spec_lex_le(v@[p - 1].0.name@, x.0.name@),
{
    let mut p = v.len();
    loop
        invariant
            0 <= p <= v@.len(),
            forall|k: int| p <= k < v@.len() ==> !spec_lex_le(#[trigger] v@[k].0.name@, x.0.name@),
        decreases p,
    {
        if p == 0 {
            return 0;
        }
        if lex_le(v[p - 1].0.name.as_str(), x.0.name.as_str()) {
            return p;
        }
        p = p - 1;
    }
}

fn insert_sorted(v: &mut Vec<(ClientRow, CompanyRow)>, x: (ClientRow, CompanyRow))
    ensures
        final(v)@ == spec_insert_sorted(old(v)@, x),
{
    let p = insert_position(v, &x);
    proof {
        lemma_insert_sorted_at(v@, x, p as int);
    }
    v.insert(p, x);
    proof {
        assert(v@ =~= old(v)@.take(p as int) + seq![x] + old(v)@.skip(p as int));
    }
}

/// Finds the group of the client with identity `id`.
fn find_group(groups: &Vec<ClientGroup>, id: u64) -> (r: Option<usize>)
    ensures
        match r {
            Some(g) => spec_find_group(spec_groups_view(groups@), id) == g as int && g
                < groups@.len(),
            None => spec_find_group(spec_groups_view(groups@), id) == -1,
        },
{
    let ghost gv = spec_groups_view(groups@);
    let mut i: usize = 0;
    while i < groups.len()
        invariant
            0 <= i <= groups@.len(),
            gv == spec_groups_view(groups@),
            gv.len() == groups@.len(),
            forall|k: int| 0 <= k < i ==> #[trigger] gv[k].0.id != id,
        decreases groups@.len() - i,
    {
        if groups[i].client.id == id {
            proof {
                assert(gv[i as int].0.id == id);
                lemma_find_group_at(gv, id, i as int);
            }
            return Some(i);
        }
        i = i + 1;
    }
    proof {
        lemma_find_group_missing(gv, id);
    }
    None
}

/// The first group with the sought client is found where the scan stops.
proof fn lemma_find_group_at(gs: Seq<(ClientRow, Seq<Seq<char>>)>, id: u64, m: int)
    requires
        0 <= m < gs.len(),
        gs[m].0.id == id,
        forall|k: int| 0 <= k < m ==> #[trigger] gs[k].0.id != id,
    ensures
        spec_find_group(gs, id) == m,
    decreases m,
{
    if m > 0 {
        assert(forall|k: int| 0 <= k < m - 1 ==> gs.skip(1)[k] == gs[k + 1]);
        lemma_find_group_at(gs.skip(1), id, m - 1);
    }
}

/// Without the sought client no group is found.
proof fn lemma_find_group_missing(gs: Seq<(ClientRow, Seq<Seq<char>>)>, id: u64)
    requires
        forall|k: int| 0 <= k < gs.len() ==> #[trigger] gs[k].0.id != id,
    ensures
        spec_find_group(gs, id) == -1,
    decreases gs.len(),
{
    if gs.len() > 0 {
        assert(forall|k: int| 0 <= k < gs.len() - 1 ==> gs.skip(1)[k] == gs[k + 1]);
        lemma_find_group_missing(gs.skip(1), id);
    }
}

/// Searches the clients by one field.  The result holds exactly the joined
/// rows whose field carries the search text, ordered by client name
/// ascending, grouped by client in first-seen order with every associated
/// company name collected; it is empty exactly when no row matches.
pub fn search_clients(store: &Store, field: ClientSearchField, needle: &str) -> (r: Vec<
    ClientGroup,
>)
    ensures
        spec_groups_view(r@) == spec_client_search(*store, field, needle@),
        r@.len() == 0 <==> spec_filter_rows(
            spec_join(store.links@, store.clients@, store.companies@),
            field,
            needle@,
        ).len() == 0,
{
    let ghost all_links = store.links@;
    let mut rows: Vec<(ClientRow, CompanyRow)> = Vec::new();
    let mut i: usize = 0;
    while i < store.links.len()
        invariant
            0 <= i <= all_links.len(),
            all_links == store.links@,
            rows@ == spec_filter_rows(
                spec_join(all_links.take(i as int), store.clients@, store.companies@),
                field,
                needle@,
            ),
        decreases all_links.len() - i,
    {
        proof {
            let t = all_links.take(i + 1);
            assert(t.drop_last() =~= all_links.take(i as int));
            assert(t.last() == all_links[i as int]);
        }
        let cl = find_client(&store.clients, store.links[i].client_id);
        let co = find_company(&store.companies, store.links[i].company_id);
        match (cl, co) {
            (Some(cl), Some(co)) => {
                let ghost j0 = spec_join(all_links.take(i as int), store.clients@, store.companies@);
                proof {
                    assert(spec_join(all_links.take(i + 1), store.clients@, store.companies@)
                        =~= j0.push((*cl, *co)));
                    assert(j0.push((*cl, *co)).drop_last() =~= j0);
                    assert(j0.push((*cl, *co)).last() == (*cl, *co));
                }
                if row_matches(cl, co, field, needle) {
                    rows.push(
                        (crate::store::duplicate_client(cl), crate::store::duplicate_company(co)),
                    );
                    proof {
                        assert(rows@ =~= spec_filter_rows(j0, field, needle@) + seq![(*cl, *co)]);
                    }
                } else {
                    proof {
                        assert(spec_filter_rows(j0.push((*cl, *co)), field, needle@)
                            =~= spec_filter_rows(j0, field, needle@));
                    }
                }
            },
            _ => {
                proof {
                    assert(spec_join(all_links.take(i + 1), store.clients@, store.companies@)
                        =~= spec_join(all_links.take(i as int), store.clients@, store.companies@));
                }
            },
        }
        i = i + 1;
    }
    proof {
        assert(all_links.take(i as int) =~= all_links);
    }
    // Sort by client name, stably.
    let mut sorted: Vec<(ClientRow, CompanyRow)> = Vec::new();
    let mut k: usize = 0;
    proof {
        assert(rows@.take(0) =~= Seq::<(ClientRow, CompanyRow)>::empty());
    }
    while k < rows.len()
        invariant
            0 <= k <= rows@.len(),
            sorted@ == spec_sort_rows(rows@.take(k as int)),
        decreases rows@.len() - k,
    {
        let x = (
            crate::store::duplicate_client(&rows[k].0),
            crate::store::duplicate_company(&rows[k].1),
        );
        proof {
            assert(x == rows@[k as int]);
            let t = rows@.take(k + 1);
            assert(t.drop_last() =~= rows@.take(k as int));
            assert(t.last() == rows@[k as int]);
        }
        insert_sorted(&mut sorted, x);
        k = k + 1;
    }
    proof {
        assert(rows@.take(k as int) =~= rows@);
        lemma_sort_rows_len(rows@);
        lemma_group_rows_len(spec_sort_rows(rows@));
    }
    let ghost ordered = sorted@;

    // Group by client, first-seen order kept.
    let mut groups: Vec<ClientGroup> = Vec::new();
    let mut m: usize = 0;
    proof {
        assert(ordered.take(0) =~= Seq::<(ClientRow, CompanyRow)>::empty());
        assert(spec_groups_view(groups@) =~= spec_group_rows(ordered.take(0)));
    }
    while m < sorted.len()
        invariant
            0 <= m <= ordered.len(),
            sorted@ == ordered,
            spec_groups_view(groups@) == spec_group_rows(ordered.take(m as int)),
        decreases ordered.len() - m,
    {
        let row = (
            crate::store::duplicate_client(&sorted[m].0),
            crate::store::duplicate_company(&sorted[m].1),
        );
        proof {
            assert(row == ordered[m as int]);
            let t = ordered.take(m + 1);
            assert(t.drop_last() =~= ordered.take(m as int));
            assert(t.last() == ordered[m as int]);
        }
        let ghost prev = spec_groups_view(groups@);
        match find_group(&groups, row.0.id) {
            Some(g) => {
                let ghost before = groups@;
                let mut grp = groups.remove(g);
                let ghost names_before = grp.company_names.deep_view();
                grp.company_names.push(row.1.name);
                proof {
                    assert(grp.company_names.deep_view() =~= names_before.push(
                        ordered[m as int].1.name@,
                    ));
                }
                groups.insert(g, grp);
                proof {
                    assert(groups@ =~= before.update(g as int, grp));
                    assert forall|k2: int|
                        0 <= k2 < prev.len() && k2 != g implies spec_group_view(
                        #[trigger] groups@[k2],
                    ) == prev[k2] by {
                        assert(groups@[k2] == before[k2]);
                    }
                    lemma_groups_view_update(groups@, prev, g as int, ordered[m as int].1.name@);
                    assert(spec_groups_view(groups@) =~= spec_group_rows(ordered.take(m + 1)));
                }
            },
            None => {
                let mut names: Vec<String> = Vec::new();
                names.push(row.1.name);
                proof {
                    assert(names.deep_view() =~= seq![ordered[m as int].1.name@]);
                }
                groups.push(ClientGroup { client: row.0, company_names: names });
                proof {
                    assert(spec_groups_view(groups@) =~= spec_group_rows(ordered.take(m + 1)));
                }
            },
        }
        m = m + 1;
    }
    proof {
        assert(ordered.take(m as int) =~= ordered);
    }
    groups
}

/// Removing a group, growing its name list and putting it back is the
/// mathematical update.
proof fn lemma_groups_view_update(
    now: Seq<ClientGroup>,
    prev: Seq<(ClientRow, Seq<Seq<char>>)>,
    g: int,
    name: Seq<char>,
)
    requires
        0 <= g < prev.len(),
        now.len() == prev.len(),
        forall|k: int| 0 <= k < prev.len() && k != g ==> spec_group_view(#[trigger] now[k])
            == prev[k],
        spec_group_view(now[g]).0 == prev[g].0,
        spec_group_view(now[g]).1 == prev[g].1.push(name),
    ensures
        spec_groups_view(now) =~= prev.update(g, (prev[g].0, prev[g].1.push(name))),
{
}

/// The companies whose chosen field carries `needle`, store order kept.
pub open spec fn spec_filter_companies(
    companies: Seq<CompanyRow>,
    field: CompanySearchField,
    needle: Seq<char>,
) -> Seq<CompanyRow>
    decreases companies.len(),
{
    if companies.len() == 0 {
        Seq::empty()
    } else {
        spec_filter_companies(companies.drop_last(), field, needle) + if spec_company_matches(
            companies.last(),
            field,
            needle,
        ) {
            seq![companies.last()]
        } else {
            Seq::empty()
        }
    }
}

/// Whether a company row answers the search; an absent address never
/// matches.
pub open spec fn spec_company_matches(
    c: CompanyRow,
    field: CompanySearchField,
    needle: Seq<char>,
) -> bool {
    match field {
        CompanySearchField::Name => spec_contains_sub(c.name@, needle),
        CompanySearchField::Address => match c.address {
            Some(a) => spec_contains_sub(a@, needle),
            None => false,
        },
    }
}

/// Searches the companies by one field, case-sensitively.
pub fn search_companies(store: &Store, field: CompanySearchField, needle: &str) -> (r: Vec<
    CompanyRow,
>)
    ensures
        r@ == spec_filter_companies(store.companies@, field, needle@),
{
    let mut out: Vec<CompanyRow> = Vec::new();
    let mut i: usize = 0;
    while i < store.companies.len()
        invariant
            0 <= i <= store.companies@.len(),
            out@ == spec_filter_companies(store.companies@.take(i as int), field, needle@),
        decreases store.companies@.len() - i,
    {
        proof {
            let t = store.companies@.take(i + 1);
            assert(t.drop_last() =~= store.companies@.take(i as int));
            assert(t.last() == store.companies@[i as int]);
        }
        let c = &store.companies[i];
        let hit = match field {
            CompanySearchField::Name => contains_sub(c.name.as_str(), needle),
            CompanySearchField::Address => match &c.address {
                Some(a) => contains_sub(a.as_str(), needle),
                None => false,
            },
        };
        if hit {
            out.push(crate::store::duplicate_company(c));
        }
        i = i + 1;
    }
    proof {
        assert(store.companies@.take(i as int) =~= store.companies@);
    }
    out
}

} // verus!
