//! The logic-less template pass.  A template is plain text with `{{name}}`
//! placeholders; a placeholder names one field of the bound record, or asks
//! for the address helper with `{{format_address name}}`.  Rendering fails on
//! an unclosed placeholder or an unknown field.  The address helper splits
//! its text on commas, trims spaces from each segment and joins the segments
//! with a line-break tag.
use vstd::prelude::*;

use crate::items::{spec_skip_spaces, str_eq};
use crate::money::spec_find_char;

verus! {

/// The flat data record a document is rendered from.  Every value is already
/// text; absent source fields are bound as empty text.
pub struct Record {
    pub invoice_number: String,
    pub created_date: String,
    pub client_name: String,
    pub client_address: String,
    pub client_email: String,
    pub client_phone: String,
    pub company_name: String,
    pub company_address: String,
    pub company_email: String,
    pub company_phone: String,
    pub items_html: String,
    pub total: String,
    pub tax: String,
    pub notes: String,
    pub logo_url: String,
}

/// Why rendering failed.
#[derive(Clone, Copy, Debug, PartialEq, Eq, Structural)]
pub enum TemplateError {
    /// A `{{` with no closing `}}`.
    Unclosed,
    /// A placeholder that names no field of the record.
    UnknownField,
}

/// The first occurrence of `c` in `s` lies before its end.
pub proof fn lemma_find_char_range(s: Seq<char>, c: char)
    ensures
        -1 <= spec_find_char(s, c) < s.len(),
    decreases s.len(),
{
    if s.len() > 0 && s[0] != c {
        lemma_find_char_range(s.skip(1), c);
    }
}

/// `s` without trailing spaces.
pub open spec fn spec_trim_end(s: Seq<char>) -> Seq<char>
    decreases s.len(),
{
    if s.len() > 0 && s.last() == ' ' {
        spec_trim_end(s.drop_last())
    } else {
        s
    }
}

/// `s` without leading and trailing spaces.
pub open spec fn spec_trim(s: Seq<char>) -> Seq<char> {
    spec_trim_end(s.skip(spec_skip_spaces(s, 0)))
}

/// The comma-separated segments of `s`, in order; text without a comma is
/// one segment.
pub open spec fn spec_split_commas(s: Seq<char>) -> Seq<Seq<char>>
    decreases s.len(),
    via spec_split_commas_decreases
{
    let i = spec_find_char(s, ',');
    if i == -1 {
        seq![s]
    } else {
        seq![s.take(i)] + spec_split_commas(s.skip(i + 1))
    }
}

#[via_fn]
proof fn spec_split_commas_decreases(s: Seq<char>) {
    lemma_find_char_range(s, ',');
}

/// The segments joined with the line-break tag.
pub open spec fn spec_join_break(parts: Seq<Seq<char>>) -> Seq<char>
    decreases parts.len(),
{
    if parts.len() == 0 {
        Seq::empty()
    } else if parts.len() == 1 {
        parts[0]
    } else {
        parts[0] + seq!['<', 'b', 'r', '/', '>'] + spec_join_break(parts.skip(1))
    }
}

/// The address helper: each comma-separated segment trimmed of spaces, the
/// segments joined with the line-break tag.
pub open spec fn spec_format_address(s: Seq<char>) -> Seq<char> {
    spec_join_break(spec_split_commas(s).map_values(|p: Seq<char>| spec_trim(p)))
}

/// The trimmed span of a segment: scanning from both ends stops exactly at
/// the trim.
proof fn lemma_trim_end_at(t: Seq<char>, m: int)
    requires
        0 <= m <= t.len(),
        forall|k: int| m <= k < t.len() ==> t[k] == ' ',
        m > 0 ==> t[m - 1] != ' ',
    ensures
        spec_trim_end(t) == t.take(m),
    decreases t.len(),
{
    if t.len() > m {
        assert(t.last() == ' ');
        lemma_trim_end_at(t.drop_last(), m);
        assert(t.drop_last().take(m) =~= t.take(m));
    } else {
        assert(t.take(m) =~= t);
    }
}

/// The index of the first non-space character of `s`.
fn scan_spaces(s: &str) -> (a: usize)
    ensures
        a as int == spec_skip_spaces(s@, 0),
        a <= s@.len(),
{
    let n = s.unicode_len();
    let mut a: usize = 0;
    while a < n
        invariant
            0 <= a <= n == s@.len(),
            spec_skip_spaces(s@, 0) == spec_skip_spaces(s@, a as int),
        decreases n - a,
    {
        if s.get_char(a) != ' ' {
            return a;
        }
        a = a + 1;
    }
    a
}

/// The index after the last non-space character at or after `a`.
fn scan_back(s: &str, a: usize) -> (b: usize)
    requires
        a <= s@.len(),
    ensures
        a <= b <= s@.len(),
        forall|k: int| b <= k < s@.len() ==> s@[k] == ' ',
        b > a ==> s@[b - 1] != ' ',
{
    let n = s.unicode_len();
    let mut b: usize = n;
    while b > a
        invariant
            a <= b <= n == s@.len(),
            forall|k: int| b <= k < n ==> s@[k] == ' ',
        decreases b - a,
    {
        if s.get_char(b - 1) != ' ' {
            return b;
        }
        b = b - 1;
    }
    b
}

/// Trims spaces from both ends of `s`.
pub fn trim_spaces(s: &str) -> (r: String)
    ensures
        r@ == spec_trim(s@),
{
    let a = scan_spaces(s);
    let b = scan_back(s, a);
    let r = s.substring_char(a, b).to_owned();
    proof {
        let tail = s@.skip(a as int);
        lemma_trim_end_at(tail, b - a);
        assert(tail.take(b - a) =~= s@.subrange(a as int, b as int));
    }
    r
}

/// The first comma at or after `pos`.
fn find_comma(s: &str, pos: usize) -> (r: Option<usize>)
    requires
        pos <= s@.len(),
    ensures
        match r {
            Some(j) => pos <= j < s@.len() && s@[j as int] == ',' && forall|k: int|
                pos <= k < j ==> s@[k] != ',',
            None => forall|k: int| pos <= k < s@.len() ==> s@[k] != ',',
        },
{
    let n = s.unicode_len();
    let mut j: usize = pos;
    while j < n
        invariant
            pos <= j <= n == s@.len(),
            forall|k: int| pos <= k < j ==> s@[k] != ',',
        decreases n - j,
    {
        if s.get_char(j) == ',' {
            return Some(j);
        }
        j = j + 1;
    }
    None
}

/// Renders an address as a multi-line block: segments split on commas,
/// trimmed, joined with the line-break tag.
pub fn format_address(s: &str) -> (r: String)
    ensures
        r@ == spec_format_address(s@),
{
    let n = s.unicode_len();
    let mut out = String::new();
    let mut pos: usize = 0;
    proof {
        assert(s@.skip(0) =~= s@);
        assert(out@ + spec_format_address(s@) =~= spec_format_address(s@));
    }
    loop
        invariant
            0 <= pos <= n == s@.len(),
            spec_format_address(s@) == out@ + spec_format_address(s@.skip(pos as int)),
        decreases n - pos,
    {
        let ghost suffix = s@.skip(pos as int);
        let next = find_comma(s, pos);
        let (j, found) = match next {
            Some(j) => (j, true),
            None => (n, false),
        };
        proof {
            if found {
                assert(suffix[j - pos] == s@[j as int]);
                assert forall|k: int| 0 <= k < j - pos implies suffix[k] != ',' by {
                    assert(suffix[k] == s@[pos + k]);
                }
                crate::money::lemma_find_char_at(suffix, ',', j - pos);
            } else {
                assert forall|k: int| 0 <= k < suffix.len() implies suffix[k] != ',' by {
                    assert(suffix[k] == s@[pos + k]);
                }
                crate::money::lemma_find_char_none(suffix, ',');
            }
        }
        let seg = trim_spaces(s.substring_char(pos, j));
        proof {
            assert(s@.subrange(pos as int, j as int) =~= suffix.take(j - pos));
        }
        out.append(seg.as_str());
        if !found {
            proof {
                assert(spec_split_commas(suffix) =~= seq![suffix]);
                assert(spec_split_commas(suffix).map_values(|p: Seq<char>| spec_trim(p)) =~= seq![
                    spec_trim(suffix),
                ]);
                assert(suffix.take(j - pos) =~= suffix);
            }
            return out;
        }
        proof {
            reveal_strlit("<br/>");
            let parts = spec_split_commas(suffix).map_values(|p: Seq<char>| spec_trim(p));
            let rest_parts = spec_split_commas(suffix.skip(j - pos + 1)).map_values(
                |p: Seq<char>| spec_trim(p),
            );
            assert(parts =~= seq![spec_trim(suffix.take(j - pos))] + rest_parts);
            assert(rest_parts.len() >= 1) by {
                lemma_split_commas_nonempty(suffix.skip(j - pos + 1));
            }
            assert(parts.skip(1) =~= rest_parts);
            assert(suffix.skip(j - pos + 1) =~= s@.skip(j + 1));
            assert(spec_join_break(parts) == spec_trim(suffix.take(j - pos)) + seq![
                '<',
                'b',
                'r',
                '/',
                '>',
            ] + spec_join_break(rest_parts));
            assert("<br/>"@ =~= seq!['<', 'b', 'r', '/', '>']);
        }
        out.append("<br/>");
        pos = j + 1;
    }
}

/// Splitting yields at least one segment.
proof fn lemma_split_commas_nonempty(s: Seq<char>)
    ensures
        spec_split_commas(s).len() >= 1,
{
    lemma_find_char_range(s, ',');
}

/// The value of the record field called `name`, if there is one.
pub open spec fn spec_field(name: Seq<char>, r: Record) -> Option<Seq<char>> {
    if name == "invoice_number"@ {
        Some(r.invoice_number@)
    } else if name == "created_date"@ {
        Some(r.created_date@)
    } else if name == "client_name"@ {
        Some(r.client_name@)
    } else if name == "client_address"@ {
        Some(r.client_address@)
    } else if name == "client_email"@ {
        Some(r.client_email@)
    } else if name == "client_phone"@ {
        Some(r.client_phone@)
    } else if name == "company_name"@ {
        Some(r.company_name@)
    } else if name == "company_address"@ {
        Some(r.company_address@)
    } else if name == "company_email"@ {
        Some(r.company_email@)
    } else if name == "company_phone"@ {
        Some(r.company_phone@)
    } else if name == "items"@ {
        Some(r.items_html@)
    } else if name == "total"@ {
        Some(r.total@)
    } else if name == "tax"@ {
        Some(r.tax@)
    } else if name == "notes"@ {
        Some(r.notes@)
    } else if name == "logo_url"@ {
        Some(r.logo_url@)
    } else {
        None
    }
}

/// What a placeholder stands for: a field value, or the address helper
/// applied to one.
pub open spec fn spec_eval(name: Seq<char>, r: Record) -> Option<Seq<char>> {
    if name.len() >= 15 && name.take(15) == "format_address "@ {
        match spec_field(name.skip(15), r) {
            Some(v) => Some(spec_format_address(v)),
            None => None,
        }
    } else {
        spec_field(name, r)
    }
}

/// The name inside a placeholder: the characters up to the first `}}`, and
/// how many characters the placeholder body takes, closing braces included.
pub open spec fn spec_take_name(s: Seq<char>) -> Option<(Seq<char>, int)>
    decreases s.len(),
{
    if s.len() < 2 {
        None
    } else if s[0] == '}' && s[1] == '}' {
        Some((Seq::empty(), 2))
    } else {
        match spec_take_name(s.skip(1)) {
            None => None,
            Some(nu) => Some((seq![s[0]] + nu.0, 1 + nu.1)),
        }
    }
}

/// A found name spans at least the closing braces and stays inside the text.
pub proof fn lemma_take_name_range(s: Seq<char>)
    requires
        spec_take_name(s) is Some,
    ensures
        2 <= spec_take_name(s).unwrap().1 <= s.len(),
        spec_take_name(s).unwrap().0.len() == spec_take_name(s).unwrap().1 - 2,
    decreases s.len(),
{
    if !(s.len() < 2) && !(s[0] == '}' && s[1] == '}') {
        lemma_take_name_range(s.skip(1));
    }
}

/// Rendering `t` against `r`: literal text copied, each placeholder replaced
/// by what it stands for; nothing on an unclosed placeholder or an unknown
/// field.
pub open spec fn spec_render(t: Seq<char>, r: Record) -> Option<Seq<char>>
    decreases t.len(),
    via spec_render_decreases
{
    if t.len() == 0 {
        Some(Seq::empty())
    } else if t.len() >= 2 && t[0] == '{' && t[1] == '{' {
        match spec_take_name(t.skip(2)) {
            None => None,
            Some(nu) => match spec_eval(nu.0, r) {
                None => None,
                Some(v) => match spec_render(t.skip(2 + nu.1), r) {
                    None => None,
                    Some(rest) => Some(v + rest),
                },
            },
        }
    } else {
        match spec_render(t.skip(1), r) {
            None => None,
            Some(rest) => Some(seq![t[0]] + rest),
        }
    }
}

#[via_fn]
proof fn spec_render_decreases(t: Seq<char>, r: Record) {
    if t.len() >= 2 && t[0] == '{' && t[1] == '{' {
        if spec_take_name(t.skip(2)) is Some {
            lemma_take_name_range(t.skip(2));
        }
    }
}

/// Where the scan stops is where the specification finds the name.
proof fn lemma_take_name_found(s: Seq<char>, m: int)
    requires
        0 <= m,
        m + 2 <= s.len(),
        s[m] == '}',
        s[m + 1] == '}',
        forall|k: int| 0 <= k < m ==> !(#[trigger] s[k] == '}' && s[k + 1] == '}'),
    ensures
        spec_take_name(s) == Some((s.take(m), m + 2)),
    decreases m,
{
    if m == 0 {
        assert(s.take(0) =~= Seq::<char>::empty());
    } else {
        assert(!(s[0] == '}' && s[1] == '}'));
        lemma_take_name_found(s.skip(1), m - 1);
        assert(seq![s[0]] + s.skip(1).take(m - 1) =~= s.take(m));
    }
}

/// Without adjacent closing braces no name is found.
proof fn lemma_take_name_missing(s: Seq<char>)
    requires
        forall|k: int| 0 <= k < s.len() - 1 ==> !(#[trigger] s[k] == '}' && s[k + 1] == '}'),
    ensures
        spec_take_name(s) is None,
    decreases s.len(),
{
    if s.len() >= 2 {
        lemma_take_name_missing(s.skip(1));
    }
}

/// Looks a field up by name.
fn lookup_field(name: &str, r: &Record) -> (ret: Option<String>)
    ensures
        match ret {
            Some(v) => spec_field(name@, *r) == Some(v@),
            None => spec_field(name@, *r) is None,
        },
{
    if str_eq(name, "invoice_number") {
        Some(r.invoice_number.clone())
    } else if str_eq(name, "created_date") {
        Some(r.created_date.clone())
    } else if str_eq(name, "client_name") {
        Some(r.client_name.clone())
    } else if str_eq(name, "client_address") {
        Some(r.client_address.clone())
    } else if str_eq(name, "client_email") {
        Some(r.client_email.clone())
    } else if str_eq(name, "client_phone") {
        Some(r.client_phone.clone())
    } else if str_eq(name, "company_name") {
        Some(r.company_name.clone())
    } else if str_eq(name, "company_address") {
        Some(r.company_address.clone())
    } else if str_eq(name, "company_email") {
        Some(r.company_email.clone())
    } else if str_eq(name, "company_phone") {
        Some(r.company_phone.clone())
    } else if str_eq(name, "items") {
        Some(r.items_html.clone())
    } else if str_eq(name, "total") {
        Some(r.total.clone())
    } else if str_eq(name, "tax") {
        Some(r.tax.clone())
    } else if str_eq(name, "notes") {
        Some(r.notes.clone())
    } else if str_eq(name, "logo_url") {
        Some(r.logo_url.clone())
    } else {
        None
    }
}

/// Evaluates one placeholder body.
fn eval_placeholder(name: &str, r: &Record) -> (ret: Option<String>)
    ensures
        match ret {
            Some(v) => spec_eval(name@, *r) == Some(v@),
            None => spec_eval(name@, *r) is None,
        },
{
    let ln = name.unicode_len();
    if ln >= 15 {
        let prefix = name.substring_char(0, 15);
        proof {
            assert(name@.subrange(0, 15) =~= name@.take(15));
        }
        if str_eq(prefix, "format_address ") {
            let fieldname = name.substring_char(15, ln);
            proof {
                assert(name@.subrange(15, ln as int) =~= name@.skip(15));
            }
            match lookup_field(fieldname, r) {
                Some(v) => Some(format_address(v.as_str())),
                None => None,
            }
        } else {
            lookup_field(name, r)
        }
    } else {
        lookup_field(name, r)
    }
}

/// What the document's total field shows: rendering the total placeholder
/// yields exactly the record's total text, so a document whose template asks
/// for the total shows the bound amount and nothing else there.
pub proof fn lemma_total_placeholder(r: Record)
    ensures
        spec_render("{{total}}"@, r) == Some(r.total@),
{
    reveal_strlit("{{total}}");
    reveal_strlit("total");
    let t = "{{total}}"@;
    let body = t.skip(2);
    assert(body.len() == 7);
    assert(body[5] == '}' && body[6] == '}');
    assert forall|k: int| 0 <= k < 5 implies !(#[trigger] body[k] == '}' && body[k + 1] == '}') by {
        assert(body[k] == t[2 + k]);
    }
    lemma_take_name_found(body, 5);
    assert(body.take(5) =~= "total"@);
    assert("total"@.len() == 5);
    assert(spec_eval("total"@, r) == spec_field("total"@, r));
    reveal_strlit("invoice_number");
    reveal_strlit("created_date");
    reveal_strlit("client_name");
    reveal_strlit("client_address");
    reveal_strlit("client_email");
    reveal_strlit("client_phone");
    reveal_strlit("company_name");
    reveal_strlit("company_address");
    reveal_strlit("company_email");
    reveal_strlit("company_phone");
    reveal_strlit("items");
    reveal_strlit("notes");
    assert("total"@ != "notes"@) by {
        assert("total"@[0] == 't' && "notes"@[0] == 'n');
    }
    assert("total"@ != "items"@) by {
        assert("total"@[0] == 't' && "items"@[0] == 'i');
    }
    assert(spec_field("total"@, r) == Some(r.total@));
    assert(t.skip(9int) =~= Seq::<char>::empty());
    assert(spec_render(t.skip(9int), r) == Some(Seq::<char>::empty()));
    assert(r.total@ + Seq::<char>::empty() =~= r.total@);
}

/// Finds the first closing brace pair at or after `start`.
fn find_close(template: &str, start: usize) -> (r: Option<usize>)
    requires
        start <= template@.len(),
    ensures
        match r {
            Some(j) => start <= j && j + 1 < template@.len() && template@[j as int] == '}'
                && template@[j + 1] == '}' && forall|k: int|
                start <= k < j ==> !(#[trigger] template@[k] == '}' && template@[k + 1] == '}'),
            None => forall|k: int|
                start <= k < template@.len() - 1 ==> !(#[trigger] template@[k] == '}'
                    && template@[k + 1] == '}'),
        },
{
    let n = template.unicode_len();
    let mut j = start;
    while j < n
        invariant
            start <= j <= n == template@.len(),
            forall|k: int|
                start <= k < j ==> !(#[trigger] template@[k] == '}' && template@[k + 1] == '}'),
        decreases n - j,
    {
        if template.get_char(j) == '}' {
            if j + 1 < n {
                if template.get_char(j + 1) == '}' {
                    return Some(j);
                }
            } else {
                return None;
            }
        }
        j = j + 1;
    }
    None
}

/// Renders the template against the record.  The result is exactly what the
/// rendering specification gives; it fails exactly when a placeholder is
/// unclosed or names no field.
pub fn render(template: &str, r: &Record) -> (ret: Result<String, TemplateError>)
    ensures
        match ret {
            Ok(o) => spec_render(template@, *r) == Some(o@),
            Err(_) => spec_render(template@, *r) is None,
        },
{
    let n = template.unicode_len();
    let mut out = String::new();
    let mut i: usize = 0;
    proof {
        assert(template@.skip(0) =~= template@);
    }
    while i < n
        invariant
            0 <= i <= n == template@.len(),
            match spec_render(template@.skip(i as int), *r) {
                Some(rest) => spec_render(template@, *r) == Some(out@ + rest),
                None => spec_render(template@, *r) is None,
            },
        decreases n - i,
    {
        let ghost here = template@.skip(i as int);
        let c = template.get_char(i);
        proof {
            assert(here[0] == template@[i as int]);
        }
        if c == '{' && i + 1 < n && template.get_char(i + 1) == '{' {
            let ghost body = template@.skip(i + 2);
            proof {
                assert(here[1] == template@[i + 1]);
                assert(here.skip(2) =~= body);
            }
            let j = match find_close(template, i + 2) {
                Some(j) => j,
                None => {
                    proof {
                        assert forall|k: int|
                            0 <= k < body.len() - 1 implies !(#[trigger] body[k] == '}' && body[k
                            + 1] == '}') by {
                            assert(body[k] == template@[i + 2 + k]);
                            assert(body[k + 1] == template@[i + 2 + k + 1]);
                        }
                        lemma_take_name_missing(body);
                    }
                    return Err(TemplateError::Unclosed);
                },
            };
            proof {
                assert(body[j - (i + 2)] == template@[j as int]);
                assert(body[j - (i + 2) + 1] == template@[j + 1]);
                assert forall|k: int|
                    0 <= k < j - (i + 2) implies !(#[trigger] body[k] == '}' && body[k + 1]
                    == '}') by {
                    assert(body[k] == template@[i + 2 + k]);
                    assert(body[k + 1] == template@[i + 2 + k + 1]);
                }
                lemma_take_name_found(body, j - (i + 2));
            }
            let name = template.substring_char(i + 2, j);
            proof {
                assert(name@ =~= body.take(j - (i + 2)));
            }
            let v = match eval_placeholder(name, r) {
                Some(v) => v,
                None => {
                    return Err(TemplateError::UnknownField);
                },
            };
            out.append(v.as_str());
            proof {
                assert(template@.skip(i as int).skip(2 + (j - (i + 2)) + 2) =~= template@.skip(
                    j + 2,
                ));
            }
            i = j + 2;
        } else {
            let piece = template.substring_char(i, i + 1);
            proof {
                assert(piece@ =~= seq![template@[i as int]]);
                assert(here.skip(1) =~= template@.skip(i + 1));
            }
            out.append(piece);
            i = i + 1;
        }
    }
    proof {
        assert(template@.skip(i as int).len() == 0);
        assert(out@ + Seq::<char>::empty() =~= out@);
    }
    Ok(out)
}

/// The built-in invoice page: a compact HTML document naming every field of
/// the record, the addresses through the address helper.
pub fn default_template() -> (r: &'static str)
{
    "<!DOCTYPE html><html><head><meta charset=\"utf-8\"><title>Invoice {{invoice_number}}</title></head><body><img src=\"{{logo_url}}\" alt=\"logo\"/><h1>Invoice #{{invoice_number}}</h1><p>{{created_date}}</p><h2>{{company_name}}</h2><p>{{format_address company_address}}</p><p>{{company_email}} {{company_phone}}</p><h2>Billed to {{client_name}}</h2><p>{{format_address client_address}}</p><p>{{client_email}} {{client_phone}}</p><table><tr><th>Description</th><th>Quantity</th><th>Price</th></tr>{{items}}</table><p>Tax: {{tax}}</p><p>Total: {{total}}</p><p>{{notes}}</p></body></html>"
}

} // verus!
