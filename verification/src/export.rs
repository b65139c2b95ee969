//! What surrounds the PDF export: the embedded logo as a data URL, the
//! synthetic document URL that carries the rendered page to the browser, and
//! the dated output path of the written file.
use vstd::prelude::*;

use base64::Engine;

use crate::dates::{month_abbrev, spec_month_abbrev, spec_year_chars, year_string};
use crate::digits::{padded5, spec_padded5};

verus! {

/// What the standard base64 encoding of `b` reads as.
pub uninterp spec fn base64_of(b: Seq<u8>) -> Seq<char>;

/// Relies on `Engine::encode` of base64's `general_purpose::STANDARD`
/// engine: the encoding is a function of the bytes alone, four characters
/// for every three bytes begun, padded.
#[verifier::external_body]
fn base64_standard(bytes: &Vec<u8>) -> (r: String)
    ensures
        r@ == base64_of(bytes@),
        r@.len() == 4 * ((bytes@.len() + 2) / 3),
{
    base64::engine::general_purpose::STANDARD.encode(bytes.as_slice())
}

/// The data URL that embeds the logo image bytes.
pub fn logo_data_url(bytes: &Vec<u8>) -> (r: String)
    ensures
        r@ == "data:image/png;base64,"@ + base64_of(bytes@),
{
    let mut s = "data:image/png;base64,".to_owned();
    s.append(base64_standard(bytes).as_str());
    s
}

/// Whether a character passes percent-encoding unchanged.
pub open spec fn spec_url_safe(c: char) -> bool {
    ('0' <= c && c <= '9') || ('A' <= c && c <= 'Z') || ('a' <= c && c <= 'z') || c == '-' || c
        == '_' || c == '.' || c == '~'
}

/// What the percent-encoding of `s` reads as.
pub uninterp spec fn percent_encoded_of(s: Seq<char>) -> Seq<char>;

/// Relies on urlencoding::encode: the encoding depends on the characters
/// alone; every byte except alphanumerics and `-`, `_`, `.`, `~` is
/// percent-encoded, so the result holds only those characters and percent
/// signs, and text made of safe characters alone comes back unchanged.
#[verifier::external_body]
fn percent_encode(s: &str) -> (r: String)
    ensures
        r@ == percent_encoded_of(s@),
        (forall|i: int| 0 <= i < s@.len() ==> spec_url_safe(#[trigger] s@[i])) ==> r@ == s@,
        forall|i: int| 0 <= i < r@.len() ==> spec_url_safe(#[trigger] r@[i]) || r@[i] == '%',
{
    urlencoding::encode(s).into_owned()
}

/// The synthetic URL that hands the rendered page to the browser: an HTML
/// data URL around the percent-encoded document.
pub fn document_url(html: &str) -> (r: String)
    ensures
        r@ == "data:text/html,"@ + percent_encoded_of(html@),
{
    let mut s = "data:text/html,".to_owned();
    s.append(percent_encode(html).as_str());
    s
}

/// The index of the last point in `s`, or -1.
pub open spec fn spec_last_dot(s: Seq<char>) -> int
    decreases s.len(),
{
    if s.len() == 0 {
        -1
    } else if s[s.len() - 1] == '.' {
        s.len() - 1
    } else {
        spec_last_dot(s.drop_last())
    }
}

/// Whether a path ends in one of the accepted logo image extensions.
pub open spec fn spec_image_extension(s: Seq<char>) -> bool {
    let d = spec_last_dot(s);
    d >= 0 && {
        let ext = s.skip(d + 1);
        ext == "png"@ || ext == "jpeg"@ || ext == "jpg"@ || ext == "svg"@
    }
}

/// The last point stands where a backward scan stops.
proof fn lemma_last_dot_at(s: Seq<char>, m: int)
    requires
        0 <= m < s.len(),
        s[m] == '.',
        forall|k: int| m < k < s.len() ==> s[k] != '.',
    ensures
        spec_last_dot(s) == m,
    decreases s.len(),
{
    if m < s.len() - 1 {
        let d = s.drop_last();
        assert(forall|k: int| m < k < d.len() ==> #[trigger] d[k] == s[k]);
        lemma_last_dot_at(d, m);
    }
}

/// Without a point nothing is found.
proof fn lemma_last_dot_none(s: Seq<char>)
    requires
        forall|k: int| 0 <= k < s.len() ==> s[k] != '.',
    ensures
        spec_last_dot(s) == -1,
    decreases s.len(),
{
    if s.len() > 0 {
        let d = s.drop_last();
        assert(forall|k: int| 0 <= k < d.len() ==> #[trigger] d[k] == s[k]);
        lemma_last_dot_none(d);
    }
}

/// Whether a logo path carries an accepted image extension; where it comes
/// from disk, the caller still has to see that the file exists.
pub fn has_image_extension(path: &str) -> (r: bool)
    ensures
        r == spec_image_extension(path@),
{
    let n = path.unicode_len();
    let mut b = n;
    while b > 0
        invariant
            0 <= b <= n == path@.len(),
            forall|k: int| b <= k < n ==> path@[k] != '.',
        decreases b,
    {
        if path.get_char(b - 1) == '.' {
            proof {
                lemma_last_dot_at(path@, b - 1);
            }
            let ext = path.substring_char(b, n);
            proof {
                assert(ext@ =~= path@.skip(b as int));
            }
            return crate::items::str_eq(ext, "png") || crate::items::str_eq(ext, "jpeg")
                || crate::items::str_eq(ext, "jpg") || crate::items::str_eq(ext, "svg");
        }
        b = b - 1;
    }
    proof {
        lemma_last_dot_none(path@);
    }
    false
}

/// The output path of an invoice: the configured root, the year, the
/// three-letter month, then the padded invoice number with the PDF ending.
pub open spec fn spec_pdf_path(root: Seq<char>, y: int, m: int, number: int) -> Seq<char> {
    root + seq!['/'] + spec_year_chars(y) + seq!['/'] + spec_month_abbrev(m) + seq!['/']
        + spec_padded5(number) + ".pdf"@
}

/// Builds the output path of the invoice numbered `number`, dated year `y`
/// month `m`.
pub fn pdf_output_path(root: &str, y: i32, m: u8, number: u64) -> (r: String)
    requires
        1 <= m <= 12,
    ensures
        r@ == spec_pdf_path(root@, y as int, m as int, number as int),
{
    proof {
        reveal_strlit("/");
    }
    let mut s = root.to_owned();
    s.append("/");
    s.append(year_string(y).as_str());
    s.append("/");
    s.append(month_abbrev(m));
    s.append("/");
    s.append(padded5(number).as_str());
    s.append(".pdf");
    proof {
        assert("/"@ =~= seq!['/']);
        assert(s@ =~= spec_pdf_path(root@, y as int, m as int, number as int));
    }
    s
}

} // verus!
