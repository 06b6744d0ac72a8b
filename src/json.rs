use vstd::prelude::*;
use crate::entry::{entries_view, EntrySpec, ZipEntry};

verus! {

#[verifier::external_type_specification]
#[verifier::external_body]
pub struct ExJsonError(serde_json::Error);

/// How a character stands inside a JSON string literal: quote and backslash
/// take a backslash, five control characters take their short escapes, the
/// other control characters take `\u00` and two lower-case hex digits, and
/// every other character stands for itself.
pub open spec fn json_escaped_char(c: char) -> Seq<char> {
    if c == '"' {
        "\\\""@
    } else if c == '\\' {
        "\\\\"@
    } else if c == '\u{8}' {
        "\\b"@
    } else if c == '\t' {
        "\\t"@
    } else if c == '\n' {
        "\\n"@
    } else if c == '\u{c}' {
        "\\f"@
    } else if c == '\r' {
        "\\r"@
    } else if (c as int) < 0x20 {
        "\\u00"@ + seq!["0123456789abcdef"@[(c as int) / 16], "0123456789abcdef"@[(c as int) % 16]]
    } else {
        seq![c]
    }
}

pub open spec fn json_escaped(s: Seq<char>) -> Seq<char>
    decreases s.len(),
{
    if s.len() == 0 {
        Seq::empty()
    } else {
        json_escaped(s.drop_last()) + json_escaped_char(s.last())
    }
}

/// The JSON string literal, quotes included, that stands for the text `s`.
pub open spec fn json_quoted(s: Seq<char>) -> Seq<char> {
    "\""@ + json_escaped(s) + "\""@
}

/// Relies on `serde_json::to_string` on a `str`: the text between double
/// quotes, each character escaped as its compact formatter does. A `str` is
/// written into a `Vec`, which cannot fail, so the result is always `Ok`.
#[verifier::external_body]
fn quote_json(s: &str) -> (r: Result<String, serde_json::Error>)
    ensures
        r is Ok,
        r matches Ok(q) ==> q@ == json_quoted(s@),
{
    serde_json::to_string(s)
}

pub open spec fn bool_text(b: bool) -> Seq<char> {
    if b {
        "true"@
    } else {
        "false"@
    }
}

/// The JSON object for one entry, given the quoted form of its path.
pub open spec fn record_text(quoted_path: Seq<char>, e: EntrySpec) -> Seq<char> {
    "{\"path\":"@ + quoted_path + ",\"is_file\":"@ + bool_text(e.is_file)
        + ",\"is_encrypted\":"@ + bool_text(e.is_encrypted) + "}"@
}

/// The records of the first `n` entries, separated by commas.
pub open spec fn records_text(quoted: Seq<Seq<char>>, es: Seq<EntrySpec>, n: nat) -> Seq<char>
    decreases n,
{
    if n == 0 {
        Seq::empty()
    } else if n == 1 {
        record_text(quoted[0], es[0])
    } else {
        records_text(quoted, es, (n - 1) as nat) + ","@ + record_text(quoted[n - 1], es[n - 1])
    }
}

/// The JSON array of the entries `es`, whose paths are quoted as `quoted`.
pub open spec fn listing_text(quoted: Seq<Seq<char>>, es: Seq<EntrySpec>) -> Seq<char> {
    "["@ + records_text(quoted, es, es.len()) + "]"@
}

/// The JSON array of the entries `es`.
pub open spec fn json_listing(es: Seq<EntrySpec>) -> Seq<char> {
    listing_text(es.map_values(|e: EntrySpec| json_quoted(e.path)), es)
}

pub open spec fn strings_view(v: Seq<String>) -> Seq<Seq<char>> {
    v.map_values(|s: String| s@)
}

fn append_bool(out: &mut String, b: bool)
    ensures
        final(out)@ == old(out)@ + bool_text(b),
{
    if b {
        out.append("true");
    } else {
        out.append("false");
    }
}

/// Renders the entries as a JSON array, taking the quoted form of each path
/// from `quoted`.
pub fn render_listing(entries: &Vec<ZipEntry>, quoted: &Vec<String>) -> (r: String)
    requires
        quoted@.len() == entries@.len(),
    ensures
        r@ == listing_text(strings_view(quoted@), entries_view(entries@)),
{
    let ghost qs = strings_view(quoted@);
    let ghost es = entries_view(entries@);
    let mut out = String::from_str("[");
    let mut k: usize = 0;
    while k < entries.len()
        invariant
            k <= entries@.len(),
            quoted@.len() == entries@.len(),
            qs == strings_view(quoted@),
            es == entries_view(entries@),
            out@ == "["@ + records_text(qs, es, k as nat),
        decreases entries@.len() - k,
    {
        let ghost prev = out@;
        if k > 0 {
            out.append(",");
        }
        let e = &entries[k];
        out.append("{\"path\":");
        out.append(quoted[k].as_str());
        out.append(",\"is_file\":");
        append_bool(&mut out, e.is_file);
        out.append(",\"is_encrypted\":");
        append_bool(&mut out, e.is_encrypted);
        out.append("}");
        proof {
            let rec = record_text(qs[k as int], es[k as int]);
            if k == 0 {
                assert(out@ =~= prev + rec);
                assert(records_text(qs, es, 0) =~= Seq::<char>::empty());
                assert(prev =~= "["@);
            } else {
                assert(out@ =~= prev + ","@ + rec);
            }
            assert(records_text(qs, es, (k + 1) as nat) == (if k == 0 { rec } else {
                records_text(qs, es, k as nat) + ","@ + rec
            }));
            assert(out@ =~= "["@ + records_text(qs, es, (k + 1) as nat));
        }
        k = k + 1;
    }
    out.append("]");
    out
}

/// Renders the entries as a JSON array of records with the fields `path`,
/// `is_file` and `is_encrypted`, in order.
pub fn entries_json(entries: &Vec<ZipEntry>) -> (r: String)
    ensures
        r@ == json_listing(entries_view(entries@)),
{
    let ghost es = entries_view(entries@);
    let mut quoted: Vec<String> = Vec::new();
    let mut k: usize = 0;
    while k < entries.len()
        invariant
            k <= entries@.len(),
            es == entries_view(entries@),
            quoted@.len() == k,
            forall|j: int| 0 <= j < k ==> #[trigger] quoted@[j]@ == json_quoted(es[j].path),
        decreases entries@.len() - k,
    {
        if let Ok(q) = quote_json(entries[k].path.as_str()) {
            quoted.push(q);
        }
        k = k + 1;
    }
    let s = render_listing(entries, &quoted);
    assert(strings_view(quoted@) =~= es.map_values(|e: EntrySpec| json_quoted(e.path)));
    s
}

} // verus!
